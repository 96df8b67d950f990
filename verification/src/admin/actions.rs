//! Requests that act on records: custom actions, cell edits, deletions and
//! bulk imports.  This module reads what such a request asks for and words
//! the notices sent back; the database work is the caller's.
use crate::admin::list_query::{decimal, u64_text};
use crate::lex::{join, split_on, split_ranges, starts_with, trim, trim_bounds};
use crate::multimap::MultiMap;
use crate::security::{url_decoded_or_raw, Sanitizer, UntrustedString};
use crate::text::{lemma_chars_of, push_char, sbytes, str_bytes, str_to_string, string_bytes, string_from_range};
use vstd::prelude::*;
use vstd::string::StrSliceExecFns;
use vstd::utf8::{decode_utf8, valid_utf8};

verus! {

broadcast use vstd::utf8::encode_utf8_valid_utf8, vstd::utf8::encode_utf8_decode_utf8;

// ------------------------------------------------------------------
// Toast texts
// ------------------------------------------------------------------
/// Text with each double quote backslash-escaped.
pub open spec fn escape_quotes(s: Seq<char>) -> Seq<char>
    decreases s.len(),
{
    if s.len() == 0 {
        seq![]
    } else if s.last() == '"' {
        escape_quotes(s.drop_last()) + seq!['\\', '"']
    } else {
        escape_quotes(s.drop_last()).push(s.last())
    }
}

/// Appends `s` with its double quotes backslash-escaped.
fn push_escaped(out: &mut String, s: &str)
    ensures
        final(out)@ == old(out)@ + escape_quotes(s@),
{
    let ghost start = out@;
    let n = s.unicode_len();
    let mut i: usize = 0;
    while i < n
        invariant
            n == s@.len(),
            i <= n,
            out@ == start + escape_quotes(s@.take(i as int)),
        decreases n - i,
    {
        let c = s.get_char(i);
        proof {
            let t = s@.take(i + 1);
            assert(t.drop_last() =~= s@.take(i as int));
            assert(t.last() == c);
        }
        if c == '"' {
            push_char(out, '\\');
            push_char(out, '"');
        } else {
            push_char(out, c);
        }
        assert(out@ =~= start + escape_quotes(s@.take(i + 1)));
        i = i + 1;
    }
    assert(s@.take(n as int) =~= s@);
}

pub const TOAST_HEAD: &'static str = "{\"showToast\": {\"message\": \"";
pub const TOAST_SUCCESS_TAIL: &'static str = "\", \"type\": \"success\"}}";

/// The `hx-trigger` value of a success toast showing `msg` (double quotes escaped).
pub open spec fn success_toast(msg: Seq<char>) -> Seq<char> {
    TOAST_HEAD@ + escape_quotes(msg) + TOAST_SUCCESS_TAIL@
}

/// Text with everything between `<` and `>` (the brackets too) taken out.
pub open spec fn strip_tags_fold(s: Seq<char>) -> (Seq<char>, bool)
    decreases s.len(),
{
    if s.len() == 0 {
        (seq![], false)
    } else {
        let (out, in_tag) = strip_tags_fold(s.drop_last());
        let c = s.last();
        if c == '<' {
            (out, true)
        } else if c == '>' {
            (out, false)
        } else if in_tag {
            (out, in_tag)
        } else {
            (out.push(c), in_tag)
        }
    }
}

/// The text of a body with its tags stripped and surrounding white space trimmed.
pub open spec fn plain_message(s: Seq<char>) -> Seq<char> {
    decode_utf8(trim(sbytes(strip_tags_fold(s).0)))
}

/// `Action completed successfully`
pub const ACTION_DONE: &'static str = "Action completed successfully";

/// The toast shown after a custom action: the action's text body (or
/// `Action completed successfully` when it has none) with tags stripped and
/// white space trimmed.
pub open spec fn action_toast(body: Option<Seq<char>>) -> Seq<char> {
    success_toast(
        plain_message(
            match body {
                Some(b) => b,
                None => ACTION_DONE@,
            },
        ),
    )
}

/// Strips the tags of a body and trims it.
fn plain_message_of(s: &str) -> (r: String)
    ensures
        r@ == plain_message(s@),
{
    let n = s.unicode_len();
    let mut out = String::new();
    let mut in_tag = false;
    let mut i: usize = 0;
    while i < n
        invariant
            n == s@.len(),
            i <= n,
            (out@, in_tag) == strip_tags_fold(s@.take(i as int)),
        decreases n - i,
    {
        let c = s.get_char(i);
        proof {
            let t = s@.take(i + 1);
            assert(t.drop_last() =~= s@.take(i as int));
            assert(t.last() == c);
        }
        if c == '<' {
            in_tag = true;
        } else if c == '>' {
            in_tag = false;
        } else if !in_tag {
            push_char(&mut out, c);
        }
        i = i + 1;
    }
    assert(s@.take(n as int) =~= s@);
    let b = string_bytes(&out);
    let (lo, hi) = trim_bounds(b, 0, b.len());
    assert(b@.subrange(0, b@.len() as int) =~= b@);
    let t = string_from_range(b, lo, hi);
    proof {
        lemma_chars_of(t@, trim(b@));
    }
    t
}

/// The `hx-trigger` value shown after a custom action ran, from the text of
/// its response body (`None` when the body is not text).
pub fn action_toast_trigger(body: Option<&str>) -> (r: String)
    ensures
        r@ == action_toast(
            match body {
                Some(b) => Some(b@),
                None => None,
            },
        ),
{
    let text = match body {
        Some(b) => b,
        None => ACTION_DONE,
    };
    let msg = plain_message_of(text);
    let mut out = str_to_string(TOAST_HEAD);
    push_escaped(&mut out, msg.as_str());
    out.append(TOAST_SUCCESS_TAIL);
    out
}

// ------------------------------------------------------------------
// Custom actions
// ------------------------------------------------------------------
/// `/admin/`
pub open spec fn admin_dir() -> Seq<u8> {
    seq!['/' as u8, 'a' as u8, 'd' as u8, 'm' as u8, 'i' as u8, 'n' as u8, '/' as u8]
}

/// `str::trim_start_matches("/admin/")`: every leading `/admin/` removed.
pub open spec fn trim_admin_dirs(b: Seq<u8>) -> Seq<u8>
    decreases b.len(),
{
    if starts_with(b, admin_dir()) {
        trim_admin_dirs(b.subrange(7, b.len() as int))
    } else {
        b
    }
}

/// `Invalid action URL format`
pub const BAD_ACTION_URL: &'static str = "Invalid action URL format";

/// What a custom-action URL (`/admin/<table>/action/<name>` or
/// `/admin/<table>/bulk-action/<name>`) names: the table and the action (the
/// route's `action_name` parameter when there is one, else the third piece of
/// the path); refused when the path has fewer than three pieces.
pub open spec fn action_target_of(uri: Seq<u8>, param: Option<Seq<u8>>) -> Result<(Seq<u8>, Seq<u8>), Seq<char>> {
    let parts = split_on(trim_admin_dirs(uri), 47);
    if parts.len() < 3 {
        Err(BAD_ACTION_URL@)
    } else {
        Ok(
            (
                parts[0],
                match param {
                    Some(p) => p,
                    None => parts[2],
                },
            ),
        )
    }
}

/// The response to a custom action, made from the action's own response:
/// its status and headers kept, a success toast from its body's text added
/// (see `action_toast`), and its body emptied.
pub fn action_result_response(res: crate::http::response::Response) -> (r: crate::http::response::Response)
    ensures
        r.status == res.status,
        r.body@ == Seq::<char>::empty(),
        r.headers@.len() == res.headers@.len() + 1,
        r.headers@.drop_last() == res.headers@,
        r.headers@.last().0@ == "hx-trigger"@,
        r.headers@.last().1@ == action_toast(Some(res.body@)),
{
    let trigger = action_toast_trigger(Some(res.body.as_str()));
    let mut headers = res.headers;
    let ghost before = headers@;
    headers.push((str_to_string("hx-trigger"), trigger));
    assert(headers@.drop_last() =~= before);
    proof {
        reveal_strlit("");
    }
    crate::http::response::Response { status: res.status, body: Sanitizer::trust(""), headers }
}

/// Reads the table and action a custom-action request names.
pub fn action_target(uri: &str, action_param: Option<&str>) -> (r: Result<(String, String), String>)
    ensures
        match (
            r,
            action_target_of(
                sbytes(uri@),
                match action_param {
                    Some(p) => Some(sbytes(p@)),
                    None => None,
                },
            ),
        ) {
            (Ok((t, a)), Ok((t2, a2))) => sbytes(t@) == t2 && sbytes(a@) == a2,
            (Err(e), Err(f)) => e@ == f,
            _ => false,
        },
{
    let b = str_bytes(uri);
    let pa: [u8; 7] = ['/' as u8, 'a' as u8, 'd' as u8, 'm' as u8, 'i' as u8, 'n' as u8, '/' as u8];
    let p: &[u8] = &pa;
    assert(p@ == admin_dir());
    let mut start: usize = 0;
    assert(b@.subrange(0, b@.len() as int) =~= b@);
    while b.len() - start >= 7 && crate::lex::range_starts_with(b, start, b.len(), p)
        invariant
            start <= b@.len(),
            valid_utf8(b@),
            p@ == admin_dir(),
            trim_admin_dirs(b@) == trim_admin_dirs(b@.subrange(start as int, b@.len() as int)),
            crate::text::is_boundary(b@, start as int),
        decreases b@.len() - start,
    {
        proof {
            let w = b@.subrange(start as int, b@.len() as int);
            assert(w.subrange(7, w.len() as int) =~= b@.subrange(start + 7, b@.len() as int));
            assert(w.subrange(0, 7)[6] == 47u8);
            crate::lex::lemma_ascii_boundaries_pub(b@, start + 6);
        }
        start = start + 7;
    }
    proof {
        let w = b@.subrange(start as int, b@.len() as int);
        if b@.len() - start < 7 {
            assert(!starts_with(w, admin_dir()));
        }
    }
    let ranges = split_ranges(b, start, b.len(), 47);
    if ranges.len() < 3 {
        return Err(str_to_string(BAD_ACTION_URL));
    }
    proof {
        assert(crate::text::is_boundary(b@, b@.len() as int));
    }
    let (t0, t1) = ranges[0];
    let table = string_from_range(b, t0, t1);
    let action = match action_param {
        Some(a) => str_to_string(a),
        None => {
            let (a0, a1) = ranges[2];
            string_from_range(b, a0, a1)
        },
    };
    Ok((table, action))
}

// ------------------------------------------------------------------
// Cell edits, deletions, bulk requests
// ------------------------------------------------------------------
/// The first value of a form field, as text.
pub open spec fn first_field(m: Map<Seq<char>, Seq<Seq<char>>>, k: Seq<char>) -> Option<Seq<char>> {
    if m.contains_key(k) && m[k].len() > 0 {
        Some(m[k][0])
    } else {
        None
    }
}

/// The first value under `key`, as it came.
fn first_field_of(fields: &MultiMap<UntrustedString>, key: &str) -> (r: Option<String>)
    requires
        fields.wf(),
    ensures
        match r {
            Some(v) => first_field(fields@, key@) == Some(v@),
            None => first_field(fields@, key@) is None,
        },
{
    match fields.get(key) {
        Some(vals) => {
            assert(vals@.map_values(|x: UntrustedString| x@)[0] == vals@[0]@);
            Some(str_to_string(vals[0].as_str()))
        },
        None => None,
    }
}

/// A cell edit: the record's id as sent, the column (percent-decoded) and
/// the new value (percent-decoded).
pub struct CellUpdate {
    pub id: String,
    pub column: String,
    pub value: String,
}

/// Text percent-decoded, or as it came.
pub open spec fn url_text(v: Seq<char>) -> Seq<char> {
    decode_utf8(url_decoded_or_raw(sbytes(v)))
}

/// What a cell-edit form asks for: the `id`, the `column`, and the value
/// sent under the column's (raw) name; each missing piece has its refusal.
pub open spec fn cell_update_of(m: Map<Seq<char>, Seq<Seq<char>>>) -> Result<(Seq<char>, Seq<char>, Seq<char>), Seq<char>> {
    match first_field(m, "id"@) {
        None => Err("Missing record ID"@),
        Some(id) => match first_field(m, "column"@) {
            None => Err("Missing targeted column"@),
            Some(col) => match first_field(m, col) {
                None => Err("Missing field update payload"@),
                Some(v) => Ok((id, url_text(col), url_text(v))),
            },
        },
    }
}

/// Decodes a URL component into text.
fn url_text_of(v: &str) -> (r: String)
    ensures
        r@ == url_text(v@),
{
    let d = Sanitizer::url_decode(v);
    proof {
        lemma_chars_of(d@, url_decoded_or_raw(sbytes(v@)));
    }
    d
}

impl CellUpdate {
    /// Reads a cell-edit form.
    pub fn from_form(fields: &MultiMap<UntrustedString>) -> (r: Result<CellUpdate, String>)
        requires
            fields.wf(),
        ensures
            match (r, cell_update_of(fields@)) {
                (Ok(u), Ok(v)) => u.id@ == v.0 && u.column@ == v.1 && u.value@ == v.2,
                (Err(e), Err(f)) => e@ == f,
                _ => false,
            },
    {
        let id = match first_field_of(fields, "id") {
            Some(id) => id,
            None => {
                return Err(str_to_string("Missing record ID"));
            },
        };
        let raw_column = match first_field_of(fields, "column") {
            Some(c) => c,
            None => {
                return Err(str_to_string("Missing targeted column"));
            },
        };
        let raw_value = match first_field_of(fields, raw_column.as_str()) {
            Some(v) => v,
            None => {
                return Err(str_to_string("Missing field update payload"));
            },
        };
        Ok(CellUpdate { id, column: url_text_of(raw_column.as_str()), value: url_text_of(raw_value.as_str()) })
    }
}

/// The `hx-vals` of an editable cell: `{"id": "<id>", "column": "<column>", "table_to_modify": "<table>"}`.
pub open spec fn cell_vals(id: Seq<char>, column: Seq<char>, table: Seq<char>) -> Seq<char> {
    "{\"id\": \""@ + id + "\", \"column\": \""@ + column + "\", \"table_to_modify\": \""@ + table
        + "\"}"@
}

/// The `hx-vals` of an editable cell.
pub fn cell_hx_vals(id: &str, column: &str, table: &str) -> (r: String)
    ensures
        r@ == cell_vals(id@, column@, table@),
{
    let mut out = str_to_string("{\"id\": \"");
    out.append(id);
    out.append("\", \"column\": \"");
    out.append(column);
    out.append("\", \"table_to_modify\": \"");
    out.append(table);
    out.append("\"}");
    out
}

/// The record a delete request names: the form's `id`, else the query's `id`.
pub open spec fn delete_target_of(form: Map<Seq<char>, Seq<Seq<char>>>, query: Map<Seq<char>, Seq<Seq<char>>>) -> Result<Seq<char>, Seq<char>> {
    match first_field(form, "id"@) {
        Some(id) => Ok(id),
        None => match first_field(query, "id"@) {
            Some(id) => Ok(id),
            None => Err("Missing record target ID"@),
        },
    }
}

/// Reads the record a delete request names.
pub fn delete_target(form: &MultiMap<UntrustedString>, query: &MultiMap<UntrustedString>) -> (r: Result<String, String>)
    requires
        form.wf(),
        query.wf(),
    ensures
        match (r, delete_target_of(form@, query@)) {
            (Ok(a), Ok(b)) => a@ == b,
            (Err(e), Err(f)) => e@ == f,
            _ => false,
        },
{
    match first_field_of(form, "id") {
        Some(id) => Ok(id),
        None => match first_field_of(query, "id") {
            Some(id) => Ok(id),
            None => Err(str_to_string("Missing record target ID")),
        },
    }
}

/// The non-empty pieces of a comma-separated list.
pub open spec fn nonempty_pieces(ps: Seq<Seq<u8>>) -> Seq<Seq<u8>>
    decreases ps.len(),
{
    if ps.len() == 0 {
        seq![]
    } else if ps.last().len() == 0 {
        nonempty_pieces(ps.drop_last())
    } else {
        nonempty_pieces(ps.drop_last()).push(ps.last())
    }
}

/// The ids a bulk delete asks for: the `ids` field, percent-decoded, split
/// on commas, empty pieces dropped; refused when the field is missing or
/// names no id.
pub open spec fn bulk_ids_of(m: Map<Seq<char>, Seq<Seq<char>>>) -> Result<Seq<Seq<u8>>, Seq<char>> {
    match first_field(m, "ids"@) {
        None => Err("Missing 'ids' field"@),
        Some(raw) => {
            let ids = nonempty_pieces(split_on(url_decoded_or_raw(sbytes(raw)), 44));
            if ids.len() == 0 {
                Err("No IDs provided"@)
            } else {
                Ok(ids)
            }
        },
    }
}

/// The non-empty pieces of `b` between occurrences of the ASCII byte `c`.
fn nonempty_pieces_of(b: &[u8], c: u8) -> (r: Vec<String>)
    requires
        valid_utf8(b@),
        c < 128,
    ensures
        r@.map_values(|s: String| sbytes(s@)) == nonempty_pieces(split_on(b@, c)),
{
    let ranges = split_ranges(b, 0, b.len(), c);
    assert(b@.subrange(0, b@.len() as int) =~= b@);
    let ghost pieces = split_on(b@, c);
    let mut out: Vec<String> = Vec::new();
    let mut i: usize = 0;
    proof {
        assert(crate::text::is_boundary(b@, 0));
        assert(crate::text::is_boundary(b@, b@.len() as int));
    }
    while i < ranges.len()
        invariant
            i <= ranges@.len(),
            crate::lex::range_views(b@, ranges@) == pieces,
            crate::lex::ranges_within(b@, ranges@, 0, b@.len() as int),
            valid_utf8(b@),
            crate::text::is_boundary(b@, 0),
            crate::text::is_boundary(b@, b@.len() as int),
            out@.map_values(|s: String| sbytes(s@)) == nonempty_pieces(pieces.take(i as int)),
        decreases ranges@.len() - i,
    {
        let (lo, hi) = ranges[i];
        let ghost t = pieces.take(i + 1);
        assert(t.drop_last() =~= pieces.take(i as int));
        assert(t.last() == b@.subrange(lo as int, hi as int));
        if lo < hi {
            let ghost before = out@;
            out.push(string_from_range(b, lo, hi));
            assert(out@.map_values(|s: String| sbytes(s@)) =~= before.map_values(
                |s: String| sbytes(s@),
            ).push(b@.subrange(lo as int, hi as int)));
        } else {
            assert(b@.subrange(lo as int, hi as int).len() == 0);
        }
        i = i + 1;
    }
    assert(pieces.take(ranges@.len() as int) =~= pieces);
    out
}

/// Reads the ids of a bulk delete (still as text; the caller reads them as ids).
pub fn bulk_delete_ids(fields: &MultiMap<UntrustedString>) -> (r: Result<Vec<String>, String>)
    requires
        fields.wf(),
    ensures
        match (r, bulk_ids_of(fields@)) {
            (Ok(v), Ok(w)) => v@.map_values(|s: String| sbytes(s@)) == w,
            (Err(e), Err(f)) => e@ == f,
            _ => false,
        },
{
    let raw = match first_field_of(fields, "ids") {
        Some(r) => r,
        None => {
            return Err(str_to_string("Missing 'ids' field"));
        },
    };
    let decoded = Sanitizer::url_decode(raw.as_str());
    let out = nonempty_pieces_of(string_bytes(&decoded), 44);
    if out.len() == 0 {
        return Err(str_to_string("No IDs provided"));
    }
    Ok(out)
}

/// The texts joined by `sep`.
pub open spec fn join_texts(parts: Seq<Seq<char>>, sep: Seq<char>) -> Seq<char>
    decreases parts.len(),
{
    if parts.len() == 0 {
        seq![]
    } else if parts.len() == 1 {
        parts[0]
    } else {
        join_texts(parts.drop_last(), sep) + sep + parts.last()
    }
}

/// The notice after a bulk delete: nothing when every deletion went
/// through, else `Some deletions failed: ` and the errors joined by `; `.
pub fn bulk_delete_report(errors: &Vec<String>) -> (r: Option<String>)
    ensures
        match r {
            None => errors@.len() == 0,
            Some(m) => errors@.len() > 0 && m@ == "Some deletions failed: "@ + join_texts(
                errors@.map_values(|s: String| s@),
                "; "@,
            ),
        },
{
    if errors.len() == 0 {
        return None;
    }
    let ghost ev = errors@.map_values(|s: String| s@);
    let mut out = str_to_string("Some deletions failed: ");
    let ghost start = out@;
    let mut i: usize = 0;
    while i < errors.len()
        invariant
            i <= errors@.len(),
            ev == errors@.map_values(|s: String| s@),
            out@ == start + join_texts(ev.take(i as int), "; "@),
        decreases errors@.len() - i,
    {
        if i > 0 {
            out.append("; ");
        }
        out.append(errors[i].as_str());
        proof {
            let t = ev.take(i + 1);
            assert(t.drop_last() =~= ev.take(i as int));
            if i == 0 {
                assert(ev.take(0).len() == 0);
            }
            assert(out@ =~= start + join_texts(t, "; "@));
        }
        i = i + 1;
    }
    assert(ev.take(errors@.len() as int) =~= ev);
    Some(out)
}

/// The JSON text of a bulk import: the `bulk_json` field, percent-decoded.
pub fn bulk_import_payload(fields: &MultiMap<UntrustedString>) -> (r: Result<String, String>)
    requires
        fields.wf(),
    ensures
        match (r, first_field(fields@, "bulk_json"@)) {
            (Ok(p), Some(raw)) => p@ == url_text(raw),
            (Err(e), None) => e@ == "Missing key field 'bulk_json' inside the request body payload"@,
            _ => false,
        },
{
    match first_field_of(fields, "bulk_json") {
        Some(raw) => Ok(url_text_of(raw.as_str())),
        None => Err(str_to_string("Missing key field 'bulk_json' inside the request body payload")),
    }
}

/// A value that looks like an SQL timestamp (`YYYY-MM-DD HH:MM:SS`: 19 bytes
/// or more with `-` at 4 and 7 and a space at 10) gets every space turned
/// into `T`; other values stay.
pub open spec fn normalized_timestamp(b: Seq<u8>) -> Seq<u8> {
    if b.len() >= 19 && b[4] == 45 && b[7] == 45 && b[10] == 32 {
        crate::lex::replace_byte(b, 32, seq![84u8])
    } else {
        b
    }
}

/// Turns an SQL-style timestamp into ISO-8601 form (see `normalized_timestamp`).
pub fn normalize_timestamp(s: &str) -> (r: String)
    ensures
        sbytes(r@) == normalized_timestamp(sbytes(s@)),
{
    let b = str_bytes(s);
    if b.len() >= 19 && b[4] == 45 && b[7] == 45 && b[10] == 32 {
        let ranges = split_ranges(b, 0, b.len(), 32);
        let ta: [u8; 1] = [84];
        let t: &[u8] = &ta;
        let mut out: Vec<u8> = Vec::new();
        proof {
            assert(b@.subrange(0, b@.len() as int) =~= b@);
            crate::text::lemma_ascii_valid(out@);
            crate::text::lemma_ascii_valid(t@);
            assert(crate::text::is_boundary(b@, 0));
            assert(crate::text::is_boundary(b@, b@.len() as int));
        }
        assert(t@ == seq![84u8]);
        crate::lex::append_joined(&mut out, b, &ranges, t, 0, b.len());
        assert(out@ =~= join(split_on(b@, 32), seq![84u8]));
        return crate::text::string_from_valid(out);
    }
    str_to_string(s)
}

pub const IMPORT_HEAD: &'static str = "{\"showToast\": {\"message\": \"Successfully ingested ";
pub const IMPORT_MIDDLE: &'static str = " rows into ";
pub const IMPORT_TAIL: &'static str = "!\", \"type\": \"success\"}}";

/// The toast after a bulk import of `count` rows into `table`.
pub fn bulk_import_toast(count: u64, table: &str) -> (r: String)
    ensures
        r@ == IMPORT_HEAD@ + decode_utf8(decimal(count as nat)) + IMPORT_MIDDLE@ + table@ + IMPORT_TAIL@,
{
    let n = u64_text(count);
    proof {
        lemma_chars_of(n@, decimal(count as nat));
    }
    let mut out = str_to_string(IMPORT_HEAD);
    out.append(n.as_str());
    out.append(IMPORT_MIDDLE);
    out.append(table);
    out.append(IMPORT_TAIL);
    out
}

} // verus!
