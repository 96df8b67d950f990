//! The command palette: which tables and settings pages a search text
//! matches, and when to fall back to searching the records themselves.
use crate::lex::contains_seq;
use crate::naming::unicode_uppercase;
use crate::text::{lemma_chars_of, sbytes, str_bytes, str_to_string, string_from_range, to_lowercase, unicode_lowercase};
use vstd::prelude::*;
use vstd::string::StrSliceExecFns;
use vstd::utf8::decode_utf8;

verus! {

broadcast use vstd::utf8::encode_utf8_valid_utf8, vstd::utf8::encode_utf8_decode_utf8;

/// Does `name`, lower-cased, contain the (already lower-cased) search text?
/// An empty search matches nothing.
pub open spec fn palette_hit(query: Seq<char>, name: Seq<char>) -> bool {
    query.len() > 0 && contains_seq(sbytes(unicode_lowercase(name)), sbytes(query))
}

/// Does the search text occur in `name` once lower-cased?
fn hit(query: &str, name: &str) -> (r: bool)
    ensures
        r == palette_hit(query@, name@),
{
    let qb = str_bytes(query);
    if qb.len() == 0 {
        return false;
    }
    let low = to_lowercase(name);
    let lb = str_bytes(low.as_str());
    assert(lb@.subrange(0, lb@.len() as int) =~= lb@);
    crate::lex::range_contains(lb, 0, lb.len(), qb)
}

/// The registered tables (name, route) whose names match, in order.
pub open spec fn matching_tables(query: Seq<char>, tables: Seq<(Seq<char>, Seq<char>)>) -> Seq<(Seq<char>, Seq<char>)>
    decreases tables.len(),
{
    if tables.len() == 0 {
        seq![]
    } else if palette_hit(query, tables.last().0) {
        matching_tables(query, tables.drop_last()).push(tables.last())
    } else {
        matching_tables(query, tables.drop_last())
    }
}

/// The palette lists every table whose lower-cased name holds the search
/// text anywhere, when the search text is not empty.
pub proof fn lemma_palette_lists_every_match(
    query: Seq<char>,
    tables: Seq<(Seq<char>, Seq<char>)>,
    i: int,
    x: Seq<u8>,
    y: Seq<u8>,
)
    requires
        0 <= i < tables.len(),
        query.len() > 0,
        sbytes(unicode_lowercase(tables[i].0)) == x + sbytes(query) + y,
    ensures
        matching_tables(query, tables).contains(tables[i]),
    decreases tables.len(),
{
    let low = sbytes(unicode_lowercase(tables[i].0));
    let q = sbytes(query);
    assert(low.subrange(x.len() as int, x.len() + q.len() as int) =~= q);
    assert(contains_seq(low, q));
    if i == tables.len() - 1 {
        let r = matching_tables(query, tables);
        assert(r.last() == tables[i]);
    } else {
        let init = tables.drop_last();
        assert(init[i] == tables[i]);
        lemma_palette_lists_every_match(query, init, i, x, y);
        let r0 = matching_tables(query, init);
        let k = choose|k: int| 0 <= k < r0.len() && r0[k] == tables[i];
        let r = matching_tables(query, tables);
        assert(r[k] == tables[i]);
    }
}

/// The palette lists only tables of the registry whose lower-cased name
/// holds the non-empty search text, in registry order.
pub proof fn lemma_palette_lists_only_matches(query: Seq<char>, tables: Seq<(Seq<char>, Seq<char>)>)
    ensures
        forall|j: int|
            0 <= j < matching_tables(query, tables).len() ==> {
                let e = #[trigger] matching_tables(query, tables)[j];
                &&& tables.contains(e)
                &&& query.len() > 0
                &&& exists|x: Seq<u8>, y: Seq<u8>| sbytes(unicode_lowercase(e.0)) == x + sbytes(query) + y
            },
    decreases tables.len(),
{
    if tables.len() > 0 {
        let init = tables.drop_last();
        lemma_palette_lists_only_matches(query, init);
        let r = matching_tables(query, tables);
        let r0 = matching_tables(query, init);
        assert forall|j: int| 0 <= j < r.len() implies {
            let e = #[trigger] r[j];
            &&& tables.contains(e)
            &&& query.len() > 0
            &&& exists|x: Seq<u8>, y: Seq<u8>| sbytes(unicode_lowercase(e.0)) == x + sbytes(query) + y
        } by {
            let e = r[j];
            if j < r0.len() {
                assert(r[j] == r0[j]);
                let k = choose|k: int| 0 <= k < init.len() && init[k] == e;
                assert(tables[k] == e);
            } else {
                assert(e == tables.last());
                assert(tables[tables.len() - 1] == e);
                let low = sbytes(unicode_lowercase(e.0));
                let q = sbytes(query);
                assert(palette_hit(query, e.0));
                let i = choose|i: int| 0 <= i && i + q.len() <= low.len() && #[trigger] low.subrange(i, i + q.len()) == q;
                let x = low.subrange(0, i);
                let y = low.subrange(i + q.len(), low.len() as int);
                assert(low =~= x + q + y);
            }
        }
    }
}

/// Pairs of strings as text.
pub open spec fn pairs_view(v: Seq<(String, String)>) -> Seq<(Seq<char>, Seq<char>)> {
    v.map_values(|p: (String, String)| (p.0@, p.1@))
}

/// The registered tables (name, route) the palette lists for a lower-cased search text.
pub fn palette_tables(query: &str, tables: &Vec<(String, String)>) -> (r: Vec<(String, String)>)
    ensures
        pairs_view(r@) == matching_tables(query@, pairs_view(tables@)),
{
    let ghost tv = pairs_view(tables@);
    let mut out: Vec<(String, String)> = Vec::new();
    let mut i: usize = 0;
    while i < tables.len()
        invariant
            i <= tables@.len(),
            tv == pairs_view(tables@),
            pairs_view(out@) == matching_tables(query@, tv.take(i as int)),
        decreases tables@.len() - i,
    {
        let ghost t = tv.take(i + 1);
        assert(t.drop_last() =~= tv.take(i as int));
        assert(t.last() == (tables@[i as int].0@, tables@[i as int].1@));
        let ghost before = out@;
        if hit(query, tables[i].0.as_str()) {
            out.push((tables[i].0.clone(), tables[i].1.clone()));
            assert(pairs_view(out@) =~= pairs_view(before).push(
                (tables@[i as int].0@, tables@[i as int].1@),
            ));
        }
        assert(pairs_view(out@) =~= matching_tables(query@, t));
        i = i + 1;
    }
    assert(tv.take(tables@.len() as int) =~= tv);
    out
}

pub const METRICS_PATH: &'static str = "/admin/metrics";
pub const METRICS_LABEL: &'static str = "⚙️ System Metrics";
pub const SECURITY_PATH: &'static str = "/admin/settings/security";
pub const SECURITY_LABEL: &'static str = "🛡️ Hardening Matrix";

/// The settings pages whose label or path matches, in order.
pub open spec fn matching_settings(query: Seq<char>) -> Seq<(Seq<char>, Seq<char>)> {
    let m = if palette_hit(query, METRICS_LABEL@) || palette_hit(query, METRICS_PATH@) {
        seq![(METRICS_PATH@, METRICS_LABEL@)]
    } else {
        seq![]
    };
    if palette_hit(query, SECURITY_LABEL@) || palette_hit(query, SECURITY_PATH@) {
        m.push((SECURITY_PATH@, SECURITY_LABEL@))
    } else {
        m
    }
}

/// The settings pages (path, label) the palette lists for a lower-cased search text.
pub fn palette_settings(query: &str) -> (r: Vec<(String, String)>)
    ensures
        pairs_view(r@) == matching_settings(query@),
{
    let mut out: Vec<(String, String)> = Vec::new();
    if hit(query, METRICS_LABEL) || hit(query, METRICS_PATH) {
        out.push((str_to_string(METRICS_PATH), str_to_string(METRICS_LABEL)));
    }
    let ghost mid = out@;
    if hit(query, SECURITY_LABEL) || hit(query, SECURITY_PATH) {
        out.push((str_to_string(SECURITY_PATH), str_to_string(SECURITY_LABEL)));
        assert(pairs_view(out@) =~= pairs_view(mid).push((SECURITY_PATH@, SECURITY_LABEL@)));
    }
    assert(pairs_view(out@) =~= matching_settings(query@));
    out
}

/// The palette searches the records themselves only when neither a table
/// nor a settings page matched a non-empty search text.
pub fn needs_record_search(query: &str, tables: &Vec<(String, String)>, settings: &Vec<(String, String)>) -> (r: bool)
    ensures
        r == (tables@.len() == 0 && settings@.len() == 0 && query@.len() > 0),
{
    tables.len() == 0 && settings.len() == 0 && query.unicode_len() > 0
}

/// How the palette titles a table: its first character upper-cased, then
/// the rest, then ` Grid`.
pub open spec fn grid_title(name: Seq<char>) -> Seq<char> {
    unicode_uppercase(name[0]) + decode_utf8(sbytes(name).subrange(1, sbytes(name).len() as int))
        + " Grid"@
}

/// The palette title of a table whose name starts with a one-byte character.
pub fn grid_display_name(name: &str) -> (r: String)
    requires
        sbytes(name@).len() >= 1,
        crate::text::is_boundary(sbytes(name@), 1),
    ensures
        r@ == grid_title(name@),
{
    let b = str_bytes(name);
    proof {
        if name@.len() == 0 {
            assert(sbytes(name@) =~= Seq::<u8>::empty());
        }
    }
    let first = name.get_char(0);
    let up = crate::naming::char_to_uppercase(first);
    let rest = string_from_range(b, 1, b.len());
    proof {
        lemma_chars_of(rest@, b@.subrange(1, b@.len() as int));
    }
    let mut out = up;
    out.append(rest.as_str());
    out.append(" Grid");
    out
}

} // verus!
