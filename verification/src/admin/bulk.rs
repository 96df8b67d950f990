//! Bulk import: the JSON payload checked, each object's key reset when it
//! asks for one, SQL-style timestamps put into ISO form, and the items then
//! written in order inside one transaction that the first refusal drops.
//! The payload text is parsed into `JsonValue` by the runtime around the
//! library; these functions decide what is refused and what is written.
use crate::admin::actions::{normalize_timestamp, normalized_timestamp};
use crate::admin::list_query::{decimal, u64_text};
use crate::text::{sbytes, str_to_string};
use vstd::prelude::*;
use vstd::utf8::decode_utf8;

verus! {

/// A JSON value.  A number keeps its text and, when it is an integer that
/// fits, its `i64` value.
#[derive(Debug)]
pub enum JsonValue {
    Null,
    Bool(bool),
    Number { text: String, integer: Option<i64> },
    Str(String),
    Array(Vec<JsonValue>),
    Object(Vec<(String, JsonValue)>),
}

/// One object of a bulk import as it is written: its fields, and whether its
/// key is left for the database to assign.
#[derive(Debug)]
pub struct ImportRow {
    pub fields: Vec<(String, JsonValue)>,
    pub reset_key: bool,
}

pub const INVALID_JSON: &'static str = "Invalid structural JSON format: ";
pub const NOT_ARRAY: &'static str = "Ingestion root wrapper is required to be an explicit Array block: [ ... ]";
pub const EMPTY_IMPORT: &'static str = "Ingestion stream data collection cannot be empty";
pub const BAD_ITEM_HEAD: &'static str = "Malformatted item block encountered at position index (";
pub const BAD_ITEM_TAIL: &'static str = ")";

/// The integer 0.
pub open spec fn is_zero_number(v: JsonValue) -> bool {
    v matches JsonValue::Number { integer, .. } && integer == Some(0i64)
}

/// A field's value as written: a string put through `normalized_timestamp`,
/// anything else unchanged.
pub open spec fn field_normalized(orig: JsonValue, out: JsonValue) -> bool {
    match orig {
        JsonValue::Str(s) => out matches JsonValue::Str(t) && sbytes(t@) == normalized_timestamp(
            sbytes(s@),
        ),
        _ => out == orig,
    }
}

/// The position of the first field named `id`.
pub open spec fn first_id(fs: Seq<(String, JsonValue)>) -> Option<int>
    decreases fs.len(),
{
    if fs.len() == 0 {
        None
    } else {
        match first_id(fs.drop_last()) {
            Some(i) => Some(i),
            None => if fs.last().0@ == "id"@ {
                Some(fs.len() - 1)
            } else {
                None
            },
        }
    }
}

/// The key is reset when the object has no `id`, or its first `id` is 0.
pub open spec fn reset_spec(fs: Seq<(String, JsonValue)>) -> bool {
    match first_id(fs) {
        Some(i) => is_zero_number(fs[i].1),
        None => true,
    }
}

/// The row written for an object with fields `fs`: every field in order,
/// normalized, then `"id": 0` when there was no `id`.
pub open spec fn row_from(fs: Seq<(String, JsonValue)>, row: ImportRow) -> bool {
    let out = row.fields@;
    &&& out.len() == fs.len() + (if first_id(fs) is Some { 0int } else { 1int })
    &&& forall|i: int|
        0 <= i < fs.len() ==> (#[trigger] out[i]).0@ == fs[i].0@ && field_normalized(fs[i].1, out[i].1)
    &&& first_id(fs) is None ==> out[fs.len() as int].0@ == "id"@ && (out[fs.len() as int].1 matches JsonValue::Number {
        text,
        integer,
    } && text@ == "0"@ && integer == Some(0i64))
    &&& row.reset_key == reset_spec(fs)
}

/// A field's value as written (see `field_normalized`).
fn normalize_field(v: JsonValue) -> (r: JsonValue)
    ensures
        field_normalized(v, r),
{
    match v {
        JsonValue::Str(s) => JsonValue::Str(normalize_timestamp(s.as_str())),
        other => other,
    }
}

/// The row written for one object (see `row_from`).
pub fn import_row(fields: Vec<(String, JsonValue)>) -> (r: ImportRow)
    ensures
        row_from(fields@, r),
{
    let ghost fs = fields@;
    let n = fields.len();
    let mut rest = fields;
    let mut out: Vec<(String, JsonValue)> = Vec::new();
    let mut seen_id = false;
    let mut reset = true;
    let mut k: usize = 0;
    while k < n
        invariant
            n == fs.len(),
            k <= n,
            rest@ == fs.skip(k as int),
            out@.len() == k,
            forall|i: int|
                0 <= i < k ==> (#[trigger] out@[i]).0@ == fs[i].0@ && field_normalized(fs[i].1, out@[i].1),
            seen_id == first_id(fs.take(k as int)) is Some,
            !seen_id ==> reset,
            seen_id ==> reset == is_zero_number(fs[first_id(fs.take(k as int))->0].1),
            first_id(fs.take(k as int)) matches Some(j) ==> 0 <= j < k,
        decreases n - k,
    {
        let ghost before = rest@;
        let (key, value) = rest.remove(0);
        assert(before[0] == fs[k as int]);
        assert(rest@ =~= fs.skip(k + 1));
        proof {
            assert(fs.take(k + 1).drop_last() =~= fs.take(k as int));
            assert(fs.take(k + 1).last() == fs[k as int]);
        }
        if !seen_id && crate::admin::auth::same_text(key.as_str(), "id") {
            seen_id = true;
            reset = match &value {
                JsonValue::Number { integer, .. } => match integer {
                    Some(x) => *x == 0,
                    None => false,
                },
                _ => false,
            };
        }
        let nv = normalize_field(value);
        out.push((key, nv));
        k = k + 1;
    }
    assert(fs.take(n as int) =~= fs);
    if !seen_id {
        let zero = JsonValue::Number { text: str_to_string("0"), integer: Some(0) };
        out.push((str_to_string("id"), zero));
    }
    ImportRow { fields: out, reset_key: reset }
}

/// The message naming a bad item.
fn bad_item_message(idx: usize) -> (r: String)
    ensures
        r@ == BAD_ITEM_HEAD@ + decode_utf8(decimal(idx as nat)) + BAD_ITEM_TAIL@,
{
    let n = u64_text(idx as u64);
    proof {
        crate::text::lemma_chars_of(n@, decimal(idx as nat));
    }
    let mut m = str_to_string(BAD_ITEM_HEAD);
    m.append(n.as_str());
    m.append(BAD_ITEM_TAIL);
    m
}

/// One item of a bulk import: the row an object is written as, or an item
/// that is not an object (refused when the import reaches it).
#[derive(Debug)]
pub enum ImportItem {
    Row(ImportRow),
    NotObject,
}

/// The items of a bulk import, from the payload as parsed (or the parser's
/// error text).  Refused before any item is written: a payload that is not
/// JSON, one that is not an array, and an empty array.  Otherwise one item
/// per array element, in order: an object as its row (see `row_from`),
/// anything else as `NotObject`, which the import refuses only when it
/// reaches that position (see `batch_step`), after the rows before it.
pub fn bulk_import_rows(parsed: Result<JsonValue, String>) -> (r: Result<Vec<ImportItem>, String>)
    ensures
        match parsed {
            Err(e) => r matches Err(m) && m@ == INVALID_JSON@ + e@,
            Ok(JsonValue::Array(items)) => if items@.len() == 0 {
                r matches Err(m) && m@ == EMPTY_IMPORT@
            } else {
                r matches Ok(out) && out@.len() == items@.len() && forall|i: int|
                    0 <= i < items@.len() ==> match items@[i] {
                        JsonValue::Object(fs) => (#[trigger] out@[i]) matches ImportItem::Row(row)
                            && row_from(fs@, row),
                        _ => out@[i] is NotObject,
                    }
            },
            Ok(_) => r matches Err(m) && m@ == NOT_ARRAY@,
        },
{
    let ghost orig = parsed;
    let v = match parsed {
        Err(e) => {
            let mut m = str_to_string(INVALID_JSON);
            m.append(e.as_str());
            return Err(m);
        },
        Ok(v) => v,
    };
    let items = match v {
        JsonValue::Array(items) => items,
        _ => return Err(str_to_string(NOT_ARRAY)),
    };
    if items.len() == 0 {
        return Err(str_to_string(EMPTY_IMPORT));
    }
    let ghost all = items@;
    let n = items.len();
    let mut rest = items;
    let mut out: Vec<ImportItem> = Vec::new();
    let mut k: usize = 0;
    assert(all.skip(0) =~= all);
    while k < n
        invariant
            n == all.len(),
            k <= n,
            rest@ == all.skip(k as int),
            orig == parsed,
            orig matches Ok(JsonValue::Array(x)) && x@ == all,
            out@.len() == k,
            forall|i: int|
                0 <= i < k ==> match all[i] {
                    JsonValue::Object(fs) => (#[trigger] out@[i]) matches ImportItem::Row(row)
                        && row_from(fs@, row),
                    _ => out@[i] is NotObject,
                },
        decreases n - k,
    {
        let ghost before = rest@;
        let item = rest.remove(0);
        assert(before[0] == all[k as int]);
        assert(rest@ =~= all.skip(k + 1));
        match item {
            JsonValue::Object(fields) => {
                let row = import_row(fields);
                out.push(ImportItem::Row(row));
            },
            _ => {
                out.push(ImportItem::NotObject);
            },
        }
        k = k + 1;
    }
    Ok(out)
}

/// What happened to one row of a bulk import inside the transaction.
pub enum RowOutcome {
    /// The item is not an object.
    NotObject,
    /// The row was inserted.
    Inserted,
    /// The row did not fit the model (the database layer's message).
    HydrationFailed(String),
    /// The database refused the row (its message).
    InsertFailed(String),
}

/// What the import does next inside its transaction.
pub enum BatchStep {
    /// Go on with the next row.
    Next,
    /// Drop the transaction, so that no row of the batch is kept, and answer
    /// with this error.
    Abort(String),
    /// Commit the transaction: all `n` rows were inserted.
    Commit(u64),
}

pub const HYDRATION_HEAD: &'static str = "Row hydration mapping constraints rejected at row index ";
pub const INSERT_HEAD: &'static str = "Database schema violation encountered at row index ";

/// The message naming the row and the database layer's reason.
fn row_failure(head: &str, idx: usize, reason: &str) -> (r: String)
    ensures
        r@ == head@ + decode_utf8(decimal(idx as nat)) + ": "@ + reason@,
{
    let n = u64_text(idx as u64);
    proof {
        crate::text::lemma_chars_of(n@, decimal(idx as nat));
    }
    let mut m = str_to_string(head);
    m.append(n.as_str());
    m.append(": ");
    m.append(reason);
    m
}

/// The step after item `idx` of `total`, the items taken in order: an item
/// that is not an object, or a row that does not fit the model or that the
/// database refuses, drops the whole batch and names the position; an
/// insert goes on, or commits after the last row.
pub fn batch_step(idx: usize, total: usize, outcome: RowOutcome) -> (r: BatchStep)
    requires
        idx < total,
    ensures
        match outcome {
            RowOutcome::NotObject => r matches BatchStep::Abort(m) && m@ == BAD_ITEM_HEAD@
                + decode_utf8(decimal(idx as nat)) + BAD_ITEM_TAIL@,
            RowOutcome::Inserted => if idx + 1 == total {
                r matches BatchStep::Commit(n) && n == total
            } else {
                r is Next
            },
            RowOutcome::HydrationFailed(e) => r matches BatchStep::Abort(m) && m@ == HYDRATION_HEAD@
                + decode_utf8(decimal(idx as nat)) + ": "@ + e@,
            RowOutcome::InsertFailed(e) => r matches BatchStep::Abort(m) && m@ == INSERT_HEAD@
                + decode_utf8(decimal(idx as nat)) + ": "@ + e@,
        },
{
    match outcome {
        RowOutcome::NotObject => BatchStep::Abort(bad_item_message(idx)),
        RowOutcome::Inserted => if idx + 1 == total {
            BatchStep::Commit(total as u64)
        } else {
            BatchStep::Next
        },
        RowOutcome::HydrationFailed(e) => BatchStep::Abort(row_failure(HYDRATION_HEAD, idx, e.as_str())),
        RowOutcome::InsertFailed(e) => BatchStep::Abort(row_failure(INSERT_HEAD, idx, e.as_str())),
    }
}

} // verus!
