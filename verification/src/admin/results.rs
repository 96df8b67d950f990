//! Reading the result grid of a free-form query: which column a header
//! names, and which headers carry the record id.
use crate::text::{has_byte, lemma_chars_of, sbytes, str_bytes, string_from_range, to_lowercase, unicode_lowercase};
use crate::admin::foreign_key::{grid_cell, grid_cell_of, GridCell, ModelSchema};
use crate::admin::panel::AdminColumnPlan;
use vstd::prelude::*;
use vstd::utf8::decode_utf8;

verus! {

broadcast use vstd::utf8::encode_utf8_valid_utf8, vstd::utf8::encode_utf8_decode_utf8;

/// The bytes after the last `.` of a header (all of it when it has none):
/// `users.id` names the column `id`.
pub open spec fn column_part(b: Seq<u8>) -> Seq<u8>
    decreases b.len(),
{
    if b.len() > 0 && b.last() == 46 {
        seq![]
    } else if b.len() > 0 && has_byte(b.drop_last(), 46) {
        column_part(b.drop_last()).push(b.last())
    } else {
        b
    }
}

/// The column a header of the result grid names.
pub fn short_column_name(header: &str) -> (r: String)
    ensures
        sbytes(r@) == column_part(sbytes(header@)),
{
    let b = str_bytes(header);
    let n = b.len();
    let mut i = n;
    assert(b@.subrange(0, n as int) =~= b@);
    assert(b@.subrange(n as int, n as int) =~= Seq::<u8>::empty());
    assert(b@ + Seq::<u8>::empty() =~= b@);
    while i > 0 && b[i - 1] != 46
        invariant
            i <= n == b@.len(),
            forall|j: int| i <= j < n ==> b@[j] != 46,
            column_part(b@) == if i == 0 { b@ } else { column_part(b@.subrange(0, i as int)) + b@.subrange(i as int, n as int) },
        decreases i,
    {
        proof {
            let p = b@.subrange(0, i as int);
            assert(p.last() == b@[i - 1]);
            assert(p.drop_last() =~= b@.subrange(0, i - 1));
            let q = b@.subrange(0, i - 1);
            let tail = b@.subrange(i as int, n as int);
            if has_byte(q, 46) {
                assert(column_part(p) == column_part(q).push(p.last()));
                assert(column_part(q) + b@.subrange(i - 1, n as int) =~= column_part(p) + tail);
            } else {
                assert(column_part(p) == p);
                assert(p + tail =~= b@);
                if i > 1 {
                    assert(q.len() > 0);
                    assert(q.last() == b@[i - 2]);
                    assert(q.last() != 46) by {
                        if q.last() == 46 {
                            assert(q[q.len() - 1] == 46);
                        }
                    }
                    assert(!has_byte(q.drop_last(), 46)) by {
                        if has_byte(q.drop_last(), 46) {
                            let k = choose|k: int| 0 <= k < q.drop_last().len() && q.drop_last()[k] == 46;
                            assert(q[k] == 46);
                        }
                    }
                    assert(column_part(q) == q);
                    assert(q + b@.subrange(i - 1, n as int) =~= b@);
                }
            }
        }
        i = i - 1;
    }
    proof {
        if i == 0 {
            assert(b@.subrange(0, n as int) =~= b@);
        } else {
            let p = b@.subrange(0, i as int);
            assert(p.last() == 46);
            assert(column_part(p) == Seq::<u8>::empty());
            assert(column_part(b@) =~= b@.subrange(i as int, n as int));
        }
    }
    if i == 0 {
        return string_from_range(b, 0, n);
    }
    proof {
        crate::lex::lemma_ascii_boundaries_pub(b@, i - 1);
    }
    string_from_range(b, i, n)
}

/// Does a header name the id column (`id` in any case, after the last `.`)?
pub open spec fn is_id_header(header: Seq<char>) -> bool {
    unicode_lowercase(decode_utf8(column_part(sbytes(header)))) == "id"@
}

/// Does the header name the id column?
pub fn header_is_id(header: &str) -> (r: bool)
    ensures
        r == is_id_header(header@),
{
    let c = short_column_name(header);
    proof {
        lemma_chars_of(c@, column_part(sbytes(header@)));
    }
    let low = to_lowercase(c.as_str());
    let id = "id";
    proof {
        crate::text::lemma_sbytes_injective(low@, id@);
    }
    crate::multimap::bytes_equal(str_bytes(low.as_str()), str_bytes(id))
}

/// Do the results carry record ids (so rows get view and delete actions)?
pub fn results_have_id(headers: &Vec<String>) -> (r: bool)
    ensures
        r == exists|i: int| 0 <= i < headers@.len() && is_id_header(#[trigger] headers@[i]@),
{
    let mut i: usize = 0;
    while i < headers.len()
        invariant
            i <= headers@.len(),
            forall|j: int| 0 <= j < i ==> !is_id_header(#[trigger] headers@[j]@),
        decreases headers@.len() - i,
    {
        if header_is_id(headers[i].as_str()) {
            return true;
        }
        i = i + 1;
    }
    false
}

/// Some grid column has the same name as `col` after lower-casing, and can be edited.
pub open spec fn editable_in(cols: Seq<AdminColumnPlan>, col: Seq<char>) -> bool {
    exists|i: int|
        0 <= i < cols.len() && unicode_lowercase((#[trigger] cols[i]).name@) == unicode_lowercase(col)
            && cols[i].is_editable
}

/// Whether a column of the result grid can be edited (see `editable_in`).
pub fn column_editable_in(cols: &Vec<AdminColumnPlan>, col: &str) -> (r: bool)
    ensures
        r == editable_in(cols@, col@),
{
    let lc = to_lowercase(col);
    let mut i: usize = 0;
    while i < cols.len()
        invariant
            i <= cols@.len(),
            lc@ == unicode_lowercase(col@),
            forall|j: int|
                0 <= j < i ==> !(unicode_lowercase((#[trigger] cols@[j]).name@) == unicode_lowercase(col@)
                    && cols@[j].is_editable),
        decreases cols@.len() - i,
    {
        if cols[i].is_editable {
            let ln = to_lowercase(cols[i].name.as_str());
            if crate::admin::auth::same_text(ln.as_str(), lc.as_str()) {
                assert(unicode_lowercase(cols@[i as int].name@) == unicode_lowercase(col@));
                return true;
            }
        }
        i = i + 1;
    }
    false
}

/// How a cell of the result grid shows: as `grid_cell` decides, the cell
/// counting as editable when its column is editable in the grid (names
/// compared after lower-casing) and its row's record id was found (the id
/// text is not `null`).
pub fn results_cell(
    schema: Option<&ModelSchema>,
    tables: &Vec<String>,
    cols: &Vec<AdminColumnPlan>,
    col_name: &str,
    value: &str,
    record_id: &str,
) -> (r: GridCell)
    ensures
        match (
            r,
            grid_cell_of(
                match schema {
                    Some(s) => Some(s.relations@),
                    None => None,
                },
                tables@,
                sbytes(col_name@),
                sbytes(value@),
                editable_in(cols@, col_name@) && record_id@ != "null"@,
            ),
        ) {
            (GridCell::Link { href }, Some(Some(h))) => sbytes(href@) == h,
            (GridCell::Editable, Some(None)) => true,
            (GridCell::ReadOnly, None) => true,
            _ => false,
        },
{
    let editable = column_editable_in(cols, col_name) && !crate::admin::auth::same_text(record_id, "null");
    grid_cell(schema, tables, col_name, value, editable)
}

} // verus!
