//! CSV export of the admin grid.
use crate::http::request::slice_has_byte;
use crate::lex::{append_joined, join, replace_byte, split_on, split_ranges};
use crate::text::{
    has_byte, is_boundary, lemma_ascii_valid, lemma_valid_concat, sbytes, string_bytes,
    string_from_valid,
};
use vstd::prelude::*;
use vstd::utf8::valid_utf8;

verus! {

broadcast use vstd::utf8::encode_utf8_valid_utf8;

/// A column of the admin grid: the model field and its heading.
pub struct GridColumn {
    pub name: String,
    pub label: String,
}

/// A cell as written to CSV: quoted (with quotes doubled) when it holds a
/// comma or a double quote, as is otherwise.
pub open spec fn csv_cell(v: Seq<u8>) -> Seq<u8> {
    if has_byte(v, 44) || has_byte(v, 34) {
        seq![34u8] + replace_byte(v, 34, seq![34u8, 34u8]) + seq![34u8]
    } else {
        v
    }
}

/// A CSV line: the items joined by commas, then a newline.
pub open spec fn csv_line(items: Seq<Seq<u8>>) -> Seq<u8> {
    join(items, seq![44u8]) + seq![10u8]
}

/// The lines of the records, one after another.
pub open spec fn csv_rows(rows: Seq<Seq<Seq<u8>>>) -> Seq<u8>
    decreases rows.len(),
{
    if rows.len() == 0 {
        seq![]
    } else {
        csv_rows(rows.drop_last()) + csv_line(rows.last().map_values(|v: Seq<u8>| csv_cell(v)))
    }
}

/// The bytes of each string.
pub open spec fn all_bytes(v: Seq<String>) -> Seq<Seq<u8>> {
    v.map_values(|s: String| sbytes(s@))
}

/// The CSV document: the column headings, then one line per record.
pub open spec fn csv_document(labels: Seq<Seq<u8>>, records: Seq<Seq<Seq<u8>>>) -> Seq<u8> {
    csv_line(labels) + csv_rows(records)
}

/// Appends `csv_cell(v)`.
fn append_cell(out: &mut Vec<u8>, v: &String)
    requires
        valid_utf8(old(out)@),
    ensures
        final(out)@ == old(out)@ + csv_cell(sbytes(v@)),
        valid_utf8(final(out)@),
{
    let b = string_bytes(v);
    let ghost start = out@;
    if slice_has_byte(b, 44) || slice_has_byte(b, 34) {
        out.push(34);
        proof {
            lemma_ascii_valid(seq![34u8]);
            lemma_valid_concat(start, seq![34u8]);
            assert(out@ =~= start + seq![34u8]);
        }
        let pieces = split_ranges(b, 0, b.len(), 34);
        assert(b@.subrange(0, b@.len() as int) =~= b@);
        let dq: [u8; 2] = [34, 34];
        let dqs: &[u8] = &dq;
        assert(dqs@ == seq![34u8, 34u8]);
        proof {
            lemma_ascii_valid(dqs@);
            assert(is_boundary(b@, 0));
            assert(is_boundary(b@, b@.len() as int));
        }
        append_joined(out, b, &pieces, dqs, 0, b.len());
        let ghost mid = out@;
        out.push(34);
        proof {
            lemma_valid_concat(mid, seq![34u8]);
            assert(out@ =~= mid + seq![34u8]);
            assert(out@ =~= start + csv_cell(b@));
        }
    } else {
        crate::text::append_range(out, b, 0, b.len());
        proof {
            assert(b@.subrange(0, b@.len() as int) =~= b@);
            lemma_valid_concat(start, b@);
        }
    }
}

/// Appends `csv_line` of the given (already encoded) items.
fn append_line(out: &mut Vec<u8>, items: &Vec<Vec<u8>>)
    requires
        valid_utf8(old(out)@),
        forall|i: int| 0 <= i < items@.len() ==> valid_utf8(#[trigger] items@[i]@),
    ensures
        final(out)@ == old(out)@ + csv_line(items@.map_values(|v: Vec<u8>| v@)),
        valid_utf8(final(out)@),
{
    let ghost start = out@;
    let ghost iv = items@.map_values(|v: Vec<u8>| v@);
    let mut k: usize = 0;
    proof {
        assert(iv.take(0).len() == 0);
        assert(start + join(iv.take(0), seq![44u8]) =~= start);
    }
    while k < items.len()
        invariant
            k <= items@.len(),
            iv == items@.map_values(|v: Vec<u8>| v@),
            forall|i: int| 0 <= i < items@.len() ==> valid_utf8(#[trigger] items@[i]@),
            out@ == start + join(iv.take(k as int), seq![44u8]),
            valid_utf8(out@),
        decreases items@.len() - k,
    {
        let ghost before = out@;
        if k > 0 {
            out.push(44);
            proof {
                lemma_ascii_valid(seq![44u8]);
                lemma_valid_concat(before, seq![44u8]);
                assert(out@ =~= before + seq![44u8]);
            }
        }
        let ghost mid = out@;
        let item = &items[k];
        crate::text::append_range(out, item.as_slice(), 0, item.len());
        proof {
            assert(item@.subrange(0, item@.len() as int) =~= item@);
            lemma_valid_concat(mid, item@);
            assert(iv[k as int] == item@);
            let t = iv.take(k + 1);
            assert(t.drop_last() =~= iv.take(k as int));
            if k == 0 {
                assert(join(t, seq![44u8]) == t[0]);
            }
            assert(out@ =~= start + join(t, seq![44u8]));
        }
        k = k + 1;
    }
    let ghost before = out@;
    out.push(10);
    proof {
        assert(out@ =~= before + seq![10u8]);
        assert(iv.take(items@.len() as int) =~= iv);
        lemma_ascii_valid(seq![10u8]);
        lemma_valid_concat(before, seq![10u8]);
        assert(out@ =~= start + csv_line(iv));
    }
}

/// Writes the records as CSV: a heading line of the column labels, then one
/// line per record with its cells in column order, each line ended by `\n`.
pub fn export_to_csv(records: &Vec<Vec<String>>, columns: &Vec<GridColumn>) -> (csv: String)
    ensures
        sbytes(csv@) == csv_document(
            columns@.map_values(|c: GridColumn| sbytes(c.label@)),
            records@.map_values(|r: Vec<String>| all_bytes(r@)),
        ),
{
    let mut out: Vec<u8> = Vec::new();
    let mut labels: Vec<Vec<u8>> = Vec::new();
    let mut i: usize = 0;
    while i < columns.len()
        invariant
            i <= columns@.len(),
            labels@.len() == i,
            forall|j: int| 0 <= j < i ==> (#[trigger] labels@[j])@ == sbytes(columns@[j].label@),
            forall|j: int| 0 <= j < labels@.len() ==> valid_utf8(#[trigger] labels@[j]@),
        decreases columns@.len() - i,
    {
        let lb = string_bytes(&columns[i].label);
        let v = crate::text::copy_range(lb, 0, lb.len());
        assert(lb@.subrange(0, lb@.len() as int) =~= lb@);
        labels.push(v);
        i = i + 1;
    }
    assert(labels@.map_values(|v: Vec<u8>| v@) =~= columns@.map_values(
        |c: GridColumn| sbytes(c.label@),
    ));
    proof {
        lemma_ascii_valid(out@);
    }
    append_line(&mut out, &labels);
    let ghost head = out@;
    let ghost rv = records@.map_values(|r: Vec<String>| all_bytes(r@));
    let mut r: usize = 0;
    proof {
        assert(rv.take(0).len() == 0);
        assert(head + csv_rows(rv.take(0)) =~= head);
    }
    while r < records.len()
        invariant
            r <= records@.len(),
            rv == records@.map_values(|r: Vec<String>| all_bytes(r@)),
            out@ == head + csv_rows(rv.take(r as int)),
            valid_utf8(out@),
        decreases records@.len() - r,
    {
        let record = &records[r];
        let mut cells: Vec<Vec<u8>> = Vec::new();
        let mut c: usize = 0;
        while c < record.len()
            invariant
                c <= record@.len(),
                cells@.len() == c,
                forall|j: int| 0 <= j < c ==> (#[trigger] cells@[j])@ == csv_cell(sbytes(record@[j]@)),
                forall|j: int| 0 <= j < cells@.len() ==> valid_utf8(#[trigger] cells@[j]@),
            decreases record@.len() - c,
        {
            let mut cell: Vec<u8> = Vec::new();
            proof {
                lemma_ascii_valid(cell@);
            }
            append_cell(&mut cell, &record[c]);
            assert(cell@ =~= csv_cell(sbytes(record@[c as int]@)));
            cells.push(cell);
            c = c + 1;
        }
        assert(cells@.map_values(|v: Vec<u8>| v@) =~= all_bytes(record@).map_values(
            |v: Seq<u8>| csv_cell(v),
        ));
        let ghost before = out@;
        append_line(&mut out, &cells);
        proof {
            let t = rv.take(r + 1);
            assert(t.drop_last() =~= rv.take(r as int));
            assert(t.last() == all_bytes(record@));
            assert(out@ =~= head + csv_rows(t));
        }
        r = r + 1;
    }
    assert(rv.take(records@.len() as int) =~= rv);
    string_from_valid(out)
}

// ------------------------------------------------------------------
// Reading a CSV line back (RFC 4180)
// ------------------------------------------------------------------
/// The body of a quoted field after its opening quote: the value (`""`
/// read as one `"`), and what follows the closing quote.
pub open spec fn read_quoted(b: Seq<u8>) -> (Seq<u8>, Seq<u8>)
    decreases b.len(),
{
    if b.len() == 0 {
        (seq![], seq![])
    } else if b[0] == 34 {
        if b.len() >= 2 && b[1] == 34 {
            let (v, r) = read_quoted(b.skip(2));
            (seq![34u8] + v, r)
        } else {
            (seq![], b.skip(1))
        }
    } else {
        let (v, r) = read_quoted(b.skip(1));
        (seq![b[0]] + v, r)
    }
}

/// One field from the front of a line: its value, and the rest of the line
/// after the comma that ends it (`None` at the end of the line).  A field
/// that starts with `"` is quoted; any other runs to the next comma.
pub open spec fn read_field(b: Seq<u8>) -> (Seq<u8>, Option<Seq<u8>>) {
    if b.len() > 0 && b[0] == 34 {
        let (v, r) = read_quoted(b.skip(1));
        if r.len() > 0 && r[0] == 44 {
            (v, Some(r.skip(1)))
        } else {
            (v, None)
        }
    } else {
        match crate::text::find_byte(b, 44) {
            Some(k) => (b.take(k), Some(b.skip(k + 1))),
            None => (b, None),
        }
    }
}

/// The fields of a CSV line (without its line ending).
pub open spec fn read_record(b: Seq<u8>) -> Seq<Seq<u8>>
    decreases b.len(),
{
    let (v, rest) = read_field(b);
    match rest {
        Some(r) => if r.len() < b.len() {
            seq![v] + read_record(r)
        } else {
            seq![v]
        },
        None => seq![v],
    }
}

/// `join` read from the front.
proof fn lemma_join_front(items: Seq<Seq<u8>>, sep: Seq<u8>)
    requires
        items.len() >= 2,
    ensures
        join(items, sep) == items[0] + sep + join(items.skip(1), sep),
    decreases items.len(),
{
    if items.len() == 2 {
        assert(items.skip(1) =~= seq![items[1]]);
        assert(items.drop_last() =~= seq![items[0]]);
        assert(join(items.skip(1), sep) == items[1]);
        assert(join(items.drop_last(), sep) == items[0]);
        assert(join(items, sep) == join(items.drop_last(), sep) + sep + items.last());
    } else {
        let init = items.drop_last();
        lemma_join_front(init, sep);
        assert(init.skip(1) =~= items.skip(1).drop_last());
        assert(items.skip(1).last() == items.last());
        assert(join(items.skip(1), sep) == join(init.skip(1), sep) + sep + items.last());
        assert(join(items, sep) == join(init, sep) + sep + items.last());
        assert(init[0] == items[0]);
        assert(join(items, sep) =~= items[0] + sep + join(items.skip(1), sep));
    }
}

/// Text without `"` reads as itself in a quoted field, up to what follows.
proof fn lemma_read_quoted_plain(p: Seq<u8>, x: Seq<u8>)
    requires
        !has_byte(p, 34),
    ensures
        read_quoted(p + x) == (p + read_quoted(x).0, read_quoted(x).1),
    decreases p.len(),
{
    if p.len() > 0 {
        let t = p.skip(1);
        assert(!has_byte(t, 34)) by {
            if has_byte(t, 34) {
                let i = choose|i: int| 0 <= i < t.len() && t[i] == 34;
                assert(p[i + 1] == 34);
            }
        }
        assert(p[0] != 34);
        lemma_read_quoted_plain(t, x);
        assert((p + x).skip(1) =~= t + x);
        assert((p + x)[0] == p[0]);
        assert(seq![p[0]] + (t + read_quoted(x).0) =~= p + read_quoted(x).0);
    } else {
        assert(p + x =~= x);
        assert(p + read_quoted(x).0 =~= read_quoted(x).0);
    }
}

/// A value with its quotes doubled, then the closing quote, reads back as the value.
proof fn lemma_read_quoted_escaped(v: Seq<u8>, t: Seq<u8>)
    requires
        t.len() == 0 || t[0] != 34,
    ensures
        read_quoted(replace_byte(v, 34, seq![34u8, 34u8]) + seq![34u8] + t) == (v, t),
    decreases v.len(),
{
    crate::text::lemma_find_byte_from(v, 34, 0);
    match crate::text::find_byte(v, 34) {
        None => {
            crate::lex::lemma_split_single(v, 34);
            assert(replace_byte(v, 34, seq![34u8, 34u8]) == v);
            assert(!has_byte(v, 34));
            lemma_read_quoted_plain(v, seq![34u8] + t);
            assert(v + seq![34u8] + t =~= v + (seq![34u8] + t));
            assert((seq![34u8] + t).skip(1) =~= t);
            assert(read_quoted(seq![34u8] + t) == (Seq::<u8>::empty(), t));
            assert(v + Seq::<u8>::empty() =~= v);
        },
        Some(k) => {
            let p = v.take(k);
            let w = v.skip(k + 1);
            assert(v.subrange(0, k) =~= p);
            assert(v.subrange(k + 1, v.len() as int) =~= w);
            let pieces = split_on(v, 34);
            assert(pieces == seq![p] + split_on(w, 34));
            let rw = replace_byte(w, 34, seq![34u8, 34u8]);
            assert(split_on(w, 34).len() >= 1) by {
                lemma_split_nonempty(w, 34);
            }
            lemma_join_front(pieces, seq![34u8, 34u8]);
            assert(pieces.skip(1) =~= split_on(w, 34));
            assert(replace_byte(v, 34, seq![34u8, 34u8]) == p + seq![34u8, 34u8] + rw);
            assert(!has_byte(p, 34)) by {
                if has_byte(p, 34) {
                    let i = choose|i: int| 0 <= i < p.len() && p[i] == 34;
                    assert(v[i] == 34);
                }
            }
            lemma_read_quoted_escaped(w, t);
            let x = seq![34u8, 34u8] + rw + seq![34u8] + t;
            assert(replace_byte(v, 34, seq![34u8, 34u8]) + seq![34u8] + t =~= p + x);
            lemma_read_quoted_plain(p, x);
            assert(x.skip(2) =~= rw + seq![34u8] + t);
            assert(read_quoted(x) == (seq![34u8] + w, t));
            assert(p + (seq![34u8] + w) =~= v);
        },
    }
}

/// `split_on` gives at least one piece.
proof fn lemma_split_nonempty(b: Seq<u8>, c: u8)
    ensures
        split_on(b, c).len() >= 1,
{
}

/// The cells of a record as written.
pub open spec fn csv_cells(items: Seq<Seq<u8>>) -> Seq<Seq<u8>> {
    items.map_values(|v: Seq<u8>| csv_cell(v))
}

/// A written cell reads back as its value, whether a comma and more follow or the line ends.
proof fn lemma_read_cell(v: Seq<u8>, rest: Seq<u8>)
    ensures
        read_field(csv_cell(v) + seq![44u8] + rest) == (v, Some(rest)),
        read_field(csv_cell(v)) == (v, None::<Seq<u8>>),
{
    let b = csv_cell(v) + seq![44u8] + rest;
    if has_byte(v, 44) || has_byte(v, 34) {
        let e = replace_byte(v, 34, seq![34u8, 34u8]);
        lemma_read_quoted_escaped(v, seq![44u8] + rest);
        lemma_read_quoted_escaped(v, Seq::<u8>::empty());
        assert(b.skip(1) =~= e + seq![34u8] + (seq![44u8] + rest));
        assert(csv_cell(v).skip(1) =~= e + seq![34u8] + Seq::<u8>::empty());
        assert((seq![44u8] + rest).skip(1) =~= rest);
    } else {
        crate::text::lemma_find_byte_from(v, 44, 0);
        crate::lex::lemma_find_in_append(v, rest, 44);
        assert(b =~= v + seq![44u8] + rest);
        if v.len() > 0 {
            assert(v[0] != 34);
        }
        assert(b.take(v.len() as int) =~= v);
        assert(b.skip(v.len() as int + 1) =~= rest);
    }
}

/// A CSV line reads back as the values it was written from.
pub proof fn lemma_csv_line_reads_back(items: Seq<Seq<u8>>)
    requires
        items.len() >= 1,
    ensures
        read_record(join(csv_cells(items), seq![44u8])) == items,
    decreases items.len(),
{
    let cs = csv_cells(items);
    if items.len() == 1 {
        lemma_read_cell(items[0], seq![]);
        assert(join(cs, seq![44u8]) == cs[0]);
        assert(seq![items[0]] =~= items);
    } else {
        let tail = items.skip(1);
        lemma_join_front(cs, seq![44u8]);
        assert(cs.skip(1) =~= csv_cells(tail));
        let rest = join(csv_cells(tail), seq![44u8]);
        lemma_read_cell(items[0], rest);
        lemma_csv_line_reads_back(tail);
        assert(seq![items[0]] + tail =~= items);
    }
}

/// The lines of a CSV document, without their line endings.
pub open spec fn csv_lines(labels: Seq<Seq<u8>>, records: Seq<Seq<Seq<u8>>>) -> Seq<Seq<u8>> {
    seq![join(labels, seq![44u8])] + records.map_values(
        |r: Seq<Seq<u8>>| join(csv_cells(r), seq![44u8]),
    )
}

/// The document is its lines joined by line endings, with a final line ending.
proof fn lemma_document_lines(labels: Seq<Seq<u8>>, records: Seq<Seq<Seq<u8>>>)
    ensures
        csv_document(labels, records) == join(csv_lines(labels, records), seq![10u8]) + seq![10u8],
    decreases records.len(),
{
    let ls = csv_lines(labels, records);
    if records.len() == 0 {
        assert(ls =~= seq![join(labels, seq![44u8])]);
        assert(csv_rows(records) =~= Seq::<u8>::empty());
        assert(csv_document(labels, records) =~= join(labels, seq![44u8]) + seq![10u8]);
    } else {
        let init = records.drop_last();
        lemma_document_lines(labels, init);
        let ls0 = csv_lines(labels, init);
        let x = join(csv_cells(records.last()), seq![44u8]);
        assert(ls =~= ls0.push(x));
        assert(ls.drop_last() =~= ls0);
        assert(join(ls, seq![10u8]) == join(ls0, seq![10u8]) + seq![10u8] + x);
        assert(csv_cells(records.last()) =~= records.last().map_values(|v: Seq<u8>| csv_cell(v)));
        assert(csv_document(labels, records) =~= join(ls, seq![10u8]) + seq![10u8]);
    }
}

/// Pieces without a byte, joined by a separator without it, are without it.
proof fn lemma_join_without(ps: Seq<Seq<u8>>, sep: Seq<u8>, d: u8)
    requires
        forall|i: int| 0 <= i < ps.len() ==> !has_byte(#[trigger] ps[i], d),
        !has_byte(sep, d),
    ensures
        !has_byte(join(ps, sep), d),
    decreases ps.len(),
{
    if ps.len() > 1 {
        let init = ps.drop_last();
        assert forall|i: int| 0 <= i < init.len() implies !has_byte(#[trigger] init[i], d) by {
            assert(init[i] == ps[i]);
        }
        lemma_join_without(init, sep, d);
        let j = join(ps, sep);
        let a = join(init, sep);
        assert(!has_byte(ps[ps.len() - 1], d));
        if has_byte(j, d) {
            let i = choose|i: int| 0 <= i < j.len() && j[i] == d;
            if i < a.len() {
                assert(j[i] == a[i]);
            } else if i < a.len() + sep.len() {
                assert(j[i] == sep[i - a.len()]);
            } else {
                assert(j[i] == ps.last()[i - a.len() - sep.len()]);
            }
        }
    } else if ps.len() == 1 {
        assert(!has_byte(ps[0], d));
    }
}

/// The pieces `split_on` cuts from text without a byte are without it.
proof fn lemma_split_without(b: Seq<u8>, c: u8, d: u8)
    requires
        !has_byte(b, d),
    ensures
        forall|i: int| 0 <= i < split_on(b, c).len() ==> !has_byte(#[trigger] split_on(b, c)[i], d),
    decreases b.len(),
{
    crate::text::lemma_find_byte_from(b, c, 0);
    match crate::text::find_byte(b, c) {
        None => {
            assert forall|i: int| 0 <= i < split_on(b, c).len() implies !has_byte(
                #[trigger] split_on(b, c)[i],
                d,
            ) by {
                assert(split_on(b, c)[i] == b);
            }
        },
        Some(k) => {
            let head = b.subrange(0, k);
            let rest = b.subrange(k + 1, b.len() as int);
            assert(!has_byte(head, d)) by {
                if has_byte(head, d) {
                    let j = choose|j: int| 0 <= j < head.len() && head[j] == d;
                    assert(b[j] == d);
                }
            }
            assert(!has_byte(rest, d)) by {
                if has_byte(rest, d) {
                    let j = choose|j: int| 0 <= j < rest.len() && rest[j] == d;
                    assert(b[j + k + 1] == d);
                }
            }
            lemma_split_without(rest, c, d);
            assert forall|i: int| 0 <= i < split_on(b, c).len() implies !has_byte(
                #[trigger] split_on(b, c)[i],
                d,
            ) by {
                if i > 0 {
                    assert(split_on(b, c)[i] == split_on(rest, c)[i - 1]);
                }
            }
        },
    }
}

/// A written cell holds a line break only where its value does.
proof fn lemma_cell_without_newline(v: Seq<u8>)
    requires
        !has_byte(v, 10),
    ensures
        !has_byte(csv_cell(v), 10),
{
    if has_byte(v, 44) || has_byte(v, 34) {
        lemma_split_without(v, 34, 10);
        lemma_join_without(split_on(v, 34), seq![34u8, 34u8], 10);
        let e = replace_byte(v, 34, seq![34u8, 34u8]);
        let c = csv_cell(v);
        if has_byte(c, 10) {
            let i = choose|i: int| 0 <= i < c.len() && c[i] == 10;
            if 0 < i < c.len() - 1 {
                assert(c[i] == e[i - 1]);
            }
        }
    }
}

/// A CSV document reads back line by line: its lines are the heading line,
/// one line per record, and nothing after the last line ending; the heading
/// line reads back as the labels and each record's line as its values.
/// This holds where no value or label holds a line break, no label holds a
/// comma or a double quote (labels are written as they are), and no record
/// is empty.
pub proof fn lemma_csv_document_reads_back(labels: Seq<Seq<u8>>, records: Seq<Seq<Seq<u8>>>)
    requires
        labels.len() >= 1,
        forall|i: int|
            0 <= i < labels.len() ==> !has_byte(#[trigger] labels[i], 10) && !has_byte(labels[i], 44)
                && !has_byte(labels[i], 34),
        forall|r: int| 0 <= r < records.len() ==> (#[trigger] records[r]).len() >= 1,
        forall|r: int, i: int|
            0 <= r < records.len() && 0 <= i < records[r].len() ==> !has_byte(
                #[trigger] records[r][i],
                10,
            ),
    ensures
        split_on(csv_document(labels, records), 10) == csv_lines(labels, records).push(seq![]),
        read_record(csv_lines(labels, records)[0]) == labels,
        forall|r: int|
            0 <= r < records.len() ==> read_record(#[trigger] csv_lines(labels, records)[r + 1])
                == records[r],
{
    let ls = csv_lines(labels, records);
    lemma_document_lines(labels, records);
    // The labels are written as they are, so their line is their cells' line.
    assert(csv_cells(labels) =~= labels) by {
        assert forall|i: int| 0 <= i < labels.len() implies csv_cells(labels)[i] == labels[i] by {
            assert(!has_byte(labels[i], 44) && !has_byte(labels[i], 34));
        }
    }
    lemma_csv_line_reads_back(labels);
    assert forall|r: int| 0 <= r < records.len() implies read_record(
        #[trigger] csv_lines(labels, records)[r + 1],
    ) == records[r] by {
        assert(ls[r + 1] == join(csv_cells(records[r]), seq![44u8]));
        lemma_csv_line_reads_back(records[r]);
    }
    // No line holds a line break.
    let all = ls.push(Seq::<u8>::empty());
    assert(!has_byte(seq![44u8], 10));
    assert forall|i: int| 0 <= i < all.len() implies !has_byte(#[trigger] all[i], 10) by {
        if i == 0 {
            lemma_join_without(labels, seq![44u8], 10);
        } else if i <= records.len() {
            let rec = records[i - 1];
            let cs = csv_cells(rec);
            assert forall|j: int| 0 <= j < cs.len() implies !has_byte(#[trigger] cs[j], 10) by {
                assert(!has_byte(rec[j], 10));
                lemma_cell_without_newline(rec[j]);
            }
            lemma_join_without(cs, seq![44u8], 10);
            assert(all[i] == ls[i]);
        } else {
            assert(all[i] == Seq::<u8>::empty());
        }
    }
    assert(all.drop_last() =~= ls);
    assert(join(all, seq![10u8]) =~= join(ls, seq![10u8]) + seq![10u8] + Seq::<u8>::empty());
    assert forall|i: int, j: int| 0 <= i < all.len() && 0 <= j < all[i].len() implies #[trigger] all[i][j] != 10 by {
        assert(!has_byte(all[i], 10));
    }
    crate::lex::lemma_split_join(all, 10);
}

} // verus!
