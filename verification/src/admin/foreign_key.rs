//! Foreign-key columns of the admin grid and the tables they point to.
use crate::lex::{append_joined, ends_with, replace_byte, split_ranges};
use crate::multimap::bytes_equal;
use crate::text::{
    copy_range, is_boundary, lemma_ascii_valid, lemma_valid_concat, lemma_valid_subrange, sbytes,
    str_bytes, string_bytes, string_from_valid, to_lowercase, unicode_lowercase,
};
use vstd::prelude::*;
use vstd::utf8::{decode_utf8, valid_utf8};

verus! {

broadcast use vstd::utf8::encode_utf8_valid_utf8;

/// How a model relates to another.
#[derive(PartialEq, Eq, Structural, Clone, Copy)]
pub enum RelationKind {
    BelongsTo,
    HasOne,
    HasMany,
    ManyToMany,
}

/// A relation declared in a model's schema.
pub struct Relation {
    pub kind: RelationKind,
    pub foreign_key: Option<String>,
    pub target_table: String,
}

/// The relations of one model.
pub struct ModelSchema {
    pub relations: Vec<Relation>,
}

/// `_id`
pub open spec fn id_suffix() -> Seq<u8> {
    seq![95u8, 105u8, 100u8]
}

/// Does a column name look like a foreign key (`…_id`)?
pub fn is_foreign_key_column(col_name: &str) -> (r: bool)
    ensures
        r == ends_with(sbytes(col_name@), id_suffix()),
{
    let b = str_bytes(col_name);
    let suffix: [u8; 3] = [95, 105, 100];
    let s: &[u8] = &suffix;
    assert(s@ == id_suffix());
    assert(b@.subrange(0, b@.len() as int) =~= b@);
    crate::lex::range_ends_with(b, 0, b.len(), s)
}

/// A name with underscores dropped and case folded, for loose comparison.
pub open spec fn loose_key(b: Seq<u8>) -> Seq<char> {
    unicode_lowercase(decode_utf8(replace_byte(b, 95, seq![])))
}

/// Is the table among the registered ones?
pub open spec fn registered(tables: Seq<String>, t: Seq<u8>) -> bool {
    exists|i: int| 0 <= i < tables.len() && sbytes((#[trigger] tables[i])@) == t
}

/// The registered spelling of a relation's target table: itself, its plural,
/// or its singular, whichever is registered first; itself otherwise.
pub open spec fn resolve_target(t: Seq<u8>, tables: Seq<String>) -> Seq<u8> {
    if registered(tables, t) {
        t
    } else if registered(tables, t + seq![115u8]) {
        t + seq![115u8]
    } else if t.len() > 1 && t.last() == 115 && registered(tables, t.drop_last()) {
        t.drop_last()
    } else {
        t
    }
}

/// `trim_end_matches("_id")`: every trailing `_id` removed.
pub open spec fn strip_id_suffixes(b: Seq<u8>) -> Seq<u8>
    decreases b.len(),
{
    if ends_with(b, id_suffix()) {
        strip_id_suffixes(b.subrange(0, b.len() - 3))
    } else {
        b
    }
}

/// The first belongs-to relation whose foreign key matches the column loosely.
pub open spec fn matching_relation(rels: Seq<Relation>, col: Seq<u8>) -> Option<int>
    decreases rels.len(),
{
    if rels.len() == 0 {
        None
    } else {
        match matching_relation(rels.drop_last(), col) {
            Some(i) => Some(i),
            None => {
                let r = rels.last();
                if r.kind == RelationKind::BelongsTo && r.foreign_key is Some && loose_key(
                    sbytes(r.foreign_key.unwrap()@),
                ) == loose_key(col) {
                    Some(rels.len() - 1)
                } else {
                    None
                }
            },
        }
    }
}

/// The table a column refers to: through a matching belongs-to relation of
/// the current model when there is one, else by the `<base>_id` convention
/// (`<base>` or `<base>s`, whichever is registered first).
pub open spec fn target_slug(schema: Option<Seq<Relation>>, tables: Seq<String>, col: Seq<u8>) -> Option<Seq<u8>> {
    let via_schema = match schema {
        Some(rels) => match matching_relation(rels, col) {
            Some(i) => Some(resolve_target(sbytes(rels[i].target_table@), tables)),
            None => None,
        },
        None => None,
    };
    match via_schema {
        Some(t) => Some(t),
        None => if !ends_with(col, id_suffix()) {
            None
        } else {
            let base = strip_id_suffixes(col);
            if registered(tables, base) {
                Some(base)
            } else if registered(tables, base + seq![115u8]) {
                Some(base + seq![115u8])
            } else {
                None
            }
        },
    }
}

/// Is a table with these bytes registered?
fn is_registered(tables: &Vec<String>, t: &[u8]) -> (r: bool)
    ensures
        r == registered(tables@, t@),
{
    let mut i: usize = 0;
    while i < tables.len()
        invariant
            i <= tables@.len(),
            forall|j: int| 0 <= j < i ==> sbytes((#[trigger] tables@[j])@) != t@,
        decreases tables@.len() - i,
    {
        if bytes_equal(string_bytes(&tables[i]), t) {
            return true;
        }
        i = i + 1;
    }
    false
}

/// `b` with underscores removed, loose-compared form.
fn loose_key_of(b: &[u8]) -> (r: String)
    requires
        valid_utf8(b@),
    ensures
        r@ == loose_key(b@),
{
    let pieces = split_ranges(b, 0, b.len(), 95);
    assert(b@.subrange(0, b@.len() as int) =~= b@);
    let mut out: Vec<u8> = Vec::new();
    let empty: [u8; 0] = [];
    let es: &[u8] = &empty;
    proof {
        lemma_ascii_valid(out@);
        lemma_ascii_valid(es@);
        assert(es@ =~= Seq::<u8>::empty());
        assert(is_boundary(b@, 0));
        assert(is_boundary(b@, b@.len() as int));
    }
    append_joined(&mut out, b, &pieces, es, 0, b.len());
    assert(out@ =~= replace_byte(b@, 95, seq![]));
    let joined = string_from_valid(out);
    proof {
        crate::text::lemma_chars_of(joined@, replace_byte(b@, 95, seq![]));
    }
    to_lowercase(joined.as_str())
}

/// Resolves the registered spelling of a relation's target.
fn resolve_target_exec(target: &String, tables: &Vec<String>) -> (r: String)
    ensures
        sbytes(r@) == resolve_target(sbytes(target@), tables@),
{
    let t = string_bytes(target);
    if is_registered(tables, t) {
        return target.clone();
    }
    let mut plural = copy_range(t, 0, t.len());
    assert(t@.subrange(0, t@.len() as int) =~= t@);
    plural.push(115);
    assert(plural@ =~= t@ + seq![115u8]);
    if is_registered(tables, plural.as_slice()) {
        proof {
            lemma_ascii_valid(seq![115u8]);
            lemma_valid_concat(t@, seq![115u8]);
        }
        return string_from_valid(plural);
    }
    if t.len() > 1 && t[t.len() - 1] == 115 {
        let singular = copy_range(t, 0, t.len() - 1);
        assert(singular@ =~= t@.drop_last());
        if is_registered(tables, singular.as_slice()) {
            proof {
                crate::lex::lemma_ascii_boundaries_pub(t@, t@.len() - 1);
                lemma_valid_subrange(t@, 0, t@.len() - 1);
                assert(t@.subrange(0, t@.len() - 1) =~= t@.drop_last());
            }
            return string_from_valid(singular);
        }
    }
    target.clone()
}

/// Resolves the table slug a foreign-key column of `current` model points to.
/// `schema` is the current model's schema (if registered) and `tables` the
/// slugs registered with the admin panel.
pub fn get_target_table_slug(schema: Option<&ModelSchema>, tables: &Vec<String>, col_name: &str) -> (r: Option<String>)
    ensures
        match (r, target_slug(
            match schema {
                Some(s) => Some(s.relations@),
                None => None,
            },
            tables@,
            sbytes(col_name@),
        )) {
            (Some(x), Some(y)) => sbytes(x@) == y,
            (None, None) => true,
            _ => false,
        },
{
    let col = str_bytes(col_name);
    let ghost rels_opt = match schema {
        Some(s) => Some(s.relations@),
        None => None,
    };
    match schema {
        Some(model_schema) => {
            let normalized_col = loose_key_of(col);
            let rels = &model_schema.relations;
            let mut i: usize = 0;
            while i < rels.len()
                invariant
                    i <= rels@.len(),
                    normalized_col@ == loose_key(col@),
                    col@ == sbytes(col_name@),
                    rels_opt == Some(rels@),
                    rels_opt == match schema {
                        Some(s) => Some(s.relations@),
                        None => None::<Seq<Relation>>,
                    },
                    matching_relation(rels@.take(i as int), col@) is None,
                decreases rels@.len() - i,
            {
                let rel = &rels[i];
                let ghost t = rels@.take(i + 1);
                assert(t.drop_last() =~= rels@.take(i as int));
                assert(t.last() == *rel);
                if rel.kind == RelationKind::BelongsTo {
                    match &rel.foreign_key {
                        Some(fk) => {
                            let normalized_fk = loose_key_of(string_bytes(fk));
                            if normalized_fk == normalized_col {
                                proof {
                                    assert(matching_relation(t, col@) == Some(i as int));
                                    lemma_matching_prefix(rels@, col@, i as int);
                                }
                                let res = resolve_target_exec(&rel.target_table, tables);
                                assert(target_slug(rels_opt, tables@, col@) == Some(sbytes(res@)));
                                return Some(res);
                            }
                        },
                        None => {},
                    }
                }
                i = i + 1;
            }
            assert(rels@.take(rels@.len() as int) =~= rels@);
        },
        None => {},
    }
    assert(match rels_opt {
        Some(rels) => matching_relation(rels, col@) is None,
        None => true,
    });
    // Naming-convention fallback
    if !is_foreign_key_column(col_name) {
        return None;
    }
    let mut end = col.len();
    let suffix: [u8; 3] = [95, 105, 100];
    let s: &[u8] = &suffix;
    assert(s@ == id_suffix());
    assert(col@.subrange(0, col@.len() as int) =~= col@);
    while end >= 3 && crate::lex::range_ends_with(col, 0, end, s)
        invariant
            end <= col@.len(),
            s@ == id_suffix(),
            strip_id_suffixes(col@) == strip_id_suffixes(col@.subrange(0, end as int)),
            valid_utf8(col@),
            is_boundary(col@, end as int),
        decreases end,
    {
        proof {
            let cur = col@.subrange(0, end as int);
            assert(cur.subrange(0, cur.len() - 3) =~= col@.subrange(0, end - 3));
            assert(cur.subrange(cur.len() - 3, cur.len() as int) == id_suffix());
            assert(cur[cur.len() - 3] == 95u8);
            assert(col@[end - 3] == 95u8);
            crate::lex::lemma_ascii_boundaries_pub(col@, end - 3);
        }
        end = end - 3;
    }
    proof {
        let cur = col@.subrange(0, end as int);
        if end < 3 {
            assert(!ends_with(cur, id_suffix()));
        }
        assert(strip_id_suffixes(cur) == cur);
        lemma_valid_subrange(col@, 0, end as int);
    }
    let base = copy_range(col, 0, end);
    if is_registered(tables, base.as_slice()) {
        return Some(string_from_valid(base));
    }
    let mut plural = base;
    plural.push(115);
    assert(plural@ =~= col@.subrange(0, end as int) + seq![115u8]);
    if is_registered(tables, plural.as_slice()) {
        proof {
            lemma_ascii_valid(seq![115u8]);
            lemma_valid_concat(col@.subrange(0, end as int), seq![115u8]);
        }
        return Some(string_from_valid(plural));
    }
    None
}

proof fn lemma_matching_prefix(rels: Seq<Relation>, col: Seq<u8>, i: int)
    requires
        0 <= i < rels.len(),
        matching_relation(rels.take(i + 1), col) == Some(i),
    ensures
        matching_relation(rels, col) == Some(i),
    decreases rels.len(),
{
    if rels.len() > i + 1 {
        assert(rels.drop_last().take(i + 1) =~= rels.take(i + 1));
        lemma_matching_prefix(rels.drop_last(), col, i);
    } else {
        assert(rels.take(i + 1) =~= rels);
    }
}

/// How a grid cell shows its value.
pub enum GridCell {
    /// A link to the referenced record.
    Link { href: String },
    /// An input that saves on change.
    Editable,
    /// Plain text.
    ReadOnly,
}

/// The link to a record of a table: `/admin/<table>/<id>`.
pub open spec fn record_href(table: Seq<u8>, id: Seq<u8>) -> Seq<u8> {
    seq!['/' as u8, 'a' as u8, 'd' as u8, 'm' as u8, 'i' as u8, 'n' as u8, '/' as u8] + table + seq![
        '/' as u8,
    ] + id
}

/// How a cell of column `col` holding `value` shows: a foreign key with a
/// value links to the referenced record when its table can be told (plain
/// text otherwise); other columns are inputs when editable, plain text when not.
pub open spec fn grid_cell_of(
    schema: Option<Seq<Relation>>,
    tables: Seq<String>,
    col: Seq<u8>,
    value: Seq<u8>,
    editable: bool,
) -> Option<Option<Seq<u8>>> {
    if ends_with(col, id_suffix()) && value.len() > 0 {
        match target_slug(schema, tables, col) {
            Some(t) => Some(Some(record_href(t, value))),
            None => None,
        }
    } else if editable {
        Some(None)
    } else {
        None
    }
}

/// Decides how a grid cell shows.
pub fn grid_cell(
    schema: Option<&ModelSchema>,
    tables: &Vec<String>,
    col_name: &str,
    value: &str,
    editable: bool,
) -> (r: GridCell)
    ensures
        match (
            r,
            grid_cell_of(
                match schema {
                    Some(s) => Some(s.relations@),
                    None => None,
                },
                tables@,
                sbytes(col_name@),
                sbytes(value@),
                editable,
            ),
        ) {
            (GridCell::Link { href }, Some(Some(h))) => sbytes(href@) == h,
            (GridCell::Editable, Some(None)) => true,
            (GridCell::ReadOnly, None) => true,
            _ => false,
        },
{
    let vb = str_bytes(value);
    if is_foreign_key_column(col_name) && vb.len() > 0 {
        match get_target_table_slug(schema, tables, col_name) {
            Some(t) => {
                let pa: [u8; 7] = ['/' as u8, 'a' as u8, 'd' as u8, 'm' as u8, 'i' as u8, 'n' as u8, '/' as u8];
                let sa: [u8; 1] = ['/' as u8];
                let (p, sl): (&[u8], &[u8]) = (&pa, &sa);
                proof {
                    lemma_ascii_valid(p@);
                    lemma_ascii_valid(sl@);
                }
                let mut out = copy_range(p, 0, 7);
                assert(p@.subrange(0, 7) =~= p@);
                let tb = string_bytes(&t);
                crate::text::append_range(&mut out, tb, 0, tb.len());
                crate::text::append_range(&mut out, sl, 0, 1);
                crate::text::append_range(&mut out, vb, 0, vb.len());
                proof {
                    assert(tb@.subrange(0, tb@.len() as int) =~= tb@);
                    assert(sl@.subrange(0, 1) =~= sl@);
                    assert(vb@.subrange(0, vb@.len() as int) =~= vb@);
                    lemma_valid_concat(p@, tb@);
                    lemma_valid_concat(p@ + tb@, sl@);
                    lemma_valid_concat(p@ + tb@ + sl@, vb@);
                    assert(out@ =~= record_href(tb@, vb@));
                }
                GridCell::Link { href: string_from_valid(out) }
            },
            None => GridCell::ReadOnly,
        }
    } else if editable {
        GridCell::Editable
    } else {
        GridCell::ReadOnly
    }
}

/// A foreign-key cell with a value shows the same whether or not its column
/// is editable: as a link when the referenced table can be told.
pub proof fn lemma_foreign_keys_ignore_editability(
    schema: Option<Seq<Relation>>,
    tables: Seq<String>,
    col: Seq<u8>,
    value: Seq<u8>,
)
    requires
        ends_with(col, id_suffix()),
        value.len() > 0,
    ensures
        grid_cell_of(schema, tables, col, value, true) == grid_cell_of(schema, tables, col, value, false),
        target_slug(schema, tables, col) is Some ==> grid_cell_of(schema, tables, col, value, true) is Some
            && grid_cell_of(schema, tables, col, value, true).unwrap() is Some,
{
}

} // verus!
