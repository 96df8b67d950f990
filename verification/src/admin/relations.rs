//! What `#[derive(GritRelation)]` decides for a relation enum: the table it
//! belongs to, the field each relation fills, the table each relation
//! targets, the foreign key, and the names of the generated loader and
//! builder methods.  The attribute's tokens are read by the macro crate,
//! which hands these functions plain strings.
use crate::admin::foreign_key::RelationKind;
use crate::naming::{char_is_uppercase, unicode_is_uppercase};
use crate::text::{push_char, str_to_string, to_lowercase, unicode_lowercase};
use vstd::prelude::*;
use vstd::string::StrSliceExecFns;

verus! {

pub const MISSING_TABLE: &'static str = "GritRelation requires a table name. Add #[grit(table = \"your_table\")] or #[sea_orm(table_name = \"your_table\")] to the enum.";

/// The table a relation enum names, or the refusal when it names none.
pub fn relation_table(table: Option<&str>) -> (r: Result<String, String>)
    ensures
        match table {
            Some(t) => r matches Ok(s) && s@ == t@,
            None => r matches Err(e) && e@ == MISSING_TABLE@,
        },
{
    match table {
        Some(t) => Ok(str_to_string(t)),
        None => Err(str_to_string(MISSING_TABLE)),
    }
}

/// The start-up function that registers a table's relations: `register_relations_<table>`.
pub fn relation_register_name(table: &str) -> (r: String)
    ensures
        r@ == "register_relations_"@ + table@,
{
    let mut out = str_to_string("register_relations_");
    out.append(table);
    out
}

/// The field a relation fills: the variant's name lower-cased, with an `s`
/// added for a to-many relation.
pub open spec fn relation_field_spec(variant: Seq<char>, kind: RelationKind) -> Seq<char> {
    if kind == RelationKind::HasMany {
        unicode_lowercase(variant) + "s"@
    } else {
        unicode_lowercase(variant)
    }
}

/// The field a relation fills (see `relation_field_spec`).
pub fn relation_field_name(variant: &str, kind: RelationKind) -> (r: String)
    ensures
        r@ == relation_field_spec(variant@, kind),
{
    let mut out = to_lowercase(variant);
    if kind == RelationKind::HasMany {
        out.append("s");
    }
    out
}

/// `char::to_ascii_lowercase`.
pub open spec fn ascii_lower_char(c: char) -> char {
    if 'A' <= c <= 'Z' {
        ((c as u32) + 32) as char
    } else {
        c
    }
}

/// A type name in `snake_case`: `_` before every upper-case character but
/// the first, each character ASCII-lower-cased.
pub open spec fn snake_of(name: Seq<char>) -> Seq<char>
    decreases name.len(),
{
    if name.len() == 0 {
        seq![]
    } else {
        let c = name.last();
        let pre = snake_of(name.drop_last());
        if name.len() > 1 && unicode_is_uppercase(c) {
            pre.push('_').push(ascii_lower_char(c))
        } else {
            pre.push(ascii_lower_char(c))
        }
    }
}

/// The table a relation targets, from the segments of the target's path:
/// the module before the last segment, else the last segment in
/// `snake_case`, else `unknown`.
pub open spec fn target_table_spec(segs: Seq<Seq<char>>) -> Seq<char> {
    if segs.len() >= 2 {
        segs[segs.len() - 2]
    } else if segs.len() == 1 {
        snake_of(segs[0])
    } else {
        "unknown"@
    }
}

/// `char::to_ascii_lowercase`.
fn to_ascii_lower(c: char) -> (r: char)
    ensures
        r == ascii_lower_char(c),
{
    if 'A' <= c && c <= 'Z' {
        ((c as u8) + 32) as char
    } else {
        c
    }
}

/// A type name in `snake_case` (see `snake_of`).
pub fn snake_case(name: &str) -> (r: String)
    ensures
        r@ == snake_of(name@),
{
    let n = name.unicode_len();
    let mut out = String::new();
    let mut i: usize = 0;
    while i < n
        invariant
            n == name@.len(),
            i <= n,
            out@ == snake_of(name@.take(i as int)),
        decreases n - i,
    {
        let c = name.get_char(i);
        proof {
            assert(name@.take(i + 1).drop_last() =~= name@.take(i as int));
            assert(name@.take(i + 1).last() == c);
        }
        if i > 0 && char_is_uppercase(c) {
            push_char(&mut out, '_');
        }
        push_char(&mut out, to_ascii_lower(c));
        i = i + 1;
    }
    assert(name@.take(n as int) =~= name@);
    out
}

/// The table a relation targets (see `target_table_spec`).
pub fn target_table(segments: &Vec<String>) -> (r: String)
    ensures
        r@ == target_table_spec(segments@.map_values(|s: String| s@)),
{
    let ghost sv = segments@.map_values(|s: String| s@);
    let n = segments.len();
    if n >= 2 {
        assert(sv[n - 2] == segments@[n - 2]@);
        str_to_string(segments[n - 2].as_str())
    } else if n == 1 {
        assert(sv[0] == segments@[0]@);
        snake_case(segments[0].as_str())
    } else {
        str_to_string("unknown")
    }
}

/// What follows the last `::` of a path, reading `::` separators from the left.
pub open spec fn after_last_sep(s: Seq<char>, cur: Seq<char>) -> Seq<char>
    decreases s.len(),
{
    if s.len() == 0 {
        cur
    } else if s.len() >= 2 && s[0] == ':' && s[1] == ':' {
        after_last_sep(s.skip(2), seq![])
    } else {
        after_last_sep(s.skip(1), cur.push(s[0]))
    }
}

/// The foreign key a `from` attribute names: the last `::`-separated piece of its text.
pub fn foreign_key_name(from: &str) -> (r: String)
    ensures
        r@ == after_last_sep(from@, seq![]),
{
    let n = from.unicode_len();
    let mut cur = String::new();
    let mut i: usize = 0;
    assert(from@.skip(0) =~= from@);
    while i < n
        invariant
            n == from@.len(),
            i <= n,
            after_last_sep(from@, seq![]) == after_last_sep(from@.skip(i as int), cur@),
        decreases n - i,
    {
        let ghost rest = from@.skip(i as int);
        let c = from.get_char(i);
        assert(rest[0] == c);
        if c == ':' && i + 1 < n && from.get_char(i + 1) == ':' {
            assert(rest[1] == from@[i + 1]);
            assert(rest.skip(2) =~= from@.skip(i + 2));
            cur = String::new();
            i = i + 2;
        } else {
            assert(rest.skip(1) =~= from@.skip(i + 1));
            push_char(&mut cur, c);
            i = i + 1;
        }
    }
    assert(from@.skip(n as int) =~= Seq::<char>::empty());
    cur
}

/// The names the query builders get for a relation field: `load_<f>` and
/// `with_<f>`, and for a to-many relation also `with_<f>_nested` and the
/// closure field `closure_<f>`.
pub struct BuilderNames {
    pub load: String,
    pub with: String,
    pub nested: Option<(String, String)>,
}

/// The builder names for a relation field (see `BuilderNames`).
pub fn builder_names(field: &str, kind: RelationKind) -> (r: BuilderNames)
    ensures
        r.load@ == "load_"@ + field@,
        r.with@ == "with_"@ + field@,
        kind == RelationKind::HasMany ==> (r.nested matches Some((n, c)) && n@ == "with_"@ + field@
            + "_nested"@ && c@ == "closure_"@ + field@),
        kind != RelationKind::HasMany ==> r.nested is None,
{
    let mut load = str_to_string("load_");
    load.append(field);
    let mut with = str_to_string("with_");
    with.append(field);
    let nested = if kind == RelationKind::HasMany {
        let mut n = str_to_string("with_");
        n.append(field);
        n.append("_nested");
        let mut c = str_to_string("closure_");
        c.append(field);
        Some((n, c))
    } else {
        None
    };
    BuilderNames { load, with, nested }
}

} // verus!
