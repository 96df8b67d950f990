//! What `#[derive(GritAdmin)]` decides for a repository: the grid's columns,
//! their labels and which can be edited, the route slug, the model module,
//! and the names the start-up registration uses.  The attribute's tokens are
//! read by the macro crate, which hands these functions plain strings.
use crate::admin::auth::same_text;
use crate::naming::{char_to_uppercase, unicode_uppercase};
use crate::text::{push_char, str_to_string, to_lowercase, unicode_lowercase};
use vstd::prelude::*;
use vstd::string::StrSliceExecFns;

verus! {

/// The texts of strings.
pub open spec fn texts(v: Seq<String>) -> Seq<Seq<char>> {
    v.map_values(|s: String| s@)
}

/// The names without `id`, in order.
pub open spec fn without_id(cols: Seq<Seq<char>>) -> Seq<Seq<char>>
    decreases cols.len(),
{
    if cols.len() == 0 {
        seq![]
    } else if cols.last() == "id"@ {
        without_id(cols.drop_last())
    } else {
        without_id(cols.drop_last()).push(cols.last())
    }
}

/// The grid's columns: those configured, or else `id` and then the
/// searchable columns other than `id`.
pub open spec fn grid_column_names(grid: Seq<Seq<char>>, searchable: Seq<Seq<char>>) -> Seq<Seq<char>> {
    if grid.len() > 0 {
        grid
    } else {
        seq!["id"@] + without_id(searchable)
    }
}

/// A column can be edited unless every column is read-only (the read-only
/// list is exactly `all`), it is `id`, or it is listed as read-only.
pub open spec fn column_editable_spec(col: Seq<char>, read_only: Seq<Seq<char>>) -> bool {
    !(read_only.len() == 1 && read_only[0] == "all"@) && col != "id"@ && !read_only.contains(col)
}

/// A column's label: its first character upper-cased, then the rest; empty
/// for an empty name.
pub open spec fn column_label_spec(col: Seq<char>) -> Seq<char> {
    if col.len() == 0 {
        seq![]
    } else {
        unicode_uppercase(col[0]) + col.skip(1)
    }
}

/// One column of the generated grid.
pub struct AdminColumnPlan {
    pub name: String,
    pub label: String,
    pub is_editable: bool,
}

/// The grid's columns (see `grid_column_names`).
pub fn grid_columns_of(grid: &Vec<String>, searchable: &Vec<String>) -> (r: Vec<String>)
    ensures
        texts(r@) == grid_column_names(texts(grid@), texts(searchable@)),
{
    let mut out: Vec<String> = Vec::new();
    if grid.len() > 0 {
        let mut i: usize = 0;
        while i < grid.len()
            invariant
                i <= grid@.len(),
                texts(out@) == texts(grid@).take(i as int),
            decreases grid@.len() - i,
        {
            let t = str_to_string(grid[i].as_str());
            let ghost before = out@;
            out.push(t);
            assert(out@ == before.push(t));
            assert(texts(out@) =~= texts(before).push(t@));
            assert(texts(grid@).take(i + 1) =~= texts(grid@).take(i as int).push(grid@[i as int]@));
            i = i + 1;
        }
        assert(texts(grid@).take(grid@.len() as int) =~= texts(grid@));
        return out;
    }
    out.push(str_to_string("id"));
    let ghost sv = texts(searchable@);
    let mut i: usize = 0;
    while i < searchable.len()
        invariant
            i <= searchable@.len(),
            sv == texts(searchable@),
            texts(out@) == seq!["id"@] + without_id(sv.take(i as int)),
        decreases searchable@.len() - i,
    {
        proof {
            assert(sv.take(i + 1).drop_last() =~= sv.take(i as int));
            assert(sv.take(i + 1).last() == searchable@[i as int]@);
        }
        if !same_text(searchable[i].as_str(), "id") {
            let t = str_to_string(searchable[i].as_str());
            let ghost before = out@;
            out.push(t);
            assert(out@ == before.push(t));
            assert(texts(out@) =~= texts(before).push(t@));
            assert(texts(out@) =~= seq!["id"@] + without_id(sv.take(i + 1)));
        }
        i = i + 1;
    }
    assert(sv.take(searchable@.len() as int) =~= sv);
    out
}

/// Whether a grid column can be edited (see `column_editable_spec`).
pub fn column_editable(col: &str, read_only: &Vec<String>) -> (r: bool)
    ensures
        r == column_editable_spec(col@, texts(read_only@)),
{
    let ghost rv = texts(read_only@);
    if read_only.len() == 1 && same_text(read_only[0].as_str(), "all") {
        return false;
    }
    if same_text(col, "id") {
        return false;
    }
    let mut i: usize = 0;
    while i < read_only.len()
        invariant
            i <= read_only@.len(),
            rv == texts(read_only@),
            forall|j: int| 0 <= j < i ==> rv[j] != col@,
        decreases read_only@.len() - i,
    {
        if same_text(read_only[i].as_str(), col) {
            assert(rv[i as int] == col@);
            return false;
        }
        i = i + 1;
    }
    true
}

/// A column's label (see `column_label_spec`).
pub fn column_label(col: &str) -> (r: String)
    ensures
        r@ == column_label_spec(col@),
{
    let n = col.unicode_len();
    let mut out = String::new();
    if n == 0 {
        return out;
    }
    let up = char_to_uppercase(col.get_char(0));
    out.append(up.as_str());
    let mut i: usize = 1;
    while i < n
        invariant
            n == col@.len(),
            1 <= i <= n,
            out@ == unicode_uppercase(col@[0]) + col@.subrange(1, i as int),
        decreases n - i,
    {
        let c = col.get_char(i);
        push_char(&mut out, c);
        assert(out@ =~= unicode_uppercase(col@[0]) + col@.subrange(1, i + 1));
        i = i + 1;
    }
    assert(col@.subrange(1, n as int) =~= col@.skip(1));
    out
}

/// The generated grid: each column with its label and whether it can be edited.
pub fn admin_grid_plan(grid: &Vec<String>, searchable: &Vec<String>, read_only: &Vec<String>) -> (r: Vec<AdminColumnPlan>)
    ensures
        r@.len() == grid_column_names(texts(grid@), texts(searchable@)).len(),
        forall|i: int|
            0 <= i < r@.len() ==> {
                let n = grid_column_names(texts(grid@), texts(searchable@))[i];
                &&& (#[trigger] r@[i]).name@ == n
                &&& r@[i].label@ == column_label_spec(n)
                &&& r@[i].is_editable == column_editable_spec(n, texts(read_only@))
            },
{
    let cols = grid_columns_of(grid, searchable);
    let ghost names = grid_column_names(texts(grid@), texts(searchable@));
    let mut out: Vec<AdminColumnPlan> = Vec::new();
    let mut i: usize = 0;
    while i < cols.len()
        invariant
            i <= cols@.len(),
            texts(cols@) == names,
            out@.len() == i,
            forall|j: int|
                0 <= j < i ==> {
                    &&& (#[trigger] out@[j]).name@ == names[j]
                    &&& out@[j].label@ == column_label_spec(names[j])
                    &&& out@[j].is_editable == column_editable_spec(names[j], texts(read_only@))
                },
        decreases cols@.len() - i,
    {
        assert(names[i as int] == cols@[i as int]@);
        let name = str_to_string(cols[i].as_str());
        let label = column_label(cols[i].as_str());
        let is_editable = column_editable(cols[i].as_str(), read_only);
        out.push(AdminColumnPlan { name, label, is_editable });
        i = i + 1;
    }
    out
}

/// `str::replace(w, "")` for a non-empty `w`: every occurrence of `w`, read
/// from the left without overlaps, removed.
pub open spec fn remove_word(s: Seq<char>, w: Seq<char>) -> Seq<char>
    decreases s.len(),
{
    if s.len() == 0 {
        seq![]
    } else if w.len() > 0 && s.len() >= w.len() && s.take(w.len() as int) == w {
        remove_word(s.skip(w.len() as int), w)
    } else {
        seq![s[0]] + remove_word(s.skip(1), w)
    }
}

/// The route slug of a repository: its type name without `Repository`, lower-cased.
pub open spec fn slug_spec(name: Seq<char>) -> Seq<char> {
    unicode_lowercase(remove_word(name, "Repository"@))
}

/// Does `w` occur in `s` at `i`?
fn word_at(s: &str, n: usize, i: usize, w: &str) -> (r: bool)
    requires
        n == s@.len(),
        i <= n,
    ensures
        r == (n - i >= w@.len() && s@.skip(i as int).take(w@.len() as int) == w@),
{
    let m = w.unicode_len();
    if n - i < m {
        return false;
    }
    let mut k: usize = 0;
    while k < m
        invariant
            n == s@.len(),
            m == w@.len(),
            i + m <= n,
            k <= m,
            forall|j: int| 0 <= j < k ==> s@[i + j] == w@[j],
        decreases m - k,
    {
        if s.get_char(i + k) != w.get_char(k) {
            assert(s@.skip(i as int).take(m as int)[k as int] != w@[k as int]);
            return false;
        }
        k = k + 1;
    }
    assert(s@.skip(i as int).take(m as int) =~= w@);
    true
}

/// `name.replace(w, "")` for a non-empty `w`.
pub fn remove_all(name: &str, w: &str) -> (r: String)
    requires
        w@.len() > 0,
    ensures
        r@ == remove_word(name@, w@),
{
    let n = name.unicode_len();
    let m = w.unicode_len();
    let mut out = String::new();
    let mut i: usize = 0;
    assert(name@.skip(0) =~= name@);
    assert(out@ + remove_word(name@, w@) =~= remove_word(name@, w@));
    while i < n
        invariant
            n == name@.len(),
            m == w@.len(),
            m > 0,
            i <= n,
            remove_word(name@, w@) == out@ + remove_word(name@.skip(i as int), w@),
        decreases n - i,
    {
        let ghost rest = name@.skip(i as int);
        if word_at(name, n, i, w) {
            assert(rest.skip(m as int) =~= name@.skip(i + m));
            i = i + m;
        } else {
            let c = name.get_char(i);
            assert(rest.skip(1) =~= name@.skip(i + 1));
            assert(rest[0] == c);
            push_char(&mut out, c);
            assert(out@ + remove_word(name@.skip(i + 1), w@) =~= (out@.drop_last() + (seq![c]
                + remove_word(rest.skip(1), w@))));
            i = i + 1;
        }
    }
    assert(name@.skip(n as int) =~= Seq::<char>::empty());
    assert(out@ + Seq::<char>::empty() =~= out@);
    out
}

/// The route slug of a repository (see `slug_spec`).
pub fn registration_slug(name: &str) -> (r: String)
    ensures
        r@ == slug_spec(name@),
{
    proof {
        reveal_strlit("Repository");
    }
    let base = remove_all(name, "Repository");
    to_lowercase(base.as_str())
}

/// The model module a repository uses when none is configured:
/// `crate::models::<slug>`.
pub fn default_entity_module(name: &str) -> (r: String)
    ensures
        r@ == "crate::models::"@ + slug_spec(name@),
{
    let slug = registration_slug(name);
    let mut out = str_to_string("crate::models::");
    out.append(slug.as_str());
    out
}

/// A model path inside the framework's own admin starts `crate::gritadmin`.
pub fn is_internal_entity(path: &Option<Vec<String>>) -> (r: bool)
    ensures
        r == match path {
            Some(p) => p@.len() >= 2 && p@[0]@ == "crate"@ && p@[1]@ == "gritadmin"@,
            None => false,
        },
{
    match path {
        Some(p) => p.len() >= 2 && same_text(p[0].as_str(), "crate") && same_text(p[1].as_str(), "gritadmin"),
        None => false,
    }
}

/// The path the generated code names the framework by: `crate` inside it,
/// `::gritshield` outside.
pub fn crate_root(internal: bool) -> (r: &'static str)
    ensures
        r@ == (if internal {
            "crate"@
        } else {
            "::gritshield"@
        }),
{
    if internal {
        "crate"
    } else {
        "::gritshield"
    }
}

/// The name of the start-up function that registers a repository: `init_meta_<slug>`.
pub fn initializer_name(slug: &str) -> (r: String)
    ensures
        r@ == "init_meta_"@ + slug@,
{
    let mut out = str_to_string("init_meta_");
    out.append(slug);
    out
}

/// A table name with `_` turned into `-`.
pub open spec fn kebab(s: Seq<char>) -> Seq<char> {
    s.map_values(|c: char| if c == '_' { '-' } else { c })
}

/// The admin route of a table: `/admin/` and the table name with `_` turned into `-`.
pub fn admin_route_path(table_name: &str) -> (r: String)
    ensures
        r@ == "/admin/"@ + kebab(table_name@),
{
    let n = table_name.unicode_len();
    let mut out = str_to_string("/admin/");
    let mut i: usize = 0;
    while i < n
        invariant
            n == table_name@.len(),
            i <= n,
            out@ == "/admin/"@ + kebab(table_name@.take(i as int)),
        decreases n - i,
    {
        let c = table_name.get_char(i);
        if c == '_' {
            push_char(&mut out, '-');
        } else {
            push_char(&mut out, c);
        }
        assert(kebab(table_name@.take(i + 1)) =~= kebab(table_name@.take(i as int)).push(
            if c == '_' { '-' } else { c },
        ));
        i = i + 1;
    }
    assert(table_name@.take(n as int) =~= table_name@);
    out
}

/// The text without its underscores.
pub open spec fn strip_underscores(s: Seq<char>) -> Seq<char>
    decreases s.len(),
{
    if s.len() == 0 {
        seq![]
    } else if s.last() == '_' {
        strip_underscores(s.drop_last())
    } else {
        strip_underscores(s.drop_last()).push(s.last())
    }
}

/// The sidebar entry of a registered table: its first character
/// upper-cased, the rest, then ` Records`, with every underscore removed.
pub open spec fn sidebar_label_spec(name: Seq<char>) -> Seq<char> {
    strip_underscores(unicode_uppercase(name[0]) + name.skip(1) + " Records"@)
}

/// The sidebar entry of a registered table whose name starts with a
/// one-byte character (see `sidebar_label_spec`).
pub fn sidebar_label(name: &str) -> (r: String)
    requires
        name@.len() > 0,
        (name@[0] as u32) < 128,
    ensures
        r@ == sidebar_label_spec(name@),
{
    let n = name.unicode_len();
    let mut full = char_to_uppercase(name.get_char(0));
    let mut i: usize = 1;
    while i < n
        invariant
            n == name@.len(),
            1 <= i <= n,
            full@ == unicode_uppercase(name@[0]) + name@.subrange(1, i as int),
        decreases n - i,
    {
        push_char(&mut full, name.get_char(i));
        assert(full@ =~= unicode_uppercase(name@[0]) + name@.subrange(1, i + 1));
        i = i + 1;
    }
    assert(name@.subrange(1, n as int) =~= name@.skip(1));
    full.append(" Records");
    let m = full.as_str().unicode_len();
    let ghost fv = full@;
    let mut out = String::new();
    let mut j: usize = 0;
    while j < m
        invariant
            m == fv.len(),
            fv == full@,
            j <= m,
            out@ == strip_underscores(fv.take(j as int)),
        decreases m - j,
    {
        let c = full.as_str().get_char(j);
        proof {
            assert(fv.take(j + 1).drop_last() =~= fv.take(j as int));
            assert(fv.take(j + 1).last() == c);
        }
        if c != '_' {
            push_char(&mut out, c);
        }
        j = j + 1;
    }
    assert(fv.take(m as int) =~= fv);
    out
}

} // verus!
