//! Names and routes the framework's code generators derive from plain
//! strings: a controller method's route (`#[controller]` with `#[get]`,
//! `#[post]`, ...), and the finder methods generated for each model field
//! and each pair of fields.
use crate::admin::auth::same_text;
use crate::codegen::ModelColumnType;
use crate::text::str_to_string;
use vstd::prelude::*;

verus! {

/// The HTTP method a route attribute names: `get`, `post`, `put`, `patch`
/// or `delete`, upper-cased.
pub open spec fn method_of_attr(attr: Seq<char>) -> Option<Seq<char>> {
    if attr == "get"@ {
        Some("GET"@)
    } else if attr == "post"@ {
        Some("POST"@)
    } else if attr == "put"@ {
        Some("PUT"@)
    } else if attr == "patch"@ {
        Some("PATCH"@)
    } else if attr == "delete"@ {
        Some("DELETE"@)
    } else {
        None
    }
}

/// A controller method's route: the HTTP method its attribute names, and the
/// controller's base path followed by the method's own path; `None` for an
/// attribute that names no route.
pub fn controller_route(base: &str, attr: &str, sub_path: &str) -> (r: Option<(String, String)>)
    ensures
        match method_of_attr(attr@) {
            Some(m) => r matches Some((method, path)) && method@ == m && path@ == base@ + sub_path@,
            None => r is None,
        },
{
    let method = if same_text(attr, "get") {
        "GET"
    } else if same_text(attr, "post") {
        "POST"
    } else if same_text(attr, "put") {
        "PUT"
    } else if same_text(attr, "patch") {
        "PATCH"
    } else if same_text(attr, "delete") {
        "DELETE"
    } else {
        return None;
    };
    let mut path = str_to_string(base);
    path.append(sub_path);
    Some((str_to_string(method), path))
}

/// The name of the generated route wrapper of a handler: `<handler>_wrapper`.
pub fn route_wrapper_name(handler: &str) -> (r: String)
    ensures
        r@ == handler@ + "_wrapper"@,
{
    let mut out = str_to_string(handler);
    out.append("_wrapper");
    out
}

/// `prefix` and `col`.
fn prefixed(prefix: &str, col: &str) -> (r: String)
    ensures
        r@ == prefix@ + col@,
{
    let mut out = str_to_string(prefix);
    out.append(col);
    out
}

/// `prefix`, `col` and `suffix`.
fn wrapped(prefix: &str, col: &str, suffix: &str) -> (r: String)
    ensures
        r@ == prefix@ + col@ + suffix@,
{
    let mut out = str_to_string(prefix);
    out.append(col);
    out.append(suffix);
    out
}

/// The finder methods generated for one field: `find_by_`, `find_one_by_`,
/// `exists_by_`, `delete_by_` and `count_by_` the field, then by column
/// type: `_like` and `_contains` for a string, `_gt`, `_lt` and `_between`
/// for a number, `_gt` and `_lt` for a date-time, `_true` and `_false` for a
/// flag (each after `find_by_<field>`), none more for other types.
pub open spec fn finder_names_spec(col: Seq<char>, ty: ModelColumnType) -> Seq<Seq<char>> {
    let base = seq![
        "find_by_"@ + col,
        "find_one_by_"@ + col,
        "exists_by_"@ + col,
        "delete_by_"@ + col,
        "count_by_"@ + col,
    ];
    let f = "find_by_"@ + col;
    match ty {
        ModelColumnType::String => base + seq![f + "_like"@, f + "_contains"@],
        ModelColumnType::Numeric => base + seq![f + "_gt"@, f + "_lt"@, f + "_between"@],
        ModelColumnType::DateTime => base + seq![f + "_gt"@, f + "_lt"@],
        ModelColumnType::Bool => base + seq![f + "_true"@, f + "_false"@],
        ModelColumnType::Unknown => base,
    }
}

/// The texts of strings.
pub open spec fn name_texts(v: Seq<String>) -> Seq<Seq<char>> {
    v.map_values(|s: String| s@)
}

/// The finder methods generated for one field (see `finder_names_spec`).
pub fn finder_names(col: &str, ty: ModelColumnType) -> (r: Vec<String>)
    ensures
        name_texts(r@) == finder_names_spec(col@, ty),
{
    let mut out: Vec<String> = Vec::new();
    out.push(prefixed("find_by_", col));
    out.push(prefixed("find_one_by_", col));
    out.push(prefixed("exists_by_", col));
    out.push(prefixed("delete_by_", col));
    out.push(prefixed("count_by_", col));
    match ty {
        ModelColumnType::String => {
            out.push(wrapped("find_by_", col, "_like"));
            out.push(wrapped("find_by_", col, "_contains"));
        },
        ModelColumnType::Numeric => {
            out.push(wrapped("find_by_", col, "_gt"));
            out.push(wrapped("find_by_", col, "_lt"));
            out.push(wrapped("find_by_", col, "_between"));
        },
        ModelColumnType::DateTime => {
            out.push(wrapped("find_by_", col, "_gt"));
            out.push(wrapped("find_by_", col, "_lt"));
        },
        ModelColumnType::Bool => {
            out.push(wrapped("find_by_", col, "_true"));
            out.push(wrapped("find_by_", col, "_false"));
        },
        ModelColumnType::Unknown => {},
    }
    assert(name_texts(out@) =~= finder_names_spec(col@, ty));
    out
}

/// The finder methods generated for a pair of fields: `find_by_<a>_and_<b>`,
/// `find_one_by_<a>_and_<b>`, `find_by_<a>_or_<b>`, `exists_by_<a>_and_<b>`
/// and `delete_by_<a>_and_<b>`.
pub open spec fn pair_finder_names_spec(a: Seq<char>, b: Seq<char>) -> Seq<Seq<char>> {
    seq![
        "find_by_"@ + a + "_and_"@ + b,
        "find_one_by_"@ + a + "_and_"@ + b,
        "find_by_"@ + a + "_or_"@ + b,
        "exists_by_"@ + a + "_and_"@ + b,
        "delete_by_"@ + a + "_and_"@ + b,
    ]
}

/// `prefix`, `a`, `mid` and `b`.
fn joined_name(prefix: &str, a: &str, mid: &str, b: &str) -> (r: String)
    ensures
        r@ == prefix@ + a@ + mid@ + b@,
{
    let mut out = str_to_string(prefix);
    out.append(a);
    out.append(mid);
    out.append(b);
    out
}

/// The finder methods generated for a pair of fields (see `pair_finder_names_spec`).
pub fn pair_finder_names(a: &str, b: &str) -> (r: Vec<String>)
    ensures
        name_texts(r@) == pair_finder_names_spec(a@, b@),
{
    let mut out: Vec<String> = Vec::new();
    out.push(joined_name("find_by_", a, "_and_", b));
    out.push(joined_name("find_one_by_", a, "_and_", b));
    out.push(joined_name("find_by_", a, "_or_", b));
    out.push(joined_name("exists_by_", a, "_and_", b));
    out.push(joined_name("delete_by_", a, "_and_", b));
    assert(name_texts(out@) =~= pair_finder_names_spec(a@, b@));
    out
}

} // verus!
