//! Changing the schema from the dashboard: creating a table and adding a
//! column.  The database statements themselves are built and run by the
//! caller; this module decides names, column kinds, refusals and what the
//! dashboard reports back.
use crate::naming::{clean_identifier, clean_name, pascal_case, to_pascal_case};
use crate::security::{html_encode_safe, html_escape};
use crate::text::{lemma_chars_of, lemma_sbytes_injective, sbytes, str_bytes, str_to_string};
use crate::multimap::bytes_equal;
use vstd::prelude::*;
use vstd::utf8::decode_utf8;

verus! {

broadcast use vstd::utf8::encode_utf8_valid_utf8;

/// A column asked for in the create-table form: its name and its type word.
pub struct DynamicColumnSpec {
    pub name: String,
    pub column_type: String,
}

/// A column as text: name and type word.
pub open spec fn column_view(c: DynamicColumnSpec) -> (Seq<char>, Seq<char>) {
    (c.name@, c.column_type@)
}

/// The columns as text.
pub open spec fn columns_view(cs: Seq<DynamicColumnSpec>) -> Seq<(Seq<char>, Seq<char>)> {
    cs.map_values(|c: DynamicColumnSpec| column_view(c))
}

/// The storage kind of a column.
#[derive(PartialEq, Eq, Structural, Clone, Copy, Debug)]
pub enum ColumnKind {
    Integer,
    Boolean,
    DateTime,
    Float,
    Text,
}

/// The kind a type word of the form names: `int`, `bool`, `datetime`,
/// `float`; anything else is text.
pub open spec fn column_kind_of(t: Seq<char>) -> ColumnKind {
    if t == "int"@ {
        ColumnKind::Integer
    } else if t == "bool"@ {
        ColumnKind::Boolean
    } else if t == "datetime"@ {
        ColumnKind::DateTime
    } else if t == "float"@ {
        ColumnKind::Float
    } else {
        ColumnKind::Text
    }
}

/// Is `a` the text `b`?
fn is_text(a: &str, b: &str) -> (r: bool)
    ensures
        r == (a@ == b@),
{
    proof {
        lemma_sbytes_injective(a@, b@);
    }
    bytes_equal(str_bytes(a), str_bytes(b))
}

/// The kind of column a type word of the form asks for.
pub fn column_kind(t: &str) -> (r: ColumnKind)
    ensures
        r == column_kind_of(t@),
{
    if is_text(t, "int") {
        ColumnKind::Integer
    } else if is_text(t, "bool") {
        ColumnKind::Boolean
    } else if is_text(t, "datetime") {
        ColumnKind::DateTime
    } else if is_text(t, "float") {
        ColumnKind::Float
    } else {
        ColumnKind::Text
    }
}

/// The message for a blank table name.
pub const BLANK_TABLE_NAME: &'static str = "Table name cannot be blank";

/// The cleaned-up name of a table to create (trimmed, lower-cased), or the
/// refusal of a blank one.
pub fn prepare_table_name(table_name: &str) -> (r: Result<String, String>)
    ensures
        match r {
            Ok(n) => n@ == clean_name(table_name@) && n@.len() > 0,
            Err(e) => clean_name(table_name@).len() == 0 && e@ == BLANK_TABLE_NAME@,
        },
{
    let clean = clean_identifier(table_name);
    if str_bytes(clean.as_str()).len() == 0 {
        return Err(str_to_string(BLANK_TABLE_NAME));
    }
    Ok(clean)
}

/// The database engines the dashboard can talk to.
#[derive(PartialEq, Eq, Structural, Clone, Copy, Debug)]
pub enum DbBackend {
    Postgres,
    MySql,
    Sqlite,
}

pub const PG_EXISTS_HEAD: &'static str = "SELECT EXISTS (SELECT FROM information_schema.tables WHERE table_name = '";
pub const PG_EXISTS_TAIL: &'static str = "');";
pub const MYSQL_EXISTS_HEAD: &'static str = "SELECT COUNT(*) FROM information_schema.tables WHERE table_name = '";
pub const MYSQL_EXISTS_TAIL: &'static str = "' AND table_schema = DATABASE();";
pub const SQLITE_EXISTS_HEAD: &'static str = "SELECT COUNT(*) FROM sqlite_master WHERE type='table' AND name='";
pub const SQLITE_EXISTS_TAIL: &'static str = "';";

/// The query that tells whether a table of this name exists.
pub open spec fn table_exists_query(backend: DbBackend, name: Seq<char>) -> Seq<char> {
    match backend {
        DbBackend::Postgres => PG_EXISTS_HEAD@ + name + PG_EXISTS_TAIL@,
        DbBackend::MySql => MYSQL_EXISTS_HEAD@ + name + MYSQL_EXISTS_TAIL@,
        DbBackend::Sqlite => SQLITE_EXISTS_HEAD@ + name + SQLITE_EXISTS_TAIL@,
    }
}

/// `head`, `middle` and `tail` run together.
fn concat3(head: &str, middle: &str, tail: &str) -> (r: String)
    ensures
        r@ == head@ + middle@ + tail@,
{
    let mut r = str_to_string(head);
    r.append(middle);
    r.append(tail);
    r
}

/// The query, for `backend`, that tells whether a table named `name` exists.
pub fn table_exists_sql(backend: DbBackend, name: &str) -> (r: String)
    ensures
        r@ == table_exists_query(backend, name@),
{
    match backend {
        DbBackend::Postgres => concat3(PG_EXISTS_HEAD, name, PG_EXISTS_TAIL),
        DbBackend::MySql => concat3(MYSQL_EXISTS_HEAD, name, MYSQL_EXISTS_TAIL),
        DbBackend::Sqlite => concat3(SQLITE_EXISTS_HEAD, name, SQLITE_EXISTS_TAIL),
    }
}

pub const CONFLICT_HEAD: &'static str = "Conflict: Table '";
pub const CONFLICT_TAIL: &'static str = "' already exists in the database schema.";

/// The refusal of a table name already in use.
pub fn table_conflict_message(name: &str) -> (r: String)
    ensures
        r@ == CONFLICT_HEAD@ + name@ + CONFLICT_TAIL@,
{
    concat3(CONFLICT_HEAD, name, CONFLICT_TAIL)
}

/// A column of the table to create: its cleaned-up name and its kind.
pub struct PlannedColumn {
    pub name: String,
    pub kind: ColumnKind,
}

/// The columns a table gets besides its `id`: each asked-for column with its
/// name cleaned up (trimmed, lower-cased), in order; blank names and `id`
/// are passed over.
pub open spec fn planned_columns(cs: Seq<(Seq<char>, Seq<char>)>) -> Seq<(Seq<char>, ColumnKind)>
    decreases cs.len(),
{
    if cs.len() == 0 {
        seq![]
    } else {
        let rest = planned_columns(cs.drop_last());
        let n = clean_name(cs.last().0);
        if n.len() == 0 || n == "id"@ {
            rest
        } else {
            rest.push((n, column_kind_of(cs.last().1)))
        }
    }
}

/// The planned columns as text and kind.
pub open spec fn planned_view(ps: Seq<PlannedColumn>) -> Seq<(Seq<char>, ColumnKind)> {
    ps.map_values(|p: PlannedColumn| (p.name@, p.kind))
}

/// The columns to create for the asked-for ones.
pub fn plan_columns(columns: &Vec<DynamicColumnSpec>) -> (r: Vec<PlannedColumn>)
    ensures
        planned_view(r@) == planned_columns(columns_view(columns@)),
{
    let mut out: Vec<PlannedColumn> = Vec::new();
    let mut i: usize = 0;
    while i < columns.len()
        invariant
            i <= columns@.len(),
            planned_view(out@) == planned_columns(columns_view(columns@).take(i as int)),
        decreases columns@.len() - i,
    {
        let c = &columns[i];
        let ghost t = columns_view(columns@).take(i + 1);
        assert(t.drop_last() =~= columns_view(columns@).take(i as int));
        assert(t.last() == column_view(*c));
        let ghost before = out@;
        let n = clean_identifier(c.name.as_str());
        if str_bytes(n.as_str()).len() > 0 && !is_text(n.as_str(), "id") {
            let kind = column_kind(c.column_type.as_str());
            out.push(PlannedColumn { name: n, kind });
            assert(planned_view(out@) =~= planned_view(before).push((out@.last().name@, kind)));
        }
        assert(planned_view(out@) =~= planned_columns(t));
        i = i + 1;
    }
    assert(columns_view(columns@).take(columns@.len() as int) =~= columns_view(columns@));
    out
}

/// The Rust type the model gets for a type word of the form.
pub open spec fn rust_type_of(t: Seq<char>) -> Seq<char> {
    if t == "string"@ {
        "String"@
    } else if t == "int"@ {
        "i32"@
    } else if t == "bool"@ {
        "bool"@
    } else if t == "datetime"@ {
        "chrono::NaiveDateTime"@
    } else if t == "float"@ {
        "f32"@
    } else {
        "String"@
    }
}

/// The Rust type for a type word.
fn rust_type(t: &str) -> (r: &'static str)
    ensures
        r@ == rust_type_of(t@),
{
    if is_text(t, "string") {
        "String"
    } else if is_text(t, "int") {
        "i32"
    } else if is_text(t, "bool") {
        "bool"
    } else if is_text(t, "datetime") {
        "chrono::NaiveDateTime"
    } else if is_text(t, "float") {
        "f32"
    } else {
        "String"
    }
}

pub const ID_FIELD: &'static str = "    #[sea_orm(primary_key)]\n    pub id: i32,\n";
pub const FIELD_HEAD: &'static str = "    pub ";
pub const FIELD_SEP: &'static str = ": ";
pub const FIELD_TAIL: &'static str = ",\n";
pub const QUOTE: &'static str = "\"";
pub const LIST_SEP: &'static str = ", ";

/// The fields of the generated model: the `id` key, then one field per
/// asked-for column, under the name as typed.
pub open spec fn model_fields(cs: Seq<(Seq<char>, Seq<char>)>) -> Seq<char>
    decreases cs.len(),
{
    if cs.len() == 0 {
        ID_FIELD@
    } else {
        model_fields(cs.drop_last()) + FIELD_HEAD@ + cs.last().0 + FIELD_SEP@ + rust_type_of(cs.last().1)
            + FIELD_TAIL@
    }
}

/// A name in double quotes.
pub open spec fn quoted(n: Seq<char>) -> Seq<char> {
    QUOTE@ + n + QUOTE@
}

/// The grid columns of the generated repository: `"id"`, then every asked-for column.
pub open spec fn grid_entries(cs: Seq<(Seq<char>, Seq<char>)>) -> Seq<Seq<char>>
    decreases cs.len(),
{
    if cs.len() == 0 {
        seq![quoted("id"@)]
    } else {
        grid_entries(cs.drop_last()).push(quoted(cs.last().0))
    }
}

/// The searchable columns of the generated repository: those of type `string`.
pub open spec fn searchable_entries(cs: Seq<(Seq<char>, Seq<char>)>) -> Seq<Seq<char>>
    decreases cs.len(),
{
    if cs.len() == 0 {
        seq![]
    } else if cs.last().1 == "string"@ {
        searchable_entries(cs.drop_last()).push(quoted(cs.last().0))
    } else {
        searchable_entries(cs.drop_last())
    }
}

/// Texts joined by a separator.
pub open spec fn join_text(parts: Seq<Seq<char>>, sep: Seq<char>) -> Seq<char>
    decreases parts.len(),
{
    if parts.len() == 0 {
        seq![]
    } else if parts.len() == 1 {
        parts[0]
    } else {
        join_text(parts.drop_last(), sep) + sep + parts.last()
    }
}

pub const SNIPPET_0: &'static str = "\n// Add this boilerplate code block to your entities module\n\n#[derive(Clone, Debug, PartialEq, DeriveEntityModel, serde::Serialize, serde::Deserialize)]\n#[sea_orm(table_name = \"";
pub const SNIPPET_1: &'static str = "\")]\npub struct Model {\n";
pub const SNIPPET_2: &'static str = "\n}\n\n#[derive(Copy, Clone, Debug, EnumIter, DeriveRelation)]\npub enum Relation {}\n\nimpl ActiveModelBehavior for ActiveModel {}\n\n// GritAdmin Repository Macro Definition\n\n#[derive(GritAdmin)]\n#[repository(\n    searchable = [";
pub const SNIPPET_3: &'static str = "],\n    grid_columns = [";
pub const SNIPPET_4: &'static str = "],\n    read_only = [\"id\"]\n)]\npub struct ";
pub const SNIPPET_5: &'static str = "Repository;\n";

/// The model and repository code the dashboard offers for a new table.
pub open spec fn model_snippet(table: Seq<char>, cs: Seq<(Seq<char>, Seq<char>)>) -> Seq<char> {
    SNIPPET_0@ + table + SNIPPET_1@ + model_fields(cs) + SNIPPET_2@ + join_text(
        searchable_entries(cs),
        LIST_SEP@,
    ) + SNIPPET_3@ + join_text(grid_entries(cs), LIST_SEP@) + SNIPPET_4@ + pascal_case(table)
        + SNIPPET_5@
}

pub const REPORT_0: &'static str = "<div class=\"space-y-4 animate-slide-in\">\n                    <div class=\"p-4 bg-emerald-950/20 border border-emerald-800/50 text-emerald-400 rounded-xl text-sm font-medium\">\n                        ✨ Successfully deployed live table <code>";
pub const REPORT_1: &'static str = "</code>.\n                    </div>\n                    \n                    <div class=\"bg-gray-950 border border-gray-800 rounded-xl overflow-hidden shadow-2xl\">\n                        <div class=\"bg-gray-900 px-4 py-2 border-b border-gray-800 flex justify-between items-center\">\n                            <span class=\"text-xxs font-mono uppercase tracking-wider text-gray-500\">GritAdmin Macro Architecture</span>\n                            <button onclick=\"copyToClipboard(this, 'generated-code-block')\"                        \n                                class=\"text-xxs font-mono bg-gray-850 hover:bg-gray-800 text-gray-300 px-2 py-1 rounded transition border border-gray-700\">\n                                Copy\n                            </button>\n                        </div>\n                        <pre id=\"generated-code-block\" class=\"p-4 text-xs font-mono text-gray-300 overflow-x-auto selection:bg-emerald-800/40 select-text bg-gray-950/40\"><code>";
pub const REPORT_2: &'static str = "</code></pre>\n                    </div>\n                </div>";

/// The dashboard's report on a created table: a notice naming it, and the
/// generated code, HTML-escaped, ready to copy.
pub open spec fn new_table_report_text(table: Seq<char>, cs: Seq<(Seq<char>, Seq<char>)>) -> Seq<char> {
    REPORT_0@ + table + REPORT_1@ + decode_utf8(html_escape(sbytes(model_snippet(table, cs))))
        + REPORT_2@
}

/// Appends the texts joined by `sep`.
fn append_joined_text(out: &mut String, parts: &Vec<String>, sep: &str)
    ensures
        final(out)@ == old(out)@ + join_text(parts@.map_values(|s: String| s@), sep@),
{
    let ghost start = out@;
    let ghost pv = parts@.map_values(|s: String| s@);
    let mut i: usize = 0;
    while i < parts.len()
        invariant
            i <= parts@.len(),
            pv == parts@.map_values(|s: String| s@),
            out@ == start + join_text(pv.take(i as int), sep@),
        decreases parts@.len() - i,
    {
        if i > 0 {
            out.append(sep);
        }
        out.append(parts[i].as_str());
        proof {
            let t = pv.take(i + 1);
            assert(t.drop_last() =~= pv.take(i as int));
            if i == 0 {
                assert(pv.take(0).len() == 0);
                assert(out@ =~= start + join_text(t, sep@));
            } else {
                assert(out@ =~= start + join_text(t, sep@));
            }
        }
        i = i + 1;
    }
    assert(pv.take(parts@.len() as int) =~= pv);
}

/// A name in double quotes.
fn quote(n: &str) -> (r: String)
    ensures
        r@ == quoted(n@),
{
    concat3(QUOTE, n, QUOTE)
}

/// The model and repository code for a new table `table` with the asked-for columns.
pub fn model_snippet_for(table: &str, columns: &Vec<DynamicColumnSpec>) -> (r: String)
    ensures
        r@ == model_snippet(table@, columns_view(columns@)),
{
    let ghost cv = columns_view(columns@);
    let mut fields = str_to_string(ID_FIELD);
    let mut grid: Vec<String> = Vec::new();
    grid.push(quote("id"));
    let mut searchable: Vec<String> = Vec::new();
    let mut i: usize = 0;
    proof {
        assert(grid@.map_values(|s: String| s@) =~= grid_entries(cv.take(0)));
        assert(searchable@.map_values(|s: String| s@) =~= searchable_entries(cv.take(0)));
    }
    while i < columns.len()
        invariant
            i <= columns@.len(),
            cv == columns_view(columns@),
            fields@ == model_fields(cv.take(i as int)),
            grid@.map_values(|s: String| s@) == grid_entries(cv.take(i as int)),
            searchable@.map_values(|s: String| s@) == searchable_entries(cv.take(i as int)),
        decreases columns@.len() - i,
    {
        let c = &columns[i];
        let ghost t = cv.take(i + 1);
        assert(t.drop_last() =~= cv.take(i as int));
        assert(t.last() == column_view(*c));
        let ghost g0 = grid@;
        let ghost s0 = searchable@;
        let ty = c.column_type.as_str();
        if is_text(ty, "string") {
            searchable.push(quote(c.name.as_str()));
            assert(searchable@.map_values(|s: String| s@) =~= s0.map_values(|s: String| s@).push(
                quoted(c.name@),
            ));
        } else {
            assert(searchable@.map_values(|s: String| s@) =~= s0.map_values(|s: String| s@));
        }
        fields.append(FIELD_HEAD);
        fields.append(c.name.as_str());
        fields.append(FIELD_SEP);
        fields.append(rust_type(ty));
        fields.append(FIELD_TAIL);
        grid.push(quote(c.name.as_str()));
        assert(grid@.map_values(|s: String| s@) =~= g0.map_values(|s: String| s@).push(
            quoted(c.name@),
        ));
        i = i + 1;
    }
    assert(cv.take(columns@.len() as int) =~= cv);
    let mut out = str_to_string(SNIPPET_0);
    out.append(table);
    out.append(SNIPPET_1);
    out.append(fields.as_str());
    out.append(SNIPPET_2);
    append_joined_text(&mut out, &searchable, LIST_SEP);
    out.append(SNIPPET_3);
    append_joined_text(&mut out, &grid, LIST_SEP);
    out.append(SNIPPET_4);
    let repo = to_pascal_case(table);
    out.append(repo.as_str());
    out.append(SNIPPET_5);
    out
}

/// The dashboard's report on a created table.
pub fn new_table_report(table: &str, columns: &Vec<DynamicColumnSpec>) -> (r: String)
    ensures
        r@ == new_table_report_text(table@, columns_view(columns@)),
{
    let snippet = model_snippet_for(table, columns);
    let escaped = html_encode_safe(snippet.as_str());
    proof {
        lemma_chars_of(escaped@, html_escape(sbytes(snippet@)));
    }
    let mut out = str_to_string(REPORT_0);
    out.append(table);
    out.append(REPORT_1);
    out.append(escaped.as_str());
    out.append(REPORT_2);
    out
}

/// The refusal of a blank column name.
pub const EMPTY_COLUMN_NAME: &'static str = "Column name input parameter field cannot be empty.";

/// The refusal of a column name that cleans up to nothing or to `id`.
pub const RESTRICTED_COLUMN_NAME: &'static str = "Invalid or restricted column name choice.";

/// A column to add to an existing table (it is added as nullable).
pub struct AddColumnPlan {
    pub table: String,
    pub column: String,
    pub kind: ColumnKind,
}

/// The outcome of an add-column request: the plan, or the refusal.
pub open spec fn add_column_outcome(table: Seq<char>, col: Seq<char>, col_type: Seq<char>) -> Result<(Seq<char>, Seq<char>, ColumnKind), Seq<char>> {
    if crate::lex::trim(sbytes(col)).len() == 0 {
        Err(EMPTY_COLUMN_NAME@)
    } else if clean_name(col).len() == 0 || clean_name(col) == "id"@ {
        Err(RESTRICTED_COLUMN_NAME@)
    } else {
        Ok((clean_name(table), clean_name(col), column_kind_of(col_type)))
    }
}

impl AddColumnPlan {
    /// Reads an add-column request: a blank column name is refused, so is one
    /// that cleans up to nothing or to `id`; otherwise table and column names
    /// are cleaned up (trimmed, lower-cased) and the type word gives the kind.
    pub fn from_request(table_name: &str, column_name: &str, column_type: &str) -> (r: Result<AddColumnPlan, String>)
        ensures
            match (r, add_column_outcome(table_name@, column_name@, column_type@)) {
                (Ok(p), Ok(q)) => p.table@ == q.0 && p.column@ == q.1 && p.kind == q.2,
                (Err(e), Err(f)) => e@ == f,
                _ => false,
            },
    {
        let cb = str_bytes(column_name);
        let (lo, hi) = crate::lex::trim_bounds(cb, 0, cb.len());
        assert(cb@.subrange(0, cb@.len() as int) =~= cb@);
        if lo == hi {
            assert(cb@.subrange(lo as int, hi as int).len() == 0);
            return Err(str_to_string(EMPTY_COLUMN_NAME));
        }
        let column = clean_identifier(column_name);
        if str_bytes(column.as_str()).len() == 0 || is_text(column.as_str(), "id") {
            return Err(str_to_string(RESTRICTED_COLUMN_NAME));
        }
        let table = clean_identifier(table_name);
        let kind = column_kind(column_type);
        Ok(AddColumnPlan { table, column, kind })
    }

    /// The success notice: which column (with its type word) went into which table.
    pub fn report(&self, column_type: &str) -> (r: String)
        ensures
            r@ == "Successfully appended column '"@ + self.column@ + "' ("@ + column_type@
                + ") to table '"@ + self.table@
                + "'. Make sure to add it to your struct entity file!"@,
    {
        let mut out = str_to_string("Successfully appended column '");
        out.append(self.column.as_str());
        out.append("' (");
        out.append(column_type);
        out.append(") to table '");
        out.append(self.table.as_str());
        out.append("'. Make sure to add it to your struct entity file!");
        out
    }
}

/// The response to an add-column request, from its outcome (the success
/// notice, or the refusal of the request or of the database): a refusal as
/// an error response, success as an empty `200` with the fixed success toast.
pub fn add_column_response(outcome: &Result<String, String>) -> (r: crate::http::response::Response)
    ensures
        match outcome {
            Ok(_) => r.status == 200 && r.body@ == Seq::<char>::empty() && r.headers@.len() == 1
                && r.headers@[0].0@ == "hx-trigger"@ && r.headers@[0].1@
                == crate::admin::responses::success_trigger(),
            Err(e) => r.status == 400 && r.body@ == e@ && r.headers@.len() == 1 && r.headers@[0].0@
                == "hx-trigger"@ && sbytes(r.headers@[0].1@) == crate::admin::responses::error_trigger(
                sbytes(e@),
            ),
        },
{
    match outcome {
        Ok(_) => {
            proof {
                reveal_strlit("");
            }
            crate::admin::responses::success_response("")
        },
        Err(e) => crate::admin::responses::error_response(e.as_str()),
    }
}

/// The notice for a schema change the database refused.
pub fn schema_failure_message(error: &str) -> (r: String)
    ensures
        r@ == "Schema modification failed: "@ + error@,
{
    let mut out = str_to_string("Schema modification failed: ");
    out.append(error);
    out
}

/// The notice for a table the database refused to create.
pub fn create_failure_message(error: &str) -> (r: String)
    ensures
        r@ == "Database schema execution failure: "@ + error@,
{
    let mut out = str_to_string("Database schema execution failure: ");
    out.append(error);
    out
}

} // verus!
