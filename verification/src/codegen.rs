//! The decisions behind the framework's code generators: how a model field's
//! type maps to a column type, and how the arguments of the `#[job]`,
//! `#[catch]` and `#[action]` attributes are read.  Arguments arrive already
//! split into `key = literal` pairs.
use crate::lex::parse_unsigned_range;
use crate::multimap::bytes_equal;
use crate::text::{lemma_sbytes_injective, sbytes, str_bytes, str_to_string, string_bytes};
use vstd::prelude::*;

verus! {

/// The column type a model field maps to.
#[derive(PartialEq, Eq, Structural, Clone, Copy, Debug)]
pub enum ModelColumnType {
    String,
    Numeric,
    DateTime,
    Bool,
    Unknown,
}

/// The column type for the last path segment of a field's type (`None`
/// where the type is not a path): `String`/`str` are strings, `bool` is a
/// flag, the integer and float types and `Decimal` are numeric, the chrono
/// date and time types are date-times, anything else is unknown.
pub open spec fn column_type_of(segment: Option<Seq<char>>) -> ModelColumnType {
    match segment {
        Some(s) => if s == "String"@ || s == "str"@ {
            ModelColumnType::String
        } else if s == "bool"@ {
            ModelColumnType::Bool
        } else if s == "i8"@ || s == "i16"@ || s == "i32"@ || s == "i64"@ || s == "i128"@ || s
            == "isize"@ || s == "u8"@ || s == "u16"@ || s == "u32"@ || s == "u64"@ || s == "u128"@
            || s == "usize"@ || s == "f32"@ || s == "f64"@ || s == "Decimal"@ {
            ModelColumnType::Numeric
        } else if s == "NaiveDateTime"@ || s == "DateTime"@ || s == "NaiveDate"@ || s
            == "NaiveTime"@ {
            ModelColumnType::DateTime
        } else {
            ModelColumnType::Unknown
        },
        None => ModelColumnType::Unknown,
    }
}

/// Is `a` the text `b`?
fn is_text(a: &str, b: &str) -> (r: bool)
    ensures
        r == (a@ == b@),
{
    proof {
        lemma_sbytes_injective(a@, b@);
    }
    bytes_equal(str_bytes(a), str_bytes(b))
}

/// The column type of a field, from the last path segment of its type.
pub fn type_to_column_type(last_segment: Option<&str>) -> (r: ModelColumnType)
    ensures
        r == column_type_of(
            match last_segment {
                Some(s) => Some(s@),
                None => None,
            },
        ),
{
    match last_segment {
        Some(s) => if is_text(s, "String") || is_text(s, "str") {
            ModelColumnType::String
        } else if is_text(s, "bool") {
            ModelColumnType::Bool
        } else if is_text(s, "i8") || is_text(s, "i16") || is_text(s, "i32") || is_text(s, "i64")
            || is_text(s, "i128") || is_text(s, "isize") || is_text(s, "u8") || is_text(s, "u16")
            || is_text(s, "u32") || is_text(s, "u64") || is_text(s, "u128") || is_text(s, "usize")
            || is_text(s, "f32") || is_text(s, "f64") || is_text(s, "Decimal") {
            ModelColumnType::Numeric
        } else if is_text(s, "NaiveDateTime") || is_text(s, "DateTime") || is_text(s, "NaiveDate")
            || is_text(s, "NaiveTime") {
            ModelColumnType::DateTime
        } else {
            ModelColumnType::Unknown
        },
        None => ModelColumnType::Unknown,
    }
}

/// The literal of an attribute argument.
pub enum AttrValue {
    /// A string literal, by its value.
    Str(String),
    /// An integer literal, by its base-10 digits.
    Int(String),
}

/// A `key = literal` argument of an attribute.
pub struct AttrArg {
    pub key: String,
    pub value: AttrValue,
}

/// Why the arguments of an attribute were refused.
pub enum AttrError {
    /// The argument needs a string literal.
    ExpectedString,
    /// The argument needs an integer literal.
    ExpectedInteger,
    /// The integer does not fit its type.
    IntegerOutOfRange,
    /// The `cron` argument is not a valid schedule; the parser's reason.
    InvalidCron { expr: String, reason: String },
    /// A key the attribute does not know.
    UnknownArgument { key: String },
    /// `#[catch]` without `status`.
    MissingStatus,
    /// A key the attribute does not know, where the parser then expects the
    /// next key and finds the literal.
    ExpectedIdentifier,
}

/// An argument as text: its key, and its literal (`true` for a string).
pub type ArgView = (Seq<char>, bool, Seq<char>);

/// The arguments as text.
pub open spec fn args_view(args: Seq<AttrArg>) -> Seq<ArgView> {
    args.map_values(|a: AttrArg| arg_view(a))
}

/// What the error is, as text-free data: its kind and its texts.
pub open spec fn error_view(e: AttrError) -> (int, Seq<char>, Seq<char>) {
    match e {
        AttrError::ExpectedString => (0, seq![], seq![]),
        AttrError::ExpectedInteger => (1, seq![], seq![]),
        AttrError::IntegerOutOfRange => (2, seq![], seq![]),
        AttrError::InvalidCron { expr, reason } => (3, expr@, reason@),
        AttrError::UnknownArgument { key } => (4, key@, seq![]),
        AttrError::MissingStatus => (5, seq![], seq![]),
        AttrError::ExpectedIdentifier => (6, seq![], seq![]),
    }
}

/// The reason the `cron` crate gives for refusing a schedule, or `None`
/// where it accepts it.
pub uninterp spec fn cron_parse_error(expr: Seq<char>) -> Option<Seq<char>>;

/// `cron::Schedule::from_str` from the cron crate, reduced to whether it
/// accepts the expression and, if not, the text of its error.
#[verifier::external_body]
fn check_cron(expr: &str) -> (r: Option<String>)
    ensures
        match r {
            Some(e) => cron_parse_error(expr@) == Some(e@),
            None => cron_parse_error(expr@) is None,
        },
{
    match expr.parse::<cron::Schedule>() {
        Ok(_) => None,
        Err(e) => Some(e.to_string()),
    }
}

/// The value of a decimal literal, if it fits below `max`.
pub open spec fn literal_value(digits: Seq<char>, max: nat) -> Option<nat> {
    match crate::lex::unsigned_literal(sbytes(digits)) {
        Some(v) => if v <= max {
            Some(v)
        } else {
            None
        },
        None => None,
    }
}

/// Reads the digits of an integer literal as a number no larger than `max`.
fn literal_number(digits: &String, max: u64) -> (r: Option<u64>)
    requires
        max >= 9,
    ensures
        match r {
            Some(v) => literal_value(digits@, max as nat) == Some(v as nat),
            None => literal_value(digits@, max as nat) is None,
        },
{
    let b = string_bytes(digits);
    assert(b@.subrange(0, b@.len() as int) =~= b@);
    parse_unsigned_range(b, 0, b.len(), max)
}

/// The arguments of `#[job(...)]`.
pub struct JobArgs {
    pub name: Option<String>,
    pub retries: u32,
    pub cron: Option<String>,
}

/// The state while reading `#[job]` arguments: name, retries, schedule.
pub type JobState = (Option<Seq<char>>, nat, Option<Seq<char>>);

/// One `#[job]` argument read: `name` takes a string, `retries` an integer
/// that fits a `u32`, `cron` a string the cron parser accepts; anything else
/// is refused.
pub open spec fn job_arg_step(st: JobState, a: ArgView) -> Result<JobState, (int, Seq<char>, Seq<char>)> {
    let (k, is_str, v) = a;
    if k == "name"@ {
        if is_str {
            Ok((Some(v), st.1, st.2))
        } else {
            Err((0, seq![], seq![]))
        }
    } else if k == "retries"@ {
        if is_str {
            Err((1, seq![], seq![]))
        } else {
            match literal_value(v, u32::MAX as nat) {
                Some(n) => Ok((st.0, n, st.2)),
                None => Err((2, seq![], seq![])),
            }
        }
    } else if k == "cron"@ {
        if !is_str {
            Err((0, seq![], seq![]))
        } else {
            match cron_parse_error(v) {
                Some(reason) => Err((3, v, reason)),
                None => Ok((st.0, st.1, Some(v))),
            }
        }
    } else {
        Err((4, k, seq![]))
    }
}

/// Reading `#[job]` arguments in order, stopping at the first refusal.
/// Retries are 3 unless given.
pub open spec fn job_args_fold(args: Seq<ArgView>) -> Result<JobState, (int, Seq<char>, Seq<char>)>
    decreases args.len(),
{
    if args.len() == 0 {
        Ok((None, 3, None))
    } else {
        match job_args_fold(args.drop_last()) {
            Err(e) => Err(e),
            Ok(st) => job_arg_step(st, args.last()),
        }
    }
}

/// The view of one argument.
pub open spec fn arg_view(a: AttrArg) -> ArgView {
    match a.value {
        AttrValue::Str(s) => (a.key@, true, s@),
        AttrValue::Int(d) => (a.key@, false, d@),
    }
}

/// Reads one `#[job]` argument into the state, or gives the refusal.
fn apply_job_arg(name: &mut Option<String>, retries: &mut u32, cron: &mut Option<String>, a: &AttrArg) -> (r: Option<AttrError>)
    ensures
        match (r, job_arg_step((opt_chars(*old(name)), *old(retries) as nat, opt_chars(*old(cron))), arg_view(*a))) {
            (None, Ok(st)) => opt_chars(*final(name)) == st.0 && *final(retries) as nat == st.1 && opt_chars(*final(cron)) == st.2,
            (Some(e), Err(f)) => error_view(e) == f,
            _ => false,
        },
{
    let k = a.key.as_str();
    if is_text(k, "name") {
        match &a.value {
            AttrValue::Str(s) => {
                *name = Some(s.clone());
                None
            },
            AttrValue::Int(_) => Some(AttrError::ExpectedString),
        }
    } else if is_text(k, "retries") {
        match &a.value {
            AttrValue::Int(d) => match literal_number(d, 4294967295u64) {
                Some(n) => {
                    *retries = n as u32;
                    None
                },
                None => Some(AttrError::IntegerOutOfRange),
            },
            AttrValue::Str(_) => Some(AttrError::ExpectedInteger),
        }
    } else if is_text(k, "cron") {
        match &a.value {
            AttrValue::Str(s) => match check_cron(s.as_str()) {
                Some(reason) => Some(AttrError::InvalidCron { expr: s.clone(), reason }),
                None => {
                    *cron = Some(s.clone());
                    None
                },
            },
            AttrValue::Int(_) => Some(AttrError::ExpectedString),
        }
    } else {
        Some(AttrError::UnknownArgument { key: str_to_string(k) })
    }
}

/// The text of an optional string.
pub open spec fn opt_chars(o: Option<String>) -> Option<Seq<char>> {
    match o {
        Some(s) => Some(s@),
        None => None,
    }
}

/// Once reading stops at a refusal, later arguments change nothing.
proof fn lemma_job_fold_err_stays(args: Seq<ArgView>, i: int)
    requires
        0 <= i <= args.len(),
        job_args_fold(args.take(i)) is Err,
    ensures
        job_args_fold(args) == job_args_fold(args.take(i)),
    decreases args.len() - i,
{
    if i == args.len() {
        assert(args.take(i) =~= args);
    } else {
        assert(args.take(i + 1).drop_last() =~= args.take(i));
        lemma_job_fold_err_stays(args, i + 1);
    }
}

impl JobArgs {
    /// Reads the arguments of `#[job(...)]`.
    pub fn from_args(args: &Vec<AttrArg>) -> (r: Result<JobArgs, AttrError>)
        ensures
            match (r, job_args_fold(args_view(args@))) {
                (Ok(j), Ok(st)) => opt_chars(j.name) == st.0 && j.retries as nat == st.1 && opt_chars(
                    j.cron,
                ) == st.2,
                (Err(e), Err(f)) => error_view(e) == f,
                _ => false,
            },
    {
        let mut name: Option<String> = None;
        let mut retries: u32 = 3;
        let mut cron: Option<String> = None;
        let mut i: usize = 0;
        while i < args.len()
            invariant
                i <= args@.len(),
                job_args_fold(args_view(args@).take(i as int)) == Ok::<JobState, (int, Seq<char>, Seq<char>)>(
                    (opt_chars(name), retries as nat, opt_chars(cron)),
                ),
            decreases args@.len() - i,
        {
            let a = &args[i];
            let ghost t = args_view(args@).take(i + 1);
            assert(t.drop_last() =~= args_view(args@).take(i as int));
            assert(t.last() == arg_view(*a));
            match apply_job_arg(&mut name, &mut retries, &mut cron, a) {
                Some(e) => {
                    proof {
                        lemma_job_fold_err_stays(args_view(args@), i + 1);
                    }
                    return Err(e);
                },
                None => {},
            }
            i = i + 1;
        }
        assert(args_view(args@).take(args@.len() as int) =~= args_view(args@));
        Ok(JobArgs { name, retries, cron })
    }
}

/// One `#[catch]` argument read: `status` takes an integer that fits a
/// `u16` (the last one counts); any other key is refused.
pub open spec fn catch_arg_step(st: Option<nat>, a: ArgView) -> Result<Option<nat>, (int, Seq<char>, Seq<char>)> {
    if a.0 == "status"@ {
        if a.1 {
            Err((1, seq![], seq![]))
        } else {
            match literal_value(a.2, u16::MAX as nat) {
                Some(n) => Ok(Some(n)),
                None => Err((2, seq![], seq![])),
            }
        }
    } else {
        Err((6, seq![], seq![]))
    }
}

/// Reading `#[catch]` arguments in order, stopping at the first refusal.
pub open spec fn catch_args_fold(args: Seq<ArgView>) -> Result<Option<nat>, (int, Seq<char>, Seq<char>)>
    decreases args.len(),
{
    if args.len() == 0 {
        Ok(None)
    } else {
        match catch_args_fold(args.drop_last()) {
            Err(e) => Err(e),
            Ok(st) => catch_arg_step(st, args.last()),
        }
    }
}

/// The status code `#[catch(...)]` names: refused where reading fails or no
/// `status` is given.
pub open spec fn catch_status_of(args: Seq<ArgView>) -> Result<nat, (int, Seq<char>, Seq<char>)> {
    match catch_args_fold(args) {
        Err(e) => Err(e),
        Ok(None) => Err((5, seq![], seq![])),
        Ok(Some(n)) => Ok(n),
    }
}

proof fn lemma_catch_fold_err_stays(args: Seq<ArgView>, i: int)
    requires
        0 <= i <= args.len(),
        catch_args_fold(args.take(i)) is Err,
    ensures
        catch_args_fold(args) == catch_args_fold(args.take(i)),
    decreases args.len() - i,
{
    if i == args.len() {
        assert(args.take(i) =~= args);
    } else {
        assert(args.take(i + 1).drop_last() =~= args.take(i));
        lemma_catch_fold_err_stays(args, i + 1);
    }
}

/// Reads the arguments of `#[catch(status = ...)]`: the status code.
#[verifier::rlimit(40)]
pub fn catch_status(args: &Vec<AttrArg>) -> (r: Result<u16, AttrError>)
    ensures
        match (r, catch_status_of(args_view(args@))) {
            (Ok(c), Ok(n)) => c as nat == n,
            (Err(e), Err(f)) => error_view(e) == f,
            _ => false,
        },
{
    let mut status: Option<u16> = None;
    let mut i: usize = 0;
    while i < args.len()
        invariant
            i <= args@.len(),
            catch_args_fold(args_view(args@).take(i as int)) == Ok::<Option<nat>, (int, Seq<char>, Seq<char>)>(
                match status {
                    Some(c) => Some(c as nat),
                    None => None,
                },
            ),
        decreases args@.len() - i,
    {
        let a = &args[i];
        let ghost t = args_view(args@).take(i + 1);
        assert(t.drop_last() =~= args_view(args@).take(i as int));
        assert(t.last() == arg_view(*a));
        if is_text(a.key.as_str(), "status") {
            match &a.value {
                AttrValue::Int(d) => match literal_number(d, 65535u64) {
                    Some(n) => {
                        status = Some(n as u16);
                    },
                    None => {
                        proof {
                            lemma_catch_fold_err_stays(args_view(args@), i + 1);
                        }
                        return Err(AttrError::IntegerOutOfRange);
                    },
                },
                AttrValue::Str(_) => {
                    proof {
                        lemma_catch_fold_err_stays(args_view(args@), i + 1);
                    }
                    return Err(AttrError::ExpectedInteger);
                },
            }
        } else {
            proof {
                lemma_catch_fold_err_stays(args_view(args@), i + 1);
            }
            return Err(AttrError::ExpectedIdentifier);
        }
        i = i + 1;
    }
    assert(args_view(args@).take(args@.len() as int) =~= args_view(args@));
    match status {
        Some(c) => Ok(c),
        None => Err(AttrError::MissingStatus),
    }
}

/// The arguments of `#[action(...)]`.
pub struct ActionArgs {
    pub table: String,
    pub label: String,
    pub icon: Option<String>,
    pub color: String,
}

/// The state while reading `#[action]` arguments: table, label, icon, colour
/// (`None` for not given yet).
pub type ActionState = (Option<Seq<char>>, Option<Seq<char>>, Option<Seq<char>>, Option<Seq<char>>);

/// One `#[action]` argument read: `table`, `label`, `icon` and `color` each
/// take a string; any other key is refused.
pub open spec fn action_arg_step(st: ActionState, a: ArgView) -> Result<ActionState, (int, Seq<char>, Seq<char>)> {
    let (k, is_str, v) = a;
    if k == "table"@ || k == "label"@ || k == "icon"@ || k == "color"@ {
        if !is_str {
            Err((0, seq![], seq![]))
        } else if k == "table"@ {
            Ok((Some(v), st.1, st.2, st.3))
        } else if k == "label"@ {
            Ok((st.0, Some(v), st.2, st.3))
        } else if k == "icon"@ {
            Ok((st.0, st.1, Some(v), st.3))
        } else {
            Ok((st.0, st.1, st.2, Some(v)))
        }
    } else {
        Err((6, seq![], seq![]))
    }
}

/// Reading `#[action]` arguments in order, stopping at the first refusal.
pub open spec fn action_args_fold(args: Seq<ArgView>) -> Result<ActionState, (int, Seq<char>, Seq<char>)>
    decreases args.len(),
{
    if args.len() == 0 {
        Ok((None, None, None, None))
    } else {
        match action_args_fold(args.drop_last()) {
            Err(e) => Err(e),
            Ok(st) => action_arg_step(st, args.last()),
        }
    }
}

proof fn lemma_action_fold_err_stays(args: Seq<ArgView>, i: int)
    requires
        0 <= i <= args.len(),
        action_args_fold(args.take(i)) is Err,
    ensures
        action_args_fold(args) == action_args_fold(args.take(i)),
    decreases args.len() - i,
{
    if i == args.len() {
        assert(args.take(i) =~= args);
    } else {
        assert(args.take(i + 1).drop_last() =~= args.take(i));
        lemma_action_fold_err_stays(args, i + 1);
    }
}

/// A given value, or the default.
pub open spec fn or_default(o: Option<Seq<char>>, d: Seq<char>) -> Seq<char> {
    match o {
        Some(v) => v,
        None => d,
    }
}

impl ActionArgs {
    /// Reads the arguments of `#[action(...)]`: the table (empty by default),
    /// the label (`Action`), the icon (none) and the colour class (`text-blue-400`).
    pub fn from_args(args: &Vec<AttrArg>) -> (r: Result<ActionArgs, AttrError>)
        ensures
            match (r, action_args_fold(args_view(args@))) {
                (Ok(a), Ok(st)) => a.table@ == or_default(st.0, ""@) && a.label@ == or_default(
                    st.1,
                    "Action"@,
                ) && opt_chars(a.icon) == st.2 && a.color@ == or_default(st.3, "text-blue-400"@),
                (Err(e), Err(f)) => error_view(e) == f,
                _ => false,
            },
    {
        let mut table: Option<String> = None;
        let mut label: Option<String> = None;
        let mut icon: Option<String> = None;
        let mut color: Option<String> = None;
        let mut i: usize = 0;
        while i < args.len()
            invariant
                i <= args@.len(),
                action_args_fold(args_view(args@).take(i as int)) == Ok::<ActionState, (int, Seq<char>, Seq<char>)>(
                    (opt_chars(table), opt_chars(label), opt_chars(icon), opt_chars(color)),
                ),
            decreases args@.len() - i,
        {
            let a = &args[i];
            let ghost t = args_view(args@).take(i + 1);
            assert(t.drop_last() =~= args_view(args@).take(i as int));
            assert(t.last() == arg_view(*a));
            let k = a.key.as_str();
            let known = is_text(k, "table") || is_text(k, "label") || is_text(k, "icon") || is_text(
                k,
                "color",
            );
            if !known {
                proof {
                    lemma_action_fold_err_stays(args_view(args@), i + 1);
                }
                return Err(AttrError::ExpectedIdentifier);
            }
            let v = match &a.value {
                AttrValue::Str(s) => s.clone(),
                AttrValue::Int(_) => {
                    proof {
                        lemma_action_fold_err_stays(args_view(args@), i + 1);
                    }
                    return Err(AttrError::ExpectedString);
                },
            };
            if is_text(k, "table") {
                table = Some(v);
            } else if is_text(k, "label") {
                label = Some(v);
            } else if is_text(k, "icon") {
                icon = Some(v);
            } else {
                color = Some(v);
            }
            i = i + 1;
        }
        assert(args_view(args@).take(args@.len() as int) =~= args_view(args@));
        let table = match table {
            Some(t) => t,
            None => str_to_string(""),
        };
        let label = match label {
            Some(l) => l,
            None => str_to_string("Action"),
        };
        let color = match color {
            Some(c) => c,
            None => str_to_string("text-blue-400"),
        };
        Ok(ActionArgs { table, label, icon, color })
    }
}

} // verus!
