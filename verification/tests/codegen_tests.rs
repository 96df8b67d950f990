use gritshield::codegen::{
    catch_status, type_to_column_type, ActionArgs, AttrArg, AttrError, AttrValue, JobArgs,
    ModelColumnType,
};
use gritshield::naming::{clean_identifier, to_pascal_case};

fn s(key: &str, v: &str) -> AttrArg {
    AttrArg { key: key.to_string(), value: AttrValue::Str(v.to_string()) }
}

fn i(key: &str, digits: &str) -> AttrArg {
    AttrArg { key: key.to_string(), value: AttrValue::Int(digits.to_string()) }
}

#[test]
fn pascal_case_words() {
    assert_eq!(to_pascal_case("user_profile"), "UserProfile");
    assert_eq!(to_pascal_case("created_at"), "CreatedAt");
    assert_eq!(to_pascal_case("__a__b_"), "AB");
    assert_eq!(to_pascal_case(""), "");
    assert_eq!(to_pascal_case("already"), "Already");
    assert_eq!(to_pascal_case("émile_zola"), "ÉmileZola");
    assert_eq!(to_pascal_case("straße_x"), "StraßeX");
}

#[test]
fn pascal_case_multi_char_uppercase() {
    assert_eq!(to_pascal_case("ßa"), "SSa");
}

#[test]
fn clean_identifiers() {
    assert_eq!(clean_identifier("  Hello World\t"), "hello world");
    assert_eq!(clean_identifier("\u{3000}ÀB"), "àb");
}

#[test]
fn column_types_from_type_names() {
    assert_eq!(type_to_column_type(Some("String")), ModelColumnType::String);
    assert_eq!(type_to_column_type(Some("str")), ModelColumnType::String);
    assert_eq!(type_to_column_type(Some("bool")), ModelColumnType::Bool);
    assert_eq!(type_to_column_type(Some("u128")), ModelColumnType::Numeric);
    assert_eq!(type_to_column_type(Some("Decimal")), ModelColumnType::Numeric);
    assert_eq!(type_to_column_type(Some("f32")), ModelColumnType::Numeric);
    assert_eq!(type_to_column_type(Some("NaiveDate")), ModelColumnType::DateTime);
    assert_eq!(type_to_column_type(Some("Uuid")), ModelColumnType::Unknown);
    assert_eq!(type_to_column_type(None), ModelColumnType::Unknown);
}

#[test]
fn job_args_defaults_and_values() {
    let j = JobArgs::from_args(&vec![]).ok().unwrap();
    assert_eq!((j.name, j.retries, j.cron), (None, 3, None));
    let j = JobArgs::from_args(&vec![s("name", "send_welcome_email"), i("retries", "5")]).ok().unwrap();
    assert_eq!(j.name.as_deref(), Some("send_welcome_email"));
    assert_eq!(j.retries, 5);
    let j = JobArgs::from_args(&vec![s("cron", "0 0 0 * * *")]).ok().unwrap();
    assert_eq!(j.cron.as_deref(), Some("0 0 0 * * *"));
}

#[test]
fn job_args_refusals() {
    match JobArgs::from_args(&vec![s("queue", "x")]) {
        Err(AttrError::UnknownArgument { key }) => assert_eq!(key, "queue"),
        _ => panic!("expected an unknown argument"),
    }
    assert!(matches!(JobArgs::from_args(&vec![i("name", "1")]), Err(AttrError::ExpectedString)));
    assert!(matches!(JobArgs::from_args(&vec![s("retries", "1")]), Err(AttrError::ExpectedInteger)));
    assert!(matches!(JobArgs::from_args(&vec![i("retries", "4294967296")]), Err(AttrError::IntegerOutOfRange)));
    match JobArgs::from_args(&vec![s("cron", "not a schedule")]) {
        Err(AttrError::InvalidCron { expr, reason }) => {
            assert_eq!(expr, "not a schedule");
            assert!(!reason.is_empty());
        }
        _ => panic!("expected an invalid schedule"),
    }
}

#[test]
fn catch_status_reads() {
    assert!(matches!(catch_status(&vec![i("status", "404")]), Ok(404)));
    assert!(matches!(catch_status(&vec![i("status", "404"), i("status", "500")]), Ok(500)));
    assert!(matches!(catch_status(&vec![]), Err(AttrError::MissingStatus)));
    assert!(matches!(catch_status(&vec![i("status", "70000")]), Err(AttrError::IntegerOutOfRange)));
    assert!(matches!(catch_status(&vec![s("status", "404")]), Err(AttrError::ExpectedInteger)));
    assert!(matches!(catch_status(&vec![i("code", "404")]), Err(AttrError::ExpectedIdentifier)));
}

#[test]
fn action_args_defaults() {
    let a = ActionArgs::from_args(&vec![]).ok().unwrap();
    assert_eq!((a.table.as_str(), a.label.as_str(), a.icon, a.color.as_str()), ("", "Action", None, "text-blue-400"));
    let a = ActionArgs::from_args(&vec![s("table", "users"), s("icon", "*"), s("label", "Ban")]).ok().unwrap();
    assert_eq!(a.table, "users");
    assert_eq!(a.label, "Ban");
    assert_eq!(a.icon.as_deref(), Some("*"));
    assert!(matches!(ActionArgs::from_args(&vec![i("table", "1")]), Err(AttrError::ExpectedString)));
    assert!(matches!(ActionArgs::from_args(&vec![s("size", "1")]), Err(AttrError::ExpectedIdentifier)));
}
