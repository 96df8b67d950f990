use gritshield::admin::creds::AdminCredentials;
use gritshield::admin::foreign_key::{GridCell, ModelSchema, Relation, RelationKind};
use gritshield::admin::pagination::build_page_window;
use gritshield::admin::panel::AdminColumnPlan;
use gritshield::admin::results::{column_editable_in, results_cell};
use gritshield::admin::auth::SessionStore;
use gritshield::clean::{clean_steps, clean_text, CleanStep};
use gritshield::codegen::ModelColumnType;
use gritshield::macro_names::{controller_route, finder_names, pair_finder_names, route_wrapper_name};

fn plan(name: &str, editable: bool) -> AdminColumnPlan {
    AdminColumnPlan { name: name.to_string(), label: name.to_string(), is_editable: editable }
}

#[test]
fn results_cells() {
    let schema = ModelSchema {
        relations: vec![Relation { kind: RelationKind::BelongsTo, foreign_key: Some("author_id".to_string()), target_table: "users".to_string() }],
    };
    let tables = vec!["users".to_string()];
    let cols = vec![plan("Title", true), plan("author_id", true), plan("views", false)];
    assert!(column_editable_in(&cols, "title"));
    assert!(!column_editable_in(&cols, "views"));
    match results_cell(Some(&schema), &tables, &cols, "author_id", "7", "3") {
        GridCell::Link { href } => assert_eq!(href, "/admin/users/7"),
        _ => panic!("expected a link"),
    }
    assert!(matches!(results_cell(Some(&schema), &tables, &cols, "author_id", "", "3"), GridCell::Editable));
    assert!(matches!(results_cell(None, &tables, &cols, "title", "x", "3"), GridCell::Editable));
    assert!(matches!(results_cell(None, &tables, &cols, "title", "x", "null"), GridCell::ReadOnly));
    assert!(matches!(results_cell(None, &tables, &cols, "views", "x", "3"), GridCell::ReadOnly));
}

#[test]
fn controller_routes() {
    assert_eq!(controller_route("/api/v1", "get", "/hello"), Some(("GET".to_string(), "/api/v1/hello".to_string())));
    assert_eq!(controller_route("/api", "delete", "/x"), Some(("DELETE".to_string(), "/api/x".to_string())));
    assert_eq!(controller_route("/api", "head", "/x"), None);
    assert_eq!(route_wrapper_name("hello"), "hello_wrapper");
}

#[test]
fn jpa_finder_names() {
    assert_eq!(
        finder_names("age", ModelColumnType::Numeric),
        vec!["find_by_age", "find_one_by_age", "exists_by_age", "delete_by_age", "count_by_age", "find_by_age_gt", "find_by_age_lt", "find_by_age_between"]
    );
    assert_eq!(finder_names("x", ModelColumnType::Unknown).len(), 5);
    assert_eq!(finder_names("ok", ModelColumnType::Bool)[6], "find_by_ok_false");
    assert_eq!(
        pair_finder_names("a", "b"),
        vec!["find_by_a_and_b", "find_one_by_a_and_b", "find_by_a_or_b", "exists_by_a_and_b", "delete_by_a_and_b"]
    );
}

#[test]
fn clean_steps_in_order() {
    let words: Vec<String> = ["trim", "bogus", "lowercase", "html_escape"].iter().map(|s| s.to_string()).collect();
    let steps = clean_steps(&words);
    assert_eq!(steps, vec![CleanStep::Trim, CleanStep::Lowercase, CleanStep::HtmlEscape]);
    assert_eq!(clean_text("  <B>Hi</B> ", &steps), "&lt;b&gt;hi&lt;&#x2F;b&gt;");
    assert_eq!(clean_text("a%20b", &vec![CleanStep::UrlDecode, CleanStep::Uppercase]), "A B");
    assert_eq!(clean_text(" x ", &vec![CleanStep::Nested]), " x ");
}

#[test]
fn page_window_with_one_page_at_the_top_page_number() {
    assert_eq!(build_page_window(u64::MAX, 1), vec![Some(1)]);
    assert_eq!(build_page_window(u64::MAX, 0), vec![]);
}

#[test]
fn session_ids_are_version_4() {
    let mut store = SessionStore::new();
    let sid = store.login("u", "p", "u", "p").unwrap();
    assert_eq!(sid.as_bytes()[14], b'4');
    assert!(matches!(sid.as_bytes()[19], b'8' | b'9' | b'a' | b'b'));
    let (c, _) = AdminCredentials::resolve("", "");
    assert_eq!(c.password.len(), 12);
}
