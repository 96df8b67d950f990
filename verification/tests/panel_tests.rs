use gritshield::admin::actions::action_result_response;
use gritshield::admin::auth::{verify_and_get_admin_id, SessionStore};
use gritshield::admin::bulk::{batch_step, bulk_import_rows, BatchStep, ImportItem, ImportRow, JsonValue, RowOutcome};
use gritshield::admin::csv::{export_to_csv, GridColumn};
use gritshield::admin::foreign_key::RelationKind;
use gritshield::admin::relations::{
    builder_names, foreign_key_name, relation_field_name, relation_register_name, relation_table,
    snake_case, target_table,
};
use gritshield::admin::creds::AdminCredentials;
use gritshield::admin::list_query::{ListQuery, SortPlan, LIST_PAGE_SIZE};
use gritshield::admin::panel::{
    admin_grid_plan, admin_route_path, column_label, crate_root, default_entity_module,
    grid_columns_of, initializer_name, is_internal_entity, registration_slug, remove_all,
    sidebar_label,
};
use gritshield::admin::schema_edit::add_column_response;
use gritshield::http::connection::{merge_headers, request_step, RequestStep, RouteLookup};
use gritshield::http::form::FormData;
use gritshield::http::request::{sanitize_path, HttpMethod, Request};
use gritshield::http::response::Response;
use gritshield::multimap::MultiMap;
use gritshield::security::{Sanitizer, UntrustedString};

fn strings(v: &[&str]) -> Vec<String> {
    v.iter().map(|s| s.to_string()).collect()
}

// ---- admin panel generation ----

#[test]
fn grid_defaults_to_id_and_searchable_columns() {
    let cols = grid_columns_of(&Vec::new(), &strings(&["name", "id", "email"]));
    assert_eq!(cols, strings(&["id", "name", "email"]));
    let cols = grid_columns_of(&strings(&["email"]), &strings(&["name"]));
    assert_eq!(cols, strings(&["email"]));
}

#[test]
fn grid_plan_labels_and_editability() {
    let plan = admin_grid_plan(&Vec::new(), &strings(&["name", "email"]), &strings(&["email"]));
    let got: Vec<(String, String, bool)> =
        plan.iter().map(|c| (c.name.clone(), c.label.clone(), c.is_editable)).collect();
    assert_eq!(
        got,
        vec![
            ("id".to_string(), "Id".to_string(), false),
            ("name".to_string(), "Name".to_string(), true),
            ("email".to_string(), "Email".to_string(), false),
        ]
    );
    let all_ro = admin_grid_plan(&strings(&["name"]), &Vec::new(), &strings(&["all"]));
    assert!(!all_ro[0].is_editable);
    assert_eq!(column_label(""), "");
    assert_eq!(column_label("éclair"), "Éclair");
}

#[test]
fn registration_names() {
    assert_eq!(registration_slug("UserRepository"), "user");
    assert_eq!(registration_slug("OrderItemRepository"), "orderitem");
    assert_eq!(registration_slug("RepositoryRepository"), "");
    assert_eq!(remove_all("aXbXXc", "X"), "abc");
    assert_eq!(default_entity_module("UserRepository"), "crate::models::user");
    assert_eq!(initializer_name("user"), "init_meta_user");
    assert_eq!(admin_route_path("order_items"), "/admin/order-items");
    assert!(is_internal_entity(&Some(strings(&["crate", "gritadmin", "models"]))));
    assert!(!is_internal_entity(&Some(strings(&["crate", "models"]))));
    assert!(!is_internal_entity(&None));
    assert_eq!(crate_root(true), "crate");
    assert_eq!(crate_root(false), "::gritshield");
}

// ---- bulk import ----

fn obj(fields: Vec<(&str, JsonValue)>) -> JsonValue {
    JsonValue::Object(fields.into_iter().map(|(k, v)| (k.to_string(), v)).collect())
}

fn num(n: i64) -> JsonValue {
    JsonValue::Number { text: n.to_string(), integer: Some(n) }
}

#[test]
fn bulk_import_refusals() {
    assert_eq!(
        bulk_import_rows(Err("expected value at line 1 column 1".to_string())).unwrap_err(),
        "Invalid structural JSON format: expected value at line 1 column 1"
    );
    assert_eq!(
        bulk_import_rows(Ok(obj(vec![]))).unwrap_err(),
        "Ingestion root wrapper is required to be an explicit Array block: [ ... ]"
    );
    assert_eq!(
        bulk_import_rows(Ok(JsonValue::Array(vec![]))).unwrap_err(),
        "Ingestion stream data collection cannot be empty"
    );
    let items = bulk_import_rows(Ok(JsonValue::Array(vec![obj(vec![]), JsonValue::Null, num(3)]))).unwrap();
    assert_eq!(items.len(), 3);
    assert!(matches!(items[0], ImportItem::Row(_)));
    assert!(matches!(items[1], ImportItem::NotObject));
    assert!(matches!(items[2], ImportItem::NotObject));
    match batch_step(1, 3, RowOutcome::NotObject) {
        BatchStep::Abort(m) => assert_eq!(m, "Malformatted item block encountered at position index (1)"),
        _ => panic!("expected an abort"),
    }
}

#[test]
fn bulk_import_rows_reset_ids_and_normalize_timestamps() {
    let items = vec![
        obj(vec![("name", JsonValue::Str("a".to_string())), ("at", JsonValue::Str("2024-01-02 03:04:05".to_string()))]),
        obj(vec![("id", num(7)), ("n", num(1))]),
        obj(vec![("id", num(0))]),
    ];
    let rows: Vec<ImportRow> = bulk_import_rows(Ok(JsonValue::Array(items)))
        .unwrap()
        .into_iter()
        .map(|item| match item {
            ImportItem::Row(r) => r,
            ImportItem::NotObject => panic!("every item is an object"),
        })
        .collect();
    assert_eq!(rows.len(), 3);
    assert!(rows[0].reset_key);
    assert_eq!(rows[0].fields.len(), 3);
    match &rows[0].fields[1].1 {
        JsonValue::Str(s) => assert_eq!(s, "2024-01-02T03:04:05"),
        other => panic!("{:?}", other),
    }
    assert_eq!(rows[0].fields[2].0, "id");
    assert!(matches!(rows[0].fields[2].1, JsonValue::Number { integer: Some(0), .. }));
    assert!(!rows[1].reset_key);
    assert_eq!(rows[1].fields.len(), 2);
    assert!(rows[2].reset_key);
}

// ---- login, logout, credentials ----

#[test]
fn generated_password_is_a_uuid_prefix() {
    let (c, generated) = AdminCredentials::resolve("", "");
    assert!(generated);
    assert_eq!(c.username, "admin");
    assert_eq!(c.password.len(), 12);
    assert_eq!(c.password.as_bytes()[8], b'-');
    assert!(c.password.bytes().enumerate().all(|(i, b)| i == 8 || b.is_ascii_hexdigit()));
}

#[test]
fn login_against_settings_then_logout() {
    let mut store = SessionStore::new();
    // Unset settings are empty: an empty name and password match them.
    assert!(store.login("admin", "wrong", "", "").is_none());
    let sid = store.login("", "", "", "").unwrap();
    assert_eq!(verify_and_get_admin_id(&store, Some(&sid)).as_deref(), Some("admin_user_1"));
    let res = store.logout(Some(&sid));
    assert_eq!(res.status, 303);
    assert_eq!(res.body.as_str(), "");
    assert_eq!(res.headers[0], ("Location".to_string(), "/admin/login".to_string()));
    assert_eq!(res.headers[1], ("Set-Cookie".to_string(), "GASESSION_ID=; Path=/; Max-Age=0".to_string()));
    assert_eq!(verify_and_get_admin_id(&store, Some(&sid)), None);
}

// ---- list fetch plan ----

#[test]
fn list_sort_and_page_rows() {
    let mut q = MultiMap::new();
    q.push("sort".to_string(), UntrustedString::new("name".to_string()));
    q.push("direction".to_string(), UntrustedString::new("ASC".to_string()));
    q.push("page".to_string(), UntrustedString::new("3".to_string()));
    let lq = ListQuery::parse(&q);
    assert!(matches!(lq.sort_plan(true), SortPlan::Column { ascending: false, .. }));
    assert!(matches!(lq.sort_plan(false), SortPlan::KeyDescending));
    assert_eq!(lq.page_rows(), Some((45, 15)));
    assert_eq!(LIST_PAGE_SIZE, 15);
    let mut q2 = MultiMap::new();
    q2.push("direction".to_string(), UntrustedString::new("asc".to_string()));
    q2.push("sort".to_string(), UntrustedString::new("name".to_string()));
    match ListQuery::parse(&q2).sort_plan(true) {
        SortPlan::Column { column, ascending } => {
            assert_eq!(column, "name");
            assert!(ascending);
        }
        _ => panic!("expected a column sort"),
    }
}

// ---- responses ----

#[test]
fn add_column_response_is_empty_with_toast() {
    let ok = add_column_response(&Ok("Successfully appended column".to_string()));
    assert_eq!(ok.status, 200);
    assert_eq!(ok.body.as_str(), "");
    assert_eq!(ok.headers[0].0, "hx-trigger");
    assert!(ok.headers[0].1.contains("success"));
    let err = add_column_response(&Err("Column name input parameter field cannot be empty.".to_string()));
    assert_eq!(err.status, 400);
    assert_eq!(err.body.as_str(), "Column name input parameter field cannot be empty.");
}

#[test]
fn action_result_keeps_status_and_adds_toast() {
    let mut res = Response::new(202, Sanitizer::trust("<b>Done</b> 3 rows "));
    res.headers.push(("x-a".to_string(), "1".to_string()));
    let out = action_result_response(res);
    assert_eq!(out.status, 202);
    assert_eq!(out.body.as_str(), "");
    assert_eq!(out.headers.len(), 2);
    assert_eq!(out.headers[0], ("x-a".to_string(), "1".to_string()));
    assert_eq!(
        out.headers[1].1,
        r#"{"showToast": {"message": "Done 3 rows", "type": "success"}}"#
    );
}

// ---- forms ----

#[test]
fn get_parsed_other_integer_types() {
    let mut form = FormData::new();
    form.fields.push("age".to_string(), UntrustedString::new("42".to_string()));
    form.fields.push("bad".to_string(), UntrustedString::new("x".to_string()));
    form.fields.push("neg".to_string(), UntrustedString::new("-129".to_string()));
    assert_eq!(form.get_parsed::<i32>("age"), Some(42));
    assert_eq!(form.get_parsed::<i32>("bad"), None);
    assert_eq!(form.get_parsed::<i32>("missing"), None);
    assert_eq!(form.get_parsed::<bool>("age"), None);
    assert_eq!(form.get_parsed::<u8>("age"), Some(42));
    assert_eq!(form.get_parsed::<i8>("neg"), None);
    assert_eq!(form.get_parsed::<i16>("neg"), Some(-129));
    assert_eq!(form.get_parsed::<u16>("neg"), None);
    assert_eq!(form.get_parsed::<u32>("age"), Some(42));
    assert_eq!(form.get_parsed::<isize>("neg"), Some(-129));
}

// ---- paths ----

#[test]
fn sanitize_path_twice_is_once() {
    for p in ["/a/./b/../c", "//x//y/", "/a.txt", "/../..", "/", "", "a/b", "/.hidden/../k"] {
        let once = sanitize_path(p);
        assert_eq!(sanitize_path(&once), once);
    }
}

// ---- connection step ----

fn request_with(headers: &[(&str, &str)]) -> Request {
    let mut h: MultiMap<String> = MultiMap::new();
    for (k, v) in headers {
        h.push(k.to_string(), v.to_string());
    }
    Request::fill(HttpMethod::GET, "/ws".to_string(), "/ws".to_string(), h, Vec::new(), MultiMap::new())
}

#[test]
fn connection_steps() {
    let plain = request_with(&[]);
    assert!(matches!(
        request_step(false, &plain, false, RouteLookup::NotFound, true, false),
        RequestStep::SendMiddlewareResponse
    ));
    match request_step(true, &plain, false, RouteLookup::Found { required_role: Some("ops".to_string()) }, false, false) {
        RequestStep::Forbidden { message } => {
            assert_eq!(message, "Access Denied: Missing required operational role clearance 'ops'.")
        }
        _ => panic!("expected a refusal"),
    }
    assert!(matches!(
        request_step(true, &plain, false, RouteLookup::Found { required_role: Some("ops".to_string()) }, true, false),
        RequestStep::CallHandler
    ));
    match request_step(true, &plain, false, RouteLookup::MethodNotAllowed, true, false) {
        RequestStep::Respond { response } => assert_eq!(response.status, 405),
        _ => panic!("expected a 405"),
    }
    assert!(matches!(
        request_step(true, &plain, false, RouteLookup::NotFound, true, true),
        RequestStep::HandleError { .. }
    ));
    let ws = request_with(&[("upgrade", "websocket"), ("sec-websocket-key", "dGhlIHNhbXBsZSBub25jZQ==")]);
    match request_step(true, &ws, true, RouteLookup::NotFound, true, false) {
        RequestStep::UpgradeWebSocket { handshake } => {
            assert!(handshake.contains("Sec-WebSocket-Accept: s3pPLMBiTxaQ9kYGzzhZRbK+xOo=\r\n\r\n"))
        }
        _ => panic!("expected an upgrade"),
    }
    assert!(matches!(
        request_step(true, &ws, false, RouteLookup::Found { required_role: None }, true, false),
        RequestStep::CallHandler
    ));
}

#[test]
fn merge_keeps_handler_headers() {
    let mut res = vec![("content-type".to_string(), "text/html".to_string())];
    let extra = vec![
        ("content-type".to_string(), "text/plain".to_string()),
        ("x-frame-options".to_string(), "DENY".to_string()),
        ("x-frame-options".to_string(), "SAMEORIGIN".to_string()),
    ];
    merge_headers(&mut res, &extra);
    assert_eq!(
        res,
        vec![
            ("content-type".to_string(), "text/html".to_string()),
            ("x-frame-options".to_string(), "DENY".to_string()),
        ]
    );
}

// ---- relations ----

#[test]
fn relation_names() {
    assert_eq!(relation_field_name("Post", RelationKind::HasMany), "posts");
    assert_eq!(relation_field_name("Author", RelationKind::BelongsTo), "author");
    assert_eq!(target_table(&strings(&["super", "post", "Entity"])), "post");
    assert_eq!(target_table(&strings(&["BlogPost"])), "blog_post");
    assert_eq!(target_table(&Vec::new()), "unknown");
    assert_eq!(snake_case("HTTPCall"), "h_t_t_p_call");
    assert_eq!(foreign_key_name("super::Column::AuthorId"), "AuthorId");
    assert_eq!(foreign_key_name("author_id"), "author_id");
    assert_eq!(foreign_key_name("a:::b"), ":b");
    assert_eq!(relation_register_name("posts"), "register_relations_posts");
    assert_eq!(relation_table(Some("posts")).unwrap(), "posts");
    assert!(relation_table(None).unwrap_err().starts_with("GritRelation requires a table name."));
    let b = builder_names("posts", RelationKind::HasMany);
    assert_eq!((b.load.as_str(), b.with.as_str()), ("load_posts", "with_posts"));
    assert_eq!(b.nested, Some(("with_posts_nested".to_string(), "closure_posts".to_string())));
    assert!(builder_names("author", RelationKind::BelongsTo).nested.is_none());
}

#[test]
fn sidebar_labels() {
    assert_eq!(sidebar_label("order_items"), "Orderitems Records");
    assert_eq!(sidebar_label("users"), "Users Records");
}

// ---- CSV read back ----

#[test]
fn csv_lines_read_back() {
    let cols = vec![
        GridColumn { name: "id".to_string(), label: "Id".to_string() },
        GridColumn { name: "note".to_string(), label: "Note".to_string() },
    ];
    let records = vec![strings(&["1", "a, \"b\""]), strings(&["2", ""])];
    let csv = export_to_csv(&records, &cols);
    assert_eq!(csv, "Id,Note\n1,\"a, \"\"b\"\"\"\n2,\n");
    let lines: Vec<&str> = csv.split('\n').collect();
    assert_eq!(lines.len(), records.len() + 2);
    assert_eq!(lines[3], "");
}

#[test]
fn bulk_batch_steps() {
    assert!(matches!(batch_step(0, 2, RowOutcome::Inserted), BatchStep::Next));
    assert!(matches!(batch_step(1, 2, RowOutcome::Inserted), BatchStep::Commit(2)));
    match batch_step(1, 3, RowOutcome::InsertFailed("duplicate key".to_string())) {
        BatchStep::Abort(m) => assert_eq!(m, "Database schema violation encountered at row index 1: duplicate key"),
        _ => panic!("expected an abort"),
    }
    match batch_step(0, 1, RowOutcome::HydrationFailed("missing field".to_string())) {
        BatchStep::Abort(m) => assert_eq!(m, "Row hydration mapping constraints rejected at row index 0: missing field"),
        _ => panic!("expected an abort"),
    }
}
