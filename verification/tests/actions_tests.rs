use gritshield::admin::actions::{
    action_target, action_toast_trigger, bulk_delete_ids, bulk_delete_report, bulk_import_payload,
    bulk_import_toast, cell_hx_vals, delete_target, normalize_timestamp, CellUpdate,
};
use gritshield::admin::auth::{verify_and_get_admin_id, SessionStore};
use gritshield::admin::list_query::{ListQuery, RenderMode};
use gritshield::admin::foreign_key::{grid_cell, GridCell, ModelSchema, Relation, RelationKind};
use gritshield::admin::search::{grid_display_name, needs_record_search, palette_settings, palette_tables};
use gritshield::http::connection::{
    bad_request_response, handler_panic_response, is_websocket_upgrade, keep_alive,
    read_failure_action, role_denied_message, route_miss_response, websocket_handshake,
    websocket_handshake_for, ReadFailure, RouteMiss,
};
use gritshield::http::form::{FieldShape, FormData};
use gritshield::http::request::{HttpMethod, Request};
use gritshield::multimap::MultiMap;
use gritshield::security::{Sanitizer, UntrustedString};

fn fields(pairs: &[(&str, &str)]) -> MultiMap<UntrustedString> {
    let mut m = MultiMap::new();
    for (k, v) in pairs {
        m.push(k.to_string(), UntrustedString::new(v.to_string()));
    }
    m
}

fn req_with_headers(pairs: &[(&str, &str)], body: &[u8]) -> Request {
    let mut h: MultiMap<String> = MultiMap::new();
    for (k, v) in pairs {
        h.push(k.to_string(), v.to_string());
    }
    Request::fill(HttpMethod::GET, "/".to_string(), "/".to_string(), h, body.to_vec(), MultiMap::new())
}

// ---- custom actions ----

#[test]
fn action_toast_strips_tags_and_escapes() {
    assert_eq!(
        action_toast_trigger(Some("  <b>Banned</b> \"bob\" \n")),
        r#"{"showToast": {"message": "Banned \"bob\"", "type": "success"}}"#
    );
    assert_eq!(
        action_toast_trigger(None),
        r#"{"showToast": {"message": "Action completed successfully", "type": "success"}}"#
    );
    assert_eq!(
        action_toast_trigger(Some("a<br/>b>c")),
        r#"{"showToast": {"message": "abc", "type": "success"}}"#
    );
}

#[test]
fn action_targets() {
    assert_eq!(
        action_target("/admin/users/action/ban", None),
        Ok(("users".to_string(), "ban".to_string()))
    );
    assert_eq!(
        action_target("/admin/users/bulk-action/ban", Some("promote")),
        Ok(("users".to_string(), "promote".to_string()))
    );
    assert_eq!(
        action_target("/admin//admin/users/action/x", None),
        Ok(("users".to_string(), "x".to_string()))
    );
    assert_eq!(action_target("/admin/users/ban", None), Err("Invalid action URL format".to_string()));
    assert_eq!(action_target("/admin/users", None), Err("Invalid action URL format".to_string()));
}

#[test]
fn cell_updates() {
    let f = fields(&[("id", "7"), ("column", "first%20name"), ("first%20name", "Ann%21")]);
    let u = CellUpdate::from_form(&f).ok().unwrap();
    assert_eq!((u.id.as_str(), u.column.as_str(), u.value.as_str()), ("7", "first name", "Ann!"));
    assert_eq!(CellUpdate::from_form(&fields(&[])).err().unwrap(), "Missing record ID");
    assert_eq!(CellUpdate::from_form(&fields(&[("id", "1")])).err().unwrap(), "Missing targeted column");
    assert_eq!(
        CellUpdate::from_form(&fields(&[("id", "1"), ("column", "age")])).err().unwrap(),
        "Missing field update payload"
    );
    assert_eq!(
        cell_hx_vals("7", "age", "users"),
        r#"{"id": "7", "column": "age", "table_to_modify": "users"}"#
    );
}

#[test]
fn delete_targets() {
    assert_eq!(delete_target(&fields(&[("id", "3")]), &fields(&[("id", "9")])), Ok("3".to_string()));
    assert_eq!(delete_target(&fields(&[]), &fields(&[("id", "9")])), Ok("9".to_string()));
    assert_eq!(delete_target(&fields(&[]), &fields(&[])), Err("Missing record target ID".to_string()));
}

#[test]
fn bulk_delete_requests() {
    assert_eq!(
        bulk_delete_ids(&fields(&[("ids", "1,%2C2,,3,")])),
        Ok(vec!["1".to_string(), "2".to_string(), "3".to_string()])
    );
    assert_eq!(bulk_delete_ids(&fields(&[("ids", ",,")])), Err("No IDs provided".to_string()));
    assert_eq!(bulk_delete_ids(&fields(&[])), Err("Missing 'ids' field".to_string()));
    assert_eq!(bulk_delete_report(&vec![]), None);
    assert_eq!(
        bulk_delete_report(&vec!["a".to_string(), "b".to_string()]),
        Some("Some deletions failed: a; b".to_string())
    );
}

#[test]
fn bulk_import_helpers() {
    assert_eq!(
        bulk_import_payload(&fields(&[("bulk_json", "%5B%5D")])),
        Ok("[]".to_string())
    );
    assert_eq!(
        bulk_import_payload(&fields(&[])),
        Err("Missing key field 'bulk_json' inside the request body payload".to_string())
    );
    assert_eq!(normalize_timestamp("2024-05-06 07:08:09"), "2024-05-06T07:08:09");
    assert_eq!(normalize_timestamp("2024-05-06 07:08:09 UTC"), "2024-05-06T07:08:09TUTC");
    assert_eq!(normalize_timestamp("hello world"), "hello world");
    assert_eq!(normalize_timestamp("2024-05-06"), "2024-05-06");
    assert_eq!(
        bulk_import_toast(12, "users"),
        r#"{"showToast": {"message": "Successfully ingested 12 rows into users!", "type": "success"}}"#
    );
    assert_eq!(
        bulk_import_toast(0, "t"),
        r#"{"showToast": {"message": "Successfully ingested 0 rows into t!", "type": "success"}}"#
    );
}

// ---- grid cells ----

#[test]
fn grid_cells() {
    let tables = vec!["users".to_string()];
    match grid_cell(None, &tables, "user_id", "42", false) {
        GridCell::Link { href } => assert_eq!(href, "/admin/users/42"),
        _ => panic!("expected a link"),
    }
    assert!(matches!(grid_cell(None, &tables, "user_id", "", true), GridCell::Editable));
    assert!(matches!(grid_cell(None, &tables, "owner_id", "4", true), GridCell::ReadOnly));
    assert!(matches!(grid_cell(None, &tables, "title", "x", true), GridCell::Editable));
    assert!(matches!(grid_cell(None, &tables, "title", "x", false), GridCell::ReadOnly));
    let schema = ModelSchema {
        relations: vec![Relation { kind: RelationKind::BelongsTo, foreign_key: Some("owner_id".to_string()), target_table: "user".to_string() }],
    };
    match grid_cell(Some(&schema), &tables, "owner_id", "5", false) {
        GridCell::Link { href } => assert_eq!(href, "/admin/users/5"),
        _ => panic!("expected a link"),
    }
}

// ---- command palette ----

#[test]
fn palette_matching() {
    let tables = vec![
        ("users".to_string(), "/admin/users".to_string()),
        ("UserRoles".to_string(), "/admin/user_roles".to_string()),
        ("posts".to_string(), "/admin/posts".to_string()),
    ];
    let found = palette_tables("user", &tables);
    assert_eq!(found, vec![tables[0].clone(), tables[1].clone()]);
    assert!(palette_tables("", &tables).is_empty());
    let s = palette_settings("metric");
    assert_eq!(s, vec![("/admin/metrics".to_string(), "⚙️ System Metrics".to_string())]);
    let s = palette_settings("admin");
    assert_eq!(s.len(), 2);
    assert!(palette_settings("").is_empty());
    assert!(needs_record_search("zzz", &vec![], &vec![]));
    assert!(!needs_record_search("", &vec![], &vec![]));
    assert!(!needs_record_search("user", &found, &vec![]));
    assert_eq!(grid_display_name("users"), "Users Grid");
}

#[test]
fn palette_display_name_ascii() {
    assert_eq!(grid_display_name("a"), "A Grid");
    assert_eq!(grid_display_name("order_items"), "Order_items Grid");
}

// ---- connections ----

#[test]
fn read_failures() {
    assert_eq!(read_failure_action("unexpected EOF"), ReadFailure::Close);
    assert_eq!(read_failure_action("Connection reset by peer"), ReadFailure::Close);
    assert_eq!(read_failure_action("Closed"), ReadFailure::Close);
    assert_eq!(read_failure_action("Malformed request line"), ReadFailure::RespondBadRequest);
    let r = bad_request_response();
    assert_eq!((r.status, r.body.as_str()), (400, "<h1>Bad Request</h1>"));
}

#[test]
fn keep_alive_and_upgrade() {
    assert!(keep_alive(&req_with_headers(&[], b"")));
    assert!(!keep_alive(&req_with_headers(&[("connection", "Close")], b"")));
    assert!(keep_alive(&req_with_headers(&[("connection", "keep-alive")], b"")));
    assert!(is_websocket_upgrade(&req_with_headers(&[("upgrade", "websocket")], b"")));
    assert!(!is_websocket_upgrade(&req_with_headers(&[("upgrade", "h2c")], b"")));
    assert!(!is_websocket_upgrade(&req_with_headers(&[], b"")));
}

#[test]
fn websocket_handshakes() {
    let req = req_with_headers(&[("sec-websocket-key", "dGhlIHNhbXBsZSBub25jZQ==")], b"");
    assert_eq!(
        websocket_handshake_for(&req),
        Some("HTTP/1.1 101 Switching Protocols\r\nUpgrade: websocket\r\nConnection: Upgrade\r\nSec-WebSocket-Accept: s3pPLMBiTxaQ9kYGzzhZRbK+xOo=\r\n\r\n".to_string())
    );
    assert_eq!(websocket_handshake_for(&req_with_headers(&[], b"")), None);
    assert_eq!(websocket_handshake("k"), "HTTP/1.1 101 Switching Protocols\r\nUpgrade: websocket\r\nConnection: Upgrade\r\nSec-WebSocket-Accept: k\r\n\r\n");
}

#[test]
fn fixed_responses() {
    assert_eq!(
        role_denied_message("admin"),
        "Access Denied: Missing required operational role clearance 'admin'."
    );
    let r = route_miss_response(RouteMiss::NotFound);
    assert_eq!((r.status, r.body.as_str()), (404, "<h1>404 Not Found</h1>"));
    let r = route_miss_response(RouteMiss::MethodNotAllowed);
    assert_eq!((r.status, r.body.as_str()), (405, "<h1>405 Method Not Allowed</h1>"));
    let r = handler_panic_response();
    assert_eq!((r.status, r.body.as_str()), (500, "<h1>500 Internal Server Error</h1>"));
}

// ---- JSON bodies and typed forms ----

#[test]
fn json_body_checks() {
    let ok = req_with_headers(&[("content-type", "application/json; charset=utf-8")], b"{}");
    assert_eq!(ok.json_body(), Ok(&b"{}"[..]));
    assert_eq!(req_with_headers(&[], b"{}").json_body(), Err("Missing Content-Type header".to_string()));
    assert_eq!(
        req_with_headers(&[("content-type", "text/plain")], b"{}").json_body(),
        Err("Unsupported Media Type: Expected application/json".to_string())
    );
    assert_eq!(
        req_with_headers(&[("content-type", "application/json")], b"").json_body(),
        Err("Empty request body".to_string())
    );
}

#[test]
fn field_shapes_single_and_many() {
    let mut form = FormData::new();
    form.fields.push("a".to_string(), UntrustedString::new("1".to_string()));
    form.fields.push("b".to_string(), UntrustedString::new("x".to_string()));
    form.fields.push("a".to_string(), UntrustedString::new("2".to_string()));
    let shapes = form.field_shapes();
    assert_eq!(shapes.len(), 2);
    assert_eq!(shapes[0].0, "a");
    match &shapes[0].1 {
        FieldShape::Many(v) => assert_eq!(v, &vec!["1".to_string(), "2".to_string()]),
        _ => panic!("expected a list"),
    }
    match &shapes[1].1 {
        FieldShape::One(v) => assert_eq!(v, "x"),
        _ => panic!("expected one value"),
    }
}

#[test]
fn url_decode_and_invalid_utf8_form() {
    assert_eq!(Sanitizer::url_decode("a%20b"), "a b");
    assert_eq!(Sanitizer::url_decode("%FF"), "%FF");
    assert_eq!(Sanitizer::url_encode("a b&c"), "a%20b%26c");
    let req = req_with_headers(&[("content-type", "application/x-www-form-urlencoded")], b"a=\xff");
    assert_eq!(req.parse_form_body().get_plain_str("a"), None);
}

#[test]
fn render_modes() {
    let q = |p: &str| {
        let mut m = MultiMap::new();
        m.push("partial".to_string(), UntrustedString::new(p.to_string()));
        ListQuery::parse(&m)
    };
    assert_eq!(q("rows").render_mode(), RenderMode::Rows);
    assert_eq!(q("matrix").render_mode(), RenderMode::Matrix);
    assert_eq!(q("").render_mode(), RenderMode::Full);
    assert_eq!(ListQuery::parse(&MultiMap::new()).render_mode(), RenderMode::Full);
}

#[test]
fn escaped_html_is_inert() {
    let safe = Sanitizer::encode("<a href='x'>\"q\" / & done</a>");
    let s = safe.as_str();
    assert!(!s.contains('<') && !s.contains('>') && !s.contains('"') && !s.contains('\''));
    assert_eq!(s, "&lt;a href=&#x27;x&#x27;&gt;&quot;q&quot; &#x2F; &amp; done&lt;&#x2F;a&gt;");
}

#[test]
fn url_encoded_values_stay_one_parameter() {
    let e = Sanitizer::url_encode("a=1&b=2#frag ?+é");
    assert!(e.bytes().all(|c| c.is_ascii_alphanumeric() || b"-._~%".contains(&c)));
    assert_eq!(e, "a%3D1%26b%3D2%23frag%20%3F%2B%C3%A9");
}

#[test]
fn foreign_key_cells_ignore_editability() {
    let tables = vec!["users".to_string()];
    let a = grid_cell(None, &tables, "user_id", "9", true);
    let b = grid_cell(None, &tables, "user_id", "9", false);
    match (a, b) {
        (GridCell::Link { href: x }, GridCell::Link { href: y }) => assert_eq!(x, y),
        _ => panic!("expected links"),
    }
}

#[test]
fn other_sessions_unchanged_by_login_and_logout() {
    let mut store = SessionStore::new();
    store.open_admin_session("one".to_string());
    let two = store.login("u", "p", "u", "p").unwrap();
    assert_eq!(verify_and_get_admin_id(&store, Some("one")), Some("admin_user_1".to_string()));
    store.close_session(&two);
    assert_eq!(verify_and_get_admin_id(&store, Some("one")), Some("admin_user_1".to_string()));
    assert_eq!(verify_and_get_admin_id(&store, Some(two.as_str())), None);
}
