use gritshield::admin::auth::{AdminAuthMiddleware, AuthOutcome, SessionStore, credentials_match, verify_and_get_admin_id};
use gritshield::admin::creds::AdminCredentials;
use gritshield::admin::csv::{export_to_csv, GridColumn};
use gritshield::admin::foreign_key::{get_target_table_slug, is_foreign_key_column, ModelSchema, Relation, RelationKind};
use gritshield::admin::list_query::{export_query_string, parse_export_query, with_partial, FilterOp, ListQuery};
use gritshield::admin::metrics::{rate_limiting_degraded, DatabasePoolMetrics, InboundCookieDetails, ProcessMetrics};
use gritshield::admin::pagination::build_page_window;
use gritshield::admin::responses::{error_response, shield_error_response, success_response, ShieldError};
use gritshield::admin::schema_edit::{
    create_failure_message, model_snippet_for, new_table_report, plan_columns, prepare_table_name,
    schema_failure_message, table_conflict_message, table_exists_sql, AddColumnPlan, ColumnKind,
    DbBackend, DynamicColumnSpec,
};
use gritshield::http::request::Request;
use gritshield::multimap::MultiMap;
use gritshield::security::UntrustedString;

fn header<'a>(headers: &'a [(String, String)], key: &str) -> Option<&'a str> {
    headers.iter().find(|(k, _)| k == key).map(|(_, v)| v.as_str())
}

fn query(pairs: &[(&str, &str)]) -> MultiMap<UntrustedString> {
    let mut m = MultiMap::new();
    for (k, v) in pairs {
        m.push(k.to_string(), UntrustedString::new(v.to_string()));
    }
    m
}

// ---- pagination ----

#[test]
fn page_window_doc_example() {
    let w = build_page_window(6, 20);
    assert_eq!(
        w,
        vec![Some(1), None, Some(4), Some(5), Some(6), Some(7), Some(8), None, Some(20)]
    );
}

#[test]
fn page_window_small_totals() {
    assert_eq!(build_page_window(1, 0), Vec::<Option<u64>>::new());
    assert_eq!(build_page_window(1, 1), vec![Some(1)]);
    assert_eq!(build_page_window(2, 3), vec![Some(1), Some(2), Some(3)]);
}

#[test]
fn page_window_edges() {
    assert_eq!(build_page_window(1, 10), vec![Some(1), Some(2), Some(3), None, Some(10)]);
    assert_eq!(build_page_window(10, 10), vec![Some(1), None, Some(8), Some(9), Some(10)]);
    assert_eq!(build_page_window(4, 10), vec![Some(1), Some(2), Some(3), Some(4), Some(5), Some(6), None, Some(10)]);
}

#[test]
fn page_window_gaps_are_real_gaps() {
    for total in 0..40u64 {
        for cur in 1..=total.max(1) {
            let w = build_page_window(cur, total);
            for i in 0..w.len() {
                if w[i].is_none() {
                    let a = w[i - 1].unwrap();
                    let b = w[i + 1].unwrap();
                    assert!(b > a + 1);
                }
            }
        }
    }
}

// ---- toast responses ----

#[test]
fn error_response_escapes_quotes() {
    let res = error_response("bad \"x\"");
    assert_eq!(res.status, 400);
    assert_eq!(res.body.as_str(), "bad \"x\"");
    assert_eq!(
        header(&res.headers, "hx-trigger"),
        Some(r#"{"showToast": {"message": "bad \"x\"", "type": "error"}}"#)
    );
}

#[test]
fn success_response_fixed_toast() {
    let res = success_response("done");
    assert_eq!(res.status, 200);
    assert_eq!(res.body.as_str(), "done");
    assert_eq!(
        header(&res.headers, "hx-trigger"),
        Some(r#"{"showToast": {"message": "Table created successfully!", "type": "success"}}"#)
    );
}

#[test]
fn shield_error_messages() {
    assert_eq!(shield_error_response(ShieldError::NotFound).body.as_str(), "Resource not found");
    assert_eq!(shield_error_response(ShieldError::UnauthorizedAccess).body.as_str(), "Unauthorized");
    assert_eq!(shield_error_response(ShieldError::Forbidden).body.as_str(), "Forbidden");
    assert_eq!(
        shield_error_response(ShieldError::BadRequest("no id".to_string())).body.as_str(),
        "no id"
    );
    assert_eq!(
        shield_error_response(ShieldError::InternalError("x".to_string())).body.as_str(),
        "Internal server error"
    );
    assert_eq!(shield_error_response(ShieldError::NotFound).status, 400);
}

// ---- CSV ----

#[test]
fn csv_export_quotes_cells() {
    let columns = vec![
        GridColumn { name: "id".to_string(), label: "ID".to_string() },
        GridColumn { name: "name".to_string(), label: "Name".to_string() },
    ];
    let records = vec![
        vec!["1".to_string(), "Ann".to_string()],
        vec!["2".to_string(), "B, \"C\"".to_string()],
    ];
    let csv = export_to_csv(&records, &columns);
    assert_eq!(csv, "ID,Name\n1,Ann\n2,\"B, \"\"C\"\"\"\n");
}

#[test]
fn csv_export_no_records() {
    let columns = vec![GridColumn { name: "id".to_string(), label: "ID".to_string() }];
    assert_eq!(export_to_csv(&Vec::new(), &columns), "ID\n");
}

// ---- foreign keys ----

#[test]
fn foreign_key_column_names() {
    assert!(is_foreign_key_column("author_id"));
    assert!(!is_foreign_key_column("identity"));
    assert!(!is_foreign_key_column("id"));
}

#[test]
fn target_slug_from_schema_relation() {
    let schema = ModelSchema {
        relations: vec![
            Relation { kind: RelationKind::HasMany, foreign_key: Some("follower_id".to_string()), target_table: "nope".to_string() },
            Relation { kind: RelationKind::BelongsTo, foreign_key: Some("follower_id".to_string()), target_table: "user".to_string() },
        ],
    };
    let tables = vec!["users".to_string(), "posts".to_string()];
    assert_eq!(get_target_table_slug(Some(&schema), &tables, "Follower_ID"), Some("users".to_string()));
}

#[test]
fn target_slug_relation_singular_and_unregistered() {
    let schema = ModelSchema {
        relations: vec![Relation { kind: RelationKind::BelongsTo, foreign_key: Some("tag_id".to_string()), target_table: "tags".to_string() }],
    };
    assert_eq!(get_target_table_slug(Some(&schema), &vec!["tag".to_string()], "tag_id"), Some("tag".to_string()));
    assert_eq!(get_target_table_slug(Some(&schema), &vec![], "tag_id"), Some("tags".to_string()));
}

#[test]
fn target_slug_by_convention() {
    let tables = vec!["posts".to_string(), "category".to_string()];
    assert_eq!(get_target_table_slug(None, &tables, "post_id"), Some("posts".to_string()));
    assert_eq!(get_target_table_slug(None, &tables, "category_id"), Some("category".to_string()));
    assert_eq!(get_target_table_slug(None, &tables, "category_id_id"), Some("category".to_string()));
    assert_eq!(get_target_table_slug(None, &tables, "author_id"), None);
    assert_eq!(get_target_table_slug(None, &tables, "title"), None);
}

// ---- listing query ----

#[test]
fn list_query_reads_filters_search_sort_page() {
    let q = query(&[
        ("filter__name__op", "contains"),
        ("filter__name__value", "Ann%20B"),
        ("filter__age__op", "gt"),
        ("filter__x__op", "is_null"),
        ("filter__y__op", ""),
        ("filter__y__value", "ignored"),
        ("q", "hi%21"),
        ("sort", "name"),
        ("direction", "asc"),
        ("page", "2"),
        ("partial", "rows"),
        ("infinite", "false"),
    ]);
    let lq = ListQuery::parse(&q);
    let fs: Vec<(&str, &str, &str)> = lq
        .filters
        .iter()
        .map(|f| (f.column.as_str(), f.op.as_str(), f.value.as_str()))
        .collect();
    assert_eq!(fs, vec![("name", "contains", "Ann B"), ("x", "is_null", "")]);
    assert_eq!(lq.search.as_deref(), Some("hi!"));
    assert!(!lq.infinite_scroll);
    assert_eq!(lq.sort_col, "name");
    assert_eq!(lq.sort_dir, "asc");
    assert_eq!(lq.page, 2);
    assert_eq!(lq.partial, "rows");
    assert_eq!(lq.active_filter_count(), 3);
    assert!(!lq.has_more_rows(10));

    let base = "?filter__name__op=contains&filter__name__value=Ann%20B&filter__x__op=is_null&q=hi%21&infinite=false";
    assert_eq!(lq.query_string(None, None), format!("{}&sort=name&direction=asc&page=2", base));
    assert_eq!(
        lq.sort_link("/admin/users", "name"),
        format!("/admin/users{}&sort=name&direction=desc&page=2&partial=matrix", base)
    );
    assert_eq!(
        lq.sort_link("/admin/users", "age"),
        format!("/admin/users{}&sort=age&direction=asc&page=2&partial=matrix", base)
    );
    assert_eq!(
        lq.page_url("/admin/users", 0),
        format!("/admin/users{}&sort=name&direction=asc&page=0&partial=matrix", base)
    );
    assert_eq!(
        lq.more_rows_url("/admin/users"),
        format!("/admin/users{}&sort=name&direction=asc&page=3&partial=rows", base)
    );
    assert_eq!(
        lq.jump_base_query(),
        "?filter__name__op=contains&filter__name__value=Ann%20B&filter__x__op=is_null&q=hi%21&sort=name&direction=asc&infinite=false&partial=matrix"
    );
    assert_eq!(
        export_query_string(&lq.filters, &lq.search),
        "?filter__name__op=contains&filter__name__value=Ann%20B&filter__x__op=is_null&q=hi%21"
    );
}

fn follow_link(route_and_query: &str) -> ListQuery {
    let raw = format!("GET {} HTTP/1.1\r\nHost: h\r\n\r\n", route_and_query);
    let b = raw.as_bytes();
    let h = b.windows(4).position(|w| w == b"\r\n\r\n");
    let req = Request::parse_head(b, b.len(), h).unwrap();
    ListQuery::parse(&req.query)
}

#[test]
fn links_keep_listing_state() {
    let q = query(&[
        ("filter__name__op", "contains"),
        ("filter__name__value", "Ann%20B%26C"),
        ("filter__x__op", "is_null"),
        ("q", "hi!"),
        ("sort", "name"),
        ("direction", "asc"),
        ("page", "2"),
        ("infinite", "false"),
    ]);
    let lq = ListQuery::parse(&q);
    let back = follow_link(&format!("/admin/users{}", lq.query_string(None, None)));
    let fs = |l: &ListQuery| -> Vec<(String, String, String)> {
        l.filters.iter().map(|f| (f.column.clone(), f.op.clone(), f.value.clone())).collect()
    };
    assert_eq!(fs(&back), fs(&lq));
    assert_eq!(fs(&back)[0].2, "Ann B&C");
    assert_eq!(back.search, lq.search);
    assert_eq!(back.infinite_scroll, lq.infinite_scroll);
    assert_eq!(back.sort_col, lq.sort_col);
    assert_eq!(back.sort_dir, lq.sort_dir);
    assert_eq!(back.page, lq.page);
    assert_eq!(back.partial, "");

    let sorted = follow_link(&lq.sort_link("/admin/users", "name"));
    assert_eq!(fs(&sorted), fs(&lq));
    assert_eq!(sorted.search, lq.search);
    assert_eq!((sorted.sort_col.as_str(), sorted.sort_dir.as_str()), ("name", "desc"));
    assert_eq!(sorted.page, 2);
    assert_eq!(sorted.partial, "matrix");

    let paged = follow_link(&lq.page_url("/admin/users", 5));
    assert_eq!(fs(&paged), fs(&lq));
    assert_eq!((paged.sort_col.as_str(), paged.sort_dir.as_str()), ("name", "asc"));
    assert_eq!(paged.page, 5);
    assert_eq!(paged.partial, "matrix");

    let more = follow_link(&lq.more_rows_url("/admin/users"));
    assert_eq!(more.page, 3);
    assert_eq!(more.partial, "rows");
    assert_eq!(more.infinite_scroll, false);
}

#[test]
fn link_search_with_percent_is_decoded_twice() {
    let q = query(&[("q", "50%25")]);
    let lq = ListQuery::parse(&q);
    assert_eq!(lq.search.as_deref(), Some("50%"));
    let back = follow_link(&format!("/admin/t{}", lq.query_string(None, None)));
    assert_eq!(back.search.as_deref(), Some("50%"));
    let q2 = query(&[("q", "a%2541")]);
    let lq2 = ListQuery::parse(&q2);
    assert_eq!(lq2.search.as_deref(), Some("a%41"));
    let back2 = follow_link(&format!("/admin/t{}", lq2.query_string(None, None)));
    assert_eq!(back2.search.as_deref(), Some("aA"));
}

#[test]
fn list_query_defaults() {
    let lq = ListQuery::parse(&MultiMap::new());
    assert!(lq.filters.is_empty());
    assert!(lq.search.is_none());
    assert!(lq.infinite_scroll);
    assert_eq!(lq.sort_col, "");
    assert_eq!(lq.sort_dir, "desc");
    assert_eq!(lq.page, 0);
    assert_eq!(lq.partial, "");
    assert_eq!(lq.query_string(None, None), "?infinite=true");
    assert!(lq.has_more_rows(2));
    assert!(!lq.has_more_rows(1));
    assert_eq!(export_query_string(&lq.filters, &lq.search), "");
    assert_eq!(lq.page_url("/admin/t", 4), "/admin/t?infinite=true&page=4&partial=matrix");
}

#[test]
fn list_query_bad_page_and_undecodable_value() {
    let q = query(&[("page", "-1"), ("q", "%FF"), ("infinite", "TRUE")]);
    let lq = ListQuery::parse(&q);
    assert_eq!(lq.page, 0);
    assert_eq!(lq.search.as_deref(), Some("%FF"));
    assert!(!lq.infinite_scroll);
}

#[test]
fn export_query_keeps_raw_values() {
    let q = query(&[
        ("filter__a__op", "eq"),
        ("filter__a__value", "x%20y"),
        ("filter__b__op", ""),
        ("q", "z%21"),
    ]);
    let (filters, search) = parse_export_query(&q);
    let fs: Vec<(&str, &str, &str)> = filters
        .iter()
        .map(|f| (f.column.as_str(), f.op.as_str(), f.value.as_str()))
        .collect();
    assert_eq!(fs, vec![("a", "eq", "x%20y"), ("b", "", "")]);
    assert_eq!(search.as_deref(), Some("z%21"));
}

#[test]
fn with_partial_marks_query() {
    assert_eq!(with_partial("", "matrix"), "?partial=matrix");
    assert_eq!(with_partial("?a=1", "rows"), "?a=1&partial=rows");
}

#[test]
fn filter_ops() {
    assert_eq!(FilterOp::parse("eq"), Some(FilterOp::Eq));
    assert_eq!(FilterOp::parse("gte"), Some(FilterOp::Gte));
    assert_eq!(FilterOp::parse("startswith"), Some(FilterOp::StartsWith));
    assert_eq!(FilterOp::parse("is_not_null"), Some(FilterOp::IsNotNull));
    assert_eq!(FilterOp::parse("like"), None);
}

// ---- sessions and the admin guard ----

#[test]
fn login_verify_logout() {
    let mut store = SessionStore::new();
    assert_eq!(store.login("admin", "wrong", "admin", "secret"), None);
    let sid = store.login("admin", "secret", "admin", "secret").unwrap();
    assert_eq!(sid.len(), 36);
    assert_eq!(verify_and_get_admin_id(&store, Some(sid.as_str())), Some("admin_user_1".to_string()));
    assert_eq!(verify_and_get_admin_id(&store, Some("other")), None);
    assert_eq!(verify_and_get_admin_id(&store, None), None);
    assert_eq!(store.get(&sid).unwrap().id(), sid);
    store.close_session(&sid);
    assert_eq!(verify_and_get_admin_id(&store, Some(sid.as_str())), None);
}

#[test]
fn credentials_compare_both() {
    assert!(credentials_match("a", "b", "a", "b"));
    assert!(!credentials_match("a", "b", "a", "c"));
    assert!(!credentials_match("A", "b", "a", "b"));
}

#[test]
fn admin_guard_decisions() {
    let mut store = SessionStore::new();
    store.open_admin_session("s1".to_string());
    let guard = AdminAuthMiddleware::new(store);
    assert_eq!(guard.execute("/public/page", None), AuthOutcome::Next);
    assert_eq!(guard.execute("/admin/login", None), AuthOutcome::Next);
    assert_eq!(guard.execute("/admin/api/login", None), AuthOutcome::Next);
    assert_eq!(guard.execute("/admin/users", Some("s1")), AuthOutcome::Next);
    assert_eq!(guard.execute("/admin/users", None), AuthOutcome::RedirectToLogin);
    assert_eq!(guard.execute("/admin/users", Some("s2")), AuthOutcome::RedirectToLogin);
    assert_eq!(guard.execute("/admin/api/rows", Some("s2")), AuthOutcome::Unauthorized);
    assert_eq!(guard.execute("/administrator", None), AuthOutcome::RedirectToLogin);
}

#[test]
fn session_data_replace() {
    let mut s = gritshield::admin::auth::Session::new("k".to_string(), None);
    s.insert("a".to_string(), "1".to_string());
    s.insert("a".to_string(), "2".to_string());
    assert_eq!(s.get("a").map(|v| v.as_str()), Some("2"));
    assert!(s.get("b").is_none());
}

// ---- credentials ----

#[test]
fn credentials_from_settings() {
    let c = AdminCredentials::from_settings("root", "pw", "");
    assert_eq!((c.username.as_str(), c.password.as_str()), ("root", "pw"));
    let c = AdminCredentials::from_settings("", "", "0123456789abcdef");
    assert_eq!((c.username.as_str(), c.password.as_str()), ("admin", "0123456789ab"));
    let c = AdminCredentials::from_settings("ops", "", "fedcba9876543210");
    assert_eq!((c.username.as_str(), c.password.as_str()), ("ops", "fedcba987654"));
}

#[test]
fn credentials_generated_password() {
    let (c, generated) = AdminCredentials::resolve("", "x");
    assert!(generated);
    assert_eq!(c.username, "admin");
    assert_eq!(c.password.len(), 12);
    assert_eq!(&c.password[8..9], "-");
    let (c, generated) = AdminCredentials::resolve("u", "p");
    assert!(!generated);
    assert_eq!((c.username.as_str(), c.password.as_str()), ("u", "p"));
}

// ---- telemetry ----

#[test]
fn cookie_audit() {
    let c = InboundCookieDetails::audit("__Host-id", "short");
    assert_eq!(c.name, "__Host-id");
    assert_eq!(c.value_preview, "short");
    assert_eq!(c.server_policy_compliance, "Secure Compliant");
    let c = InboundCookieDetails::audit("session_id", "abcdefghijklmnopqrstu");
    assert_eq!(c.server_policy_compliance, "Secure Compliant");
    assert_eq!(c.value_preview, "abcdefghijkl...");
    let c = InboundCookieDetails::audit("tracker", "0123456789abcdef");
    assert_eq!(c.server_policy_compliance, "Needs Review");
    assert_eq!(c.value_preview, "0123456789abcdef");
}

#[test]
fn firewall_degraded() {
    assert!(!rate_limiting_degraded(0, 100));
    assert!(rate_limiting_degraded(0, 101));
    assert!(rate_limiting_degraded(1, 0));
}

#[test]
fn database_figures() {
    let ok = DatabasePoolMetrics::from_probe(true, "Sqlite".to_string(), 250);
    assert_eq!(ok.status, "healthy");
    assert_eq!(ok.system_status(), "operational");
    assert_eq!(ok.latency_bar(), 100);
    let bad = DatabasePoolMetrics::from_probe(false, "Postgres".to_string(), 7);
    assert_eq!(bad.status, "unhealthy");
    assert_eq!(bad.system_status(), "degraded");
    assert_eq!(bad.latency_bar(), 7);
    let p = ProcessMetrics::new(12, 34);
    assert_eq!((p.uptime_seconds, p.pid), (12, 34));
}

// ---- schema changes ----

#[test]
fn table_name_preparation() {
    assert_eq!(prepare_table_name("  User_Profiles \n"), Ok("user_profiles".to_string()));
    assert_eq!(prepare_table_name(" \t "), Err("Table name cannot be blank".to_string()));
}

#[test]
fn table_exists_queries() {
    assert_eq!(
        table_exists_sql(DbBackend::Sqlite, "users"),
        "SELECT COUNT(*) FROM sqlite_master WHERE type='table' AND name='users';"
    );
    assert_eq!(
        table_exists_sql(DbBackend::Postgres, "users"),
        "SELECT EXISTS (SELECT FROM information_schema.tables WHERE table_name = 'users');"
    );
    assert_eq!(
        table_exists_sql(DbBackend::MySql, "users"),
        "SELECT COUNT(*) FROM information_schema.tables WHERE table_name = 'users' AND table_schema = DATABASE();"
    );
    assert_eq!(
        table_conflict_message("users"),
        "Conflict: Table 'users' already exists in the database schema."
    );
}

fn spec(name: &str, ty: &str) -> DynamicColumnSpec {
    DynamicColumnSpec { name: name.to_string(), column_type: ty.to_string() }
}

#[test]
fn planned_columns_skip_blank_and_id() {
    let cols = vec![spec(" Email ", "string"), spec("id", "int"), spec("  ", "bool"), spec("Age", "int"), spec("at", "datetime"), spec("w", "float"), spec("f", "bool"), spec("n", "blob")];
    let plan: Vec<(String, ColumnKind)> = plan_columns(&cols).into_iter().map(|p| (p.name, p.kind)).collect();
    assert_eq!(
        plan,
        vec![
            ("email".to_string(), ColumnKind::Text),
            ("age".to_string(), ColumnKind::Integer),
            ("at".to_string(), ColumnKind::DateTime),
            ("w".to_string(), ColumnKind::Float),
            ("f".to_string(), ColumnKind::Boolean),
            ("n".to_string(), ColumnKind::Text),
        ]
    );
}

#[test]
fn generated_model_snippet() {
    let cols = vec![spec("email", "string"), spec("age", "int"), spec("seen", "datetime")];
    let snippet = model_snippet_for("user_profiles", &cols);
    let fields = "    #[sea_orm(primary_key)]\n    pub id: i32,\n    pub email: String,\n    pub age: i32,\n    pub seen: chrono::NaiveDateTime,\n";
    let expected = format!(
        "\n// Add this boilerplate code block to your entities module\n\n#[derive(Clone, Debug, PartialEq, DeriveEntityModel, serde::Serialize, serde::Deserialize)]\n#[sea_orm(table_name = \"{}\")]\npub struct Model {{\n{}\n}}\n\n#[derive(Copy, Clone, Debug, EnumIter, DeriveRelation)]\npub enum Relation {{}}\n\nimpl ActiveModelBehavior for ActiveModel {{}}\n\n// GritAdmin Repository Macro Definition\n\n#[derive(GritAdmin)]\n#[repository(\n    searchable = [{}],\n    grid_columns = [{}],\n    read_only = [\"id\"]\n)]\npub struct {}Repository;\n",
        "user_profiles", fields, "\"email\"", "\"id\", \"email\", \"age\", \"seen\"", "UserProfiles"
    );
    assert_eq!(snippet, expected);
    let report = new_table_report("user_profiles", &cols);
    assert!(report.starts_with("<div class=\"space-y-4 animate-slide-in\">"));
    assert!(report.contains("<code>user_profiles</code>."));
    assert!(report.contains("#[sea_orm(table_name = &quot;user_profiles&quot;)]"));
    assert!(report.ends_with("</code></pre>\n                    </div>\n                </div>"));
}

#[test]
fn add_column_requests() {
    assert_eq!(
        AddColumnPlan::from_request("Users", "  ", "int").err().unwrap(),
        "Column name input parameter field cannot be empty."
    );
    assert_eq!(
        AddColumnPlan::from_request("Users", " ID ", "int").err().unwrap(),
        "Invalid or restricted column name choice."
    );
    let plan = AddColumnPlan::from_request(" Users ", " Nick ", "bool").ok().unwrap();
    assert_eq!(plan.table, "users");
    assert_eq!(plan.column, "nick");
    assert_eq!(plan.kind, ColumnKind::Boolean);
    assert_eq!(
        plan.report("bool"),
        "Successfully appended column 'nick' (bool) to table 'users'. Make sure to add it to your struct entity file!"
    );
    assert_eq!(schema_failure_message("boom"), "Schema modification failed: boom");
    assert_eq!(create_failure_message("boom"), "Database schema execution failure: boom");
}

#[test]
fn dashboard_queries_and_previews() {
    assert_eq!(gritshield::admin::dashboard::count_query("users"), "SELECT COUNT(*) as count FROM users");
    assert_eq!(
        gritshield::admin::dashboard::recent_query("users"),
        "SELECT * FROM users ORDER BY id DESC LIMIT 5"
    );
    let names: Vec<String> = ["id", "name", "email", "age"].iter().map(|s| s.to_string()).collect();
    assert_eq!(
        gritshield::admin::dashboard::preview_columns(&names),
        vec!["name".to_string(), "email".to_string()]
    );
    assert_eq!(gritshield::admin::dashboard::preview_columns(&names[..2].to_vec()), vec!["name".to_string()]);
    assert!(gritshield::admin::dashboard::preview_columns(&vec!["id".to_string()]).is_empty());
    assert_eq!(gritshield::admin::dashboard::total_records(&vec![3, 4, 0]), 7);
    assert_eq!(gritshield::admin::dashboard::total_records(&vec![]), 0);
}

#[test]
fn result_grid_headers() {
    let n = gritshield::admin::results::short_column_name;
    assert_eq!(n("users.id"), "id");
    assert_eq!(n("a.b.name"), "name");
    assert_eq!(n("email"), "email");
    assert_eq!(n("trailing."), "");
    assert!(gritshield::admin::results::header_is_id("Users.ID"));
    assert!(!gritshield::admin::results::header_is_id("user_id"));
    let hs = vec!["name".to_string(), "t.Id".to_string()];
    assert!(gritshield::admin::results::results_have_id(&hs));
    assert!(!gritshield::admin::results::results_have_id(&vec!["name".to_string()]));
}
