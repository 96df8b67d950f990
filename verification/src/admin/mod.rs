//! Pure logic of the administration dashboard.
pub mod pagination;
pub mod responses;
pub mod csv;
pub mod foreign_key;
pub mod list_query;
pub mod links;
pub mod panel;
pub mod bulk;
pub mod relations;
pub mod auth;
pub mod creds;
pub mod metrics;
pub mod schema_edit;
pub mod actions;
pub mod search;
pub mod dashboard;
pub mod results;
