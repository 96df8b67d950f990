//! GritShield's request-handling core: HTTP request parsing, form decoding,
//! and the pure decision logic of the administration dashboard.
pub mod text;
pub mod lex;
pub mod multimap;
pub mod strmap;
pub mod naming;
pub mod codegen;
pub mod macro_names;
pub mod clean;
pub mod security;
pub mod http;
pub mod lits;
pub mod admin;
