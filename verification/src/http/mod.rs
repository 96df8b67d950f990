//! HTTP request parsing and form decoding.
pub mod request;
pub mod form;
pub mod response;
pub mod connection;
