//! Responses that carry an htmx toast notification.
use crate::http::response::Response;
use crate::security::Sanitizer;
use crate::lex::{append_joined, replace_byte, split_ranges};
use crate::text::{
    lemma_ascii_valid, lemma_valid_concat, sbytes, str_bytes, str_to_string, string_from_valid,
};
use vstd::prelude::*;


verus! {

broadcast use vstd::utf8::encode_utf8_valid_utf8;

/// Framework errors that surface in the dashboard.
pub enum ShieldError {
    BadRequest(String),
    NotFound,
    UnauthorizedAccess,
    Forbidden,
    MethodNotAllowed,
    InternalError(String),
}

/// `{"showToast": {"message": "`
pub open spec fn toast_prefix() -> Seq<u8> {
    seq![
        '{' as u8, '"' as u8, 's' as u8, 'h' as u8, 'o' as u8, 'w' as u8, 'T' as u8, 'o' as u8,
        'a' as u8, 's' as u8, 't' as u8, '"' as u8, ':' as u8, ' ' as u8, '{' as u8, '"' as u8,
        'm' as u8, 'e' as u8, 's' as u8, 's' as u8, 'a' as u8, 'g' as u8, 'e' as u8, '"' as u8,
        ':' as u8, ' ' as u8, '"' as u8,
    ]
}

/// `", "type": "error"}}`
pub open spec fn toast_error_suffix() -> Seq<u8> {
    seq![
        '"' as u8, ',' as u8, ' ' as u8, '"' as u8, 't' as u8, 'y' as u8, 'p' as u8, 'e' as u8,
        '"' as u8, ':' as u8, ' ' as u8, '"' as u8, 'e' as u8, 'r' as u8, 'r' as u8, 'o' as u8,
        'r' as u8, '"' as u8, '}' as u8, '}' as u8,
    ]
}

/// The `hx-trigger` value that shows an error toast with message `msg`
/// (double quotes in it backslash-escaped).
pub open spec fn error_trigger(msg: Seq<u8>) -> Seq<u8> {
    toast_prefix() + replace_byte(msg, 34, seq![92u8, 34u8]) + toast_error_suffix()
}

/// A `400` response whose body is `msg` and whose `hx-trigger` header shows
/// `msg` in an error toast.
pub fn error_response(msg: &str) -> (res: Response)
    ensures
        res.status == 400,
        res.body@ == msg@,
        res.headers@.len() == 1,
        res.headers@[0].0@ == "hx-trigger"@,
        sbytes(res.headers@[0].1@) == error_trigger(sbytes(msg@)),
{
    let mut res = Response::new(400, Sanitizer::trust(msg));
    let mb = str_bytes(msg);
    let pieces = split_ranges(mb, 0, mb.len(), 34);
    assert(mb@.subrange(0, mb@.len() as int) =~= mb@);
    let prefix: Vec<u8> = vec![
        '{' as u8, '"' as u8, 's' as u8, 'h' as u8, 'o' as u8, 'w' as u8, 'T' as u8, 'o' as u8,
        'a' as u8, 's' as u8, 't' as u8, '"' as u8, ':' as u8, ' ' as u8, '{' as u8, '"' as u8,
        'm' as u8, 'e' as u8, 's' as u8, 's' as u8, 'a' as u8, 'g' as u8, 'e' as u8, '"' as u8,
        ':' as u8, ' ' as u8, '"' as u8,
    ];
    let suffix: Vec<u8> = vec![
        '"' as u8, ',' as u8, ' ' as u8, '"' as u8, 't' as u8, 'y' as u8, 'p' as u8, 'e' as u8,
        '"' as u8, ':' as u8, ' ' as u8, '"' as u8, 'e' as u8, 'r' as u8, 'r' as u8, 'o' as u8,
        'r' as u8, '"' as u8, '}' as u8, '}' as u8,
    ];
    let esc: [u8; 2] = [92, 34];
    let escs: &[u8] = &esc;
    assert(prefix@ =~= toast_prefix());
    assert(suffix@ =~= toast_error_suffix());
    assert(escs@ == seq![92u8, 34u8]);
    let mut out = prefix;
    proof {
        lemma_ascii_valid(out@);
        lemma_ascii_valid(escs@);
        lemma_ascii_valid(suffix@);
        assert(crate::text::is_boundary(mb@, 0));
        assert(crate::text::is_boundary(mb@, mb@.len() as int));
    }
    append_joined(&mut out, mb, &pieces, escs, 0, mb.len());
    let ghost mid = out@;
    crate::text::append_range(&mut out, suffix.as_slice(), 0, suffix.len());
    proof {
        assert(suffix@.subrange(0, suffix@.len() as int) =~= suffix@);
        lemma_valid_concat(mid, suffix@);
        assert(out@ =~= error_trigger(mb@));
    }
    let trigger = string_from_valid(out);
    res.headers.push((str_to_string("hx-trigger"), trigger));
    res
}

/// The fixed `hx-trigger` value of a success toast.
pub open spec fn success_trigger() -> Seq<char> {
    "{\"showToast\": {\"message\": \"Table created successfully!\", \"type\": \"success\"}}"@
}

/// A `200` response whose body is `msg`, with a success toast.
pub fn success_response(msg: &str) -> (res: Response)
    ensures
        res.status == 200,
        res.body@ == msg@,
        res.headers@.len() == 1,
        res.headers@[0].0@ == "hx-trigger"@,
        res.headers@[0].1@ == success_trigger(),
{
    let mut res = Response::new(200, Sanitizer::trust(msg));
    let trigger = str_to_string(
        "{\"showToast\": {\"message\": \"Table created successfully!\", \"type\": \"success\"}}",
    );
    res.headers.push((str_to_string("hx-trigger"), trigger));
    res
}

/// The message a framework error is shown with.
pub open spec fn shield_error_message(err: ShieldError) -> Seq<char> {
    match err {
        ShieldError::BadRequest(s) => s@,
        ShieldError::NotFound => "Resource not found"@,
        ShieldError::UnauthorizedAccess => "Unauthorized"@,
        ShieldError::Forbidden => "Forbidden"@,
        _ => "Internal server error"@,
    }
}

/// The error response for a framework error.
pub fn shield_error_response(err: ShieldError) -> (res: Response)
    ensures
        res.status == 400,
        res.body@ == shield_error_message(err),
        res.headers@.len() == 1,
        res.headers@[0].0@ == "hx-trigger"@,
        sbytes(res.headers@[0].1@) == error_trigger(sbytes(shield_error_message(err))),
{
    let ghost e = err;
    let msg = match err {
        ShieldError::BadRequest(s) => s,
        ShieldError::NotFound => str_to_string("Resource not found"),
        ShieldError::UnauthorizedAccess => str_to_string("Unauthorized"),
        ShieldError::Forbidden => str_to_string("Forbidden"),
        _ => str_to_string("Internal server error"),
    };
    assert(msg@ == shield_error_message(e));
    error_response(msg.as_str())
}

} // verus!
