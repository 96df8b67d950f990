//! The response a handler hands back.
use crate::security::SafeHtml;
use vstd::prelude::*;

verus! {

/// An HTTP response: status, markup body and extra headers in order.
pub struct Response {
    pub status: u16,
    pub body: SafeHtml,
    pub headers: Vec<(String, String)>,
}

impl Response {
    /// A response with no extra headers.
    pub fn new(status: u16, body: SafeHtml) -> (r: Self)
        ensures
            r.status == status,
            r.body@ == body@,
            r.headers@.len() == 0,
    {
        Response { status, body, headers: Vec::new() }
    }
}

} // verus!
