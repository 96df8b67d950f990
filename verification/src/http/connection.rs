//! The decisions a connection makes around each request: whether a read
//! failure closes the connection quietly, whether to keep the connection
//! open, whether the client asks for a WebSocket, and the fixed responses
//! sent when no handler answers.
use crate::http::request::Request;
use crate::http::response::Response;
use crate::lex::contains_seq;
use crate::multimap::bytes_equal;
use crate::security::Sanitizer;
use crate::text::{lemma_sbytes_injective, sbytes, str_bytes, str_to_string, to_lowercase, unicode_lowercase};
use vstd::prelude::*;

verus! {

/// What to do when a request could not be read.
#[derive(PartialEq, Eq, Structural, Clone, Copy, Debug)]
pub enum ReadFailure {
    /// The client went away: close without a word.
    Close,
    /// Answer `400 Bad Request`, then close.
    RespondBadRequest,
}

/// `EOF`, `Closed`, `reset`: the words of an error that only says the client went away.
pub open spec fn client_gone(msg: Seq<u8>) -> bool {
    contains_seq(msg, seq!['E' as u8, 'O' as u8, 'F' as u8])
        || contains_seq(msg, seq!['C' as u8, 'l' as u8, 'o' as u8, 's' as u8, 'e' as u8, 'd' as u8])
        || contains_seq(msg, seq!['r' as u8, 'e' as u8, 's' as u8, 'e' as u8, 't' as u8])
}

/// The action for a read error with message `msg`.
pub fn read_failure_action(msg: &str) -> (r: ReadFailure)
    ensures
        r == (if client_gone(sbytes(msg@)) {
            ReadFailure::Close
        } else {
            ReadFailure::RespondBadRequest
        }),
{
    let b = str_bytes(msg);
    let eof: [u8; 3] = ['E' as u8, 'O' as u8, 'F' as u8];
    let closed: [u8; 6] = ['C' as u8, 'l' as u8, 'o' as u8, 's' as u8, 'e' as u8, 'd' as u8];
    let reset: [u8; 5] = ['r' as u8, 'e' as u8, 's' as u8, 'e' as u8, 't' as u8];
    let (e, c, r): (&[u8], &[u8], &[u8]) = (&eof, &closed, &reset);
    assert(e@ == seq!['E' as u8, 'O' as u8, 'F' as u8]);
    assert(c@ == seq!['C' as u8, 'l' as u8, 'o' as u8, 's' as u8, 'e' as u8, 'd' as u8]);
    assert(r@ == seq!['r' as u8, 'e' as u8, 's' as u8, 'e' as u8, 't' as u8]);
    assert(b@.subrange(0, b@.len() as int) =~= b@);
    if crate::lex::range_contains(b, 0, b.len(), e) || crate::lex::range_contains(b, 0, b.len(), c)
        || crate::lex::range_contains(b, 0, b.len(), r) {
        ReadFailure::Close
    } else {
        ReadFailure::RespondBadRequest
    }
}

/// The response to a request that could not be read.
pub fn bad_request_response() -> (r: Response)
    ensures
        r.status == 400,
        r.body@ == "<h1>Bad Request</h1>"@,
        r.headers@.len() == 0,
{
    Response::new(400, Sanitizer::trust("<h1>Bad Request</h1>"))
}

/// The first value of a header, if the request has it.
pub open spec fn first_header(req: Request, name: Seq<char>) -> Option<Seq<char>> {
    if req.headers@.contains_key(name) && req.headers@[name].len() > 0 {
        Some(req.headers@[name][0])
    } else {
        None
    }
}

/// The connection stays open unless the request's `Connection` header says
/// `close` (in any case).
pub open spec fn keeps_alive(req: Request) -> bool {
    match first_header(req, "connection"@) {
        Some(v) => unicode_lowercase(v) != "close"@,
        None => true,
    }
}

/// Does the connection stay open after this request?
pub fn keep_alive(req: &Request) -> (r: bool)
    requires
        req.headers.wf(),
    ensures
        r == keeps_alive(*req),
{
    match req.headers.get("connection") {
        Some(vals) => {
            assert(vals@.map_values(|x: String| x@)[0] == vals@[0]@);
            let low = to_lowercase(vals[0].as_str());
            let close = "close";
            proof {
                lemma_sbytes_injective(low@, close@);
            }
            !bytes_equal(str_bytes(low.as_str()), str_bytes(close))
        },
        None => true,
    }
}

/// Does the request ask to switch to the WebSocket protocol (`Upgrade: websocket`)?
pub fn is_websocket_upgrade(req: &Request) -> (r: bool)
    requires
        req.headers.wf(),
    ensures
        r == (first_header(*req, "upgrade"@) == Some("websocket"@)),
{
    match req.headers.get("upgrade") {
        Some(vals) => {
            assert(vals@.map_values(|x: String| x@)[0] == vals@[0]@);
            let ws = "websocket";
            proof {
                lemma_sbytes_injective(vals@[0]@, ws@);
            }
            bytes_equal(str_bytes(vals[0].as_str()), str_bytes(ws))
        },
        None => false,
    }
}

pub const HANDSHAKE_HEAD: &'static str = "HTTP/1.1 101 Switching Protocols\r\nUpgrade: websocket\r\nConnection: Upgrade\r\nSec-WebSocket-Accept: ";
pub const HANDSHAKE_TAIL: &'static str = "\r\n\r\n";

/// The `101 Switching Protocols` answer carrying the accept key.
pub fn websocket_handshake(accept: &str) -> (r: String)
    ensures
        r@ == HANDSHAKE_HEAD@ + accept@ + HANDSHAKE_TAIL@,
{
    let mut out = str_to_string(HANDSHAKE_HEAD);
    out.append(accept);
    out.append(HANDSHAKE_TAIL);
    out
}

/// The `Sec-WebSocket-Accept` value tungstenite derives from a client's key.
pub uninterp spec fn websocket_accept_key(key: Seq<u8>) -> Seq<char>;

/// `tungstenite::handshake::derive_accept_key` (through tokio-tungstenite):
/// the accept key for a client's `Sec-WebSocket-Key` (SHA-1 of the key and
/// the protocol's GUID, in base64).  Only its name is stated.
#[verifier::external_body]
fn derive_accept_key(key: &[u8]) -> (r: String)
    ensures
        r@ == websocket_accept_key(key@),
{
    tokio_tungstenite::tungstenite::handshake::derive_accept_key(key)
}

/// The handshake answer for a WebSocket upgrade request: `None` when the
/// request carries no `Sec-WebSocket-Key`.
pub fn websocket_handshake_for(req: &Request) -> (r: Option<String>)
    requires
        req.headers.wf(),
    ensures
        match (r, first_header(*req, "sec-websocket-key"@)) {
            (Some(h), Some(k)) => h@ == HANDSHAKE_HEAD@ + websocket_accept_key(sbytes(k)) + HANDSHAKE_TAIL@,
            (None, None) => true,
            _ => false,
        },
{
    match req.headers.get("sec-websocket-key") {
        Some(vals) => {
            assert(vals@.map_values(|x: String| x@)[0] == vals@[0]@);
            let accept = derive_accept_key(str_bytes(vals[0].as_str()));
            Some(websocket_handshake(accept.as_str()))
        },
        None => None,
    }
}

/// The refusal of a route that needs a role the caller does not hold.
pub fn role_denied_message(role: &str) -> (r: String)
    ensures
        r@ == "Access Denied: Missing required operational role clearance '"@ + role@ + "'."@,
{
    let mut out = str_to_string("Access Denied: Missing required operational role clearance '");
    out.append(role);
    out.append("'.");
    out
}

/// Why no route handled a request.
#[derive(PartialEq, Eq, Structural, Clone, Copy, Debug)]
pub enum RouteMiss {
    NotFound,
    MethodNotAllowed,
}

/// The response when no route handles a request and no error handler is set:
/// `404 Not Found` or `405 Method Not Allowed`.
pub fn route_miss_response(miss: RouteMiss) -> (r: Response)
    ensures
        r.headers@.len() == 0,
        miss == RouteMiss::NotFound ==> r.status == 404 && r.body@ == "<h1>404 Not Found</h1>"@,
        miss == RouteMiss::MethodNotAllowed ==> r.status == 405 && r.body@
            == "<h1>405 Method Not Allowed</h1>"@,
{
    match miss {
        RouteMiss::NotFound => Response::new(404, Sanitizer::trust("<h1>404 Not Found</h1>")),
        RouteMiss::MethodNotAllowed => Response::new(
            405,
            Sanitizer::trust("<h1>405 Method Not Allowed</h1>"),
        ),
    }
}

/// The response when a handler panicked.
pub fn handler_panic_response() -> (r: Response)
    ensures
        r.status == 500,
        r.body@ == "<h1>500 Internal Server Error</h1>"@,
        r.headers@.len() == 0,
{
    Response::new(500, Sanitizer::trust("<h1>500 Internal Server Error</h1>"))
}

// ------------------------------------------------------------------
// The step after the middleware
// ------------------------------------------------------------------
/// What the router found for a request.
pub enum RouteLookup {
    /// A handler, with the role it requires, if any.
    Found { required_role: Option<String> },
    /// No route has this path.
    NotFound,
    /// A route has this path, but not for this method.
    MethodNotAllowed,
}

/// What a connection does with a request once read.
pub enum RequestStep {
    /// The middleware refused the request: send the middleware's response.
    SendMiddlewareResponse,
    /// Send this `101` handshake, then hand the connection to the WebSocket handler.
    UpgradeWebSocket { handshake: String },
    /// Refuse with `403`: the route needs a role the caller does not hold.
    Forbidden { message: String },
    /// Call the route's handler (then merge the context's headers into its response).
    CallHandler,
    /// Let the application's error handler answer this error.
    HandleError { error: crate::admin::responses::ShieldError },
    /// Send this response.
    Respond { response: Response },
}

/// The request step for the given facts: whether the middleware let the
/// request through, whether a WebSocket handler is registered for its
/// path, what the router found, whether the caller holds the required
/// role, and whether the application has an error handler.
pub open spec fn step_matches(
    r: RequestStep,
    middleware_ok: bool,
    req: Request,
    ws_route: bool,
    lookup: RouteLookup,
    role_granted: bool,
    has_error_handler: bool,
) -> bool {
    if !middleware_ok {
        r is SendMiddlewareResponse
    } else if first_header(req, "upgrade"@) == Some("websocket"@) && ws_route && first_header(
        req,
        "sec-websocket-key"@,
    ) is Some {
        r matches RequestStep::UpgradeWebSocket { handshake } && handshake@ == HANDSHAKE_HEAD@
            + websocket_accept_key(sbytes(first_header(req, "sec-websocket-key"@)->0))
            + HANDSHAKE_TAIL@
    } else {
        match lookup {
            RouteLookup::Found { required_role } => match required_role {
                Some(role) => if role_granted {
                    r is CallHandler
                } else {
                    r matches RequestStep::Forbidden { message } && message@
                        == "Access Denied: Missing required operational role clearance '"@ + role@
                        + "'."@
                },
                None => r is CallHandler,
            },
            RouteLookup::NotFound => if has_error_handler {
                r matches RequestStep::HandleError { error } && error is NotFound
            } else {
                r matches RequestStep::Respond { response } && response.status == 404
                    && response.body@ == "<h1>404 Not Found</h1>"@ && response.headers@.len() == 0
            },
            RouteLookup::MethodNotAllowed => if has_error_handler {
                r matches RequestStep::HandleError { error } && error is MethodNotAllowed
            } else {
                r matches RequestStep::Respond { response } && response.status == 405
                    && response.body@ == "<h1>405 Method Not Allowed</h1>"@
                    && response.headers@.len() == 0
            },
        }
    }
}

/// Decides what to do with a request once read (see `step_matches`): a
/// middleware refusal first, then a WebSocket upgrade on a registered path
/// with a key, then the role check, the handler, or the route miss.
pub fn request_step(
    middleware_ok: bool,
    req: &Request,
    ws_route: bool,
    lookup: RouteLookup,
    role_granted: bool,
    has_error_handler: bool,
) -> (r: RequestStep)
    requires
        req.headers.wf(),
    ensures
        step_matches(r, middleware_ok, *req, ws_route, lookup, role_granted, has_error_handler),
{
    if !middleware_ok {
        return RequestStep::SendMiddlewareResponse;
    }
    if ws_route && is_websocket_upgrade(req) {
        match websocket_handshake_for(req) {
            Some(handshake) => return RequestStep::UpgradeWebSocket { handshake },
            None => {},
        }
    }
    match lookup {
        RouteLookup::Found { required_role } => match required_role {
            Some(role) => if role_granted {
                RequestStep::CallHandler
            } else {
                RequestStep::Forbidden { message: role_denied_message(role.as_str()) }
            },
            None => RequestStep::CallHandler,
        },
        RouteLookup::NotFound => if has_error_handler {
            RequestStep::HandleError { error: crate::admin::responses::ShieldError::NotFound }
        } else {
            RequestStep::Respond { response: route_miss_response(RouteMiss::NotFound) }
        },
        RouteLookup::MethodNotAllowed => if has_error_handler {
            RequestStep::HandleError {
                error: crate::admin::responses::ShieldError::MethodNotAllowed,
            }
        } else {
            RequestStep::Respond { response: route_miss_response(RouteMiss::MethodNotAllowed) }
        },
    }
}

/// Headers as text pairs.
pub open spec fn header_texts(hs: Seq<(String, String)>) -> Seq<(Seq<char>, Seq<char>)> {
    hs.map_values(|h: (String, String)| (h.0@, h.1@))
}

/// Some header is named `k`.
pub open spec fn names_header(hs: Seq<(Seq<char>, Seq<char>)>, k: Seq<char>) -> bool {
    exists|i: int| 0 <= i < hs.len() && hs[i].0 == k
}

/// The handler's headers, then each context header whose name is not yet there, in order.
pub open spec fn merged_headers(
    resp: Seq<(Seq<char>, Seq<char>)>,
    extra: Seq<(Seq<char>, Seq<char>)>,
) -> Seq<(Seq<char>, Seq<char>)>
    decreases extra.len(),
{
    if extra.len() == 0 {
        resp
    } else {
        let acc = merged_headers(resp, extra.drop_last());
        if names_header(acc, extra.last().0) {
            acc
        } else {
            acc.push(extra.last())
        }
    }
}

/// Adds to a handler's response headers each header of the request context
/// whose name the response does not already carry.
pub fn merge_headers(response: &mut Vec<(String, String)>, extra: &Vec<(String, String)>)
    ensures
        header_texts(final(response)@) == merged_headers(header_texts(old(response)@), header_texts(extra@)),
{
    let ghost start = header_texts(response@);
    let ghost ev = header_texts(extra@);
    let mut i: usize = 0;
    assert(ev.take(0) =~= Seq::<(Seq<char>, Seq<char>)>::empty());
    while i < extra.len()
        invariant
            i <= extra@.len(),
            ev == header_texts(extra@),
            header_texts(response@) == merged_headers(start, ev.take(i as int)),
        decreases extra@.len() - i,
    {
        let ghost cur = header_texts(response@);
        proof {
            assert(ev.take(i + 1).drop_last() =~= ev.take(i as int));
            assert(ev.take(i + 1).last() == ev[i as int]);
        }
        let mut found = false;
        let mut j: usize = 0;
        while j < response.len()
            invariant
                j <= response@.len(),
                cur == header_texts(response@),
                ev == header_texts(extra@),
                i < extra@.len(),
                found == exists|x: int| 0 <= x < j && cur[x].0 == ev[i as int].0,
            decreases response@.len() - j,
        {
            if crate::admin::auth::same_text(response[j].0.as_str(), extra[i].0.as_str()) {
                assert(cur[j as int].0 == ev[i as int].0);
                found = true;
            }
            j = j + 1;
        }
        if !found {
            let ghost before = response@;
            response.push((str_to_string(extra[i].0.as_str()), str_to_string(extra[i].1.as_str())));
            assert(header_texts(response@) =~= cur.push(ev[i as int]));
        }
        i = i + 1;
    }
    assert(ev.take(extra@.len() as int) =~= ev);
}

} // verus!
