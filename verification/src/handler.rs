//! The pure part of connection handling: routing a raw request buffer
//! by its leading bytes, framing a response with its status line and
//! exact content length, and the dispatcher's accept-loop decision.

use vstd::prelude::*;

use crate::byteseq::{ascii, bytes_eq, str_bytes};
use crate::numbers::{dec_str, u64_dec_bytes};
use vstd::slice::slice_subrange;

verus! {

/// Where a request's leading bytes send it.
#[derive(Debug, Clone, Copy, PartialEq, Eq, Structural)]
pub enum Route {
    Index,
    Stats,
    Style,
    Docs,
    Code,
    Announce,
    NotFound,
}

/// `p` is a prefix of `s`.
pub open spec fn starts_with(s: Seq<u8>, p: Seq<u8>) -> bool {
    p.len() <= s.len() && s.take(p.len() as int) == p
}

/// The route the raw request buffer selects, by the first prefix that
/// matches, in the order the handler tries them.
pub open spec fn route_spec(s: Seq<u8>) -> Route {
    if starts_with(s, ascii("GET / HTTP/1.1\r\n"@)) {
        Route::Index
    } else if starts_with(s, ascii("GET /stats.html"@)) {
        Route::Stats
    } else if starts_with(s, ascii("GET /style"@)) {
        Route::Style
    } else if starts_with(s, ascii("GET /docs.html"@)) {
        Route::Docs
    } else if starts_with(s, ascii("GET /code"@)) {
        Route::Code
    } else if starts_with(s, ascii("GET /announce"@)) {
        Route::Announce
    } else {
        Route::NotFound
    }
}

/// Whether `p` is a prefix of `s`.
fn starts_with_bytes(s: &[u8], p: &Vec<u8>) -> (r: bool)
    ensures
        r == starts_with(s@, p@),
{
    let pl = p.len();
    if pl > s.len() {
        return false;
    }
    let head = slice_subrange(s, 0, pl);
    proof {
        assert(head@ =~= s@.take(pl as int));
    }
    bytes_eq(head, p.as_slice())
}

/// Routes one raw request buffer by its leading bytes.
pub fn route_request(buffer: &[u8]) -> (r: Route)
    ensures
        r == route_spec(buffer@),
{
    proof {
        reveal_strlit("GET / HTTP/1.1\r\n");
        reveal_strlit("GET /stats.html");
        reveal_strlit("GET /style");
        reveal_strlit("GET /docs.html");
        reveal_strlit("GET /code");
        reveal_strlit("GET /announce");
    }
    if starts_with_bytes(buffer, &str_bytes("GET / HTTP/1.1\r\n")) {
        Route::Index
    } else if starts_with_bytes(buffer, &str_bytes("GET /stats.html")) {
        Route::Stats
    } else if starts_with_bytes(buffer, &str_bytes("GET /style")) {
        Route::Style
    } else if starts_with_bytes(buffer, &str_bytes("GET /docs.html")) {
        Route::Docs
    } else if starts_with_bytes(buffer, &str_bytes("GET /code")) {
        Route::Code
    } else if starts_with_bytes(buffer, &str_bytes("GET /announce")) {
        Route::Announce
    } else {
        Route::NotFound
    }
}

/// The full response for a body: status line, a content-length header
/// giving exactly the body's byte count, a blank line, the body.
pub open spec fn http_response(ok: bool, body: Seq<u8>) -> Seq<u8> {
    (if ok {
        ascii("HTTP/1.1 200 OK"@)
    } else {
        ascii("HTTP/1.1 404 NOT FOUND"@)
    }) + ascii("\r\nContent-Length: "@) + dec_str(body.len() as int) + ascii("\r\n\r\n"@) + body
}

/// Frames one response: the status line for `ok`, the exact content
/// length, and the raw body bytes.
pub fn build_http_response(ok: bool, body: Vec<u8>) -> (r: Vec<u8>)
    ensures
        r@ == http_response(ok, body@),
{
    proof {
        reveal_strlit("HTTP/1.1 200 OK");
        reveal_strlit("HTTP/1.1 404 NOT FOUND");
        reveal_strlit("\r\nContent-Length: ");
        reveal_strlit("\r\n\r\n");
    }
    let ghost b = body@;
    let mut body = body;
    let mut response = if ok {
        str_bytes("HTTP/1.1 200 OK")
    } else {
        str_bytes("HTTP/1.1 404 NOT FOUND")
    };
    let mut header = str_bytes("\r\nContent-Length: ");
    response.append(&mut header);
    let mut len_bytes = u64_dec_bytes(body.len() as u64);
    response.append(&mut len_bytes);
    let mut blank = str_bytes("\r\n\r\n");
    response.append(&mut blank);
    response.append(&mut body);
    proof {
        assert(response@ =~= http_response(ok, b));
    }
    response
}

/// What one accept attempt came back with.
#[derive(Debug, Clone, Copy, PartialEq, Eq, Structural)]
pub enum AcceptEvent {
    Connection,
    WouldBlock,
    OtherError,
}

/// What the dispatcher does next.
#[derive(Debug, Clone, Copy, PartialEq, Eq, Structural)]
pub enum DispatcherAction {
    Dispatch,
    Sleep,
    Exit,
    Ignore,
}

/// The dispatcher's decision for one accept attempt.
pub open spec fn dispatcher_step_spec(event: AcceptEvent, shutdown: bool) -> DispatcherAction {
    match event {
        AcceptEvent::Connection => DispatcherAction::Dispatch,
        AcceptEvent::WouldBlock => {
            if shutdown {
                DispatcherAction::Exit
            } else {
                DispatcherAction::Sleep
            }
        },
        AcceptEvent::OtherError => DispatcherAction::Ignore,
    }
}

/// Decides one iteration of the accept loop: a new connection is
/// dispatched to the pool; an idle poll checks the shutdown flag and
/// either exits or sleeps one backoff; any other accept error is
/// ignored and polled again.
pub fn dispatcher_step(event: AcceptEvent, shutdown: bool) -> (r: DispatcherAction)
    ensures
        r == dispatcher_step_spec(event, shutdown),
{
    match event {
        AcceptEvent::Connection => DispatcherAction::Dispatch,
        AcceptEvent::WouldBlock => {
            if shutdown {
                DispatcherAction::Exit
            } else {
                DispatcherAction::Sleep
            }
        },
        AcceptEvent::OtherError => DispatcherAction::Ignore,
    }
}

/// Once the shutdown flag is set, the very next idle poll exits the
/// loop: the dispatcher leaves within one backoff interval, and a
/// connection already accepted is still dispatched, never dropped.
pub proof fn lemma_shutdown_prompt(event: AcceptEvent)
    ensures
        dispatcher_step_spec(AcceptEvent::WouldBlock, true) == DispatcherAction::Exit,
        dispatcher_step_spec(event, true) != DispatcherAction::Sleep,
        dispatcher_step_spec(AcceptEvent::Connection, true) == DispatcherAction::Dispatch,
{
}

} // verus!
