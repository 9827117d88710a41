//! HTTP mapping of the same frames.
//!
//! The length prefix does not appear here. It exists to delimit frames on a
//! byte stream; HTTP already delimits them, with `Content-Length` on a call
//! and with `data:` lines on a stream. So an HTTP body is a bare JSON
//! [`Request`](crate::proto::Request) or [`Response`](crate::proto::Response)
//! object, byte for byte the same JSON that would sit inside a framed payload.
//!
//! Append and subscribe are separate endpoints. A caller may hold a stream
//! open and POST on another connection; setting [`SESSION_HEADER`] on the
//! POST to the session the stream was opened with ties the two together.

use vstd::prelude::*;

verus! {

/// `POST`. Request body is one JSON `Request`; the response body is one JSON
/// `Response`. `Content-Type: application/json`. No streaming, no prefix.
pub const CALL: &'static str = "/v1/call";

/// `GET`, returning `text/event-stream`. Each event is a single
/// `data: <Response as JSON>` line, in order, with no prefix.
pub const STREAM: &'static str = "/v1/stream";

/// GET, plain JSON, no auth. For supervisors and probes.
pub const HEALTH: &'static str = "/health";

/// Ties a call to an open stream, so that `Credit` and `Cancel` reach the
/// right subscription. Issued by the server in the stream's `Welcome` frame.
/// Absent on a call means the call stands alone.
pub const SESSION_HEADER: &'static str = "x-lug-session";

/// `Authorization: Bearer <token>`.
pub const AUTH_HEADER: &'static str = "authorization";

/// SSE comment sent periodically so idle streams survive proxies and a dead
/// peer is noticed. Not a frame; clients ignore lines starting with `:`.
pub const KEEPALIVE: &'static str = ": lug\n\n";

/// How long the server waits between [`KEEPALIVE`] comments.
pub const KEEPALIVE_SECS: u64 = 15;

} // verus!
