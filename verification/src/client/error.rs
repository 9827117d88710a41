//! Everything a caller can be told went wrong.

use crate::cavlc::error::Error as StoreError;
use crate::proto::codec::Error as CodecError;
use crate::proto::show::{code_name, code_text, show, shown};
use crate::proto::{Code, Id, Response};
use crate::text::{decimal, decimal_text};
use vstd::prelude::*;

verus! {

/// Everything a caller can be told went wrong.
///
/// Failures carry the value that failed where there is one: the server's own
/// code and message, the id of the exchange, the timeout that elapsed.
#[derive(Debug)]
pub enum Error {
    /// The server answered [`Response::Error`].
    Server { id: Id, code: Code, message: String },
    /// The connection carrying this exchange broke. Nothing is known about
    /// whether the server acted on the request, which is why a resend is the
    /// caller's decision and not the hub's.
    Disconnected { id: Id },
    /// No connection could be established, or none became usable in time.
    Connect { target: String, reason: String },
    /// `elapsed` is in nanoseconds.
    Timeout { id: Id, elapsed: u64 },
    /// The server sent a frame that does not belong here: a reply of the wrong
    /// shape, a view the follower cannot read, records out of order.
    Protocol { id: Id, detail: String },
    /// A subscription outran the credit it was granted, so frames would have
    /// had to be buffered without bound. That stream is dropped; the
    /// connection is not.
    Overrun { id: Id },
    /// The view or a patch did not fold into a store.
    View(StoreError),
    Codec(CodecError),
    Io(String),
    Http(String),
    /// The hub was closed, or dropped, while this call was outstanding.
    Closed,
}

/// A span of nanoseconds with a unit that suits it: what `{:?}` makes of a
/// `Duration`.
pub uninterp spec fn span(nanos: u64) -> Seq<char>;

/// `format!("{:?}", ..)` of a `std::time::Duration`: the result depends on the
/// span alone.
#[verifier::external_body]
pub(crate) fn span_text(nanos: u64) -> (r: String)
    ensures
        r@ == span(nanos),
{
    format!("{:?}", std::time::Duration::from_nanos(nanos))
}

impl Error {
    pub open spec fn text(self) -> Seq<char> {
        match self {
            Error::Server { id, code, message } => "server refused request "@ + decimal(id as nat)
                + ": "@ + code_text(code) + ": "@ + message@,
            Error::Disconnected { id } => "connection lost with request "@ + decimal(id as nat)
                + " in flight"@,
            Error::Connect { target, reason } => "no connection to "@ + target@ + ": "@ + reason@,
            Error::Timeout { id, elapsed } => "request "@ + decimal(id as nat)
                + " timed out after "@ + span(elapsed),
            Error::Protocol { id, detail } => "protocol violation on "@ + decimal(id as nat)
                + ": "@ + detail@,
            Error::Overrun { id } => "subscription "@ + decimal(id as nat)
                + " overran its credit window"@,
            Error::View(e) => "view does not fold: "@ + e.text(),
            Error::Codec(e) => "frame codec failed: "@ + e.text(),
            Error::Io(reason) => reason@,
            Error::Http(reason) => "http transport: "@ + reason@,
            Error::Closed => "hub is closed"@,
        }
    }

    /// The failure, in words.
    pub fn message(&self) -> (r: String)
        ensures
            r@ == self.text(),
    {
        match self {
            Error::Server { id, code, message } => {
                let mut out = String::from_str("server refused request ");
                out.append(decimal_text(*id).as_str());
                out.append(": ");
                out.append(code_name(*code));
                out.append(": ");
                out.append(message.as_str());
                out
            },
            Error::Disconnected { id } => {
                let mut out = String::from_str("connection lost with request ");
                out.append(decimal_text(*id).as_str());
                out.append(" in flight");
                out
            },
            Error::Connect { target, reason } => {
                let mut out = String::from_str("no connection to ");
                out.append(target.as_str());
                out.append(": ");
                out.append(reason.as_str());
                out
            },
            Error::Timeout { id, elapsed } => {
                let mut out = String::from_str("request ");
                out.append(decimal_text(*id).as_str());
                out.append(" timed out after ");
                out.append(span_text(*elapsed).as_str());
                out
            },
            Error::Protocol { id, detail } => {
                let mut out = String::from_str("protocol violation on ");
                out.append(decimal_text(*id).as_str());
                out.append(": ");
                out.append(detail.as_str());
                out
            },
            Error::Overrun { id } => {
                let mut out = String::from_str("subscription ");
                out.append(decimal_text(*id).as_str());
                out.append(" overran its credit window");
                out
            },
            Error::View(e) => {
                let mut out = String::from_str("view does not fold: ");
                out.append(e.message().as_str());
                out
            },
            Error::Codec(e) => {
                let mut out = String::from_str("frame codec failed: ");
                out.append(e.message().as_str());
                out
            },
            Error::Io(reason) => reason.clone(),
            Error::Http(reason) => {
                let mut out = String::from_str("http transport: ");
                out.append(reason.as_str());
                out
            },
            Error::Closed => String::from_str("hub is closed"),
        }
    }

    /// A server error frame, unpacked.
    pub fn from_frame(id: Id, code: Code, message: String) -> (r: Self)
        ensures
            r == (Error::Server { id, code, message }),
    {
        Error::Server { id, code, message }
    }

    pub open spec fn transient(&self) -> bool {
        match *self {
            Error::Disconnected { .. } => true,
            Error::Connect { .. } => true,
            Error::Timeout { .. } => true,
            Error::Server { code, .. } => code == Code::Storage || code == Code::Internal || code
                == Code::Backpressure,
            _ => false,
        }
    }

    /// Whether a resend could plausibly succeed. Says nothing about whether a
    /// resend is *safe*: that depends on the request, and is the caller's
    /// call.
    pub fn is_transient(&self) -> (r: bool)
        ensures
            r == self.transient(),
    {
        match self {
            Error::Disconnected { .. } => true,
            Error::Connect { .. } => true,
            Error::Timeout { .. } => true,
            Error::Server { code, .. } => *code == Code::Storage || *code == Code::Internal
                || *code == Code::Backpressure,
            _ => false,
        }
    }
}

/// What a frame tells the exchange it belongs to.
pub open spec fn unpacked(frame: Response) -> Result<Response, Error> {
    match frame {
        Response::Error { id, code, message } => Err(Error::Server { id, code, message }),
        other => Ok(other),
    }
}

pub fn unpack(frame: Response) -> (r: Result<Response, Error>)
    ensures
        r == unpacked(frame),
{
    match frame {
        Response::Error { id, code, message } => Err(Error::from_frame(id, code, message)),
        other => Ok(other),
    }
}

/// A reply of the wrong shape.
pub open spec fn is_mismatch(e: Error, id: Id, expected: Seq<char>, got: Response) -> bool {
    &&& e is Protocol
    &&& e->Protocol_id == id
    &&& e->Protocol_detail@ == "expected "@ + expected + ", got "@ + shown(got)
}

/// A reply to exchange `id` of the wrong shape.
pub fn mismatch(id: Id, expected: &str, got: &Response) -> (r: Error)
    ensures
        is_mismatch(r, id, expected@, *got),
{
    let mut detail = String::from_str("expected ");
    detail.append(expected);
    detail.append(", got ");
    detail.append(show(got).as_str());
    Error::Protocol { id, detail }
}

/// A failure is passing where the connection was lost or could not be made, where
/// the time ran out, or where the server says that it failed itself or was
/// overrun; and nowhere else.
pub proof fn passing_failures(
    id: Id,
    code: Code,
    text: String,
    reason: String,
    elapsed: u64,
    view: StoreError,
    codec: CodecError,
)
    ensures
        (Error::Disconnected { id }).transient(),
        (Error::Connect { target: text, reason }).transient(),
        (Error::Timeout { id, elapsed }).transient(),
        (Error::Server { id, code: Code::Storage, message: text }).transient(),
        (Error::Server { id, code: Code::Internal, message: text }).transient(),
        (Error::Server { id, code: Code::Backpressure, message: text }).transient(),
        !(code == Code::Storage || code == Code::Internal || code == Code::Backpressure) ==> !(
        Error::Server { id, code, message: text }).transient(),
        !(Error::Protocol { id, detail: text }).transient(),
        !(Error::Overrun { id }).transient(),
        !Error::View(view).transient(),
        !Error::Codec(codec).transient(),
        !Error::Io(text).transient(),
        !Error::Http(text).transient(),
        !Error::Closed.transient(),
{
}

/// An error frame tells its exchange what the server said, and every other frame
/// is passed on as it is.
pub proof fn error_frames_are_unpacked(frame: Response)
    ensures
        frame matches Response::Error { id, code, message } ==> unpacked(frame) == Err::<
            Response,
            Error,
        >(Error::Server { id, code, message }),
        !(frame is Error) ==> unpacked(frame) == Ok::<Response, Error>(frame),
{
}

/// A reply of the wrong shape is a violation of the exchange that it answers, and
/// is nothing that passes.
pub proof fn mismatches_are_violations(e: Error, id: Id, expected: Seq<char>, got: Response)
    requires
        is_mismatch(e, id, expected, got),
    ensures
        e is Protocol,
        e->Protocol_id == id,
        !e.transient(),
{
}

} // verus!
