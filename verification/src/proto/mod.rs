//! The wire contract.
//!
//! One frame is a big-endian `u32` byte length followed by that many bytes of
//! JSON. Every frame carries an [`Id`] chosen by the client. A request and its
//! reply share one; a subscription's id is also its stream id, so pushed
//! records need no second namespace.
//!
//! The same frames travel over a unix socket and over HTTP. On HTTP a request
//! is a POST body and the pushed frames are SSE `data:` lines, so both
//! transports decode with this one set of types.
//!
//! Every request is answered by exactly one frame, except `Subscribe`, which
//! is answered by one frame and then pushes until cancelled. Any of them may
//! instead be answered by [`Response::Error`], which is always final for that
//! id.

pub mod buffer;
pub mod codec;
pub mod http;
pub mod show;

use crate::json::Json;
use vstd::prelude::*;

verus! {

/// Protocol version. Bumped when a frame changes shape incompatibly.
pub const VERSION: u16 = 1;

/// Correlates a reply with its request, and names a subscription stream.
/// Client-chosen, unique per connection, never reused while in flight.
pub type Id = u64;

pub type Version = u64;

/// What a subscriber wants pushed.
#[derive(Clone, Copy, Debug, PartialEq, Eq, Structural)]
pub enum Mode {
    /// Records only. A tail.
    Records,
    /// A materialized [`Response::View`] first, then the records after it, so
    /// a follower can rebuild state without replaying from version 0. Only
    /// valid on a log whose data structure is reducible.
    Reducible,
}

impl Default for Mode {
    fn default() -> (r: Self)
        ensures
            r == Mode::Records,
    {
        Mode::Records
    }
}

/// How far an append must get before it is acknowledged.
#[derive(Clone, Copy, Debug, PartialEq, Eq, Structural)]
pub enum Durability {
    Memory,
    Written,
    Durable,
}

impl Default for Durability {
    fn default() -> (r: Self)
        ensures
            r == Durability::Written,
    {
        Durability::Written
    }
}

#[derive(Clone, Debug, PartialEq)]
pub enum Request {
    /// First frame on a connection. The server answers [`Response::Welcome`].
    Hello { id: Id, version: u16 },
    /// Append patches, one version minted per patch.
    Append { id: Id, log: String, patches: Vec<Json>, durability: Durability },
    /// Open a stream. `from` is exclusive: `0` replays everything retained.
    Subscribe {
        id: Id,
        log: String,
        from: Version,
        mode: Mode,
        /// Records the server may push before waiting for more credit.
        credit: u32,
    },
    /// Extend a stream's credit. Without this the server stops pushing.
    Credit { id: Id, grant: u32 },
    /// Close a stream. The server answers [`Response::End`].
    Cancel { id: Id },
    /// Read a materialized view, current or historical.
    Read { id: Id, log: String, at: Option<Version> },
    List { id: Id },
    /// Create a log. Idempotent for an existing log of the same shape.
    Create { id: Id, log: String, reducible: bool },
    Ping { id: Id },
}

impl Request {
    pub open spec fn spec_id(&self) -> Id {
        match *self {
            Request::Hello { id, .. } => id,
            Request::Append { id, .. } => id,
            Request::Subscribe { id, .. } => id,
            Request::Credit { id, .. } => id,
            Request::Cancel { id } => id,
            Request::Read { id, .. } => id,
            Request::List { id } => id,
            Request::Create { id, .. } => id,
            Request::Ping { id } => id,
        }
    }

    #[verifier::when_used_as_spec(spec_id)]
    pub fn id(&self) -> (r: Id)
        ensures
            r == self.spec_id(),
    {
        match self {
            Request::Hello { id, .. } => *id,
            Request::Append { id, .. } => *id,
            Request::Subscribe { id, .. } => *id,
            Request::Credit { id, .. } => *id,
            Request::Cancel { id } => *id,
            Request::Read { id, .. } => *id,
            Request::List { id } => *id,
            Request::Create { id, .. } => *id,
            Request::Ping { id } => *id,
        }
    }
}

#[derive(Clone, Debug, PartialEq)]
pub enum Response {
    /// Answers `Hello` on a socket, and is the first SSE event on a stream.
    /// `session` is set only over HTTP, where it is the value to send back in
    /// `X-Lug-Session` so that calls reach this stream.
    Welcome { id: Id, version: u16, max_frame: u32, session: Option<String> },
    /// One version per patch that changed state, in order.
    Ack { id: Id, versions: Vec<Version>, synced: Version },
    /// Pushed on a subscription, contiguous and in version order.
    Records { id: Id, records: Vec<Record> },
    /// A materialized view: the reply to [`Request::Read`], or the preamble of
    /// a [`Mode::Reducible`] subscription.
    View { id: Id, version: Version, value: Json },
    /// The subscriber fell behind retention. Versions in `(from, to]` are gone
    /// and the stream resumes at `to`.
    Gap { id: Id, from: Version, to: Version },
    Logs { id: Id, logs: Vec<LogInfo> },
    /// Accepted, with nothing to report. Answers `Credit`, and opens a
    /// subscription before any records are pushed.
    Accepted { id: Id },
    /// The stream is closed; the id may be reused.
    End { id: Id },
    Pong { id: Id },
    Error { id: Id, code: Code, message: String },
}

impl Response {
    pub open spec fn spec_id(&self) -> Id {
        match *self {
            Response::Welcome { id, .. } => id,
            Response::Ack { id, .. } => id,
            Response::Records { id, .. } => id,
            Response::View { id, .. } => id,
            Response::Gap { id, .. } => id,
            Response::Logs { id, .. } => id,
            Response::Accepted { id } => id,
            Response::End { id } => id,
            Response::Pong { id } => id,
            Response::Error { id, .. } => id,
        }
    }

    #[verifier::when_used_as_spec(spec_id)]
    pub fn id(&self) -> (r: Id)
        ensures
            r == self.spec_id(),
    {
        match self {
            Response::Welcome { id, .. } => *id,
            Response::Ack { id, .. } => *id,
            Response::Records { id, .. } => *id,
            Response::View { id, .. } => *id,
            Response::Gap { id, .. } => *id,
            Response::Logs { id, .. } => *id,
            Response::Accepted { id } => *id,
            Response::End { id } => *id,
            Response::Pong { id } => *id,
            Response::Error { id, .. } => *id,
        }
    }

    pub open spec fn spec_is_final(&self) -> bool {
        *self is End || *self is Error
    }

    /// Whether this frame ends the exchange its id names.
    #[verifier::when_used_as_spec(spec_is_final)]
    pub fn is_final(&self) -> (r: bool)
        ensures
            r == self.spec_is_final(),
    {
        matches!(self, Response::End { .. } | Response::Error { .. })
    }
}

#[derive(Clone, Debug, PartialEq)]
pub struct Record {
    pub version: Version,
    pub patch: Json,
}

#[derive(Clone, Debug, PartialEq)]
pub struct LogInfo {
    pub name: String,
    pub reducible: bool,
    /// Highest observable version.
    pub version: Version,
    /// Oldest version still readable; below this, records were reclaimed.
    pub oldest: Version,
    pub subscribers: u32,
}

#[derive(Clone, Copy, Debug, PartialEq, Eq, Structural)]
pub enum Code {
    /// The patch was rejected by the data structure. The caller's fault, and
    /// retrying the same patch will fail the same way.
    Rejected,
    NoSuchLog,
    LogExists,
    /// Not reducible, or otherwise the wrong shape for the request.
    NotReducible,
    /// Version requested is below retention, or above the watermark.
    OutOfRange,
    /// Id already in flight, or unknown on Cancel/Credit.
    BadId,
    Unauthorized,
    /// Frame exceeded `max_frame`, or was not valid for this protocol version.
    Malformed,
    /// Storage failed. The append did not happen; retrying is safe.
    Storage,
    /// Client is not reading and its buffer is full.
    Backpressure,
    Internal,
}

/// The id of a frame is the one that it carries, whatever kind it is of.
pub proof fn requests_carry_their_ids(
    id: Id,
    log: String,
    patches: Vec<Json>,
    durability: Durability,
    mode: Mode,
    number: Version,
    at: Option<Version>,
    credit: u32,
    flag: bool,
    version: u16,
)
    ensures
        (Request::Hello { id, version }).id() == id,
        (Request::Append { id, log, patches, durability }).id() == id,
        (Request::Subscribe { id, log, from: number, mode, credit }).id() == id,
        (Request::Credit { id, grant: credit }).id() == id,
        (Request::Cancel { id }).id() == id,
        (Request::Read { id, log, at }).id() == id,
        (Request::List { id }).id() == id,
        (Request::Create { id, log, reducible: flag }).id() == id,
        (Request::Ping { id }).id() == id,
{
}

/// The id of a frame is the one that it carries, whatever kind it is of. Of all
/// frames only an end and an error end the exchange that they belong to.
pub proof fn responses_carry_their_ids(frame: Response)
    ensures
        frame matches Response::Welcome { id, .. } ==> frame.id() == id,
        frame matches Response::Ack { id, .. } ==> frame.id() == id,
        frame matches Response::Records { id, .. } ==> frame.id() == id,
        frame matches Response::View { id, .. } ==> frame.id() == id,
        frame matches Response::Gap { id, .. } ==> frame.id() == id,
        frame matches Response::Logs { id, .. } ==> frame.id() == id,
        frame matches Response::Accepted { id } ==> frame.id() == id,
        frame matches Response::End { id } ==> frame.id() == id,
        frame matches Response::Pong { id } ==> frame.id() == id,
        frame matches Response::Error { id, .. } ==> frame.id() == id,
        frame is End || frame is Error ==> frame.is_final(),
        frame is Welcome || frame is Ack || frame is Records || frame is View || frame is Gap
            || frame is Logs || frame is Accepted || frame is Pong ==> !frame.is_final(),
{
}

} // verus!
