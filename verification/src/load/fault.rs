//! Everything a load run can be failed for, and what it then says.

use super::check::Violation;
use crate::client::error::{span, span_text};
use crate::proto::show::{code_name, code_text, show, shown};
use crate::proto::{Code, Response};
use crate::quote::{quote, quoted};
use crate::text::{decimal, decimal_text};
use vstd::prelude::*;

verus! {

/// Why a load run failed. Spans are in nanoseconds.
#[derive(Debug)]
pub enum Fault {
    /// The commands of a connection piled up.
    Queue { peer: usize, why: String },
    WriterExited { peer: usize },
    ReadersExited,
    /// Something outside went wrong on a connection.
    Connection { peer: usize, why: String },
    /// The server answered with an error.
    Server { peer: usize, id: u64, code: Code, message: String },
    UnexpectedOk { peer: usize, id: u64 },
    DuplicateOk { peer: usize, id: u64 },
    Unacknowledged { id: u64 },
    Control { reply: Response },
    ControlTimeout { id: u64, deadline: u64 },
    Create { name: String, reply: Response },
    Heartbeat { reply: Response },
    HeartbeatTimeout,
    Establishing { count: usize, deadline: u64 },
    AcceptTimeout,
    UnknownAppend { id: u64 },
    AckPeer { id: u64, observed: usize, expected: usize },
    DuplicateAck { id: u64 },
    ZeroCredit,
    StreamPeer { id: u64, observed: usize },
    /// The books do not balance.
    Broken { violation: Violation },
    /// A sample could not be recorded.
    Sample { why: String },
    TooMany { id: u64 },
    Gap { id: u64, from: u64, to: u64 },
    Load { reply: Response },
    Overload { outstanding: usize, limit: usize },
    Stalled { sent: u64, planned: u64, acknowledged: u64, delivered: u64, drain: u64 },
    LoadTimeout,
    Cancel { reply: Response },
    CancelTimeout,
    Isolation { why: String },
    Resume { reply: Response },
    Exhausted { reply: Response },
    StoppedCancel { reply: Response },
    NotResumed,
    Replay { reply: Response },
    ReplayCancel { reply: Response },
    ReplayTimeout,
    DataLoss,
    CrashAppend { reply: Response },
    ChurnCancel { reply: Response },
}

impl Fault {
    /// What is said.
    pub open spec fn text(self) -> Seq<char> {
        match self {
            Fault::Queue { peer, why } => "OVERLOAD: connection "@ + decimal(peer as nat)
                + " command queue: "@ + why@ + "; no samples dropped"@,
            Fault::WriterExited { peer } => "connection "@ + decimal(peer as nat)
                + " writer exited"@,
            Fault::ReadersExited => "all socket readers exited"@,
            Fault::Connection { peer, why } => "connection "@ + decimal(peer as nat) + ": "@ + why@,
            Fault::Server { peer, id, code, message } => "server error on connection "@
                + decimal(peer as nat) + ", id "@ + decimal(id as nat) + ": "@ + code_text(code)
                + ": "@ + message@,
            Fault::UnexpectedOk { peer, id } => "unexpected Ok for connection "@
                + decimal(peer as nat) + ", id "@ + decimal(id as nat),
            Fault::DuplicateOk { peer, id } => "duplicate Ok for connection "@
                + decimal(peer as nat) + ", id "@ + decimal(id as nat),
            Fault::Unacknowledged { id } => "stream "@ + decimal(id as nat)
                + " pushed before subscription acknowledgement"@,
            Fault::Control { reply } => "unexpected control-phase response "@ + shown(reply),
            Fault::ControlTimeout { id, deadline } => "control request "@ + decimal(id as nat)
                + " exceeded "@ + span(deadline),
            Fault::Create { name, reply } => "Create "@ + quoted(name@) + ": unexpected response "@
                + shown(reply),
            Fault::Heartbeat { reply } => "unexpected held-connection heartbeat response "@
                + shown(reply),
            Fault::HeartbeatTimeout => "held connections did not all answer end-of-window Ping"@,
            Fault::Establishing { count, deadline } => "establishing "@ + decimal(count as nat)
                + " connections exceeded "@ + span(deadline),
            Fault::AcceptTimeout => "short-lived accept benchmark timed out"@,
            Fault::UnknownAppend { id } => "unknown append id "@ + decimal(id as nat),
            Fault::AckPeer { id, observed, expected } => "Ack "@ + decimal(id as nat)
                + " arrived on connection "@ + decimal(observed as nat) + ", expected "@
                + decimal(expected as nat),
            Fault::DuplicateAck { id } => "unexpected or duplicate ack "@ + decimal(id as nat),
            Fault::ZeroCredit => "BACKPRESSURE FAILURE: zero-credit subscriber received records"@,
            Fault::StreamPeer { id, observed } => "stream "@ + decimal(id as nat)
                + " arrived on wrong connection "@ + decimal(observed as nat),
            Fault::Broken { violation } => violation.text(),
            Fault::Sample { why } => why@,
            Fault::TooMany { id } => "stream "@ + decimal(id as nat)
                + " was sent more records than can be granted"@,
            Fault::Gap { id, from, to } => "GAP: stream "@ + decimal(id as nat) + " lost ("@
                + decimal(from as nat) + ", "@ + decimal(to as nat)
                + "] despite retention disabled"@,
            Fault::Load { reply } => "unexpected load response "@ + shown(reply),
            Fault::Overload { outstanding, limit } => "OVERLOAD: "@ + decimal(outstanding as nat)
                + " outstanding appends hit --max-inflight "@ + decimal(limit as nat)
                + "; no samples dropped"@,
            Fault::Stalled { sent, planned, acknowledged, delivered, drain } =>
                "LOAD STALLED: scheduled "@ + decimal(sent as nat) + "/"@
                + decimal(planned as nat) + ", acked "@ + decimal(acknowledged as nat)
                + ", delivered "@ + decimal(delivered as nat) + "; drain exceeded "@ + span(drain)
                + "; credit isolation or delivery invariant failed"@,
            Fault::LoadTimeout => "load setup or completion exceeded its bounded deadline"@,
            Fault::Cancel { reply } => "unexpected cancel response "@ + shown(reply),
            Fault::CancelTimeout => "Cancel did not return End before deadline"@,
            Fault::Isolation { why } => "BACKPRESSURE ISOLATION FAILED: "@ + why@,
            Fault::Resume { reply } => "stopped-credit stream failed its one-record resume: "@
                + shown(reply),
            Fault::Exhausted { reply } =>
                "BACKPRESSURE FAILURE: frame after one-record grant was exhausted: "@
                + shown(reply),
            Fault::StoppedCancel { reply } => "stopped-credit Cancel: "@ + shown(reply),
            Fault::NotResumed => "BACKPRESSURE FAILURE: stopped-credit subscriber did not resume"@,
            Fault::Replay { reply } => "DURABLE REPLAY FAILED: "@ + shown(reply),
            Fault::ReplayCancel { reply } => "replay Cancel: "@ + shown(reply),
            Fault::ReplayTimeout =>
                "durable replay setup or completion exceeded its bounded deadline"@,
            Fault::DataLoss =>
                "DURABLE DATA LOSS: replay did not reach every acknowledged version before deadline"@,
            Fault::CrashAppend { reply } => "durable crash probe append: "@ + shown(reply),
            Fault::ChurnCancel { reply } => "churn Cancel: "@ + shown(reply),
        }
    }

    /// The failure, in words.
    pub fn message(&self) -> (r: String)
        ensures
            r@ == self.text(),
    {
        let mut out = String::new();
        match self {
            Fault::Queue { peer, why } => {
                out.append("OVERLOAD: connection ");
                out.append(decimal_text(*peer as u64).as_str());
                out.append(" command queue: ");
                out.append(why.as_str());
                out.append("; no samples dropped");
            },
            Fault::WriterExited { peer } => {
                out.append("connection ");
                out.append(decimal_text(*peer as u64).as_str());
                out.append(" writer exited");
            },
            Fault::ReadersExited => {
                out.append("all socket readers exited");
            },
            Fault::Connection { peer, why } => {
                out.append("connection ");
                out.append(decimal_text(*peer as u64).as_str());
                out.append(": ");
                out.append(why.as_str());
            },
            Fault::Server { peer, id, code, message } => {
                out.append("server error on connection ");
                out.append(decimal_text(*peer as u64).as_str());
                out.append(", id ");
                out.append(decimal_text(*id).as_str());
                out.append(": ");
                out.append(code_name(*code));
                out.append(": ");
                out.append(message.as_str());
            },
            Fault::UnexpectedOk { peer, id } => {
                out.append("unexpected Ok for connection ");
                out.append(decimal_text(*peer as u64).as_str());
                out.append(", id ");
                out.append(decimal_text(*id).as_str());
            },
            Fault::DuplicateOk { peer, id } => {
                out.append("duplicate Ok for connection ");
                out.append(decimal_text(*peer as u64).as_str());
                out.append(", id ");
                out.append(decimal_text(*id).as_str());
            },
            Fault::Unacknowledged { id } => {
                out.append("stream ");
                out.append(decimal_text(*id).as_str());
                out.append(" pushed before subscription acknowledgement");
            },
            Fault::Control { reply } => {
                out.append("unexpected control-phase response ");
                out.append(show(reply).as_str());
            },
            Fault::ControlTimeout { id, deadline } => {
                out.append("control request ");
                out.append(decimal_text(*id).as_str());
                out.append(" exceeded ");
                out.append(span_text(*deadline).as_str());
            },
            Fault::Create { name, reply } => {
                out.append("Create ");
                out.append(quote(name.as_str()).as_str());
                out.append(": unexpected response ");
                out.append(show(reply).as_str());
            },
            Fault::Heartbeat { reply } => {
                out.append("unexpected held-connection heartbeat response ");
                out.append(show(reply).as_str());
            },
            Fault::HeartbeatTimeout => {
                out.append("held connections did not all answer end-of-window Ping");
            },
            Fault::Establishing { count, deadline } => {
                out.append("establishing ");
                out.append(decimal_text(*count as u64).as_str());
                out.append(" connections exceeded ");
                out.append(span_text(*deadline).as_str());
            },
            Fault::AcceptTimeout => {
                out.append("short-lived accept benchmark timed out");
            },
            Fault::UnknownAppend { id } => {
                out.append("unknown append id ");
                out.append(decimal_text(*id).as_str());
            },
            Fault::AckPeer { id, observed, expected } => {
                out.append("Ack ");
                out.append(decimal_text(*id).as_str());
                out.append(" arrived on connection ");
                out.append(decimal_text(*observed as u64).as_str());
                out.append(", expected ");
                out.append(decimal_text(*expected as u64).as_str());
            },
            Fault::DuplicateAck { id } => {
                out.append("unexpected or duplicate ack ");
                out.append(decimal_text(*id).as_str());
            },
            Fault::ZeroCredit => {
                out.append("BACKPRESSURE FAILURE: zero-credit subscriber received records");
            },
            Fault::StreamPeer { id, observed } => {
                out.append("stream ");
                out.append(decimal_text(*id).as_str());
                out.append(" arrived on wrong connection ");
                out.append(decimal_text(*observed as u64).as_str());
            },
            Fault::Broken { violation } => {
                out.append(violation.message().as_str());
            },
            Fault::Sample { why } => {
                out.append(why.as_str());
            },
            Fault::TooMany { id } => {
                out.append("stream ");
                out.append(decimal_text(*id).as_str());
                out.append(" was sent more records than can be granted");
            },
            Fault::Gap { id, from, to } => {
                out.append("GAP: stream ");
                out.append(decimal_text(*id).as_str());
                out.append(" lost (");
                out.append(decimal_text(*from).as_str());
                out.append(", ");
                out.append(decimal_text(*to).as_str());
                out.append("] despite retention disabled");
            },
            Fault::Load { reply } => {
                out.append("unexpected load response ");
                out.append(show(reply).as_str());
            },
            Fault::Overload { outstanding, limit } => {
                out.append("OVERLOAD: ");
                out.append(decimal_text(*outstanding as u64).as_str());
                out.append(" outstanding appends hit --max-inflight ");
                out.append(decimal_text(*limit as u64).as_str());
                out.append("; no samples dropped");
            },
            Fault::Stalled { sent, planned, acknowledged, delivered, drain } => {
                out.append("LOAD STALLED: scheduled ");
                out.append(decimal_text(*sent).as_str());
                out.append("/");
                out.append(decimal_text(*planned).as_str());
                out.append(", acked ");
                out.append(decimal_text(*acknowledged).as_str());
                out.append(", delivered ");
                out.append(decimal_text(*delivered).as_str());
                out.append("; drain exceeded ");
                out.append(span_text(*drain).as_str());
                out.append("; credit isolation or delivery invariant failed");
            },
            Fault::LoadTimeout => {
                out.append("load setup or completion exceeded its bounded deadline");
            },
            Fault::Cancel { reply } => {
                out.append("unexpected cancel response ");
                out.append(show(reply).as_str());
            },
            Fault::CancelTimeout => {
                out.append("Cancel did not return End before deadline");
            },
            Fault::Isolation { why } => {
                out.append("BACKPRESSURE ISOLATION FAILED: ");
                out.append(why.as_str());
            },
            Fault::Resume { reply } => {
                out.append("stopped-credit stream failed its one-record resume: ");
                out.append(show(reply).as_str());
            },
            Fault::Exhausted { reply } => {
                out.append("BACKPRESSURE FAILURE: frame after one-record grant was exhausted: ");
                out.append(show(reply).as_str());
            },
            Fault::StoppedCancel { reply } => {
                out.append("stopped-credit Cancel: ");
                out.append(show(reply).as_str());
            },
            Fault::NotResumed => {
                out.append("BACKPRESSURE FAILURE: stopped-credit subscriber did not resume");
            },
            Fault::Replay { reply } => {
                out.append("DURABLE REPLAY FAILED: ");
                out.append(show(reply).as_str());
            },
            Fault::ReplayCancel { reply } => {
                out.append("replay Cancel: ");
                out.append(show(reply).as_str());
            },
            Fault::ReplayTimeout => {
                out.append("durable replay setup or completion exceeded its bounded deadline");
            },
            Fault::DataLoss => {
                out.append("DURABLE DATA LOSS: replay did not reach every acknowledged version before deadline");
            },
            Fault::CrashAppend { reply } => {
                out.append("durable crash probe append: ");
                out.append(show(reply).as_str());
            },
            Fault::ChurnCancel { reply } => {
                out.append("churn Cancel: ");
                out.append(show(reply).as_str());
            },
        }
        assert(out@ =~= self.text());
        out
    }
}

} // verus!
