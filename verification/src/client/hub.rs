//! What a hub asks and what it makes of the answers.

use super::config::{Backoff, Config, Retry};
use super::error::{is_mismatch, mismatch, Error};
use super::transport::Transport;
use crate::json::Json;
use crate::proto::{Code, Durability, Id, LogInfo, Mode, Request, Response, Version};
use vstd::prelude::*;

verus! {

/// The reply to an append: one version per patch that changed state, plus the
/// durability frontier at the time it was acknowledged.
#[derive(Clone, Debug, PartialEq, Eq)]
pub struct Ack {
    pub versions: Vec<Version>,
    pub synced: Version,
}

/// What a subscription asks for.
#[derive(Clone, Copy, Debug, PartialEq, Eq, Structural)]
pub struct Subscribe {
    /// Exclusive cursor. `0` replays everything still retained.
    pub from: Version,
    pub mode: Mode,
    /// Records the server may push before it must be granted more. Defaults
    /// to the hub's configured credit.
    pub credit: Option<u32>,
}

impl Subscribe {
    /// Tail the record stream.
    pub fn records() -> (r: Self)
        ensures
            r == (Subscribe { from: 0, mode: Mode::Records, credit: None }),
    {
        Subscribe { from: 0, mode: Mode::Records, credit: None }
    }

    /// Take a view preamble first, then the records after it.
    pub fn reducible() -> (r: Self)
        ensures
            r == (Subscribe { from: 0, mode: Mode::Reducible, credit: None }),
    {
        Subscribe { from: 0, mode: Mode::Reducible, credit: None }
    }

    pub fn from(self, version: Version) -> (r: Self)
        ensures
            r == (Subscribe { from: version, ..self }),
    {
        Subscribe { from: version, mode: self.mode, credit: self.credit }
    }

    pub fn credit(self, credit: u32) -> (r: Self)
        ensures
            r == (Subscribe { credit: Some(credit), ..self }),
    {
        Subscribe { from: self.from, mode: self.mode, credit: Some(credit) }
    }

    /// The credit to open with, and the window of the stream: what was asked
    /// for, or the hub's own, and never nothing.
    pub open spec fn window(self, default: u32) -> u32 {
        let wanted = match self.credit {
            Some(credit) => credit,
            None => default,
        };
        if wanted < 1 {
            1
        } else {
            wanted
        }
    }

    /// The frame that opens the stream, whose credit is its window.
    pub fn request(self, id: Id, log: String, default: u32) -> (r: Request)
        ensures
            r == (Request::Subscribe {
                id,
                log,
                from: self.from,
                mode: self.mode,
                credit: self.window(default),
            }),
    {
        let wanted = match self.credit {
            Some(credit) => credit,
            None => default,
        };
        let credit = if wanted < 1 { 1 } else { wanted };
        Request::Subscribe { id, log, from: self.from, mode: self.mode, credit }
    }
}

/// Builds a hub: where it connects, and how.
#[derive(Debug)]
pub struct Builder {
    pub transport: Transport,
    pub cfg: Config,
}

impl Builder {
    pub fn new(transport: Transport, cfg: Config) -> (r: Self)
        ensures
            r == (Builder { transport, cfg }),
    {
        Builder { transport, cfg }
    }

    /// At least one connection is held.
    pub fn connections(self, n: usize) -> (r: Self)
        ensures
            r == (Builder {
                cfg: Config {
                    connections: if n < 1 {
                        1
                    } else {
                        n
                    },
                    ..self.cfg
                },
                ..self
            }),
    {
        let mut cfg = self.cfg;
        cfg.connections = if n < 1 { 1 } else { n };
        Builder { transport: self.transport, cfg }
    }

    /// In nanoseconds.
    pub fn timeout(self, timeout: u64) -> (r: Self)
        ensures
            r == (Builder { cfg: Config { timeout, ..self.cfg }, ..self }),
    {
        let mut cfg = self.cfg;
        cfg.timeout = timeout;
        Builder { transport: self.transport, cfg }
    }

    pub fn credit(self, credit: u32) -> (r: Self)
        ensures
            r == (Builder { cfg: Config { credit, ..self.cfg }, ..self }),
    {
        let mut cfg = self.cfg;
        cfg.credit = credit;
        Builder { transport: self.transport, cfg }
    }

    /// At least one command is queued.
    pub fn queue(self, depth: usize) -> (r: Self)
        ensures
            r == (Builder {
                cfg: Config {
                    queue: if depth < 1 {
                        1
                    } else {
                        depth
                    },
                    ..self.cfg
                },
                ..self
            }),
    {
        let mut cfg = self.cfg;
        cfg.queue = if depth < 1 { 1 } else { depth };
        Builder { transport: self.transport, cfg }
    }

    pub fn backoff(self, backoff: Backoff) -> (r: Self)
        ensures
            r == (Builder { cfg: Config { backoff, ..self.cfg }, ..self }),
    {
        let mut cfg = self.cfg;
        cfg.backoff = backoff;
        Builder { transport: self.transport, cfg }
    }
}

// ---------------------------------------------------------------------
// One call.

/// How many resends are left after a failure, or `None` where it stands.
pub open spec fn resends(left: u8, e: Error) -> Option<u8> {
    if left > 0 && e.transient() {
        Some((left - 1) as u8)
    } else {
        None
    }
}

/// Whether a call that failed is sent again, and how often it may be after
/// that.
pub fn retry(left: u8, e: &Error) -> (r: Option<u8>)
    ensures
        r == resends(left, *e),
{
    if left > 0 && e.is_transient() {
        Some(left - 1)
    } else {
        None
    }
}

/// A call is never resent unless its caller asked for it, and no more often
/// than that, whatever it fails with.
pub proof fn calls_are_resent_only_as_asked(policy: Retry, failures: Seq<Error>, sent: nat)
    requires
        failures.len() >= sent,
        may_resend(policy.attempts(), failures, sent),
    ensures
        sent <= policy.attempts(),
        forall|i: int| 0 <= i < sent ==> (#[trigger] failures[i]).transient(),
        policy == Retry::Never ==> sent == 0,
    decreases sent,
{
    lemma_resends(policy.attempts(), failures, sent);
}

/// `sent` resends may follow from these failures, starting with `left`.
pub open spec fn may_resend(left: u8, failures: Seq<Error>, sent: nat) -> bool
    decreases sent,
{
    sent == 0 || (failures.len() > 0 && resends(left, failures[0]) is Some && may_resend(
        resends(left, failures[0])->0,
        failures.drop_first(),
        (sent - 1) as nat,
    ))
}

proof fn lemma_resends(left: u8, failures: Seq<Error>, sent: nat)
    requires
        failures.len() >= sent,
        may_resend(left, failures, sent),
    ensures
        sent <= left,
        forall|i: int| 0 <= i < sent ==> (#[trigger] failures[i]).transient(),
    decreases sent,
{
    if sent > 0 {
        lemma_resends((left - 1) as u8, failures.drop_first(), (sent - 1) as nat);
        assert forall|i: int| 0 <= i < sent implies (#[trigger] failures[i]).transient() by {
            if i > 0 {
                assert(failures.drop_first()[i - 1] == failures[i]);
            }
        }
    }
}

pub open spec fn left_of(budget: u64, elapsed: u64) -> int {
    if elapsed > budget {
        0
    } else {
        budget - elapsed
    }
}

/// What is left of a budget, in nanoseconds.
pub fn remaining(budget: u64, elapsed: u64) -> (r: u64)
    ensures
        r == left_of(budget, elapsed),
{
    budget.saturating_sub(elapsed)
}

/// What became of putting a request on a connection's queue.
#[derive(Clone, Copy, Debug, PartialEq, Eq, Structural)]
pub enum Queued {
    Sent,
    /// The connection is gone.
    Gone,
    TimedOut,
}

/// What was wrong with putting a request on a queue, if anything was.
pub open spec fn was_queued(id: Id, outcome: Queued, elapsed: u64) -> Option<Error> {
    match outcome {
        Queued::Sent => None,
        Queued::Gone => Some(Error::Disconnected { id }),
        Queued::TimedOut => Some(Error::Timeout { id, elapsed }),
    }
}

/// Whether the reply is to be waited for; `elapsed` is what the call has
/// taken so far.
pub fn queued(id: Id, outcome: Queued, elapsed: u64) -> (r: Result<(), Error>)
    ensures
        match was_queued(id, outcome, elapsed) {
            None => r is Ok,
            Some(e) => r is Err && r->Err_0 == e,
        },
{
    match outcome {
        Queued::Sent => Ok(()),
        Queued::Gone => Err(Error::Disconnected { id }),
        Queued::TimedOut => Err(Error::Timeout { id, elapsed }),
    }
}

/// What became of waiting for a reply.
pub enum Answer {
    Reply(Result<Response, Error>),
    /// The dispatcher went away without answering, which it only does after
    /// failing every waiter, so this is a lost race with death.
    Gone,
    TimedOut,
}

/// What a call came to, and whether it is to be forgotten.
pub open spec fn settled(id: Id, answer: Answer, elapsed: u64) -> (Result<Response, Error>, bool) {
    match answer {
        Answer::Reply(result) => (result, false),
        Answer::Gone => (Err(Error::Disconnected { id }), false),
        Answer::TimedOut => (Err(Error::Timeout { id, elapsed }), true),
    }
}

/// What a call came to, and whether the connection is to forget it: it must
/// not hold a waiter nobody will read.
pub fn settle(id: Id, answer: Answer, elapsed: u64) -> (r: (Result<Response, Error>, bool))
    ensures
        r == settled(id, answer, elapsed),
{
    match answer {
        Answer::Reply(result) => (result, false),
        Answer::Gone => (Err(Error::Disconnected { id }), false),
        Answer::TimedOut => (Err(Error::Timeout { id, elapsed }), true),
    }
}

/// What is made of the reply to a ping.
pub open spec fn ponged(reply: Response, r: Result<(), Error>) -> bool {
    match reply {
        Response::Pong { .. } => r is Ok,
        _ => r is Err && is_mismatch(r->Err_0, reply.id(), "pong"@, reply),
    }
}

pub fn pong(reply: Response) -> (r: Result<(), Error>)
    ensures
        ponged(reply, r),
{
    match reply {
        Response::Pong { .. } => Ok(()),
        other => Err(mismatch(other.id(), "pong", &other)),
    }
}

/// What is made of the reply to a list.
pub open spec fn listed(reply: Response, r: Result<Vec<LogInfo>, Error>) -> bool {
    match reply {
        Response::Logs { logs, .. } => r == Ok::<Vec<LogInfo>, Error>(logs),
        _ => r is Err && is_mismatch(r->Err_0, reply.id(), "logs"@, reply),
    }
}

pub fn listing(reply: Response) -> (r: Result<Vec<LogInfo>, Error>)
    ensures
        listed(reply, r),
{
    match reply {
        Response::Logs { logs, .. } => Ok(logs),
        other => Err(mismatch(other.id(), "logs", &other)),
    }
}

/// What is made of the reply to a create.
pub open spec fn described(reply: Response, r: Result<LogInfo, Error>) -> bool {
    match reply {
        Response::Logs { logs, .. } => if logs@.len() > 0 {
            r == Ok::<LogInfo, Error>(logs@[0])
        } else {
            r is Err && r->Err_0 is Protocol && r->Err_0->Protocol_id == 0
                && r->Err_0->Protocol_detail@ == "create answered with no log"@
        },
        _ => r is Err && is_mismatch(r->Err_0, reply.id(), "logs"@, reply),
    }
}

/// The one log that a create describes.
pub fn created(reply: Response) -> (r: Result<LogInfo, Error>)
    ensures
        described(reply, r),
{
    match reply {
        Response::Logs { logs, .. } => {
            let mut logs = logs;
            if logs.len() == 0 {
                return Err(
                    Error::Protocol {
                        id: 0,
                        detail: String::from_str("create answered with no log"),
                    },
                );
            }
            Ok(logs.swap_remove(0))
        },
        other => Err(mismatch(other.id(), "logs", &other)),
    }
}

/// What is made of the reply to an append.
pub open spec fn acked(reply: Response, r: Result<Ack, Error>) -> bool {
    match reply {
        Response::Ack { versions, synced, .. } => r == Ok::<Ack, Error>(Ack { versions, synced }),
        _ => r is Err && is_mismatch(r->Err_0, reply.id(), "ack"@, reply),
    }
}

pub fn acknowledged(reply: Response) -> (r: Result<Ack, Error>)
    ensures
        acked(reply, r),
{
    match reply {
        Response::Ack { versions, synced, .. } => Ok(Ack { versions, synced }),
        other => Err(mismatch(other.id(), "ack", &other)),
    }
}

/// What is made of the reply to a read.
pub open spec fn was_viewed(reply: Response, r: Result<super::view::View, Error>) -> bool {
    match reply {
        Response::View { version, value, .. } => r == Ok::<super::view::View, Error>(
            super::view::View { version, value },
        ),
        _ => r is Err && is_mismatch(r->Err_0, reply.id(), "view"@, reply),
    }
}

pub fn viewed(reply: Response) -> (r: Result<super::view::View, Error>)
    ensures
        was_viewed(reply, r),
{
    match reply {
        Response::View { version, value, .. } => Ok(super::view::View { version, value }),
        other => Err(mismatch(other.id(), "view", &other)),
    }
}

/// The frame of an append with the durability it has for want of another.
pub fn append(id: Id, log: String, patches: Vec<Json>) -> (r: Request)
    ensures
        r == (Request::Append { id, log, patches, durability: Durability::Written }),
{
    Request::Append { id, log, patches, durability: Durability::default() }
}

// ---------------------------------------------------------------------
// What a call promises.

/// A call that may be sent again is sent again after every failure that is a
/// lost connection, a failed connect, a timeout, or a server that says that its
/// storage failed, that it failed itself or that it was overrun, with one resend
/// fewer left; after no other failure, and with none left, it is not.
pub proof fn passing_failures_are_resent(left: u8, e: Error)
    ensures
        left == 0 ==> resends(left, e) is None,
        left > 0 && (e is Disconnected || e is Connect || e is Timeout) ==> resends(left, e)
            == Some((left - 1) as u8),
        left > 0 && e is Server && (e->Server_code == Code::Storage || e->Server_code
            == Code::Internal || e->Server_code == Code::Backpressure) ==> resends(left, e)
            == Some((left - 1) as u8),
        !(e is Disconnected || e is Connect || e is Timeout || e is Server) ==> resends(left, e)
            is None,
        e is Server && !(e->Server_code == Code::Storage || e->Server_code == Code::Internal
            || e->Server_code == Code::Backpressure) ==> resends(left, e) is None,
{
}

/// A call is sent again as often as its caller asked for, as long as what it
/// fails with passes: whether `sent` resends follow from the failures is decided
/// by their number and by nothing else.
pub proof fn calls_are_resent_as_often_as_asked(policy: Retry, failures: Seq<Error>, sent: nat)
    requires
        failures.len() >= sent,
        forall|i: int|
            0 <= i < sent ==> (#[trigger] failures[i]) is Disconnected || failures[i] is Connect
                || failures[i] is Timeout || (failures[i] is Server && failures[i]->Server_code
                == Code::Storage),
    ensures
        may_resend(policy.attempts(), failures, sent) <==> sent <= match policy {
            Retry::Never => 0,
            Retry::Idempotent { attempts } => attempts as nat,
        },
{
    lemma_may_resend(policy.attempts(), failures, sent);
}

proof fn lemma_may_resend(left: u8, failures: Seq<Error>, sent: nat)
    requires
        failures.len() >= sent,
        forall|i: int| 0 <= i < sent ==> (#[trigger] failures[i]).transient(),
    ensures
        may_resend(left, failures, sent) <==> sent <= left,
    decreases sent,
{
    if sent > 0 && left > 0 {
        let rest = failures.drop_first();
        assert forall|i: int| 0 <= i < sent - 1 implies (#[trigger] rest[i]).transient() by {
            assert(rest[i] == failures[i + 1]);
        }
        lemma_may_resend((left - 1) as u8, rest, (sent - 1) as nat);
    }
}

/// A call comes to the reply that it got, whatever that is. Without one it fails
/// under its own id, and only where it ran out of time does somebody still have
/// to forget it. A request that did not reach the queue fails the same way.
pub proof fn calls_come_to_their_replies(
    id: Id,
    result: Result<Response, Error>,
    elapsed: u64,
)
    ensures
        settled(id, Answer::Reply(result), elapsed) == (result, false),
        settled(id, Answer::Gone, elapsed).0 is Err,
        settled(id, Answer::Gone, elapsed).0->Err_0 == (Error::Disconnected { id }),
        !settled(id, Answer::Gone, elapsed).1,
        settled(id, Answer::TimedOut, elapsed).0 is Err,
        settled(id, Answer::TimedOut, elapsed).0->Err_0 == (Error::Timeout { id, elapsed }),
        settled(id, Answer::TimedOut, elapsed).1,
        was_queued(id, Queued::Sent, elapsed) is None,
        was_queued(id, Queued::Gone, elapsed) == Some(Error::Disconnected { id }),
        was_queued(id, Queued::TimedOut, elapsed) == Some(Error::Timeout { id, elapsed }),
{
}

/// A reply is taken exactly where it is of the kind that answers the call, and
/// then for what it says.
pub proof fn replies_are_taken_by_their_kind(
    reply: Response,
    pong: Result<(), Error>,
    list: Result<Vec<LogInfo>, Error>,
    create: Result<LogInfo, Error>,
    append: Result<Ack, Error>,
    read: Result<super::view::View, Error>,
)
    requires
        ponged(reply, pong),
        listed(reply, list),
        described(reply, create),
        acked(reply, append),
        was_viewed(reply, read),
    ensures
        pong is Ok <==> reply is Pong,
        list is Ok <==> reply is Logs,
        list matches Ok(logs) ==> reply matches Response::Logs { logs: sent, .. } && logs == sent,
        create is Ok <==> (reply matches Response::Logs { logs, .. } && logs@.len() > 0),
        create matches Ok(log) ==> reply matches Response::Logs { logs, .. } && log
            == logs@.first(),
        append is Ok <==> reply is Ack,
        append matches Ok(ack) ==> reply matches Response::Ack { versions, synced, .. }
            && ack.versions == versions && ack.synced == synced,
        read is Ok <==> reply is View,
        read matches Ok(view) ==> reply matches Response::View { version, value, .. }
            && view.version == version && view.value == value,
        pong matches Err(e) ==> e is Protocol && e->Protocol_id == reply.id(),
        append matches Err(e) ==> e is Protocol && e->Protocol_id == reply.id(),
        read matches Err(e) ==> e is Protocol && e->Protocol_id == reply.id(),
{
}

/// A stream opens with the credit that was asked for, or the hub's own, and
/// never with none.
pub proof fn streams_open_with_credit(options: Subscribe, default: u32)
    ensures
        options.window(default) >= 1,
        options.credit matches Some(credit) ==> (credit >= 1 ==> options.window(default) == credit),
        options.credit is None && default >= 1 ==> options.window(default) == default,
        options.credit == Some(0u32) || (options.credit is None && default == 0)
            ==> options.window(default) == 1,
{
}

/// What is left of a budget and what was used of it make up the budget, until it is
/// used up, and then nothing is left.
pub proof fn budgets_run_out(budget: u64, elapsed: u64)
    ensures
        elapsed <= budget ==> left_of(budget, elapsed) + elapsed == budget,
        elapsed >= budget ==> left_of(budget, elapsed) == 0,
{
}

} // verus!
