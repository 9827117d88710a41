//! What surrounds a load: closing its streams, playing back what was
//! acknowledged, and the probes for lost data, leaks and blocked streams.

use super::check::{patch, payload, Books, Ledger, Stream, Violation};
use super::config::Config;
use super::error::pair;
use super::fault::Fault;
use super::run::{regranted, Plan, APPEND_BASE, CREDIT, STALLED};
use crate::json::{Json, JsonView};
use crate::proto::{Durability, Mode, Record, Request, Response};
use crate::text::{decimal, decimal_text};
use std::collections::HashSet;
use vstd::prelude::*;

verus! {

/// Hold a ledger to account.
pub fn settle(ledger: &Ledger) -> (r: Result<(), Fault>)
    requires
        ledger@.wf(),
    ensures
        super::check::verdict(
            ledger@,
            match r {
                Ok(()) => Ok(()),
                Err(fault) => Err(fault->violation),
            },
        ),
        r is Err ==> r->Err_0 is Broken,
{
    match ledger.finish() {
        Ok(()) => Ok(()),
        Err(violation) => Err(Fault::Broken { violation }),
    }
}

/// What records outside the load come to.
pub open spec fn taken(books: Books, id: u64, records: Seq<Record>) -> (Books, Result<(), Fault>) {
    match books.deliver(id, records) {
        (after, Ok(_)) => (after, Ok(())),
        (after, Err(violation)) => (after, Err(Fault::Broken { violation })),
    }
}

fn take(ledger: &mut Ledger, id: u64, records: &Vec<Record>) -> (r: Result<(), Fault>)
    requires
        old(ledger)@.wf(),
    ensures
        final(ledger)@.wf(),
        (final(ledger)@, r) == taken(old(ledger)@, id, records@),
        old(ledger)@.consistent() && r is Ok ==> final(ledger)@.consistent(),
{
    match ledger.records(id, records.as_slice()) {
        Ok(_) => Ok(()),
        Err(violation) => Err(Fault::Broken { violation }),
    }
}

// ---------------------------------------------------------------------
// Closing the streams of a load.

/// The streams that have not ended after this came in, the books, and what it
/// comes to.
pub open spec fn ended(waiting: Set<u64>, books: Books, response: Response) -> (
    Set<u64>,
    Books,
    Result<(), Fault>,
) {
    match response {
        Response::End { id } => if waiting.contains(id) {
            (waiting.remove(id), books, Ok(()))
        } else {
            (waiting, books, Err(Fault::Cancel { reply: response }))
        },
        Response::Pong { .. } | Response::Accepted { .. } => (waiting, books, Ok(())),
        Response::Records { id, records } => {
            let (after, r) = taken(books, id, records@);
            (waiting, after, r)
        },
        other => (waiting, books, Err(Fault::Cancel { reply: other })),
    }
}

/// The streams that have not ended yet.
pub struct Cancelling {
    waiting: HashSet<u64>,
}

impl Cancelling {
    pub closed spec fn view(&self) -> Set<u64> {
        self.waiting@
    }

    /// The cancellations to send, each with the connection it goes out on.
    pub fn begin(plan: &Plan) -> (r: (Self, Vec<(usize, Request)>))
        requires
            plan.wf(),
        ensures
            r.0@.finite(),
            r.0@ == Set::new(|id: u64| 1 <= id <= plan.streams()),
            r.1@ == Seq::new(
                plan.streams() as nat,
                |k: int|
                    (
                        plan.stream_peer((k + 1) as u64)->0,
                        Request::Cancel { id: (k + 1) as u64 },
                    ),
            ),
    {
        let ghost all = Seq::new(
            plan.streams() as nat,
            |k: int|
                (plan.stream_peer((k + 1) as u64)->0, Request::Cancel { id: (k + 1) as u64 }),
        );
        let mut waiting: HashSet<u64> = HashSet::new();
        let mut requests: Vec<(usize, Request)> = Vec::new();
        proof {
            assert(plan.lanes() >= 0) by (nonlinear_arith)
                requires
                    plan.lanes() == plan.cfg.logs * plan.cfg.appenders,
            ;
            assert(plan.streams() >= 0) by (nonlinear_arith)
                requires
                    plan.streams() == plan.cfg.logs * plan.cfg.subscribers,
            ;
        }
        let lanes: usize = plan.cfg.logs * plan.cfg.appenders;
        let total: usize = plan.cfg.logs * plan.cfg.subscribers;
        let mut k: usize = 0;
        while k < total
            invariant
                plan.wf(),
                lanes == plan.lanes(),
                total == plan.streams(),
                all.len() == total,
                forall|j: int|
                    0 <= j < total ==> #[trigger] all[j] == (
                        plan.stream_peer((j + 1) as u64)->0,
                        Request::Cancel { id: (j + 1) as u64 },
                    ),
                k <= total,
                waiting@.finite(),
                waiting@ =~= Set::new(|id: u64| 1 <= id <= k),
                requests@ == all.take(k as int),
            decreases total - k,
        {
            let id: u64 = k as u64 + 1;
            waiting.insert(id);
            requests.push(((lanes + k) % plan.peers, Request::Cancel { id }));
            k += 1;
            assert(all.take(k as int) =~= all.take(k - 1).push(all[k - 1]));
        }
        assert(all.take(k as int) =~= all);
        (Cancelling { waiting }, requests)
    }

    /// Something came in. Records may still be under way.
    pub fn heard(&mut self, ledger: &mut Ledger, response: Response) -> (r: Result<(), Fault>)
        requires
            old(self)@.finite(),
            old(ledger)@.wf(),
        ensures
            final(self)@.finite(),
            final(ledger)@.wf(),
            (final(self)@, final(ledger)@, r) == ended(old(self)@, old(ledger)@, response),
    {
        match response {
            Response::End { id } => {
                if self.waiting.remove(&id) {
                    Ok(())
                } else {
                    assert(old(self)@.remove(id) =~= old(self)@);
                    Err(Fault::Cancel { reply: Response::End { id } })
                }
            },
            Response::Pong { .. } => Ok(()),
            Response::Accepted { .. } => Ok(()),
            Response::Records { id, records } => take(ledger, id, &records),
            other => Err(Fault::Cancel { reply: other }),
        }
    }

    /// Whether every stream has ended.
    pub fn done(&self) -> (r: bool)
        requires
            self@.finite(),
        ensures
            r == (self@ == Set::<u64>::empty()),
    {
        if self.waiting.len() > 0 {
            return false;
        }
        assert(self@ =~= Set::empty()) by {
            self@.lemma_len0_is_empty();
        }
        true
    }
}

// ---------------------------------------------------------------------
// Playing back what was acknowledged.

/// The subscription that plays log number `log` back from its beginning.
pub open spec fn playback(names: Seq<String>, log: int) -> Request {
    Request::Subscribe {
        id: (log + 1) as u64,
        log: names[log],
        from: 0,
        mode: Mode::Records,
        credit: CREDIT,
    }
}

/// The books at the beginning of a replay of the first `n` logs.
pub open spec fn replaying(books: Books, n: int) -> Books {
    Books {
        streams: Map::new(
            |id: u64| 1 <= id <= n,
            |id: u64| Stream { log: (id - 1) as usize, next: 1, credit: CREDIT as u64 },
        ),
        ..books
    }
}

/// Begin a replay: everything acknowledged must come again, in the same order.
pub fn replay(ledger: &mut Ledger, names: &Vec<String>) -> (r: Result<Vec<Request>, Fault>)
    requires
        old(ledger)@.wf(),
        names@.len() <= old(ledger)@.order.len(),
        names@.len() < usize::MAX,
    ensures
        final(ledger)@.wf(),
        old(ledger)@.consistent() ==> final(ledger)@.consistent(),
        final(ledger)@ == replaying(old(ledger)@, names@.len() as int),
        r matches Ok(requests) && requests@ == Seq::new(
            names@.len(),
            |log: int| playback(names@, log),
        ),
{
    let ghost books = ledger@;
    let ghost all = Seq::new(names@.len(), |log: int| playback(names@, log));
    ledger.replay();
    let mut requests: Vec<Request> = Vec::new();
    assert(ledger@.streams =~= replaying(books, 0).streams);
    let mut log: usize = 0;
    while log < names.len()
        invariant
            log <= names@.len(),
            names@.len() <= books.order.len(),
            names@.len() < usize::MAX,
            ledger@ == replaying(books, log as int),
            ledger@.wf(),
            books.consistent() ==> ledger@.consistent(),
            all.len() == names@.len(),
            forall|j: int| 0 <= j < all.len() ==> #[trigger] all[j] == playback(names@, j),
            requests@ == all.take(log as int),
        decreases names@.len() - log,
    {
        let id: u64 = log as u64 + 1;
        match ledger.subscribe(id, log, 0, CREDIT) {
            Ok(()) => {},
            Err(violation) => return Err(Fault::Broken { violation }),
        }
        requests.push(
            Request::Subscribe {
                id,
                log: names[log].clone(),
                from: 0,
                mode: Mode::Records,
                credit: CREDIT,
            },
        );
        log += 1;
        assert(ledger@.streams =~= replaying(books, log as int).streams);
        assert(all.take(log as int) =~= all.take(log - 1).push(all[log - 1]));
    }
    assert(all.take(log as int) =~= all);
    Ok(requests)
}

/// What a replay makes of records.
pub open spec fn replayed(books: Books, id: u64, records: Seq<Record>) -> (
    Books,
    Result<Option<Request>, Fault>,
) {
    match taken(books, id, records) {
        (after, Err(fault)) => (after, Err(fault)),
        (after, Ok(())) => if records.len() > u32::MAX {
            (after, Err(Fault::TooMany { id }))
        } else if !after.streams.contains_key(id) {
            (after, Err(Fault::Broken { violation: Violation::CreditUnknown { id } }))
        } else {
            (
                regranted(after, id, records.len() as int),
                Ok(Some(Request::Credit { id, grant: records.len() as u32 })),
            )
        },
    }
}

/// What a replay makes of a frame.
pub open spec fn played(books: Books, response: Response) -> (
    Books,
    Result<Option<Request>, Fault>,
) {
    match response {
        Response::Records { id, records } => replayed(books, id, records@),
        Response::Pong { .. } | Response::Accepted { .. } => (books, Ok(None)),
        other => (books, Err(Fault::Replay { reply: other })),
    }
}

/// Something came in during a replay. Says what to send back, if anything.
pub fn replay_heard(ledger: &mut Ledger, response: Response) -> (r: Result<Option<Request>, Fault>)
    requires
        old(ledger)@.wf(),
    ensures
        final(ledger)@.wf(),
        (final(ledger)@, r) == played(old(ledger)@, response),
{
    match response {
        Response::Records { id, records } => {
            let ghost books = ledger@;
            match take(ledger, id, &records) {
                Ok(()) => {},
                Err(fault) => return Err(fault),
            }
            if records.len() > u32::MAX as usize {
                return Err(Fault::TooMany { id });
            }
            if !ledger.follows(id) {
                return Err(Fault::Broken { violation: Violation::CreditUnknown { id } });
            }
            proof {
                super::run::lemma_deliver(books, id, records@);
            }
            let count = records.len() as u32;
            match ledger.grant(id, count) {
                Ok(()) => {},
                Err(violation) => return Err(Fault::Broken { violation }),
            }
            Ok(Some(Request::Credit { id, grant: count }))
        },
        Response::Pong { .. } => Ok(None),
        Response::Accepted { .. } => Ok(None),
        other => Err(Fault::Replay { reply: other }),
    }
}

/// The requests that close a replay of so many logs again.
pub fn replay_cancels(logs: usize) -> (r: Vec<Request>)
    ensures
        r@ == Seq::new(logs as nat, |log: int| Request::Cancel { id: (log + 1) as u64 }),
{
    let mut out: Vec<Request> = Vec::new();
    let mut log: usize = 0;
    while log < logs
        invariant
            log <= logs,
            out@ == Seq::new(log as nat, |log: int| Request::Cancel { id: (log + 1) as u64 }),
        decreases logs - log,
    {
        out.push(Request::Cancel { id: log as u64 + 1 });
        log += 1;
        assert(out@ =~= Seq::new(log as nat, |log: int| Request::Cancel { id: (log + 1) as u64 }));
    }
    out
}

/// Whether a stream of a replay ended when it was cancelled.
pub fn replay_closed(reply: Response) -> (r: Result<(), Fault>)
    ensures
        r == if reply is End {
            Ok::<(), Fault>(())
        } else {
            Err(Fault::ReplayCancel { reply })
        },
{
    match reply {
        Response::End { .. } => Ok(()),
        other => Err(Fault::ReplayCancel { reply: other }),
    }
}

// ---------------------------------------------------------------------
// Killed right after an acknowledgement.

/// How many appends a crash probe makes.
pub const PROBES: u64 = 32;

/// The log of the crash probe of an epoch.
pub fn crash_name(epoch: usize) -> (r: String)
    ensures
        r@ == "crash-"@ + decimal(epoch as nat),
{
    pair("crash-", decimal_text(epoch as u64).as_str())
}

/// Append number `sequence` of a crash probe, which must be durable.
pub fn crash_append(sequence: u64, log: &String, size: usize) -> (r: Request)
    requires
        sequence < PROBES,
        size >= 16,
    ensures
        r is Append,
        r->Append_id == APPEND_BASE + sequence,
        r->Append_log == *log,
        r->durability == Durability::Durable,
        r->patches@.len() == 1,
        r->patches@[0]@ == JsonView::Text(payload(sequence, size as nat)),
{
    let mut patches: Vec<Json> = Vec::new();
    patches.push(patch(sequence, size));
    Request::Append {
        id: APPEND_BASE + sequence,
        log: log.clone(),
        patches,
        durability: Durability::Durable,
    }
}

/// What the reply to an append of a crash probe comes to.
pub open spec fn survived(
    before: Books,
    after: Books,
    sequence: u64,
    reply: Response,
    r: Result<(), Fault>,
) -> bool {
    match reply {
        Response::Ack { versions, synced, .. } => if versions@.len() == 1 {
            match before.acknowledge(sequence, versions@[0], synced) {
                (books, Ok(_)) => r == Ok::<(), Fault>(()) && after == books,
                (books, Err(violation)) => r == Err::<(), Fault>(Fault::Broken { violation })
                    && after == books,
            }
        } else {
            &&& after == before
            &&& r matches Err(Fault::Broken { violation })
            &&& violation is NotOneVersion
            &&& violation->NotOneVersion_sequence == sequence
            &&& violation->NotOneVersion_versions@ == versions@
        },
        other => r == Err::<(), Fault>(Fault::CrashAppend { reply: other }) && after == before,
    }
}

/// The reply to append number `sequence` of a crash probe.
pub fn crash_acknowledged(ledger: &mut Ledger, sequence: u64, reply: Response) -> (r: Result<
    (),
    Fault,
>)
    requires
        old(ledger)@.wf(),
    ensures
        final(ledger)@.wf(),
        old(ledger)@.consistent() && r is Ok ==> final(ledger)@.consistent(),
        survived(old(ledger)@, final(ledger)@, sequence, reply, r),
{
    match reply {
        Response::Ack { versions, synced, .. } => match ledger.ack(
            sequence,
            versions.as_slice(),
            synced,
        ) {
            Ok(_) => Ok(()),
            Err(violation) => Err(Fault::Broken { violation }),
        },
        other => Err(Fault::CrashAppend { reply: other }),
    }
}

// ---------------------------------------------------------------------
// Connections and subscriptions that come and go.

/// How many connections one round of churn makes.
pub const CHURNS: usize = 32;

/// The stream that each of them opens, on one log after the other, and never
/// grants anything.
pub fn churn_subscription(names: &Vec<String>, round: usize) -> (r: Request)
    requires
        names@.len() > 0,
    ensures
        r == (Request::Subscribe {
            id: 123,
            log: names@[round as int % names@.len() as int],
            from: 0,
            mode: Mode::Records,
            credit: 0,
        }),
{
    Request::Subscribe {
        id: 123,
        log: names[round % names.len()].clone(),
        from: 0,
        mode: Mode::Records,
        credit: 0,
    }
}

pub fn churn_cancellation() -> (r: Request)
    ensures
        r == (Request::Cancel { id: 123 }),
{
    Request::Cancel { id: 123 }
}

/// Whether a churned stream ended when it was cancelled.
pub fn churn_closed(reply: Response) -> (r: Result<(), Fault>)
    ensures
        r == if reply is End {
            Ok::<(), Fault>(())
        } else {
            Err(Fault::ChurnCancel { reply })
        },
{
    match reply {
        Response::End { .. } => Ok(()),
        other => Err(Fault::ChurnCancel { reply: other }),
    }
}

// ---------------------------------------------------------------------
// One stalled stream must not hold up the rest of its connection.

/// The settings of the load beside the stalled stream.
pub open spec fn isolated(cfg: Config) -> Config {
    Config {
        connections: 1,
        logs: 1,
        appenders: 1,
        subscribers: 1,
        patch_size: 32768,
        rate: 128,
        duration: 1_000_000_000,
        durability: Durability::Written,
        ..cfg
    }
}

/// The load beside the stalled stream.
pub fn isolation_config(cfg: &Config) -> (r: Config)
    ensures
        r == isolated(*cfg),
{
    Config {
        server: cfg.server.clone(),
        connections: 1,
        logs: 1,
        appenders: 1,
        subscribers: 1,
        patch_size: 32768,
        durability: Durability::Written,
        rate: 128,
        duration: 1_000_000_000,
        transport: cfg.transport,
        accepts: cfg.accepts,
        parallel: cfg.parallel,
        max_inflight: cfg.max_inflight,
        timeout: cfg.timeout,
        smoke: cfg.smoke,
        soak: cfg.soak,
        soak_cycles: cfg.soak_cycles,
        fd_slack: cfg.fd_slack,
        json: cfg.json,
    }
}

/// How long nothing may come after the one record that was granted, in
/// nanoseconds.
pub const QUIET: u64 = 250_000_000;

/// How far the isolation probe is.
#[derive(Clone, Copy, Debug, PartialEq, Eq, Structural)]
pub enum Stage {
    Create,
    Stall,
    Load,
    Cancel,
    Grant,
    Resume,
    Heartbeat,
    Quiet,
    Close,
    Last,
    Passed,
}

/// What the probe does next.
#[derive(Debug)]
pub enum Todo {
    /// Create this log.
    Create(String),
    Send(Request),
    /// Run the load, on the same connection.
    Load,
    /// Close the streams of the load.
    Cancel,
    /// Wait for a frame.
    Listen,
    Heartbeat,
    /// Wait for a frame, for so many nanoseconds.
    Quiet(u64),
    /// Ask, and wait for the answer.
    Ask(Request),
    Nothing,
}

/// What came of it.
#[derive(Debug)]
pub enum Came {
    Done,
    Failed(Fault),
    Frame(Response),
    Silence,
    /// The time for resuming is up.
    TimedOut,
}

/// The one record that the stalled stream is granted in the end: the first
/// one of the load.
pub open spec fn resumes(reply: Response, size: nat) -> bool {
    &&& reply is Records
    &&& reply->Records_id == STALLED
    &&& reply->records@.len() == 1
    &&& reply->records@[0].version == 1
    &&& reply->records@[0].patch@ == JsonView::Text(payload(0, size))
}

/// Where the probe goes from `stage`, unless it fails. What does not belong
/// to a stage leaves it where it is.
pub open spec fn onward(stage: Stage, came: Came, size: nat) -> Result<Stage, Fault> {
    match (stage, came) {
        (Stage::Create, Came::Done) => Ok(Stage::Stall),
        (Stage::Stall, Came::Done) => Ok(Stage::Load),
        (Stage::Load, Came::Done) => Ok(Stage::Cancel),
        (Stage::Cancel, Came::Done) => Ok(Stage::Grant),
        (Stage::Grant, Came::Done) => Ok(Stage::Resume),
        (Stage::Resume, Came::Frame(reply)) => if resumes(reply, size) {
            Ok(Stage::Heartbeat)
        } else if reply is Pong || reply is Accepted {
            Ok(Stage::Resume)
        } else {
            Err(Fault::Resume { reply })
        },
        (Stage::Heartbeat, Came::Done) => Ok(Stage::Quiet),
        (Stage::Quiet, Came::Silence) => Ok(Stage::Close),
        (Stage::Quiet, Came::Frame(reply)) => Err(Fault::Exhausted { reply }),
        (Stage::Close, Came::Frame(reply)) => if reply == (Response::End { id: STALLED }) {
            Ok(Stage::Last)
        } else {
            Err(Fault::StoppedCancel { reply })
        },
        (Stage::Last, Came::Done) => Ok(Stage::Passed),
        (_, Came::Failed(fault)) => Err(fault),
        (_, Came::TimedOut) => Err(Fault::NotResumed),
        (stage, _) => Ok(stage),
    }
}

impl Stage {
    pub open spec fn spec_todo(self) -> TodoView {
        match self {
            Stage::Create => TodoView::Create("credit-isolation"@),
            Stage::Stall => TodoView::Stall("credit-isolation"@),
            Stage::Load => TodoView::Is(Todo::Load),
            Stage::Cancel => TodoView::Is(Todo::Cancel),
            Stage::Grant => TodoView::Is(Todo::Send(Request::Credit { id: STALLED, grant: 1 })),
            Stage::Resume => TodoView::Is(Todo::Listen),
            Stage::Heartbeat => TodoView::Is(Todo::Heartbeat),
            Stage::Quiet => TodoView::Is(Todo::Quiet(QUIET)),
            Stage::Close => TodoView::Is(Todo::Ask(Request::Cancel { id: STALLED })),
            Stage::Last => TodoView::Is(Todo::Heartbeat),
            Stage::Passed => TodoView::Is(Todo::Nothing),
        }
    }

    /// What to do at this stage.
    pub fn todo(self) -> (r: Todo)
        ensures
            is_todo(r, self.spec_todo()),
    {
        match self {
            Stage::Create => Todo::Create(String::from_str("credit-isolation")),
            Stage::Stall => Todo::Send(
                Request::Subscribe {
                    id: STALLED,
                    log: String::from_str("credit-isolation"),
                    from: 0,
                    mode: Mode::Records,
                    credit: 0,
                },
            ),
            Stage::Load => Todo::Load,
            Stage::Cancel => Todo::Cancel,
            Stage::Grant => Todo::Send(Request::Credit { id: STALLED, grant: 1 }),
            Stage::Resume => Todo::Listen,
            Stage::Heartbeat => Todo::Heartbeat,
            Stage::Quiet => Todo::Quiet(QUIET),
            Stage::Close => Todo::Ask(Request::Cancel { id: STALLED }),
            Stage::Last => Todo::Heartbeat,
            Stage::Passed => Todo::Nothing,
        }
    }

    /// Where the probe goes from here. A load that fails beside the stalled
    /// stream is told as what it shows.
    pub fn step(self, came: Came, size: usize) -> (r: Result<Stage, Fault>)
        requires
            size >= 16,
        ensures
            if self is Load && came is Failed {
                r is Err && r->Err_0 is Isolation && r->Err_0->Isolation_why@
                    == came->Failed_0.text()
            } else {
                r == onward(self, came, size as nat)
            },
    {
        match came {
            Came::Failed(fault) => {
                if let Stage::Load = self {
                    Err(Fault::Isolation { why: fault.message() })
                } else {
                    Err(fault)
                }
            },
            Came::TimedOut => Err(Fault::NotResumed),
            Came::Done => Ok(
                match self {
                    Stage::Create => Stage::Stall,
                    Stage::Stall => Stage::Load,
                    Stage::Load => Stage::Cancel,
                    Stage::Cancel => Stage::Grant,
                    Stage::Grant => Stage::Resume,
                    Stage::Heartbeat => Stage::Quiet,
                    Stage::Last => Stage::Passed,
                    stage => stage,
                },
            ),
            Came::Silence => Ok(
                match self {
                    Stage::Quiet => Stage::Close,
                    stage => stage,
                },
            ),
            Came::Frame(reply) => match self {
                Stage::Resume => {
                    if is_resumption(&reply, size) {
                        return Ok(Stage::Heartbeat);
                    }
                    if matches!(reply, Response::Pong { .. } | Response::Accepted { .. }) {
                        return Ok(Stage::Resume);
                    }
                    Err(Fault::Resume { reply })
                },
                Stage::Quiet => Err(Fault::Exhausted { reply }),
                Stage::Close => {
                    if let Response::End { id } = &reply {
                        if *id == STALLED {
                            return Ok(Stage::Last);
                        }
                    }
                    Err(Fault::StoppedCancel { reply })
                },
                stage => Ok(stage),
            },
        }
    }
}

/// What a stage has to do, with names as text.
pub enum TodoView {
    Is(Todo),
    Create(Seq<char>),
    Stall(Seq<char>),
}

pub open spec fn is_todo(todo: Todo, view: TodoView) -> bool {
    match view {
        TodoView::Is(other) => todo == other,
        TodoView::Create(name) => todo is Create && todo->Create_0@ == name,
        TodoView::Stall(name) => {
            &&& todo is Send
            &&& todo->Send_0 is Subscribe
            &&& todo->Send_0->Subscribe_id == STALLED
            &&& todo->Send_0->Subscribe_log@ == name
            &&& todo->Send_0->Subscribe_from == 0
            &&& todo->Send_0->Subscribe_mode == Mode::Records
            &&& todo->Send_0->Subscribe_credit == 0
        },
    }
}

fn is_resumption(reply: &Response, size: usize) -> (r: bool)
    requires
        size >= 16,
    ensures
        r == resumes(*reply, size as nat),
{
    match reply {
        Response::Records { id, records } => *id == STALLED && records.len() == 1
            && records[0].version == 1 && records[0].patch.equal(&patch(0, size)),
        _ => false,
    }
}

pub open spec fn rank(stage: Stage) -> int {
    match stage {
        Stage::Create => 0,
        Stage::Stall => 1,
        Stage::Load => 2,
        Stage::Cancel => 3,
        Stage::Grant => 4,
        Stage::Resume => 5,
        Stage::Heartbeat => 6,
        Stage::Quiet => 7,
        Stage::Close => 8,
        Stage::Last => 9,
        Stage::Passed => 10,
    }
}

/// What a stage must see to be left behind: its work done, the very record
/// that was granted, silence after it, or the end of the stalled stream.
pub open spec fn earns(stage: Stage, came: Came, size: nat) -> bool {
    match stage {
        Stage::Resume => came is Frame && resumes(came->Frame_0, size),
        Stage::Quiet => came is Silence,
        Stage::Close => came is Frame && came->Frame_0 == (Response::End { id: STALLED }),
        _ => came is Done,
    }
}

/// The probe passes only when the load progressed beside the stalled stream
/// and that stream then resumed with exactly what it was granted: no stage is
/// skipped, and each is left only for what earns it.
pub proof fn probes_skip_no_stage(stage: Stage, came: Came, size: nat)
    requires
        onward(stage, came, size) is Ok,
        !(stage is Passed),
    ensures
        ({
            let next = onward(stage, came, size)->Ok_0;
            if earns(stage, came, size) {
                rank(next) == rank(stage) + 1
            } else {
                next == stage
            }
        }),
{
}

/// The streams that have not ended after all this came in.
pub open spec fn not_ended(waiting: Set<u64>, books: Books, heard: Seq<Response>) -> (
    Set<u64>,
    Books,
)
    decreases heard.len(),
{
    if heard.len() == 0 {
        (waiting, books)
    } else {
        let (left, after) = not_ended(waiting, books, heard.drop_last());
        (ended(left, after, heard.last()).0, ended(left, after, heard.last()).1)
    }
}

/// A stream that was cancelled is waited for until its own end came.
pub proof fn streams_are_waited_for_until_they_end(
    waiting: Set<u64>,
    books: Books,
    heard: Seq<Response>,
    id: u64,
)
    ensures
        not_ended(waiting, books, heard).0.contains(id) <==> waiting.contains(id) && forall|i: int|
            0 <= i < heard.len() ==> #[trigger] heard[i] != (Response::End { id }),
    decreases heard.len(),
{
    if heard.len() > 0 {
        let less = heard.drop_last();
        streams_are_waited_for_until_they_end(waiting, books, less, id);
        assert(heard[heard.len() - 1] == heard.last());
        if not_ended(waiting, books, heard).0.contains(id) {
            assert forall|i: int| 0 <= i < heard.len() implies #[trigger] heard[i] != (
            Response::End { id }) by {
                if i < less.len() {
                    assert(less[i] == heard[i]);
                }
            }
        } else if waiting.contains(id) && (forall|i: int|
            0 <= i < less.len() ==> #[trigger] less[i] != (Response::End { id })) {
            assert(heard.last() == (Response::End { id }));
        } else if waiting.contains(id) {
            let i = choose|i: int|
                0 <= i < less.len() && #[trigger] less[i] == (Response::End { id });
            assert(heard[i] == less[i]);
        }
    }
}

/// While streams close, the end of one that is waited for is in place, records
/// that were under way are held to account as ever, pongs and acknowledgements are
/// passed over, and nothing else is in place.
pub proof fn closing_takes_what_was_under_way(waiting: Set<u64>, books: Books, response: Response)
    ensures
        ({
            let (left, after, r) = ended(waiting, books, response);
            &&& response is Records ==> left == waiting && after == books.deliver(
                response->Records_id,
                response->records@,
            ).0 && (r is Ok <==> books.deliver(response->Records_id, response->records@).1 is Ok)
            &&& !(response is Records) ==> after == books
            &&& response is Pong || response is Accepted ==> r is Ok && left == waiting
            &&& response is End ==> (r is Ok <==> waiting.contains(response->End_id))
            &&& !(response is Records || response is Pong || response is Accepted || response
                is End) ==> r == Err::<(), Fault>(Fault::Cancel { reply: response }) && left == waiting
        }),
{
}

/// A replay begins every log anew at its first version, with credit, and keeps what
/// the run saw; each log is asked for from its beginning, record by record.
pub proof fn replays_begin_at_the_first_version(books: Books, names: Seq<String>, log: int)
    requires
        0 <= log < names.len() < usize::MAX,
    ensures
        ({
            let after = replaying(books, names.len() as int);
            let id = (log + 1) as u64;
            &&& after.streams.contains_key(id)
            &&& after.streams[id].log == log && after.streams[id].next == 1
            &&& after.streams[id].credit == CREDIT
            &&& after.order == books.order && after.issued == books.issued && after.acked
                == books.acked
            &&& !after.streams.contains_key(0) && !after.streams.contains_key(
                (names.len() + 1) as u64,
            )
            &&& playback(names, log)->Subscribe_id == id && playback(names, log)->Subscribe_log
                == names[log]
            &&& playback(names, log)->from == 0 && playback(names, log)->mode == Mode::Records
            &&& playback(names, log)->Subscribe_credit == CREDIT
        }),
{
}

/// What a replay takes in, it pays for: records that are in order move their
/// stream on by as many versions and are granted again, so that its credit stays
/// what it was. Records that are not fail the replay.
pub proof fn replays_grant_what_they_take(books: Books, id: u64, records: Seq<Record>)
    requires
        books.wf(),
        books.streams.contains_key(id),
        records.len() <= u32::MAX,
    ensures
        ({
            let (after, r) = replayed(books, id, records);
            &&& r is Ok <==> books.deliver(id, records).1 is Ok
            &&& r is Ok ==> {
                &&& r->Ok_0 == Some(Request::Credit { id, grant: records.len() as u32 })
                &&& after.streams[id].credit == books.streams[id].credit
                &&& after.streams[id].next == books.streams[id].next + records.len()
                &&& after.streams[id].log == books.streams[id].log
            }
            &&& r is Err ==> r->Err_0 == (Fault::Broken {
                violation: books.deliver(id, records).1->Err_0,
            })
        }),
{
    if books.deliver(id, records).1 is Ok {
        super::run::lemma_deliver(books, id, records);
    }
}

/// During a replay records are played, pongs and acknowledgements are passed over,
/// and anything else fails it.
pub proof fn replays_take_records(books: Books, response: Response)
    ensures
        response is Records ==> played(books, response) == replayed(
            books,
            response->Records_id,
            response->records@,
        ),
        response is Pong || response is Accepted ==> played(books, response).1 == Ok::<
            Option<Request>,
            Fault,
        >(None) && played(books, response).0 == books,
        !(response is Records || response is Pong || response is Accepted) ==> played(
            books,
            response,
        ).1 == Err::<Option<Request>, Fault>(Fault::Replay { reply: response }),
{
}

/// An append of a crash probe counts as acknowledged exactly where the reply
/// acknowledges it at one version, and the books accept that.
pub proof fn crash_probes_believe_the_books(
    before: Books,
    after: Books,
    sequence: u64,
    reply: Response,
    r: Result<(), Fault>,
)
    requires
        survived(before, after, sequence, reply, r),
    ensures
        r is Ok <==> reply is Ack && reply->versions@.len() == 1 && before.acknowledge(
            sequence,
            reply->versions@[0],
            reply->synced,
        ).1 is Ok,
        r is Ok ==> after == before.acknowledge(sequence, reply->versions@[0], reply->synced).0,
        !(reply is Ack) || reply->versions@.len() != 1 ==> after == before,
{
}

/// The load beside the stalled stream is one connection, log, appender and
/// subscriber, with more to say than one connection can hold back, and goes where
/// the whole run goes.
pub proof fn the_isolated_load_is_small_and_heavy(cfg: Config)
    ensures
        isolated(cfg).connections == 1 && isolated(cfg).logs == 1 && isolated(cfg).appenders == 1
            && isolated(cfg).subscribers == 1,
        super::config::scheduled(isolated(cfg)) == 128,
        super::config::scheduled(isolated(cfg)) * isolated(cfg).patch_size == 4 * 1024 * 1024,
        isolated(cfg).durability == Durability::Written,
        isolated(cfg).server == cfg.server && isolated(cfg).transport == cfg.transport
            && isolated(cfg).timeout == cfg.timeout && isolated(cfg).max_inflight
            == cfg.max_inflight,
{
}

/// The stalled stream is opened without credit and granted a single record, after
/// which nothing may come before it is closed.
pub proof fn probes_grant_a_single_record(todo: Todo)
    ensures
        is_todo(todo, Stage::Stall.spec_todo()) ==> todo is Send && todo->Send_0 is Subscribe
            && todo->Send_0->Subscribe_id == STALLED && todo->Send_0->Subscribe_credit == 0
            && todo->Send_0->Subscribe_from == 0,
        is_todo(todo, Stage::Grant.spec_todo()) ==> todo == Todo::Send(
            Request::Credit { id: STALLED, grant: 1 },
        ),
        is_todo(todo, Stage::Close.spec_todo()) ==> todo == Todo::Ask(
            Request::Cancel { id: STALLED },
        ),
        is_todo(todo, Stage::Quiet.spec_todo()) ==> todo == Todo::Quiet(250_000_000),
        is_todo(todo, Stage::Load.spec_todo()) ==> todo is Load,
        is_todo(todo, Stage::Cancel.spec_todo()) ==> todo is Cancel,
        is_todo(todo, Stage::Resume.spec_todo()) ==> todo is Listen,
        is_todo(todo, Stage::Heartbeat.spec_todo()) || is_todo(todo, Stage::Last.spec_todo())
            ==> todo is Heartbeat,
        is_todo(todo, Stage::Passed.spec_todo()) ==> todo is Nothing,
{
}

/// The stalled stream resumes with the first record of the load, whole and alone,
/// and with nothing else.
pub proof fn stalled_streams_resume_with_the_first_record(reply: Response, size: nat)
    ensures
        resumes(reply, size) <==> {
            &&& reply is Records && reply->Records_id == STALLED && reply->records@.len() == 1
            &&& reply->records@.last().version == 1
            &&& reply->records@.last().patch@ == JsonView::Text(payload(0, size))
        },
{
}

/// The probe fails where its work fails or runs out of time, where the stalled
/// stream resumes with anything but its record, where it goes on after that, or
/// where it does not end when it is told to; otherwise it goes on.
pub proof fn probes_fail_for_a_reason(stage: Stage, came: Came, size: nat)
    ensures
        onward(stage, came, size) is Err <==> {
            ||| came is Failed
            ||| came is TimedOut
            ||| stage is Resume && came is Frame && !resumes(came->Frame_0, size) && !(came->Frame_0
                is Pong) && !(came->Frame_0 is Accepted)
            ||| stage is Quiet && came is Frame
            ||| stage is Close && came is Frame && came->Frame_0 != (Response::End { id: STALLED })
        },
        came is Failed ==> onward(stage, came, size) == Err::<Stage, Fault>(came->Failed_0),
        came is TimedOut ==> onward(stage, came, size) == Err::<Stage, Fault>(Fault::NotResumed),
        stage is Quiet && came is Frame ==> onward(stage, came, size) == Err::<Stage, Fault>(
            Fault::Exhausted { reply: came->Frame_0 },
        ),
{
}

} // verus!
