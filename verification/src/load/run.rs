//! The load itself: appends go out on an absolute schedule whatever the server
//! does, and everything that comes back is held against the ledger.
//!
//! Times are in nanoseconds from one fixed moment.

use super::check::{last, patch, payload, verdict, violation, Books, Ledger, Stream, Violation};
use super::config::{scheduled, Config};
use super::error::Error;
use super::fault::Fault;
use super::life::{finished_logs_hold_every_append, versions_of};
use super::measure::{bucket, due, micros, offset, schedule_fills_the_window, Metrics, Tally};
use super::wire::{is_moved, moved};
use crate::json::{Json, JsonView};
use crate::proto::{Mode, Record, Request, Response};
use std::collections::HashSet;
use vstd::multiset::Multiset;
use vstd::prelude::*;

verus! {

/// The credit of every stream of a load.
pub const CREDIT: u32 = 256;

/// Append number `n` has the id `APPEND_BASE + n`.
pub const APPEND_BASE: u64 = 0x1_0000_0000;

/// The id of a stream that is never granted anything.
pub const STALLED: u64 = 0xffff_ffff_ffff_fffd;

/// Saturating addition.
pub open spec fn plus(a: u64, b: int) -> u64 {
    if a + b > u64::MAX {
        u64::MAX
    } else {
        (a + b) as u64
    }
}

// ---------------------------------------------------------------------
// The plan.

/// What a load does, and over how many connections.
pub struct Plan {
    pub cfg: Config,
    pub names: Vec<String>,
    pub peers: usize,
}

impl Plan {
    /// Settings that have passed [`Config::check`], a name for every log and
    /// somewhere to send. Ids and lanes can be counted.
    pub open spec fn wf(self) -> bool {
        &&& self.names@.len() == self.cfg.logs
        &&& self.peers > 0
        &&& self.cfg.logs > 0
        &&& self.cfg.appenders > 0
        &&& self.cfg.subscribers > 0
        &&& self.cfg.rate > 0
        &&& self.cfg.patch_size >= 16
        &&& self.lanes() + self.streams() <= usize::MAX
        &&& scheduled(self.cfg) <= u64::MAX - APPEND_BASE - 16
    }

    /// Appends go out on so many lanes in turn.
    pub open spec fn lanes(self) -> int {
        self.cfg.logs * self.cfg.appenders
    }

    pub open spec fn streams(self) -> int {
        self.cfg.logs * self.cfg.subscribers
    }

    pub open spec fn lane(self, sequence: u64) -> int {
        sequence as int % self.lanes()
    }

    /// The log that an append goes to.
    pub open spec fn log_of(self, sequence: u64) -> int {
        self.lane(sequence) / self.cfg.appenders as int
    }

    /// The connection that an append goes out on.
    pub open spec fn append_peer(self, sequence: u64) -> int {
        self.lane(sequence) % self.peers as int
    }

    /// The log that stream `id` follows.
    pub open spec fn stream_log(self, id: u64) -> int {
        (id - 1) / self.cfg.subscribers as int
    }

    /// The connection of stream `id`, if it is one of the load's.
    pub open spec fn stream_peer(self, id: u64) -> Option<usize> {
        if 1 <= id <= self.streams() {
            Some(((self.lanes() + id - 1) % self.peers as int) as usize)
        } else {
            None
        }
    }

    /// The subscription that opens stream `id`, and the connection it goes out
    /// on.
    pub open spec fn subscription(self, id: u64) -> (usize, Request) {
        (
            self.stream_peer(id)->0,
            Request::Subscribe {
                id,
                log: self.names@[self.stream_log(id)],
                from: 0,
                mode: Mode::Records,
                credit: CREDIT,
            },
        )
    }

    pub open spec fn subscriptions(self) -> Seq<(usize, Request)> {
        Seq::new(self.streams() as nat, |k: int| self.subscription((k + 1) as u64))
    }

    /// The books before the first append.
    pub open spec fn opening(self) -> Books {
        Books {
            issued: Seq::empty(),
            order: Seq::new(self.cfg.logs as nat, |i: int| Map::<u64, u64>::empty()),
            streams: self.opened(self.streams()),
            patch_size: self.cfg.patch_size as nat,
            durability: self.cfg.durability,
            acked: 0,
        }
    }

    /// The first `n` streams, just opened.
    pub open spec fn opened(self, n: int) -> Map<u64, Stream> {
        Map::new(
            |id: u64| 1 <= id <= n,
            |id: u64|
                Stream { log: self.stream_log(id) as usize, next: 1, credit: CREDIT as u64 },
        )
    }
}

proof fn lemma_stream_log(plan: Plan, id: u64)
    requires
        plan.wf(),
        1 <= id <= plan.streams(),
    ensures
        0 <= plan.stream_log(id) < plan.cfg.logs,
{
    let s = plan.cfg.subscribers as int;
    let logs = plan.cfg.logs as int;
    let k = id - 1;
    vstd::arithmetic::div_mod::lemma_fundamental_div_mod(k, s);
    let q = k / s;
    assert(0 <= q < logs) by (nonlinear_arith)
        requires
            k == s * q + k % s,
            0 <= k % s,
            k % s < s,
            0 <= k,
            k < logs * s,
            s > 0,
    ;
}

proof fn lemma_log_of(plan: Plan, sequence: u64)
    requires
        plan.wf(),
    ensures
        plan.lanes() > 0,
        0 <= plan.lane(sequence) < plan.lanes(),
        0 <= plan.log_of(sequence) < plan.cfg.logs,
{
    let a = plan.cfg.appenders as int;
    let logs = plan.cfg.logs as int;
    assert(logs * a > 0) by (nonlinear_arith)
        requires
            logs > 0,
            a > 0,
    ;
    let k = plan.lane(sequence);
    vstd::arithmetic::div_mod::lemma_fundamental_div_mod(k, a);
    let q = k / a;
    assert(0 <= q < logs) by (nonlinear_arith)
        requires
            k == a * q + k % a,
            0 <= k % a,
            k % a < a,
            0 <= k,
            k < logs * a,
            a > 0,
    ;
}

// ---------------------------------------------------------------------
// The run.

/// How many records the streams up to `n` took, all together.
pub open spec fn taken_by(streams: Map<u64, Stream>, n: int) -> int
    decreases n,
{
    if n <= 0 {
        0
    } else {
        taken_by(streams, n - 1) + streams[n as u64].next - 1
    }
}

proof fn lemma_taken(streams: Map<u64, Stream>, id: u64, stream: Stream, n: int)
    requires
        1 <= id,
        n <= u64::MAX,
    ensures
        taken_by(streams.insert(id, stream), n) == taken_by(streams, n) + if id <= n {
            stream.next - streams[id].next
        } else {
            0
        },
    decreases n,
{
    if n > 0 {
        lemma_taken(streams, id, stream, n - 1);
    }
}

proof fn lemma_taken_counts(streams: Map<u64, Stream>, n: int)
    requires
        n <= u64::MAX,
        forall|id: u64| 1 <= id <= n ==> (#[trigger] streams[id]).next >= 1,
    ensures
        taken_by(streams, n) >= 0,
    decreases n,
{
    if n > 0 {
        lemma_taken_counts(streams, n - 1);
        assert(streams[n as u64].next >= 1);
    }
}

proof fn lemma_taken_none(plan: Plan, n: int)
    requires
        n <= u64::MAX,
    ensures
        taken_by(plan.opened(plan.streams()), n) == 0 || n > plan.streams(),
    decreases n,
{
    if n > 0 {
        lemma_taken_none(plan, n - 1);
        if n <= plan.streams() {
            assert(plan.opened(plan.streams()).contains_key(n as u64));
        }
    }
}

pub struct RunView {
    pub plan: Plan,
    pub books: Books,
    /// How many appends went out.
    pub sent: u64,
    /// The appends that were not acknowledged yet.
    pub pending: Set<u64>,
    pub tally: Tally,
    pub start: u64,
}

impl RunView {
    pub open spec fn end(self) -> int {
        self.start + self.plan.cfg.duration
    }

    pub open spec fn deadline(self) -> int {
        self.end() + self.plan.cfg.timeout
    }

    pub open spec fn wf(self) -> bool {
        &&& self.plan.wf()
        &&& self.books.wf()
        &&& self.books.consistent()
        &&& self.books.order.len() == self.plan.cfg.logs
        &&& self.books.patch_size == self.plan.cfg.patch_size
        &&& self.books.issued.len() == self.sent
        &&& self.sent <= scheduled(self.plan.cfg)
        &&& self.pending.finite()
        &&& self.tally.scheduled == self.sent
        &&& self.tally.acknowledged == self.books.acked
        &&& forall|id: u64| #[trigger]
            self.books.streams.contains_key(id) <==> 1 <= id <= self.plan.streams()
        &&& forall|id: u64| #[trigger]
            self.books.streams.contains_key(id) ==> self.books.streams[id].log
                == self.plan.stream_log(id)
        &&& self.tally.delivered == plus(0, taken_by(self.books.streams, self.plan.streams()))
        &&& self.deadline() <= u64::MAX
    }

    /// What a load waits for.
    pub open spec fn waiting(self, now: u64) -> Wait {
        if self.complete() && now >= self.end() {
            Wait::Finished
        } else if self.sent < scheduled(self.plan.cfg) {
            Wait::Due((self.start + due(self.sent, self.plan.cfg.rate)) as u64)
        } else if self.complete() {
            Wait::End(self.end() as u64)
        } else {
            Wait::Drain
        }
    }

    /// Everything went out, came back and is accounted for.
    pub open spec fn complete(self) -> bool {
        &&& self.sent == scheduled(self.plan.cfg)
        &&& self.books.acked == self.books.issued.len()
        &&& self.books.all_caught_up()
    }
}

/// What a load waits for, apart from frames.
#[derive(Clone, Copy, Debug, PartialEq, Eq, Structural)]
pub enum Wait {
    /// Nothing: it is over.
    Finished,
    /// The moment that the next append is due.
    Due(u64),
    /// The end of the window, when all is in.
    End(u64),
    /// Whatever is still out.
    Drain,
}

pub struct Run {
    plan: Plan,
    ledger: Ledger,
    sent: u64,
    planned: u64,
    pending: HashSet<u64>,
    metrics: Metrics,
    start: u64,
}

impl Run {
    pub closed spec fn view(&self) -> RunView {
        RunView {
            plan: self.plan,
            books: self.ledger@,
            sent: self.sent,
            pending: self.pending@,
            tally: self.metrics@,
            start: self.start,
        }
    }

    pub closed spec fn wf(&self) -> bool {
        &&& self@.wf()
        &&& self.planned == scheduled(self.plan.cfg)
    }

    /// What is promised of a run that is well-formed to look at is promised of
    /// every well-formed run.
    pub proof fn lemma_wf(&self)
        requires
            self.wf(),
        ensures
            self@.wf(),
    {
    }

    /// Set up a load: the subscriptions to open, each with the connection it
    /// goes out on. The clock starts with [`Run::begin`].
    pub fn open(plan: Plan) -> (r: Result<(Self, Vec<(usize, Request)>), Error>)
        requires
            plan.wf(),
            plan.cfg.duration + plan.cfg.timeout <= u64::MAX,
        ensures
            r is Ok,
            r->Ok_0.0.wf(),
            r->Ok_0.0@ == (RunView {
                plan,
                books: plan.opening(),
                sent: 0,
                pending: Set::empty(),
                tally: Tally::blank(),
                start: 0,
            }),
            r->Ok_0.1@ == plan.subscriptions(),
    {
        let metrics = match Metrics::new() {
            Ok(metrics) => metrics,
            Err(e) => return Err(e),
        };
        let planned = match plan.cfg.planned() {
            Ok(n) => n,
            Err(e) => return Err(e),
        };
        let mut ledger = Ledger::new(plan.cfg.logs, plan.cfg.patch_size, plan.cfg.durability);
        let mut subscriptions: Vec<(usize, Request)> = Vec::new();
        proof {
            lemma_log_of(plan, 0);
            assert(plan.streams() >= 0) by (nonlinear_arith)
                requires
                    plan.streams() == plan.cfg.logs * plan.cfg.subscribers,
            ;
        }
        let lanes: usize = plan.cfg.logs * plan.cfg.appenders;
        let total: usize = plan.cfg.logs * plan.cfg.subscribers;
        assert(ledger@.streams =~= plan.opened(0));
        let mut k: usize = 0;
        while k < total
            invariant
                plan.wf(),
                total == plan.streams(),
                lanes == plan.lanes(),
                k <= total,
                ledger@ == (Books { streams: plan.opened(k as int), ..plan.opening() }),
                ledger@.wf(),
                ledger@.consistent(),
                subscriptions@ == plan.subscriptions().take(k as int),
            decreases total - k,
        {
            let id: u64 = k as u64 + 1;
            proof {
                lemma_stream_log(plan, id);
            }
            let log = k / plan.cfg.subscribers;
            let peer = (lanes + k) % plan.peers;
            match ledger.subscribe(id, log, 0, CREDIT) {
                Ok(()) => {},
                Err(v) => return Err(violation(v)),
            }
            subscriptions.push(
                (
                    peer,
                    Request::Subscribe {
                        id,
                        log: plan.names[log].clone(),
                        from: 0,
                        mode: Mode::Records,
                        credit: CREDIT,
                    },
                ),
            );
            k += 1;
            proof {
                assert(ledger@.streams =~= plan.opened(k as int));
                assert(plan.subscriptions().take(k as int) =~= plan.subscriptions().take(
                    k - 1,
                ).push(plan.subscriptions()[k - 1]));
            }
        }
        assert(plan.subscriptions().take(k as int) =~= plan.subscriptions());
        let run = Run {
            plan,
            ledger,
            sent: 0,
            planned,
            pending: HashSet::new(),
            metrics,
            start: 0,
        };
        proof {
            lemma_taken_none(run.plan, run.plan.streams());
            assert forall|id: u64| #[trigger] run@.books.streams.contains_key(id) implies
                run@.books.streams[id].log == run.plan.stream_log(id) by {
                lemma_stream_log(run.plan, id);
            }
        }
        Ok((run, subscriptions))
    }

    /// Every subscription is open: the window begins.
    pub fn begin(&mut self, now: u64)
        requires
            old(self).wf(),
            now + old(self)@.plan.cfg.duration + old(self)@.plan.cfg.timeout <= u64::MAX,
        ensures
            final(self).wf(),
            final(self)@ == (RunView { start: now, ..old(self)@ }),
    {
        self.start = now;
    }

    /// What to wait for.
    pub fn wait(&self, now: u64) -> (r: Wait)
        requires
            self.wf(),
        ensures
            r == self@.waiting(now),
    {
        if self.sent < self.planned {
            return Wait::Due(self.next_due());
        }
        if !self.ledger.complete() {
            return Wait::Drain;
        }
        let end = self.start + self.plan.cfg.duration;
        if now >= end {
            Wait::Finished
        } else {
            Wait::End(end)
        }
    }

    fn next_due(&self) -> (r: u64)
        requires
            self.wf(),
            self.sent < self.planned,
        ensures
            r == self@.start + due(self@.sent, self@.plan.cfg.rate),
    {
        proof {
            schedule_fills_the_window(self.plan.cfg, self.sent);
            assert(due(self.sent, self.plan.cfg.rate) >= 0) by {
                vstd::arithmetic::div_mod::lemma_div_pos_is_pos(
                    self.sent * 1_000_000_000,
                    self.plan.cfg.rate as int,
                );
            }
        }
        self.start + offset(self.sent, self.plan.cfg.rate)
    }

    /// The moment by which everything must be in.
    pub fn deadline(&self) -> (r: u64)
        requires
            self.wf(),
        ensures
            r == self@.deadline(),
    {
        self.start + self.plan.cfg.duration + self.plan.cfg.timeout
    }

    /// The next append is due. Says what to send, and on which connection.
    pub fn issue(&mut self) -> (r: Result<(usize, Request), Fault>)
        requires
            old(self).wf(),
            old(self)@.sent < scheduled(old(self)@.plan.cfg),
        ensures
            final(self).wf(),
            issued(old(self)@, final(self)@, r),
    {
        let outstanding = self.pending.len();
        if outstanding >= self.plan.cfg.max_inflight {
            return Err(Fault::Overload { outstanding, limit: self.plan.cfg.max_inflight });
        }
        let ghost before = self@;
        proof {
            lemma_log_of(self.plan, self.sent);
        }
        let lanes: usize = self.plan.cfg.logs * self.plan.cfg.appenders;
        let lane: usize = (self.sent % lanes as u64) as usize;
        let log = lane / self.plan.cfg.appenders;
        let peer = lane % self.plan.peers;
        let at = self.next_due();
        let sequence = self.ledger.issue(log, at);
        let mut patches: Vec<Json> = Vec::new();
        patches.push(patch(sequence, self.plan.cfg.patch_size));
        let request = Request::Append {
            id: APPEND_BASE + sequence,
            log: self.plan.names[log].clone(),
            patches,
            durability: self.plan.cfg.durability,
        };
        self.pending.insert(sequence);
        self.sent = self.sent + 1;
        self.metrics.scheduled = self.metrics.scheduled + 1;
        assert(self@ == before.issuing());
        Ok((peer, request))
    }
}

/// The next append goes out, unless too many are out already.
pub open spec fn issued(
    before: RunView,
    after: RunView,
    r: Result<(usize, Request), Fault>,
) -> bool {
    if before.pending.len() >= before.plan.cfg.max_inflight {
        after == before && r == Err::<(usize, Request), Fault>(
            Fault::Overload {
                outstanding: before.pending.len() as usize,
                limit: before.plan.cfg.max_inflight,
            },
        )
    } else {
        &&& after == before.issuing()
        &&& r is Ok
        &&& (r->Ok_0).0 == before.plan.append_peer(before.sent)
        &&& is_append((r->Ok_0).1, before.plan, before.sent)
    }
}

/// The append that a load sends as number `sequence`.
pub open spec fn is_append(request: Request, plan: Plan, sequence: u64) -> bool {
    &&& request is Append
    &&& request->Append_id == APPEND_BASE + sequence
    &&& request->Append_log == plan.names@[plan.log_of(sequence)]
    &&& request->durability == plan.cfg.durability
    &&& request->patches@.len() == 1
    &&& request->patches@[0]@ == JsonView::Text(payload(sequence, plan.cfg.patch_size as nat))
}

impl RunView {
    /// After one more append went out, which was due when the schedule says.
    pub open spec fn issuing(self) -> RunView {
        RunView {
            books: Books {
                issued: self.books.issued.push(
                    super::check::Issued {
                        log: self.plan.log_of(self.sent) as usize,
                        intended: (self.start + due(self.sent, self.plan.cfg.rate)) as u64,
                        ack: None,
                        observed: None,
                    },
                ),
                ..self.books
            },
            sent: (self.sent + 1) as u64,
            pending: self.pending.insert(self.sent),
            tally: Tally { scheduled: (self.tally.scheduled + 1) as u64, ..self.tally },
            ..self
        }
    }
}

// ---------------------------------------------------------------------
// What comes back.

/// What neither a record nor an acknowledgement touches.
pub open spec fn same_frame(a: Books, b: Books) -> bool {
    &&& a.issued.len() == b.issued.len()
    &&& a.order.len() == b.order.len()
    &&& a.patch_size == b.patch_size
    &&& a.durability == b.durability
}

pub proof fn lemma_deliver(books: Books, id: u64, records: Seq<Record>)
    requires
        books.wf(),
        books.deliver(id, records).1 is Ok,
    ensures
        ({
            let after = books.deliver(id, records).0;
            &&& same_frame(after, books)
            &&& after.acked == books.acked
            &&& books.deliver(id, records).1->Ok_0.len() == records.len()
            &&& records.len() > 0 ==> books.streams.contains_key(id)
            &&& books.streams.contains_key(id) ==> {
                &&& records.len() <= books.streams[id].credit
                &&& after.streams == books.streams.insert(
                    id,
                    Stream {
                        log: books.streams[id].log,
                        next: (books.streams[id].next + records.len()) as u64,
                        credit: (books.streams[id].credit - records.len()) as u64,
                    },
                )
                &&& books.streams[id].next + records.len() <= u64::MAX
            }
            &&& !books.streams.contains_key(id) ==> after == books
        }),
    decreases records.len(),
{
    if records.len() > 0 {
        let less = records.drop_last();
        assert(forall|i: int| 0 <= i < less.len() ==> less[i] == records[i]);
        lemma_deliver(books, id, less);
        assert(records.last() == records[records.len() - 1]);
        let after = books.deliver(id, records).0;
        assert(after.streams =~= books.streams.insert(
            id,
            Stream {
                log: books.streams[id].log,
                next: (books.streams[id].next + records.len()) as u64,
                credit: (books.streams[id].credit - records.len()) as u64,
            },
        ));
    } else if books.streams.contains_key(id) {
        let s = books.streams[id];
        assert(books.streams =~= books.streams.insert(
            id,
            Stream { log: s.log, next: s.next, credit: s.credit },
        ));
    }
}

proof fn lemma_count_acked(issued: Seq<super::check::Issued>)
    ensures
        super::check::count_acked(issued) <= issued.len(),
    decreases issued.len(),
{
    if issued.len() > 0 {
        lemma_count_acked(issued.drop_last());
    }
}

/// The samples after things that were meant for `times` arrived.
pub open spec fn sampled(samples: Multiset<u64>, times: Seq<u64>, arrived: u64) -> Multiset<u64>
    decreases times.len(),
{
    if times.len() == 0 {
        samples
    } else {
        sampled(samples, times.drop_last(), arrived).insert(
            bucket(micros(arrived - times.last()) as u64),
        )
    }
}

proof fn lemma_sampled(samples: Multiset<u64>, times: Seq<u64>, arrived: u64)
    ensures
        sampled(samples, times, arrived).len() == samples.len() + times.len(),
    decreases times.len(),
{
    if times.len() > 0 {
        lemma_sampled(samples, times.drop_last(), arrived);
    }
}

/// Whether something arrived before it was meant to be sent.
pub open spec fn early(times: Seq<u64>, arrived: u64) -> bool {
    exists|i: int| 0 <= i < times.len() && arrived < #[trigger] times[i]
}

impl RunView {
    /// After the server was seen to hold so many bytes in memory.
    pub open spec fn seeing(self, rss: u64) -> RunView {
        RunView {
            tally: Tally {
                rss_peak: if rss > self.tally.rss_peak {
                    rss
                } else {
                    self.tally.rss_peak
                },
                ..self.tally
            },
            ..self
        }
    }

    /// Why an acknowledgement is out of place, if it is.
    pub open spec fn misplaced(self, peer: usize, id: u64) -> Option<Fault> {
        if id < APPEND_BASE {
            Some(Fault::UnknownAppend { id })
        } else {
            let sequence = (id - APPEND_BASE) as u64;
            if peer != self.plan.append_peer(sequence) {
                Some(
                    Fault::AckPeer {
                        id,
                        observed: peer,
                        expected: self.plan.append_peer(sequence) as usize,
                    },
                )
            } else if !self.pending.contains(sequence) {
                Some(Fault::DuplicateAck { id })
            } else {
                None
            }
        }
    }

    /// After an append was acknowledged, with these books and samples.
    pub open spec fn acknowledging(
        self,
        sequence: u64,
        books: Books,
        append: Multiset<u64>,
        arrived: u64,
    ) -> RunView {
        RunView {
            books,
            pending: self.pending.remove(sequence),
            tally: Tally {
                append,
                acknowledged: (self.tally.acknowledged + 1) as u64,
                in_window_acks: if arrived < self.end() {
                    plus(self.tally.in_window_acks, 1)
                } else {
                    self.tally.in_window_acks
                },
                ..self.tally
            },
            ..self
        }
    }

    /// After records arrived, with these books and samples.
    pub open spec fn delivering(
        self,
        count: int,
        books: Books,
        delivery: Multiset<u64>,
        arrived: u64,
    ) -> RunView {
        RunView {
            books,
            tally: Tally {
                delivery,
                delivered: plus(self.tally.delivered, count),
                in_window_deliveries: if arrived < self.end() {
                    plus(self.tally.in_window_deliveries, count)
                } else {
                    self.tally.in_window_deliveries
                },
                ..self.tally
            },
            ..self
        }
    }
}

/// The books after stream `id` was granted as much as it used.
pub open spec fn regranted(books: Books, id: u64, count: int) -> Books {
    Books {
        streams: books.streams.insert(
            id,
            Stream {
                credit: (books.streams[id].credit + count) as u64,
                ..books.streams[id]
            },
        ),
        ..books
    }
}

/// What an acknowledgement comes to. Where it is in place and in the books,
/// it can still have come before its append was due.
pub open spec fn on_ack(
    before: RunView,
    after: RunView,
    peer: usize,
    arrived: u64,
    id: u64,
    versions: Seq<u64>,
    synced: u64,
    r: Result<Option<(usize, Request)>, Fault>,
) -> bool {
    match before.misplaced(peer, id) {
        Some(fault) => r == Err::<Option<(usize, Request)>, Fault>(fault),
        None => {
            let sequence = (id - APPEND_BASE) as u64;
            if versions.len() != 1 {
                r matches Err(Fault::Broken { violation }) && violation is NotOneVersion
                    && violation->NotOneVersion_sequence == sequence
                    && violation->NotOneVersion_versions@ == versions
            } else {
                match before.books.acknowledge(sequence, versions[0], synced) {
                    (_, Err(violation)) => r == Err::<Option<(usize, Request)>, Fault>(
                        Fault::Broken { violation },
                    ),
                    (books, Ok(intended)) => {
                        let samples = after.tally.append;
                        &&& r is Ok <==> intended <= arrived
                        &&& r is Err ==> r->Err_0 is Sample && r->Err_0->Sample_why@
                            == "observation precedes intended send time"@
                        &&& r is Ok ==> r->Ok_0 is None && after == before.acknowledging(
                            sequence,
                            books,
                            samples,
                            arrived,
                        )
                        &&& r is Ok && before.tally.append.len() < u64::MAX ==> samples
                            == before.tally.append.insert(
                            bucket(micros(arrived - intended) as u64),
                        )
                    },
                }
            }
        },
    }
}

/// What records come to. Where they are in place and in the books, one can
/// still have come before its append was due. The stream is granted what it
/// used.
pub open spec fn on_records(
    before: RunView,
    after: RunView,
    peer: usize,
    arrived: u64,
    id: u64,
    records: Seq<Record>,
    r: Result<Option<(usize, Request)>, Fault>,
) -> bool {
    if id == STALLED {
        r == Err::<Option<(usize, Request)>, Fault>(Fault::ZeroCredit)
    } else if before.plan.stream_peer(id) != Some(peer) {
        r == Err::<Option<(usize, Request)>, Fault>(Fault::StreamPeer { id, observed: peer })
    } else if records.len() > u32::MAX {
        r == Err::<Option<(usize, Request)>, Fault>(Fault::TooMany { id })
    } else {
        match before.books.deliver(id, records) {
            (_, Err(violation)) => r == Err::<Option<(usize, Request)>, Fault>(
                Fault::Broken { violation },
            ),
            (books, Ok(times)) => if !before.books.streams.contains_key(id) {
                r == Err::<Option<(usize, Request)>, Fault>(
                    Fault::Broken { violation: Violation::CreditUnknown { id } },
                )
            } else {
                let count = records.len();
                let samples = after.tally.delivery;
                &&& r is Ok <==> !early(times, arrived)
                &&& r is Err ==> r->Err_0 is Sample && r->Err_0->Sample_why@
                    == "observation precedes intended send time"@
                &&& r is Ok ==> r->Ok_0 == Some(
                    (peer, Request::Credit { id, grant: count as u32 }),
                )
                &&& r is Ok ==> after == before.delivering(
                    count as int,
                    regranted(books, id, count as int),
                    samples,
                    arrived,
                )
                &&& r is Ok && before.tally.delivery.len() + count < u64::MAX ==> samples
                    == sampled(before.tally.delivery, times, arrived)
            },
        }
    }
}

/// What a frame comes to.
pub open spec fn on_frame(
    before: RunView,
    after: RunView,
    peer: usize,
    arrived: u64,
    response: Response,
    r: Result<Option<(usize, Request)>, Fault>,
) -> bool {
    match response {
        Response::Ack { id, versions, synced } => on_ack(
            before,
            after,
            peer,
            arrived,
            id,
            versions@,
            synced,
            r,
        ),
        Response::Records { id, records } => on_records(
            before,
            after,
            peer,
            arrived,
            id,
            records@,
            r,
        ),
        Response::Pong { .. } | Response::Accepted { .. } => r == Ok::<
            Option<(usize, Request)>,
            Fault,
        >(None) && after == before,
        Response::Gap { id, from, to } => r == Err::<Option<(usize, Request)>, Fault>(
            Fault::Gap { id, from, to },
        ),
        other => r == Err::<Option<(usize, Request)>, Fault>(Fault::Load { reply: other }),
    }
}

impl Run {
    fn acknowledged(
        &mut self,
        peer: usize,
        arrived: u64,
        id: u64,
        versions: &Vec<u64>,
        synced: u64,
    ) -> (r: Result<Option<(usize, Request)>, Fault>)
        requires
            old(self).wf(),
        ensures
            r is Ok ==> final(self).wf(),
            on_ack(old(self)@, final(self)@, peer, arrived, id, versions@, synced, r),
    {
        if id < APPEND_BASE {
            return Err(Fault::UnknownAppend { id });
        }
        let sequence = id - APPEND_BASE;
        proof {
            lemma_log_of(self.plan, sequence);
        }
        let lanes: usize = self.plan.cfg.logs * self.plan.cfg.appenders;
        let expected = (sequence % lanes as u64) as usize % self.plan.peers;
        if peer != expected {
            return Err(Fault::AckPeer { id, observed: peer, expected });
        }
        if !self.pending.remove(&sequence) {
            return Err(Fault::DuplicateAck { id });
        }
        let intended = match self.ledger.ack(sequence, versions.as_slice(), synced) {
            Ok(intended) => intended,
            Err(violation) => return Err(Fault::Broken { violation }),
        };
        match self.metrics.append.record(intended, arrived) {
            Ok(()) => {},
            Err(e) => return Err(Fault::Sample { why: e.message }),
        }
        proof {
            lemma_count_acked(self.ledger@.issued);
        }
        self.metrics.acknowledged = self.metrics.acknowledged + 1;
        if arrived < self.start + self.plan.cfg.duration {
            self.metrics.in_window_acks = self.metrics.in_window_acks.saturating_add(1);
        }
        Ok(None)
    }

    fn delivered(
        &mut self,
        peer: usize,
        arrived: u64,
        id: u64,
        records: &Vec<Record>,
    ) -> (r: Result<Option<(usize, Request)>, Fault>)
        requires
            old(self).wf(),
        ensures
            r is Ok ==> final(self).wf(),
            on_records(old(self)@, final(self)@, peer, arrived, id, records@, r),
    {
        let ghost before = self@;
        if id == STALLED {
            return Err(Fault::ZeroCredit);
        }
        proof {
            lemma_log_of(self.plan, 0);
            assert(self.plan.streams() >= 0) by (nonlinear_arith)
                requires
                    self.plan.streams() == self.plan.cfg.logs * self.plan.cfg.subscribers,
            ;
        }
        let lanes: usize = self.plan.cfg.logs * self.plan.cfg.appenders;
        let total: usize = self.plan.cfg.logs * self.plan.cfg.subscribers;
        if id < 1 || id > total as u64 || (lanes + (id - 1) as usize) % self.plan.peers != peer {
            return Err(Fault::StreamPeer { id, observed: peer });
        }
        if records.len() > u32::MAX as usize {
            return Err(Fault::TooMany { id });
        }
        let count = records.len() as u32;
        proof {
            if before.books.deliver(id, records@).1 is Ok {
                lemma_deliver(before.books, id, records@);
            }
        }
        let times = match self.ledger.records(id, records.as_slice()) {
            Ok(times) => times,
            Err(violation) => return Err(Fault::Broken { violation }),
        };
        if !self.ledger.follows(id) {
            return Err(Fault::Broken { violation: Violation::CreditUnknown { id } });
        }
        let ghost samples = self.metrics.delivery.recorded();
        let ghost room = samples.len() + times@.len() < u64::MAX;
        let mut i: usize = 0;
        assert(times@.take(0) =~= Seq::empty());
        while i < times.len()
            invariant
                i <= times@.len(),
                room == (samples.len() + times@.len() < u64::MAX),
                room ==> self.metrics.delivery.recorded() == sampled(
                    samples,
                    times@.take(i as int),
                    arrived,
                ),
                forall|j: int| 0 <= j < i ==> arrived >= #[trigger] times@[j],
                before.books.deliver(id, records@).1 == Ok::<Seq<u64>, Violation>(times@),
                before == old(self)@,
                before.books.streams.contains_key(id),
                before.plan.stream_peer(id) == Some(peer),
                id != STALLED,
                records@.len() <= u32::MAX,
                self@ == (RunView {
                    books: before.books.deliver(id, records@).0,
                    tally: Tally { delivery: self@.tally.delivery, ..before.tally },
                    ..before
                }),
                self.planned == old(self).planned,
                self.ledger@.wf(),
                self.ledger@.consistent(),
            decreases times@.len() - i,
        {
            proof {
                lemma_sampled(samples, times@.take(i as int), arrived);
                assert(times@.take(i + 1).drop_last() =~= times@.take(i as int));
            }
            match self.metrics.delivery.record(times[i], arrived) {
                Ok(()) => {},
                Err(e) => {
                    assert(arrived < times@[i as int]);
                    return Err(Fault::Sample { why: e.message });
                },
            }
            i += 1;
        }
        assert(times@.take(i as int) =~= times@);
        assert(!early(times@, arrived));
        self.metrics.delivered = self.metrics.delivered.saturating_add(count as u64);
        if arrived < self.start + self.plan.cfg.duration {
            self.metrics.in_window_deliveries =
            self.metrics.in_window_deliveries.saturating_add(count as u64);
        }
        match self.ledger.grant(id, count) {
            Ok(()) => {},
            Err(violation) => return Err(Fault::Broken { violation }),
        }
        proof {
            let stream = self@.books.streams[id];
            assert(self@.books.streams =~= before.books.streams.insert(id, stream));
            lemma_taken(before.books.streams, id, stream, self.plan.streams());
            assert forall|i: u64| 1 <= i <= self.plan.streams() implies (
            #[trigger] before.books.streams[i]).next >= 1 by {
                assert(before.books.streams.contains_key(i));
            }
            lemma_taken_counts(before.books.streams, self.plan.streams());
        }
        Ok(Some((peer, Request::Credit { id, grant: count })))
    }

    /// Something came in on connection `peer`. Says what to send back, if
    /// anything. A fault ends the run.
    pub fn heard(&mut self, peer: usize, arrived: u64, response: Response) -> (r: Result<
        Option<(usize, Request)>,
        Fault,
    >)
        requires
            old(self).wf(),
        ensures
            r is Ok ==> final(self).wf(),
            on_frame(old(self)@, final(self)@, peer, arrived, response, r),
    {
        match response {
            Response::Ack { id, versions, synced } => self.acknowledged(
                peer,
                arrived,
                id,
                &versions,
                synced,
            ),
            Response::Records { id, records } => self.delivered(peer, arrived, id, &records),
            Response::Pong { .. } => Ok(None),
            Response::Accepted { .. } => Ok(None),
            Response::Gap { id, from, to } => Err(Fault::Gap { id, from, to }),
            other => Err(Fault::Load { reply: other }),
        }
    }

    /// The server was seen to hold so many bytes in memory.
    pub fn sampled(&mut self, rss: u64)
        requires
            old(self).wf(),
        ensures
            final(self).wf(),
            final(self)@ == old(self)@.seeing(rss),
    {
        if rss > self.metrics.rss_peak {
            self.metrics.rss_peak = rss;
        }
    }

    /// The deadline passed.
    pub fn stalled(&self) -> (r: Fault)
        requires
            self.wf(),
        ensures
            r == (Fault::Stalled {
                sent: self@.sent,
                planned: scheduled(self@.plan.cfg) as u64,
                acknowledged: self@.tally.acknowledged,
                delivered: self@.tally.delivered,
                drain: self@.plan.cfg.timeout,
            }),
    {
        Fault::Stalled {
            sent: self.sent,
            planned: self.planned,
            acknowledged: self.metrics.acknowledged,
            delivered: self.metrics.delivered,
            drain: self.plan.cfg.timeout,
        }
    }

    /// The load is over at `now`: hold it to account, with the traffic before
    /// and after it.
    pub fn finish(self, now: u64, before: (u64, u64), after: (u64, u64)) -> (r: Result<
        Loaded,
        Fault,
    >)
        requires
            self.wf(),
            now >= self@.start,
        ensures
            verdict(
                self@.books,
                match r {
                    Ok(_) => Ok(()),
                    Err(fault) => Err(fault->violation),
                },
            ),
            match r {
                Ok(loaded) => {
                    &&& loaded.ledger@ == self@.books
                    &&& loaded.plan == self@.plan
                    &&& loaded.metrics@ == (Tally {
                        elapsed: (now - self@.start) as u64,
                        tx_bytes: loaded.metrics.tx_bytes,
                        rx_bytes: loaded.metrics.rx_bytes,
                        ..self@.tally
                    })
                    &&& is_moved(before, after, (loaded.metrics.tx_bytes, loaded.metrics.rx_bytes))
                },
                Err(fault) => fault is Broken,
            },
    {
        match self.ledger.finish() {
            Ok(()) => {},
            Err(violation) => return Err(Fault::Broken { violation }),
        }
        let (tx, rx) = moved(before, after);
        let mut metrics = self.metrics;
        metrics.elapsed = now - self.start;
        metrics.tx_bytes = tx;
        metrics.rx_bytes = rx;
        Ok(Loaded { plan: self.plan, ledger: self.ledger, metrics })
    }
}

/// A load that went through.
pub struct Loaded {
    pub plan: Plan,
    pub ledger: Ledger,
    pub metrics: Metrics,
}

impl Loaded {
    /// The server was seen to hold so many bytes in memory before the load
    /// began.
    pub fn sampled(&mut self, rss: u64)
        ensures
            final(self).plan == old(self).plan,
            final(self).ledger == old(self).ledger,
            final(self).metrics@ == (Tally {
                rss_peak: if rss > old(self).metrics@.rss_peak {
                    rss
                } else {
                    old(self).metrics@.rss_peak
                },
                ..old(self).metrics@
            }),
    {
        if rss > self.metrics.rss_peak {
            self.metrics.rss_peak = rss;
        }
    }
}

/// A stream keeps its credit: what it was pushed, it is granted again.
pub proof fn streams_keep_their_credit(
    before: RunView,
    after: RunView,
    peer: usize,
    arrived: u64,
    id: u64,
    records: Seq<Record>,
    r: Result<Option<(usize, Request)>, Fault>,
)
    requires
        before.wf(),
        on_records(before, after, peer, arrived, id, records, r),
        r is Ok,
    ensures
        before.books.streams.contains_key(id),
        after.books.streams.contains_key(id),
        after.books.streams[id].credit == before.books.streams[id].credit,
        after.books.streams[id].next == before.books.streams[id].next + records.len(),
{
    lemma_deliver(before.books, id, records);
}

proof fn lemma_log_taken(run: RunView, log: int, j: int)
    requires
        run.wf(),
        run.books.all_caught_up(),
        0 <= log < run.plan.cfg.logs,
        0 <= j <= run.plan.cfg.subscribers,
    ensures
        taken_by(run.books.streams, log * run.plan.cfg.subscribers + j) == taken_by(
            run.books.streams,
            log * run.plan.cfg.subscribers,
        ) + j * last(run.books.order[log]),
    decreases j,
{
    let subs = run.plan.cfg.subscribers as int;
    let end = last(run.books.order[log]) as int;
    if j > 0 {
        lemma_log_taken(run, log, j - 1);
        let n = log * subs + j;
        assert(1 <= n <= run.plan.streams()) by (nonlinear_arith)
            requires
                0 <= log < run.plan.cfg.logs,
                0 < j <= subs,
                n == log * subs + j,
                run.plan.streams() == run.plan.cfg.logs * run.plan.cfg.subscribers,
                subs == run.plan.cfg.subscribers,
        ;
        let id = n as u64;
        assert(run.books.streams.contains_key(id));
        assert(run.plan.stream_log(id) == log) by (nonlinear_arith)
            requires
                run.plan.stream_log(id) == (n - 1) / subs,
                n == log * subs + j,
                0 < j <= subs,
        ;
        assert(run.books.caught_up(id));
        assert(j * end == (j - 1) * end + end) by (nonlinear_arith);
    } else {
        assert(j * end == 0) by (nonlinear_arith)
            requires
                j == 0,
        ;
    }
}

proof fn lemma_all_taken(run: RunView, logs: int)
    requires
        run.wf(),
        run.books.all_caught_up(),
        0 <= logs <= run.plan.cfg.logs,
    ensures
        taken_by(run.books.streams, logs * run.plan.cfg.subscribers) == versions_of(
            run.books,
            logs,
        ) * run.plan.cfg.subscribers,
    decreases logs,
{
    let subs = run.plan.cfg.subscribers as int;
    if logs > 0 {
        lemma_all_taken(run, logs - 1);
        lemma_log_taken(run, logs - 1, subs);
        let before = versions_of(run.books, logs - 1);
        let end = last(run.books.order[logs - 1]) as int;
        assert((logs - 1) * subs + subs == logs * subs) by (nonlinear_arith);
        assert((before + end) * subs == before * subs + subs * end) by (nonlinear_arith);
    } else {
        assert(logs * subs == 0) by (nonlinear_arith)
            requires
                logs == 0,
        ;
        assert(versions_of(run.books, logs) * subs == 0) by (nonlinear_arith)
            requires
                versions_of(run.books, logs) == 0,
        ;
    }
}

/// A run that is over delivered every append that was planned to every
/// subscriber of its log, and says so, as far as that can be counted.
pub proof fn finished_runs_delivered_everything(run: RunView)
    requires
        run.wf(),
        run.complete(),
        run.books.finished(),
    ensures
        taken_by(run.books.streams, run.plan.streams()) == scheduled(run.plan.cfg)
            * run.plan.cfg.subscribers,
        run.tally.delivered == plus(0, scheduled(run.plan.cfg) * run.plan.cfg.subscribers),
{
    lemma_all_taken(run, run.plan.cfg.logs as int);
    finished_logs_hold_every_append(run.books);
}

/// A run is not over before all it planned went out and was acknowledged, and
/// every stream has seen the end of its log.
pub proof fn runs_end_with_everything_in(run: RunView)
    requires
        run.wf(),
        run.complete(),
    ensures
        run.tally.scheduled == scheduled(run.plan.cfg),
        run.tally.acknowledged == scheduled(run.plan.cfg),
        forall|id: u64| #[trigger]
            run.books.streams.contains_key(id) ==> run.books.caught_up(id),
{
}

// ---------------------------------------------------------------------
// What a run counts.

/// Something that happened to a run and went well.
pub enum Heard {
    /// An append went out.
    Issued,
    Ack { peer: usize, arrived: u64, id: u64, versions: Seq<u64>, synced: u64 },
    Records { peer: usize, arrived: u64, id: u64, records: Seq<Record>, grant: u32 },
    /// The server was seen to hold so many bytes.
    Rss(u64),
}

/// One thing that happened leads from one state to the next.
pub open spec fn leads(before: RunView, heard: Heard, after: RunView) -> bool {
    match heard {
        Heard::Issued => after == before.issuing(),
        Heard::Ack { peer, arrived, id, versions, synced } => on_ack(
            before,
            after,
            peer,
            arrived,
            id,
            versions,
            synced,
            Ok(None),
        ),
        Heard::Records { peer, arrived, id, records, grant } => on_records(
            before,
            after,
            peer,
            arrived,
            id,
            records,
            Ok(Some((peer, Request::Credit { id, grant }))),
        ),
        Heard::Rss(rss) => after == before.seeing(rss),
    }
}

/// A run from where its window begins: nothing is counted yet, and each thing
/// that happens leads from one state to the next.
pub open spec fn ran(states: Seq<RunView>, heard: Seq<Heard>) -> bool {
    &&& states.len() == heard.len() + 1
    &&& states[0].tally == Tally::blank()
    &&& forall|i: int|
        0 <= i < heard.len() ==> leads(states[i], #[trigger] heard[i], states[i + 1])
}

/// The records that arrived before `end`, over all frames.
pub open spec fn records_before(heard: Seq<Heard>, end: int) -> nat
    decreases heard.len(),
{
    if heard.len() == 0 {
        0
    } else {
        records_before(heard.drop_last(), end) + match heard.last() {
            Heard::Records { arrived, records, .. } => if arrived < end {
                records.len()
            } else {
                0
            },
            _ => 0,
        }
    }
}

/// The acknowledgements that arrived before `end`.
pub open spec fn acks_before(heard: Seq<Heard>, end: int) -> nat
    decreases heard.len(),
{
    if heard.len() == 0 {
        0
    } else {
        acks_before(heard.drop_last(), end) + match heard.last() {
            Heard::Ack { arrived, .. } => if arrived < end {
                1nat
            } else {
                0
            },
            _ => 0,
        }
    }
}

/// The appends that went out.
pub open spec fn appends_out(heard: Seq<Heard>) -> nat
    decreases heard.len(),
{
    if heard.len() == 0 {
        0
    } else {
        appends_out(heard.drop_last()) + if heard.last() is Issued {
            1nat
        } else {
            0
        }
    }
}

/// In every state that a run comes to, it has counted what happened: as
/// deliveries all records of all frames, and as deliveries in the window those
/// that arrived before its end; as acknowledgements all that came, and in the
/// window those that came before its end; as scheduled all appends that went
/// out; and as the peak the most memory that was seen.
pub proof fn runs_count_what_happened(states: Seq<RunView>, heard: Seq<Heard>)
    requires
        ran(states, heard),
        forall|i: int| 0 <= i < states.len() ==> (#[trigger] states[i]).wf(),
    ensures
        ({
            let (first, run) = (states[0], states.last());
            let end = first.start + first.plan.cfg.duration;
            &&& run.start == first.start && run.plan == first.plan
            &&& run.tally.delivered == plus(0, records_before(heard, u64::MAX + 1) as int)
            &&& run.tally.in_window_deliveries == plus(0, records_before(heard, end) as int)
            &&& run.tally.acknowledged == acks_before(heard, u64::MAX + 1)
            &&& run.tally.in_window_acks == plus(0, acks_before(heard, end) as int)
            &&& run.tally.scheduled == appends_out(heard)
            &&& forall|i: int|
                0 <= i < heard.len() && (#[trigger] heard[i]) is Rss ==> heard[i]->Rss_0
                    <= run.tally.rss_peak
            &&& run.tally.rss_peak == 0 || exists|i: int|
                0 <= i < heard.len() && (#[trigger] heard[i]) == Heard::Rss(run.tally.rss_peak)
            &&& run.tally.elapsed == 0 && run.tally.tx_bytes == 0 && run.tally.rx_bytes == 0
        }),
    decreases heard.len(),
{
    let n = heard.len() as int;
    if n > 0 {
        let less = heard.drop_last();
        let past = states.drop_last();
        assert forall|i: int| 0 <= i < less.len() implies leads(
            past[i],
            #[trigger] less[i],
            past[i + 1],
        ) by {
            assert(less[i] == heard[i]);
            assert(leads(states[i], heard[i], states[i + 1]));
        }
        assert forall|i: int| 0 <= i < past.len() implies (#[trigger] past[i]).wf() by {
            assert(states[i].wf());
        }
        runs_count_what_happened(past, less);
        let (before, run) = (past.last(), states.last());
        assert(states[n - 1] == before && states[n] == run);
        assert(leads(states[n - 1], heard[n - 1], states[n]));
        assert(before.wf() && run.wf());
        assert forall|i: int| 0 <= i < n && (#[trigger] heard[i]) is Rss implies heard[i]->Rss_0
            <= run.tally.rss_peak by {
            if i < n - 1 {
                assert(less[i] == heard[i]);
            }
        }
        if run.tally.rss_peak != 0 {
            if run.tally.rss_peak == before.tally.rss_peak {
                let i = choose|i: int|
                    0 <= i < less.len() && (#[trigger] less[i]) == Heard::Rss(
                        before.tally.rss_peak,
                    );
                assert(heard[i] == Heard::Rss(run.tally.rss_peak));
            } else {
                assert(heard[n - 1] == Heard::Rss(run.tally.rss_peak));
            }
        }
    }
}

proof fn lemma_records_before(heard: Seq<Heard>, end: int)
    requires
        forall|i: int|
            0 <= i < heard.len() ==> ((#[trigger] heard[i]) matches Heard::Records { arrived, .. }
                ==> arrived < end),
    ensures
        records_before(heard, end) == records_before(heard, u64::MAX + 1),
    decreases heard.len(),
{
    if heard.len() > 0 {
        let less = heard.drop_last();
        assert forall|i: int| 0 <= i < less.len() implies ((#[trigger] less[i]) matches
            Heard::Records { arrived, .. } ==> arrived < end) by {
            assert(less[i] == heard[i]);
        }
        assert(heard[heard.len() - 1] == heard.last());
        lemma_records_before(less, end);
    }
}

/// As long as nothing has arrived after the end of the window, what was delivered
/// in the window is all that was delivered.
pub proof fn windows_hold_what_came_in_time(states: Seq<RunView>, heard: Seq<Heard>)
    requires
        ran(states, heard),
        forall|i: int| 0 <= i < states.len() ==> (#[trigger] states[i]).wf(),
        forall|i: int|
            0 <= i < heard.len() ==> ((#[trigger] heard[i]) matches Heard::Records { arrived, .. }
                ==> arrived < states[0].start + states[0].plan.cfg.duration),
    ensures
        states.last().tally.in_window_deliveries == states.last().tally.delivered,
{
    runs_count_what_happened(states, heard);
    lemma_records_before(heard, states[0].start + states[0].plan.cfg.duration);
}

/// Records are answered with credit for as many as they were, on the connection
/// that they came on, and each record is sampled once.
pub proof fn deliveries_are_counted_and_granted(
    before: RunView,
    after: RunView,
    peer: usize,
    arrived: u64,
    id: u64,
    records: Seq<Record>,
    r: Result<Option<(usize, Request)>, Fault>,
)
    requires
        before.wf(),
        on_records(before, after, peer, arrived, id, records, r),
        r is Ok,
    ensures
        r->Ok_0 == Some((peer, Request::Credit { id, grant: records.len() as u32 })),
        before.plan.stream_peer(id) == Some(peer),
        after.tally.delivered == plus(before.tally.delivered, records.len() as int),
        arrived < before.start + before.plan.cfg.duration ==> after.tally.in_window_deliveries
            == plus(before.tally.in_window_deliveries, records.len() as int),
        arrived >= before.start + before.plan.cfg.duration ==> after.tally.in_window_deliveries
            == before.tally.in_window_deliveries,
        after.tally.in_window_acks == before.tally.in_window_acks,
        after.tally.acknowledged == before.tally.acknowledged,
        after.tally.scheduled == before.tally.scheduled,
        after.pending == before.pending,
        after.sent == before.sent,
        before.tally.delivery.len() + records.len() < u64::MAX ==> after.tally.delivery.len()
            == before.tally.delivery.len() + records.len(),
{
    lemma_deliver(before.books, id, records);
    lemma_sampled(
        before.tally.delivery,
        before.books.deliver(id, records).1->Ok_0,
        arrived,
    );
}

/// An acknowledgement is taken from the connection that its append went out on,
/// for an append that is still waited for and is then waited for no longer; its
/// latency is sampled once, from the moment that the append was due.
pub proof fn acknowledgements_are_counted_once(
    before: RunView,
    after: RunView,
    peer: usize,
    arrived: u64,
    id: u64,
    versions: Seq<u64>,
    synced: u64,
    r: Result<Option<(usize, Request)>, Fault>,
)
    requires
        before.wf(),
        on_ack(before, after, peer, arrived, id, versions, synced, r),
        r is Ok,
    ensures
        r->Ok_0 is None,
        id >= APPEND_BASE,
        versions.len() == 1,
        before.pending.contains((id - APPEND_BASE) as u64),
        !after.pending.contains((id - APPEND_BASE) as u64),
        forall|other: u64|
            other != id - APPEND_BASE ==> (#[trigger] after.pending.contains(other)
                <==> before.pending.contains(other)),
        after.tally.acknowledged == before.tally.acknowledged + 1,
        arrived < before.start + before.plan.cfg.duration ==> after.tally.in_window_acks == plus(
            before.tally.in_window_acks,
            1,
        ),
        arrived >= before.start + before.plan.cfg.duration ==> after.tally.in_window_acks
            == before.tally.in_window_acks,
        after.tally.delivered == before.tally.delivered,
        after.tally.in_window_deliveries == before.tally.in_window_deliveries,
        before.tally.append.len() < u64::MAX ==> after.tally.append.len()
            == before.tally.append.len() + 1,
{
    lemma_count_acked(before.books.issued);
}

/// Appends go round the lanes: each goes to the log and the connection of its
/// lane, which the append one round later has too, every log has as many lanes as
/// the next, and each goes out at the moment that the schedule says.
pub proof fn appends_go_round_the_lanes(run: RunView, sequence: u64)
    requires
        run.wf(),
        sequence + run.plan.lanes() <= u64::MAX,
    ensures
        run.plan.log_of((sequence + run.plan.lanes()) as u64) == run.plan.log_of(sequence),
        run.plan.append_peer((sequence + run.plan.lanes()) as u64) == run.plan.append_peer(
            sequence,
        ),
        0 <= run.plan.append_peer(sequence) < run.plan.peers,
        run.plan.log_of(sequence) * run.plan.cfg.appenders <= sequence as int
            % run.plan.lanes() < (run.plan.log_of(sequence) + 1) * run.plan.cfg.appenders,
        run.issuing().sent == run.sent + 1 || run.sent == u64::MAX,
        run.issuing().pending == run.pending.insert(run.sent),
        run.issuing().books.issued.len() == run.books.issued.len() + 1,
        run.issuing().books.issued.last().log == run.plan.log_of(run.sent) as usize,
        run.issuing().books.issued.last().intended == (run.start + due(
            run.sent,
            run.plan.cfg.rate,
        )) as u64,
        run.issuing().books.issued.last().ack is None,
        run.issuing().books.streams == run.books.streams,
        run.issuing().tally.acknowledged == run.tally.acknowledged,
{
    lemma_log_of(run.plan, sequence);
    let lanes = run.plan.lanes();
    vstd::arithmetic::div_mod::lemma_mod_add_multiples_vanish(sequence as int, lanes);
    let (lane, a) = (run.plan.lane(sequence), run.plan.cfg.appenders as int);
    vstd::arithmetic::div_mod::lemma_fundamental_div_mod(lane, a);
    let q = lane / a;
    assert(q * a <= lane < (q + 1) * a) by (nonlinear_arith)
        requires
            lane == a * q + lane % a,
            0 <= lane % a < a,
    ;
    vstd::arithmetic::div_mod::lemma_mod_bound(lane, run.plan.peers as int);
}

/// Every log has the same number of streams, one after another, and the books
/// open with each of them at the beginning of its log and with its full credit.
pub proof fn streams_are_opened_log_by_log(plan: Plan, id: u64)
    requires
        plan.wf(),
        1 <= id <= plan.streams(),
    ensures
        plan.stream_log(id) * plan.cfg.subscribers < id <= (plan.stream_log(id) + 1)
            * plan.cfg.subscribers,
        plan.opening().streams.contains_key(id),
        plan.opening().streams[id].log == plan.stream_log(id),
        plan.opening().streams[id].next == 1,
        plan.opening().streams[id].credit == CREDIT,
        plan.subscriptions().len() == plan.streams(),
        plan.subscriptions()[id - 1].0 < plan.peers,
        plan.subscriptions()[id - 1].1 == (Request::Subscribe {
            id,
            log: plan.names@[plan.stream_log(id)],
            from: 0,
            mode: Mode::Records,
            credit: CREDIT,
        }),
        plan.stream_peer(id) == Some(plan.subscriptions()[id - 1].0),
{
    lemma_stream_log(plan, id);
    let (k, s) = (id - 1, plan.cfg.subscribers as int);
    vstd::arithmetic::div_mod::lemma_fundamental_div_mod(k, s);
    let q = k / s;
    assert(q * s < id <= (q + 1) * s) by (nonlinear_arith)
        requires
            k == s * q + k % s,
            0 <= k % s < s,
            k == id - 1,
    ;
    vstd::arithmetic::div_mod::lemma_mod_bound(plan.lanes() + id - 1, plan.peers as int);
}

/// A load goes on while there are appends to send, each at the moment it is due;
/// then it waits for what is out, then for the end of its window, and only then is
/// it over.
pub proof fn loads_wait_for_everything(run: RunView, now: u64)
    requires
        run.wf(),
    ensures
        run.waiting(now) is Finished ==> run.sent == scheduled(run.plan.cfg) && run.books.acked
            == run.sent && now >= run.start + run.plan.cfg.duration,
        run.sent < scheduled(run.plan.cfg) ==> run.waiting(now) is Due && run.waiting(now)->Due_0
            == (run.start + due(run.sent, run.plan.cfg.rate)) as u64,
        run.waiting(now) is End ==> run.waiting(now)->End_0 == run.start + run.plan.cfg.duration
            && now < run.start + run.plan.cfg.duration,
        run.sent == scheduled(run.plan.cfg) && run.books.acked < run.sent ==> run.waiting(now)
            is Drain,
        run.sent == scheduled(run.plan.cfg) && !run.books.all_caught_up() ==> run.waiting(now)
            is Drain,
{
}

/// An append goes out exactly while fewer are out than may be, carrying its own
/// number, to its own log, on its own connection; and where it does not, nothing
/// changes.
pub proof fn appends_go_out_below_the_limit(
    before: RunView,
    after: RunView,
    r: Result<(usize, Request), Fault>,
)
    requires
        before.wf(),
        before.sent < scheduled(before.plan.cfg),
        issued(before, after, r),
    ensures
        r is Ok <==> before.pending.len() < before.plan.cfg.max_inflight,
        r is Err ==> after == before && r->Err_0 is Overload && r->Err_0->limit
            == before.plan.cfg.max_inflight,
        r is Ok ==> {
            let request = (r->Ok_0).1;
            &&& (r->Ok_0).0 == before.plan.append_peer(before.sent)
            &&& request is Append && request->Append_id == 0x1_0000_0000 + before.sent
            &&& request->Append_log == before.plan.names@[before.plan.log_of(before.sent)]
            &&& request->durability == before.plan.cfg.durability
            &&& request->patches@.len() == 1 && request->patches@[0]@ is Text
            &&& super::check::reading(
                request->patches@[0]@->Text_0,
                before.plan.cfg.patch_size as nat,
            ) == super::check::Reading::Sequence(before.sent)
            &&& after.sent == before.sent + 1
            &&& after.pending.contains(before.sent)
        },
{
    super::check::payloads_read_back(before.sent, before.plan.cfg.patch_size as nat);
}

/// An acknowledgement goes through exactly where it answers an append that is out,
/// on that append's connection, with one version that the books accept, and did not
/// come before the append was due. What is wrong otherwise is said.
pub proof fn acknowledgements_go_through_where_they_fit(
    before: RunView,
    after: RunView,
    peer: usize,
    arrived: u64,
    id: u64,
    versions: Seq<u64>,
    synced: u64,
    r: Result<Option<(usize, Request)>, Fault>,
)
    requires
        before.wf(),
        on_ack(before, after, peer, arrived, id, versions, synced, r),
    ensures
        ({
            let sequence = (id - APPEND_BASE) as u64;
            let entered = before.books.acknowledge(sequence, versions[0], synced);
            &&& r is Ok <==> {
                &&& id >= APPEND_BASE
                &&& peer == before.plan.append_peer(sequence)
                &&& before.pending.contains(sequence)
                &&& versions.len() == 1
                &&& entered.1 is Ok
                &&& entered.1->Ok_0 <= arrived
            }
            &&& r is Ok ==> after.books == entered.0
            &&& id < APPEND_BASE ==> r->Err_0 == (Fault::UnknownAppend { id })
            &&& id >= APPEND_BASE && peer == before.plan.append_peer(sequence)
                && !before.pending.contains(sequence) ==> r->Err_0 == (Fault::DuplicateAck { id })
            &&& id >= APPEND_BASE && peer != before.plan.append_peer(sequence) ==> r->Err_0
                is AckPeer
        }),
{
}

/// Records go through exactly where they come on a stream of the load, on that
/// stream's connection, no more of them than can be granted, as the books accept
/// them, and none before it was due.
pub proof fn records_go_through_where_they_fit(
    before: RunView,
    after: RunView,
    peer: usize,
    arrived: u64,
    id: u64,
    records: Seq<Record>,
    r: Result<Option<(usize, Request)>, Fault>,
)
    requires
        before.wf(),
        on_records(before, after, peer, arrived, id, records, r),
    ensures
        ({
            let entered = before.books.deliver(id, records);
            &&& r is Ok <==> {
                &&& id != STALLED
                &&& 1 <= id <= before.plan.streams()
                &&& before.plan.stream_peer(id) == Some(peer)
                &&& records.len() <= u32::MAX
                &&& entered.1 is Ok
                &&& forall|i: int|
                    0 <= i < entered.1->Ok_0.len() ==> #[trigger] entered.1->Ok_0[i] <= arrived
            }
            &&& id == STALLED ==> r->Err_0 is ZeroCredit
            &&& id != STALLED && before.plan.stream_peer(id) != Some(peer) ==> r->Err_0 == (
            Fault::StreamPeer { id, observed: peer })
            &&& r is Ok ==> after.books.order == entered.0.order && after.books.issued
                == entered.0.issued
        }),
{
    if before.books.deliver(id, records).1 is Ok {
        let times = before.books.deliver(id, records).1->Ok_0;
        if early(times, arrived) {
            let i = choose|i: int| 0 <= i < times.len() && arrived < #[trigger] times[i];
            assert(!(times[i] <= arrived));
        }
        if before.plan.stream_peer(id) is Some {
            assert(before.books.streams.contains_key(id));
        }
    }
}

/// What is sampled of a record is how long after its append was due it arrived, in
/// microseconds; the records of two frames are sampled as those of one are.
pub proof fn latencies_run_from_when_appends_were_due(
    samples: Multiset<u64>,
    first: Seq<u64>,
    second: Seq<u64>,
    arrived: u64,
)
    ensures
        sampled(samples, first + second, arrived) == sampled(
            sampled(samples, first, arrived),
            second,
            arrived,
        ),
        first.len() == 1 ==> sampled(samples, first, arrived) == samples.insert(
            bucket(micros(arrived - first[0]) as u64),
        ),
        first.len() == 0 ==> sampled(samples, first, arrived) == samples,
    decreases second.len(),
{
    let all = first + second;
    if first.len() == 1 {
        reveal_with_fuel(sampled, 2);
        assert(first.drop_last() =~= Seq::empty());
        assert(first.last() == first[0]);
    }
    if second.len() == 0 {
        assert(all =~= first);
    } else {
        assert(all.drop_last() =~= first + second.drop_last());
        assert(all.last() == second.last());
        latencies_run_from_when_appends_were_due(samples, first, second.drop_last(), arrived);
    }
}

/// Only acknowledgements and records move a load; pongs and bare acknowledgements
/// are passed over, and a gap, or anything else, fails it.
pub proof fn loads_take_what_they_asked_for(
    before: RunView,
    after: RunView,
    peer: usize,
    arrived: u64,
    response: Response,
    r: Result<Option<(usize, Request)>, Fault>,
)
    requires
        on_frame(before, after, peer, arrived, response, r),
    ensures
        response is Pong || response is Accepted ==> r is Ok && r->Ok_0 is None && after == before,
        response is Gap ==> r is Err && r->Err_0 == (Fault::Gap {
            id: response->Gap_id,
            from: response->from,
            to: response->to,
        }),
        response is Welcome || response is View || response is Logs || response is End || response
            is Error ==> r is Err && r->Err_0 == (Fault::Load { reply: response }),
        r is Ok && r->Ok_0 is Some ==> response is Records,
{
}

} // verus!
