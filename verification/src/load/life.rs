//! What holds of a ledger over its whole life.

use super::check::{
    finished_runs_account_for_everything, last, reading, Books, Issued, Reading, Stream,
};
use crate::json::JsonView;
use crate::proto::Record;
use vstd::prelude::*;

verus! {

/// What can happen to a ledger.
pub enum Step {
    Issue { log: usize, intended: u64 },
    Acknowledge { sequence: u64, versions: Seq<u64>, synced: u64 },
    Subscribe { id: u64, log: usize, from: u64, credit: u32 },
    Grant { id: u64, credit: u32 },
    Deliver { id: u64, records: Seq<Record> },
    Replay,
}

/// The books after a step.
pub open spec fn after(b: Books, step: Step) -> Books {
    match step {
        Step::Issue { log, intended } => b.issuing(log, intended),
        Step::Acknowledge { sequence, versions, synced } => if versions.len() == 1 {
            b.acknowledge(sequence, versions[0], synced).0
        } else {
            b
        },
        Step::Subscribe { id, log, from, credit } => b.subscribing(id, log, from, credit),
        Step::Grant { id, credit } => if b.streams.contains_key(id) {
            b.granting(id, credit)
        } else {
            b
        },
        Step::Deliver { id, records } => b.deliver(id, records).0,
        Step::Replay => b.forgetting(),
    }
}

/// The books after steps, one after another.
pub open spec fn after_all(b: Books, steps: Seq<Step>) -> Books
    decreases steps.len(),
{
    if steps.len() == 0 {
        b
    } else {
        after(after_all(b, steps.drop_last()), steps.last())
    }
}

/// What steps granted to stream `id`.
pub open spec fn granted(steps: Seq<Step>, id: u64) -> int
    decreases steps.len(),
{
    if steps.len() == 0 {
        0
    } else {
        granted(steps.drop_last(), id) + match steps.last() {
            Step::Grant { id: other, credit } if other == id => credit as int,
            _ => 0,
        }
    }
}

/// Stream `id` goes on through these steps: it is neither opened anew nor
/// forgotten, and its credit can be counted.
pub open spec fn goes_on(b: Books, steps: Seq<Step>, id: u64) -> bool
    decreases steps.len(),
{
    steps.len() == 0 || {
        &&& goes_on(b, steps.drop_last(), id)
        &&& match steps.last() {
            Step::Subscribe { id: other, .. } => other != id,
            Step::Grant { id: other, credit } => other == id ==> after_all(
                b,
                steps.drop_last(),
            ).streams[id].credit + credit <= u64::MAX,
            Step::Replay => false,
            _ => true,
        }
    }
}

proof fn lemma_deliver_spends(b: Books, to: u64, records: Seq<Record>, id: u64)
    requires
        b.streams.contains_key(id),
    ensures
        ({
            let c = b.deliver(to, records).0;
            &&& c.streams.contains_key(id)
            &&& c.streams[id].next + c.streams[id].credit == b.streams[id].next
                + b.streams[id].credit
            &&& c.streams[id].next >= b.streams[id].next
        }),
    decreases records.len(),
{
    if records.len() > 0 {
        lemma_deliver_spends(b, to, records.drop_last(), id);
    }
}

/// Over its life a stream accepts at most its first credit and all that it was
/// granted since, to it and no other: each record that it accepts uses up one
/// unit, and where none is left the next record is refused.
pub proof fn streams_accept_what_they_were_granted(
    b: Books,
    steps: Seq<Step>,
    id: u64,
    version: u64,
    patch: JsonView,
)
    requires
        b.streams.contains_key(id),
        goes_on(b, steps, id),
    ensures
        ({
            let c = after_all(b, steps);
            &&& c.streams.contains_key(id)
            &&& c.streams[id].next >= b.streams[id].next
            &&& (c.streams[id].next - b.streams[id].next) + c.streams[id].credit
                == b.streams[id].credit + granted(steps, id)
            &&& c.streams[id].next - b.streams[id].next == b.streams[id].credit + granted(
                steps,
                id,
            ) ==> c.record(id, version, patch).1 is Err
        }),
    decreases steps.len(),
{
    if steps.len() > 0 {
        let less = steps.drop_last();
        streams_accept_what_they_were_granted(b, less, id, version, patch);
        let before = after_all(b, less);
        match steps.last() {
            Step::Deliver { id: to, records } => {
                lemma_deliver_spends(before, to, records, id);
            },
            _ => {},
        }
    }
}

// ---------------------------------------------------------------------
// Totals.

/// How far the first `n` logs go, all together.
pub open spec fn versions_of(b: Books, n: int) -> int
    decreases n,
{
    if n <= 0 {
        0
    } else {
        versions_of(b, n - 1) + last(b.order[n - 1])
    }
}

/// How many appends went to a log.
spec fn appends_to(issued: Seq<Issued>, log: int) -> nat
    decreases issued.len(),
{
    if issued.len() == 0 {
        0
    } else {
        appends_to(issued.drop_last(), log) + if issued.last().log == log {
            1nat
        } else {
            0
        }
    }
}

spec fn appends_below(issued: Seq<Issued>, n: int) -> int
    decreases n,
{
    if n <= 0 {
        0
    } else {
        appends_below(issued, n - 1) + appends_to(issued, n - 1)
    }
}

proof fn lemma_appends_below(issued: Seq<Issued>, n: int)
    requires
        issued.len() > 0,
        n >= 0,
    ensures
        appends_below(issued, n) == appends_below(issued.drop_last(), n) + if issued.last().log
            < n {
            1int
        } else {
            0
        },
    decreases n,
{
    if n > 0 {
        lemma_appends_below(issued, n - 1);
    }
}

proof fn lemma_every_append_counts(issued: Seq<Issued>, n: int)
    requires
        n >= 0,
        forall|s: int| 0 <= s < issued.len() ==> (#[trigger] issued[s]).log < n,
    ensures
        appends_below(issued, n) == issued.len(),
    decreases issued.len(),
{
    if issued.len() > 0 {
        let less = issued.drop_last();
        assert(forall|s: int| 0 <= s < less.len() ==> less[s] == issued[s]);
        lemma_every_append_counts(less, n);
        lemma_appends_below(issued, n);
        assert(issued[issued.len() - 1].log < n);
    } else {
        lemma_no_appends(issued, n);
    }
}

proof fn lemma_no_appends(issued: Seq<Issued>, n: int)
    requires
        issued.len() == 0,
    ensures
        appends_below(issued, n) == 0,
    decreases n,
{
    if n > 0 {
        lemma_no_appends(issued, n - 1);
    }
}

spec fn sequences_of(issued: Seq<Issued>, log: int) -> Set<int> {
    Set::new(|s: int| 0 <= s < issued.len() && issued[s].log == log)
}

proof fn lemma_sequences(issued: Seq<Issued>, log: int)
    ensures
        sequences_of(issued, log).finite(),
        sequences_of(issued, log).len() == appends_to(issued, log),
    decreases issued.len(),
{
    let all = sequences_of(issued, log);
    if issued.len() == 0 {
        assert(all =~= Set::empty());
    } else {
        let less = issued.drop_last();
        lemma_sequences(less, log);
        let before = sequences_of(less, log);
        let s = issued.len() - 1;
        if issued.last().log == log {
            assert(all =~= before.insert(s));
        } else {
            assert(all =~= before);
        }
    }
}

proof fn lemma_log_holds_its_appends(b: Books, log: int)
    requires
        b.wf(),
        b.consistent(),
        b.finished(),
        0 <= log < b.order.len(),
    ensures
        last(b.order[log]) == appends_to(b.issued, log),
{
    finished_runs_account_for_everything(b);
    let m = b.order[log];
    assert(b.from_one(log));
    let f = |v: u64| m[v] as int;
    let all = sequences_of(b.issued, log);
    assert(vstd::relations::injective_on(f, m.dom())) by {
        assert forall|v: u64, w: u64|
            m.dom().contains(v) && m.dom().contains(w) && #[trigger] f(v) == #[trigger] f(
                w,
            ) implies v == w by {
            assert(m.contains_key(v) && m.contains_key(w));
            assert(b.issued[m[v] as int].observed == Some(v));
            assert(b.issued[m[w] as int].observed == Some(w));
        }
    }
    assert(m.dom().map(f) =~= all) by {
        assert forall|s: int| m.dom().map(f).contains(s) implies all.contains(s) by {
            let v = choose|v: u64| m.dom().contains(v) && f(v) == s;
            assert(m.contains_key(v));
        }
        assert forall|s: int| all.contains(s) implies m.dom().map(f).contains(s) by {
            let v = b.issued[s].ack->0;
            assert(m.contains_key(v) && m[v] == s);
            assert(m.dom().contains(v) && f(v) == s);
        }
    }
    vstd::set_lib::lemma_map_size(m.dom(), all, f);
    lemma_sequences(b.issued, log);
}

proof fn lemma_versions_are_appends(b: Books, n: int)
    requires
        b.wf(),
        b.consistent(),
        b.finished(),
        0 <= n <= b.order.len(),
    ensures
        versions_of(b, n) == appends_below(b.issued, n),
    decreases n,
{
    if n > 0 {
        lemma_versions_are_appends(b, n - 1);
        lemma_log_holds_its_appends(b, n - 1);
    }
}

/// The logs of a finished run go exactly as far, all together, as there were
/// appends.
pub proof fn finished_logs_hold_every_append(b: Books)
    requires
        b.wf(),
        b.consistent(),
        b.finished(),
    ensures
        versions_of(b, b.order.len() as int) == b.issued.len(),
{
    lemma_versions_are_appends(b, b.order.len() as int);
    lemma_every_append_counts(b.issued, b.order.len() as int);
}

// ---------------------------------------------------------------------
// Replays.

/// The books once their streams were forgotten and `id` follows `log` from the
/// start, `taken` records on.
pub open spec fn replaying(b: Books, id: u64, log: usize, credit: u32, taken: int) -> Books {
    Books {
        streams: Map::empty().insert(
            id,
            Stream { log, next: (taken + 1) as u64, credit: (credit - taken) as u64 },
        ),
        ..b
    }
}

/// A record repeats what is known of its log: the version is the one after
/// `taken`, and carries the append bound to it.
pub open spec fn repeats(b: Books, log: usize, taken: int, record: Record) -> bool {
    &&& taken < last(b.order[log as int])
    &&& record.version == taken + 1
    &&& record.patch@ is Text
    &&& reading(record.patch@->Text_0, b.patch_size) == Reading::Sequence(
        b.order[log as int][record.version],
    )
}

proof fn lemma_replay_record(
    b: Books,
    id: u64,
    log: usize,
    credit: u32,
    taken: int,
    record: Record,
)
    requires
        b.wf(),
        b.consistent(),
        b.finished(),
        log < b.order.len(),
        0 <= taken <= credit,
        taken <= last(b.order[log as int]),
    ensures
        ({
            let (c, r) = replaying(b, id, log, credit, taken).record(
                id,
                record.version,
                record.patch@,
            );
            &&& r is Ok <==> repeats(b, log, taken, record) && taken < credit && record.version
                < u64::MAX
            &&& r is Ok ==> c == replaying(b, id, log, credit, taken + 1)
        }),
{
    finished_runs_account_for_everything(b);
    let at = replaying(b, id, log, credit, taken);
    let v = record.version;
    let m = b.order[log as int];
    let moved = Books {
        streams: at.streams.insert(
            id,
            Stream { log, next: (taken + 2) as u64, credit: (credit - taken - 1) as u64 },
        ),
        ..at
    };
    if v == taken + 1 && taken < credit && v < u64::MAX && record.patch@ is Text {
        assert(moved.streams =~= replaying(b, id, log, credit, taken + 1).streams);
        match reading(record.patch@->Text_0, b.patch_size) {
            Reading::Sequence(s) => {
                let (bound, fault) = moved.bind(log as int, v, s);
                if v <= last(m) {
                    assert(m.contains_key(v));
                    if m[v] == s {
                        assert(b.issued[s as int].observed == Some(v));
                        assert(m.insert(v, s) =~= m);
                        assert(b.order.update(log as int, m.insert(v, s)) =~= b.order);
                        let entry = b.issued[s as int];
                        assert(b.issued.update(
                            s as int,
                            Issued { observed: Some(v), ..entry },
                        ) =~= b.issued);
                        assert(bound == moved);
                    }
                } else {
                    assert(!m.contains_key(v));
                    if s < b.issued.len() {
                        let entry = b.issued[s as int];
                        assert(entry.ack is Some && entry.observed == entry.ack);
                    }
                }
            },
            _ => {},
        }
    }
}

/// Once a finished run's streams were forgotten, any stream can be opened
/// again, and one that follows a log from the start has to take exactly what
/// was bound there, version by version. Until it has taken all of it the books
/// are not complete, and then they are finished again. Anything else is
/// refused, and so is anything after that.
pub proof fn replays_repeat_what_was_bound(
    b: Books,
    id: u64,
    log: usize,
    credit: u32,
    records: Seq<Record>,
)
    requires
        b.wf(),
        b.consistent(),
        b.finished(),
        log < b.order.len(),
        last(b.order[log as int]) < u64::MAX,
    ensures
        !after(b, Step::Replay).streams.contains_key(id),
        after(after(b, Step::Replay), Step::Subscribe { id, log, from: 0, credit }) == replaying(
            b,
            id,
            log,
            credit,
            0,
        ),
        ({
            let (c, r) = replaying(b, id, log, credit, 0).deliver(id, records);
            let n = records.len() as int;
            &&& r is Ok <==> n <= credit && forall|i: int|
                0 <= i < n ==> repeats(b, log, i, #[trigger] records[i])
            &&& r is Ok ==> {
                &&& c == replaying(b, id, log, credit, n)
                &&& n <= last(b.order[log as int])
                &&& c.all_caught_up() <==> n == last(b.order[log as int])
                &&& c.finished() <==> n == last(b.order[log as int])
            }
        }),
    decreases records.len(),
{
    let start = replaying(b, id, log, credit, 0);
    let n = records.len() as int;
    assert(after(
        after(b, Step::Replay),
        Step::Subscribe { id, log, from: 0, credit },
    ).streams =~= start.streams);
    if n > 0 {
        let less = records.drop_last();
        replays_repeat_what_was_bound(b, id, log, credit, less);
        assert(records[n - 1] == records.last());
        let (before, seen) = start.deliver(id, less);
        if seen is Ok {
            lemma_replay_record(b, id, log, credit, n - 1, records.last());
            assert forall|i: int| 0 <= i < n - 1 implies repeats(
                b,
                log,
                i,
                #[trigger] records[i],
            ) by {
                assert(less[i] == records[i]);
            }
        } else {
            if n <= credit && (forall|i: int|
                0 <= i < n ==> repeats(b, log, i, #[trigger] records[i])) {
                assert forall|i: int| 0 <= i < n - 1 implies repeats(
                    b,
                    log,
                    i,
                    #[trigger] less[i],
                ) by {
                    assert(less[i] == records[i]);
                }
            }
        }
    }
    let (c, r) = start.deliver(id, records);
    if r is Ok {
        assert(c.streams.contains_key(id));
        assert(c.caught_up(id) <==> n == last(b.order[log as int]));
        assert forall|l: int| 0 <= l < c.order.len() implies #[trigger] c.from_one(l) by {
            assert(b.from_one(l));
        }
    }
}

} // verus!
