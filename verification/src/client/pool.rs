//! A pool of connections, each kept alive by its own supervisor.

use super::config::{delays_grow_to_the_maximum, Backoff};
use vstd::prelude::*;

verus! {

/// `i` is the first of the slots that are up with the least load.
pub open spec fn least_loaded(slots: Seq<Option<usize>>, i: int) -> bool {
    &&& 0 <= i < slots.len()
    &&& slots[i] is Some
    &&& forall|j: int|
        0 <= j < slots.len() && (#[trigger] slots[j]) is Some ==> slots[i]->0 <= slots[j]->0
    &&& forall|j: int| 0 <= j < i && (#[trigger] slots[j]) is Some ==> slots[i]->0 < slots[j]->0
}

pub open spec fn picked(slots: Seq<Option<usize>>, r: Option<usize>) -> bool {
    match r {
        Some(i) => least_loaded(slots, i as int),
        None => forall|j: int| 0 <= j < slots.len() ==> (#[trigger] slots[j]) is None,
    }
}

/// The least loaded live connection, or `None` if every slot is down. A slot
/// is what it carries, or `None` while it is down.
///
/// Least-loaded rather than round-robin because one slow exchange must not
/// keep drawing its share of new work.
pub fn pick(slots: &Vec<Option<usize>>) -> (r: Option<usize>)
    ensures
        picked(slots@, r),
{
    let mut best: Option<usize> = None;
    let mut i: usize = 0;
    while i < slots.len()
        invariant
            i <= slots@.len(),
            match best {
                Some(b) => {
                    &&& b < i
                    &&& slots@[b as int] is Some
                    &&& forall|j: int|
                        0 <= j < i && (#[trigger] slots@[j]) is Some ==> slots@[b as int]->0
                            <= slots@[j]->0
                    &&& forall|j: int|
                        0 <= j < b && (#[trigger] slots@[j]) is Some ==> slots@[b as int]->0
                            < slots@[j]->0
                },
                None => forall|j: int| 0 <= j < i ==> (#[trigger] slots@[j]) is None,
            },
        decreases slots@.len() - i,
    {
        match slots[i] {
            None => {},
            Some(load) => {
                let better = match best {
                    None => true,
                    Some(b) => match slots[b] {
                        Some(seen) => load < seen,
                        None => true,
                    },
                };
                if better {
                    best = Some(i);
                }
            },
        }
        i += 1;
    }
    best
}

/// What a supervisor does next.
#[derive(Clone, Copy, Debug, PartialEq, Eq, Structural)]
pub enum Next {
    /// Dial and greet.
    Dial,
    /// Publish the connection and serve it until it dies.
    Serve,
    /// Say that the slot is down and wait so many nanoseconds before dialling
    /// again.
    Wait(u64),
    /// Say that the slot is down, for good.
    Stop,
}

/// What happened to a supervisor.
#[derive(Clone, Copy, Debug, PartialEq, Eq, Structural)]
pub enum Happened {
    Connected,
    /// Nobody is left to serve.
    Unwanted,
    ConnectFailed,
    ConnectionDied,
    Waited,
}

/// Keeps one slot connected: dial, greet, serve, and on death back off and
/// dial again, until the hub is closed.
#[derive(Clone, Copy, Debug, PartialEq, Eq, Structural)]
pub struct Supervisor {
    pub backoff: Backoff,
    /// What the next failure waits, in nanoseconds.
    pub delay: u64,
}

impl Supervisor {
    pub fn new(backoff: Backoff) -> (r: Self)
        ensures
            r == (Supervisor { backoff, delay: backoff.min }),
    {
        Supervisor { backoff, delay: backoff.min }
    }

    /// What is left of a supervisor, and the next step.
    pub open spec fn supervised(self, happened: Happened, closed: bool) -> (Supervisor, Next) {
        match happened {
            Happened::Connected => (
                Supervisor { delay: self.backoff.min, ..self },
                Next::Serve,
            ),
            Happened::Unwanted => (self, Next::Stop),
            Happened::ConnectFailed => (
                Supervisor { delay: self.backoff.doubled(self.delay as int) as u64, ..self },
                Next::Wait(self.delay),
            ),
            _ => (
                self,
                if closed {
                    Next::Stop
                } else {
                    Next::Dial
                },
            ),
        }
    }

    /// The next step, given what happened and whether the hub was closed.
    pub fn next(&mut self, happened: Happened, closed: bool) -> (r: Next)
        ensures
            (*final(self), r) == old(self).supervised(happened, closed),
    {
        match happened {
            Happened::Connected => {
                self.delay = self.backoff.min;
                Next::Serve
            },
            Happened::Unwanted => Next::Stop,
            Happened::ConnectFailed => {
                let wait = self.delay;
                self.delay = self.backoff.next(self.delay);
                Next::Wait(wait)
            },
            Happened::ConnectionDied | Happened::Waited => {
                if closed {
                    Next::Stop
                } else {
                    Next::Dial
                }
            },
        }
    }
}

/// What waiting for a usable connection comes to: the one to use, an end to
/// waiting, or more of it.
#[derive(Clone, Copy, Debug, PartialEq, Eq, Structural)]
pub enum Acquired {
    Slot(usize),
    Closed,
    Wait,
}

pub open spec fn acquired(slots: Seq<Option<usize>>, closed: bool, r: Acquired) -> bool {
    match r {
        Acquired::Slot(i) => least_loaded(slots, i as int),
        Acquired::Closed => closed && forall|j: int|
            0 <= j < slots.len() ==> (#[trigger] slots[j]) is None,
        Acquired::Wait => !closed && forall|j: int|
            0 <= j < slots.len() ==> (#[trigger] slots[j]) is None,
    }
}

/// A connection that is up is used even by a hub that was closed; one that is
/// not is waited for only while more may come.
pub fn acquire(slots: &Vec<Option<usize>>, closed: bool) -> (r: Acquired)
    ensures
        acquired(slots@, closed, r),
{
    match pick(slots) {
        Some(i) => Acquired::Slot(i),
        None => if closed {
            Acquired::Closed
        } else {
            Acquired::Wait
        },
    }
}

/// What a supervisor is after so many failed dials in a row.
pub open spec fn failing(start: Supervisor, failures: nat) -> Supervisor
    decreases failures,
{
    if failures == 0 {
        start
    } else {
        failing(start, (failures - 1) as nat).supervised(Happened::ConnectFailed, false).0
    }
}

/// A slot is dialled again after every failure and every death, until the hub is
/// closed: failures in a row wait longer and longer, from the minimum on, and a
/// connection that was made begins the count anew.
pub proof fn slots_are_dialled_again(backoff: Backoff, failures: nat, closed: bool)
    requires
        backoff.min <= backoff.max,
    ensures
        ({
            let start = Supervisor { backoff, delay: backoff.min };
            let now = failing(start, failures);
            &&& now.backoff == backoff
            &&& now.supervised(Happened::ConnectFailed, closed).1 == Next::Wait(
                backoff.delay(failures) as u64,
            )
            &&& now.supervised(Happened::Connected, closed) == (start, Next::Serve)
            &&& now.supervised(Happened::Waited, false) == (now, Next::Dial)
            &&& now.supervised(Happened::ConnectionDied, false) == (now, Next::Dial)
            &&& now.supervised(Happened::Waited, true).1 == Next::Stop
            &&& now.supervised(Happened::ConnectionDied, true).1 == Next::Stop
            &&& now.supervised(Happened::Unwanted, closed).1 == Next::Stop
        }),
    decreases failures,
{
    if failures > 0 {
        slots_are_dialled_again(backoff, (failures - 1) as nat, closed);
        delays_grow_to_the_maximum(backoff, (failures - 1) as nat);
    }
}

/// Where a connection is up one is picked, none that is up carries less than it,
/// and of those that carry as little it is the first. A hub waits only while all
/// are down and it is open.
pub proof fn the_least_loaded_connection_is_picked(
    slots: Seq<Option<usize>>,
    closed: bool,
    r: Option<usize>,
    a: Acquired,
    up: int,
)
    requires
        picked(slots, r),
        acquired(slots, closed, a),
        slots.len() <= usize::MAX,
    ensures
        0 <= up < slots.len() && slots[up] is Some ==> {
            &&& r is Some && a == Acquired::Slot(r->0)
            &&& r->0 < slots.len() && slots[r->0 as int] is Some
            &&& slots[r->0 as int]->0 <= slots[up]->0
            &&& slots[r->0 as int]->0 == slots[up]->0 ==> r->0 <= up
        },
        (forall|j: int| 0 <= j < slots.len() ==> (#[trigger] slots[j]) is None) ==> r is None && a
            == if closed {
            Acquired::Closed
        } else {
            Acquired::Wait
        },
{
    if 0 <= up < slots.len() && slots[up] is Some {
        let i = r->0 as int;
        assert(slots[i]->0 <= slots[up]->0);
        if a is Slot {
            let k = a->Slot_0 as int;
            assert(slots[k] is Some && slots[i] is Some);
        }
    }
}

} // verus!
