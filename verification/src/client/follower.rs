//! The follower: a server-side log, rebuilt and kept live in this process.
//!
//! A follower subscribes in [`Mode::Reducible`], rebuilds a store from the
//! view preamble, and folds every arriving patch into it. It survives the
//! connection dying: it resubscribes from its cursor, takes a fresh view
//! preamble, and carries on, reporting [`Status::Reconnecting`] in between. A
//! gap is recovered the same way, by refetching the view rather than
//! pretending the missing versions never existed.
//!
//! [`Task`] decides all of it. What happened on the stream goes in, what to
//! tell the consumers and what to do next comes out.

use super::config::Backoff;
use super::error::Error;
use super::hub::Subscribe;
use super::view::{self, snapshot_from};
use crate::cavlc::error::Error as StoreError;
use crate::cavlc::format::{
    edited, is_flaw, patch_of, patches_do_what_they_say, snapshot_of, FlawView,
};
use crate::cavlc::mvcc::{Snapshot, SnapshotView, Store};
use crate::cavlc::patch::Patch;
use crate::cavlc::value::{alike_values, to_json_view, ValueView};
use crate::list::backwards;
use crate::proto::{Code, Mode, Record, Response, Version};
use crate::text::{decimal, decimal_text};
use std::sync::Arc;
use vstd::prelude::*;

verus! {

/// How a follower is faring, alongside the view it last managed to build.
#[derive(Debug)]
pub enum Status {
    /// Attached to a stream and folding patches as they arrive.
    Live,
    /// The stream broke. The view is the last good one and a resubscribe is
    /// running; nothing is lost, the view is simply stale.
    Reconnecting,
    /// The server closed the stream. Nothing further will arrive.
    Ended,
    /// Stopped for good, with the reason. The view stays readable.
    Failed(Arc<Error>),
}

impl Clone for Status {
    fn clone(&self) -> (r: Self)
        ensures
            r == *self,
    {
        match self {
            Status::Live => Status::Live,
            Status::Reconnecting => Status::Reconnecting,
            Status::Ended => Status::Ended,
            Status::Failed(e) => Status::Failed(e.clone()),
        }
    }
}

/// Failures compare by what they say, since the errors themselves are not
/// comparable and a UI only ever cares whether the reason changed.
impl PartialEq for Status {
    fn eq(&self, other: &Self) -> (r: bool) {
        match (self, other) {
            (Status::Live, Status::Live) => true,
            (Status::Reconnecting, Status::Reconnecting) => true,
            (Status::Ended, Status::Ended) => true,
            (Status::Failed(a), Status::Failed(b)) => crate::text::same(
                a.message().as_str(),
                b.message().as_str(),
            ),
            _ => false,
        }
    }
}

impl vstd::std_specs::cmp::PartialEqSpecImpl for Status {
    open spec fn obeys_eq_spec() -> bool {
        true
    }

    open spec fn eq_spec(&self, other: &Self) -> bool {
        match (*self, *other) {
            (Status::Live, Status::Live) => true,
            (Status::Reconnecting, Status::Reconnecting) => true,
            (Status::Ended, Status::Ended) => true,
            (Status::Failed(a), Status::Failed(b)) => a.text() == b.text(),
            _ => false,
        }
    }
}

impl Status {
    pub fn is_live(&self) -> (r: bool)
        ensures
            r == (*self is Live),
    {
        matches!(self, Status::Live)
    }

    /// Whether anything more can arrive.
    pub fn is_final(&self) -> (r: bool)
        ensures
            r == (*self is Ended || *self is Failed),
    {
        matches!(self, Status::Ended | Status::Failed(_))
    }
}

/// Everything a renderer needs in one immutable value.
#[derive(Debug)]
pub struct State {
    /// The materialized view, or `None` on a log that is not reducible, where
    /// only the record stream means anything.
    pub snapshot: Option<Snapshot>,
    /// Highest version folded in so far.
    pub version: Version,
    pub status: Status,
}

pub struct StateView {
    pub snapshot: Option<SnapshotView>,
    pub version: Version,
    pub status: Status,
}

impl Clone for State {
    fn clone(&self) -> (r: Self)
        ensures
            r@ == self@,
    {
        State {
            snapshot: match &self.snapshot {
                Some(snapshot) => Some(snapshot.clone()),
                None => None,
            },
            version: self.version,
            status: self.status.clone(),
        }
    }
}

/// What waiting for a version has come to.
#[derive(Debug)]
pub enum Awaited {
    Pending,
    Reached,
    Stopped(Error),
}

/// What waiting for a version comes to.
pub open spec fn waited(state: StateView, version: Version, r: Awaited) -> bool {
    match r {
        Awaited::Reached => state.version >= version,
        Awaited::Stopped(e) => state.version < version && state.status is Failed && e is Protocol
            && e->Protocol_id == 0 && e->Protocol_detail@ == "follower stopped before version "@
            + decimal(version as nat) + ": "@ + state.status->Failed_0.text(),
        Awaited::Pending => state.version < version && !(state.status is Failed),
    }
}

impl State {
    pub open spec fn view(&self) -> StateView {
        StateView {
            snapshot: match self.snapshot {
                Some(snapshot) => Some(snapshot@),
                None => None,
            },
            version: self.version,
            status: self.status,
        }
    }

    /// What a follower shows before its first session.
    pub fn initial() -> (r: Self)
        ensures
            r@ == (StateView { snapshot: None, version: 0, status: Status::Reconnecting }),
    {
        State { snapshot: None, version: 0, status: Status::Reconnecting }
    }

    /// Whether there is a view, not just a stream of records.
    pub fn reducible(&self) -> (r: bool)
        ensures
            r == (self@.snapshot is Some),
    {
        self.snapshot.is_some()
    }

    /// The current view as plain JSON. Costs a walk of the tree, so call it
    /// when the version changes, not once per frame of a render loop.
    pub fn json(&self) -> (r: Option<view::View>)
        ensures
            match r {
                Some(view) => self@.snapshot matches Some(s) && view.version == s.version
                    && view.value@ == to_json_view(s.root),
                None => self@.snapshot is None,
            },
    {
        match &self.snapshot {
            Some(snapshot) => Some(
                view::View { version: snapshot.version(), value: snapshot.root().to_json() },
            ),
            None => None,
        }
    }

    /// Whether the view has folded in `version`. The natural way to read your
    /// own write: append, then wait for the version the ack named.
    pub fn awaited(&self, version: Version) -> (r: Awaited)
        ensures
            waited(self@, version, r),
    {
        if self.version >= version {
            return Awaited::Reached;
        }
        match &self.status {
            Status::Failed(e) => {
                let mut detail = String::from_str("follower stopped before version ");
                detail.append(decimal_text(version).as_str());
                detail.append(": ");
                detail.append(e.message().as_str());
                Awaited::Stopped(Error::Protocol { id: 0, detail })
            },
            _ => Awaited::Pending,
        }
    }
}

/// Something that happened on the stream, for a caller that wants the records
/// themselves rather than just the folded view.
#[derive(Clone, Debug, PartialEq)]
pub enum Event {
    /// One record, in version order.
    Record(Record),
    /// Versions in `(from, to]` are gone from the server's retention. The
    /// view is refetched, so it stays correct; the records are not.
    Gap { from: Version, to: Version },
    /// The view was rebuilt from scratch at this version, after a gap or a
    /// reconnect. Anything a consumer derived from earlier records is stale.
    Reset { version: Version },
    /// Events were dropped because the consumer was not reading them. The
    /// view is unaffected; it is maintained independently of this channel.
    Dropped(u64),
}

/// As many events as records may be in flight, but one at least and 4096 at most.
pub open spec fn room(credit: u32) -> int {
    if credit < 1 {
        1
    } else if credit > 4096 {
        4096
    } else {
        credit as int
    }
}

/// How many events may wait for the consumer.
pub fn backlog(credit: u32) -> (r: usize)
    ensures
        r == room(credit),
{
    if credit < 1 {
        1
    } else if credit > 4096 {
        4096
    } else {
        credit as usize
    }
}

/// The events on their way to a consumer that may not be reading. Never blocks
/// the fold: what does not fit is counted, and the count is sent ahead of the
/// next event that does.
#[derive(Clone, Copy, Debug, PartialEq, Eq, Structural)]
pub struct Outbox {
    pub dropped: u64,
}

impl Outbox {
    /// The notice that is owed, if one is.
    pub open spec fn owed(self) -> Option<Event> {
        if self.dropped > 0 {
            Some(Event::Dropped(self.dropped))
        } else {
            None
        }
    }

    /// After the notice was tried.
    pub open spec fn after_notice(self, sent: bool) -> Outbox {
        Outbox {
            dropped: if sent {
                0
            } else {
                self.dropped
            },
        }
    }

    /// After an event was tried.
    pub open spec fn after_try(self, sent: bool) -> Outbox {
        Outbox {
            dropped: if sent || self.dropped == u64::MAX {
                self.dropped
            } else {
                (self.dropped + 1) as u64
            },
        }
    }

    pub fn new() -> (r: Self)
        ensures
            r.dropped == 0,
    {
        Outbox { dropped: 0 }
    }

    /// What to try to send first.
    pub fn notice(&self) -> (r: Option<Event>)
        ensures
            r == self.owed(),
    {
        if self.dropped > 0 {
            Some(Event::Dropped(self.dropped))
        } else {
            None
        }
    }

    /// The notice was tried.
    pub fn noticed(&mut self, sent: bool)
        ensures
            *final(self) == old(self).after_notice(sent),
    {
        if sent {
            self.dropped = 0;
        }
    }

    /// The event itself was tried.
    pub fn tried(&mut self, sent: bool)
        ensures
            *final(self) == old(self).after_try(sent),
    {
        if !sent {
            self.dropped = self.dropped.saturating_add(1);
        }
    }
}

// ---------------------------------------------------------------------
// What a follower holds, and what a turn makes of it.

/// What a follower holds.
pub struct Held {
    pub cursor: Version,
    pub view: Option<SnapshotView>,
    pub mode: Mode,
    /// Whether what was shown was given up and not replaced yet.
    pub lost: bool,
}

impl Held {
    /// The view is the one at the cursor.
    pub open spec fn wf(self) -> bool {
        self.view matches Some(s) ==> s.version == self.cursor
    }

    /// The subscription to open: on from the cursor, for a view or for records.
    pub open spec fn options(self, credit: u32) -> Subscribe {
        Subscribe { from: self.cursor, mode: self.mode, credit: Some(credit) }
    }

    pub open spec fn state(self, status: Status) -> StateView {
        StateView { snapshot: self.view, version: self.cursor, status }
    }

    pub open spec fn at(self, snapshot: SnapshotView) -> Held {
        Held { cursor: snapshot.version, view: Some(snapshot), ..self }
    }
}

/// Something to tell the consumers, in the order given.
pub enum Act {
    /// Queue an event.
    Emit(Event),
    /// Show this state.
    Show(State),
    /// Wake whoever waits for a version.
    Wake(Version),
}

pub enum ActView {
    Emit(Event),
    Show(StateView),
    Wake(Version),
}

pub open spec fn act_view(act: Act) -> ActView {
    match act {
        Act::Emit(event) => ActView::Emit(event),
        Act::Show(state) => ActView::Show(state@),
        Act::Wake(version) => ActView::Wake(version),
    }
}

pub open spec fn acts_view(acts: Seq<Act>) -> Seq<ActView> {
    Seq::new(acts.len(), |i: int| act_view(acts[i]))
}

/// A state is shown, and only then its version wakes anyone: who is woken can
/// see what the version stands for.
pub open spec fn published(state: StateView) -> Seq<ActView> {
    seq![ActView::Show(state), ActView::Wake(state.version)]
}

/// What waiting for the next frame of the subscription came to.
pub enum Seen {
    /// The stream ended cleanly; a broken connection is a fault instead.
    End,
    Fault(Error),
    Frame(Response),
}

/// What to do next.
pub enum Next {
    /// Wait for the next frame.
    Continue,
    /// Resubscribe now, without backing off: this was our decision, not a
    /// failure.
    Restart,
    /// The server closed the stream.
    Ended,
    Failed(Error),
    /// Versions in `(from, floor]` are gone: read the current view, which must
    /// be at `floor` or above.
    Read { from: Version, floor: Version },
}

/// Why a session failed.
pub enum Why {
    Given(Error),
    /// The record of this version is not a patch, and why.
    NoPatch(Version, Seq<char>),
    /// The patch does not fold.
    Flawed(FlawView),
    /// The view is not an object.
    NoObject,
    /// The patch folded to another version than its record's.
    Folded { to: Version, said: Version },
}

pub open spec fn is_why(e: Error, why: Why) -> bool {
    match why {
        Why::Given(given) => e == given,
        Why::NoPatch(version, reason) => e is Protocol && e->Protocol_id == 0
            && e->Protocol_detail@ == "version "@ + decimal(version as nat) + " is not a patch: "@
            + reason,
        Why::Flawed(flaw) => e is View && is_flaw(e->View_0, flaw),
        Why::NoObject => e == Error::View(StoreError::RootMustBeObject),
        Why::Folded { to, said } => e is Protocol && e->Protocol_id == 0 && e->Protocol_detail@
            == "folded to version "@ + decimal(to as nat) + " but the record says "@ + decimal(
            said as nat,
        ),
    }
}

pub enum NextView {
    Continue,
    Restart,
    Ended,
    Failed(Why),
    Read { from: Version, floor: Version },
}

pub open spec fn is_next(next: Next, view: NextView) -> bool {
    match (next, view) {
        (Next::Continue, NextView::Continue) => true,
        (Next::Restart, NextView::Restart) => true,
        (Next::Ended, NextView::Ended) => true,
        (Next::Failed(e), NextView::Failed(why)) => is_why(e, why),
        (Next::Read { from, floor }, NextView::Read { from: a, floor: b }) => from == a && floor
            == b,
        _ => false,
    }
}

pub struct Turn {
    pub held: Held,
    pub acts: Seq<ActView>,
    pub next: NextView,
}

/// One more record, where nothing stopped the batch before it.
pub open spec fn with_record(turn: Turn, record: Record) -> Turn {
    let held = turn.held;
    let told = turn.acts.push(ActView::Emit(Event::Record(record)));
    if record.version <= held.cursor {
        // A replay of what is folded already, which a resubscribe from a
        // cursor that the server rounded down can produce.
        turn
    } else if record.version != held.cursor + 1 {
        // Versions are contiguous by contract, so a jump means that something
        // is missing, which nothing must be folded on top of.
        if held.mode == Mode::Reducible {
            Turn {
                next: NextView::Read { from: held.cursor, floor: (record.version - 1) as Version },
                ..turn
            }
        } else {
            let gap = Event::Gap { from: held.cursor, to: (record.version - 1) as Version };
            Turn {
                held: Held { cursor: record.version, view: None, ..held },
                acts: turn.acts.push(ActView::Emit(gap)).push(ActView::Emit(Event::Record(record))),
                next: NextView::Continue,
            }
        }
    } else {
        match held.view {
            None => Turn {
                held: Held { cursor: record.version, ..held },
                acts: told,
                next: NextView::Continue,
            },
            Some(snapshot) => match patch_of(record.patch@) {
                Err(reason) => Turn {
                    next: NextView::Failed(Why::NoPatch(record.version, reason)),
                    ..turn
                },
                Ok(patch) => match edited(patch, snapshot.root) {
                    Err(flaw) => Turn { next: NextView::Failed(Why::Flawed(flaw)), ..turn },
                    Ok(root) => if alike_values(root, snapshot.root) {
                        Turn {
                            next: NextView::Failed(
                                Why::Folded { to: snapshot.version, said: record.version },
                            ),
                            ..turn
                        }
                    } else {
                        Turn {
                            held: held.at(SnapshotView { version: record.version, root }),
                            acts: told,
                            next: NextView::Continue,
                        }
                    },
                },
            },
        }
    }
}

/// A pushed batch, up to what stops it.
pub open spec fn folded(held: Held, records: Seq<Record>) -> Turn
    decreases records.len(),
{
    if records.len() == 0 {
        Turn { held, acts: Seq::empty(), next: NextView::Continue }
    } else {
        let before = folded(held, records.drop_last());
        if before.next is Continue {
            with_record(before, records.last())
        } else {
            before
        }
    }
}

/// Rebuilt from a view that the server sent. It is authoritative: it replaces
/// whatever was held, and the cursor moves to its version. Where it replaces
/// something, it is told as rebuilt once it can be seen.
pub open spec fn adopted(
    held: Held,
    before: Seq<ActView>,
    snapshot: SnapshotView,
    rebuilt: bool,
) -> Turn {
    let shown = before + published(held.at(snapshot).state(Status::Live));
    Turn {
        held: Held { lost: false, ..held.at(snapshot) },
        acts: if rebuilt {
            shown.push(reset(snapshot.version))
        } else {
            shown
        },
        next: NextView::Continue,
    }
}

pub open spec fn reset(version: Version) -> ActView {
    ActView::Emit(Event::Reset { version })
}

/// What a follower makes of what it sees on its subscription.
pub open spec fn turn(held: Held, seen: Seen) -> Turn {
    match seen {
        Seen::End => Turn { held, acts: Seq::empty(), next: NextView::Ended },
        Seen::Fault(e) => if e is Server && e->Server_code == Code::NotReducible && held.mode
            == Mode::Reducible {
            // The log keeps no view. Follow the records instead, which is all
            // there is to follow.
            Turn {
                held: Held { view: None, mode: Mode::Records, ..held },
                acts: Seq::empty(),
                next: NextView::Restart,
            }
        } else if e is Server && e->Server_code == Code::OutOfRange {
            // The cursor is outside what the server can serve, so ask for
            // everything it still has.
            Turn {
                held: Held {
                    cursor: 0,
                    view: None,
                    lost: held.lost || held.view is Some,
                    ..held
                },
                acts: Seq::empty(),
                next: NextView::Restart,
            }
        } else {
            Turn { held, acts: Seq::empty(), next: NextView::Failed(Why::Given(e)) }
        },
        Seen::Frame(Response::View { version, value, .. }) => match snapshot_of(version, value@) {
            None => Turn { held, acts: Seq::empty(), next: NextView::Failed(Why::NoObject) },
            Some(snapshot) => adopted(
                held,
                Seq::empty(),
                snapshot,
                held.view is Some || held.lost,
            ),
        },
        Seen::Frame(Response::Records { records, .. }) => {
            let after = folded(held, records@);
            if after.next is Continue {
                Turn { acts: after.acts + published(after.held.state(Status::Live)), ..after }
            } else {
                after
            }
        },
        Seen::Frame(Response::Gap { from, to, .. }) => if held.mode == Mode::Reducible {
            Turn { held, acts: Seq::empty(), next: NextView::Read { from, floor: to } }
        } else {
            let after = Held { cursor: to, view: None, ..held };
            Turn {
                held: after,
                acts: gap(from, to) + published(after.state(Status::Live)),
                next: NextView::Continue,
            }
        },
        Seen::Frame(_) => Turn { held, acts: Seq::empty(), next: NextView::Continue },
    }
}

pub open spec fn gap(from: Version, to: Version) -> Seq<ActView> {
    seq![ActView::Emit(Event::Gap { from, to })]
}

/// Where a gap that ends at `floor` ends once a view at `version` was read over
/// it: a view ahead of both also stands for the records up to its own version,
/// which will not be told.
pub open spec fn reached(held: Held, floor: Version, version: Version) -> Version {
    if version > floor && version > held.cursor {
        version
    } else {
        floor
    }
}

/// What a follower makes of the view it read over the gap of `(from, floor]`.
/// The structure is then correct although the records that produced it are
/// gone; the consumer is told which those were before it can see the view. If
/// there is no view to go on with, it is told of the gap all the same.
pub open spec fn recovered(
    held: Held,
    from: Version,
    floor: Version,
    read: Result<view::View, Error>,
) -> Turn {
    match read {
        Ok(view) => if view.version < floor {
            // The view is older than the floor of the gap, which can only mean
            // that it raced a truncation; start the whole stream over.
            Turn { held, acts: gap(from, floor), next: NextView::Restart }
        } else {
            match snapshot_of(view.version, view.value@) {
                None => Turn {
                    held,
                    acts: gap(from, floor),
                    next: NextView::Failed(Why::NoObject),
                },
                Some(snapshot) => adopted(
                    held,
                    gap(from, reached(held, floor, snapshot.version)),
                    snapshot,
                    true,
                ),
            }
        },
        Err(e) => if e.transient() {
            Turn { held, acts: gap(from, floor), next: NextView::Restart }
        } else {
            Turn { held, acts: gap(from, floor), next: NextView::Failed(Why::Given(e)) }
        },
    }
}

/// Whether an error means stop rather than try again.
pub open spec fn is_fatal(e: Error) -> bool {
    match e {
        Error::Server { code, .. } => code == Code::NoSuchLog || code == Code::Unauthorized || code
            == Code::Malformed || code == Code::Rejected,
        Error::View(_) => true,
        Error::Closed => true,
        _ => false,
    }
}

pub fn fatal(e: &Error) -> (r: bool)
    ensures
        r == is_fatal(*e),
{
    match e {
        Error::Server { code, .. } => *code == Code::NoSuchLog || *code == Code::Unauthorized
            || *code == Code::Malformed || *code == Code::Rejected,
        Error::View(_) => true,
        Error::Closed => true,
        _ => false,
    }
}

/// What to do after a session.
#[derive(Clone, Copy, Debug, PartialEq, Eq, Structural)]
pub enum After {
    Stop,
    /// Open another session now.
    Again,
    /// Open another after so many nanoseconds.
    Wait(u64),
}

/// What a session ended in.
pub enum Over {
    Restart,
    Ended,
    Failed(Error),
}

/// What the consumers are told of how a session ended.
pub open spec fn concluded(held: Held, over: Over) -> Seq<ActView> {
    match over {
        Over::Restart => Seq::empty(),
        Over::Ended => published(held.state(Status::Ended)),
        Over::Failed(e) => if is_fatal(e) {
            published(held.state(Status::Failed(Arc::new(e))))
        } else {
            published(held.state(Status::Reconnecting))
        },
    }
}

/// What to do after a session, and the delay to use the next time.
pub open spec fn what_now(over: Over, backoff: Backoff, delay: u64) -> (After, int) {
    match over {
        Over::Restart => (After::Again, backoff.min as int),
        Over::Ended => (After::Stop, delay as int),
        Over::Failed(e) => if is_fatal(e) {
            (After::Stop, delay as int)
        } else {
            (After::Wait(delay), backoff.doubled(delay as int))
        },
    }
}

// ---------------------------------------------------------------------
// The decisions.

fn gap_act(from: Version, to: Version) -> (r: Vec<Act>)
    ensures
        acts_view(r@) == gap(from, to),
{
    let mut acts: Vec<Act> = Vec::new();
    acts.push(Act::Emit(Event::Gap { from, to }));
    assert(acts_view(acts@) =~= gap(from, to));
    acts
}

proof fn lemma_folded_stays(held: Held, records: Seq<Record>, n: int)
    requires
        0 <= n <= records.len(),
        !(folded(held, records.take(n)).next is Continue),
    ensures
        folded(held, records) == folded(held, records.take(n)),
    decreases records.len() - n,
{
    if n < records.len() {
        assert(records.take(n + 1).drop_last() =~= records.take(n));
        lemma_folded_stays(held, records, n + 1);
    } else {
        assert(records.take(n) =~= records);
    }
}

/// A follower's decisions.
pub struct Task {
    cursor: Version,
    store: Option<Store>,
    mode: Mode,
    lost: bool,
}

impl Task {
    pub closed spec fn view(&self) -> Held {
        Held {
            cursor: self.cursor,
            view: match self.store {
                Some(store) => Some(store@.current()),
                None => None,
            },
            mode: self.mode,
            lost: self.lost,
        }
    }

    pub closed spec fn wf(&self) -> bool {
        &&& self@.wf()
        &&& self.store matches Some(store) ==> store@.wf()
    }

    /// What is promised of what a follower holds is promised of every
    /// well-formed task.
    pub proof fn lemma_wf(&self)
        requires
            self.wf(),
        ensures
            self@.wf(),
    {
    }

    pub fn new() -> (r: Self)
        ensures
            r.wf(),
            r@ == (Held { cursor: 0, view: None, mode: Mode::Reducible, lost: false }),
    {
        Task { cursor: 0, store: None, mode: Mode::Reducible, lost: false }
    }

    /// The subscription to open.
    pub fn options(&self, credit: u32) -> (r: Subscribe)
        ensures
            r == self@.options(credit),
    {
        Subscribe { from: self.cursor, mode: self.mode, credit: Some(credit) }
    }

    /// What to show.
    pub fn state(&self, status: Status) -> (r: State)
        requires
            self.wf(),
        ensures
            r@ == self@.state(status),
    {
        State {
            snapshot: match &self.store {
                Some(store) => Some(store.snapshot()),
                None => None,
            },
            version: self.cursor,
            status,
        }
    }

    fn publish(&self, status: Status, acts: &mut Vec<Act>)
        requires
            self.wf(),
        ensures
            acts_view(final(acts)@) == acts_view(old(acts)@) + published(self@.state(status)),
    {
        let ghost before = acts@;
        acts.push(Act::Show(self.state(status)));
        acts.push(Act::Wake(self.cursor));
        assert(acts_view(acts@) =~= acts_view(before) + published(self@.state(status)));
    }

    fn adopt(&mut self, snapshot: Snapshot, acts: &mut Vec<Act>, rebuilt: bool)
        ensures
            final(self).wf(),
            final(self)@ == (Held { lost: false, ..old(self)@.at(snapshot@) }),
            acts_view(final(acts)@) == adopted(
                old(self)@,
                acts_view(old(acts)@),
                snapshot@,
                rebuilt,
            ).acts,
    {
        let version = snapshot.version();
        self.cursor = version;
        self.store = Some(Store::resume(snapshot));
        self.lost = false;
        self.publish(Status::Live, acts);
        if rebuilt {
            let ghost shown = acts@;
            acts.push(Act::Emit(Event::Reset { version }));
            assert(acts_view(acts@) =~= acts_view(shown).push(reset(version)));
        }
    }

    fn fold_one(&mut self, record: Record, acts: &mut Vec<Act>) -> (r: Next)
        requires
            old(self).wf(),
        ensures
            final(self).wf(),
            ({
                let after = with_record(
                    Turn {
                        held: old(self)@,
                        acts: acts_view(old(acts)@),
                        next: NextView::Continue,
                    },
                    record,
                );
                &&& final(self)@ == after.held
                &&& acts_view(final(acts)@) == after.acts
                &&& is_next(r, after.next)
            }),
    {
        let ghost before = acts@;
        if record.version <= self.cursor {
            return Next::Continue;
        }
        if record.version - 1 != self.cursor {
            if self.mode == Mode::Reducible {
                return Next::Read { from: self.cursor, floor: record.version - 1 };
            }
            acts.push(Act::Emit(Event::Gap { from: self.cursor, to: record.version - 1 }));
            self.cursor = record.version;
            self.store = None;
            let ghost mid = acts@;
            acts.push(Act::Emit(Event::Record(record)));
            proof {
                assert(acts_view(mid) =~= acts_view(before).push(act_view(mid.last())));
                assert(acts_view(acts@) =~= acts_view(mid).push(act_view(acts@.last())));
            }
            return Next::Continue;
        }
        match self.store.as_mut() {
            None => {},
            Some(store) => {
                let patch = match Patch::from_json(&record.patch) {
                    Ok(patch) => patch,
                    Err(reason) => {
                        let mut detail = String::from_str("version ");
                        detail.append(decimal_text(record.version).as_str());
                        detail.append(" is not a patch: ");
                        detail.append(reason.as_str());
                        return Next::Failed(Error::Protocol { id: 0, detail });
                    },
                };
                proof {
                    patches_do_what_they_say(patch, store@.current().root);
                }
                let applied = match store.apply(&patch) {
                    Ok(applied) => applied,
                    Err(e) => return Next::Failed(Error::View(e)),
                };
                let to = applied.snapshot.version();
                if to != record.version {
                    let mut detail = String::from_str("folded to version ");
                    detail.append(decimal_text(to).as_str());
                    detail.append(" but the record says ");
                    detail.append(decimal_text(record.version).as_str());
                    return Next::Failed(Error::Protocol { id: 0, detail });
                }
            },
        }
        self.cursor = record.version;
        acts.push(Act::Emit(Event::Record(record)));
        assert(acts_view(acts@) =~= acts_view(before).push(act_view(acts@.last())));
        Next::Continue
    }

    /// Fold a pushed batch, up to what stops it.
    fn fold(&mut self, records: Vec<Record>, acts: &mut Vec<Act>) -> (r: Next)
        requires
            old(self).wf(),
            old(acts)@.len() == 0,
        ensures
            final(self).wf(),
            final(self)@ == folded(old(self)@, records@).held,
            acts_view(final(acts)@) == folded(old(self)@, records@).acts,
            is_next(r, folded(old(self)@, records@).next),
    {
        let ghost all = records@;
        let ghost held = self@;
        let mut rest = backwards(records);
        assert(acts_view(acts@) =~= Seq::empty());
        assert(all.take(0) =~= Seq::empty());
        while rest.len() > 0
            invariant
                self.wf(),
                held == old(self)@,
                all == records@,
                rest@.len() <= all.len(),
                rest@ == all.skip(all.len() - rest@.len()).reverse(),
                ({
                    let so_far = folded(held, all.take(all.len() - rest@.len()));
                    &&& self@ == so_far.held
                    &&& acts_view(acts@) == so_far.acts
                    &&& so_far.next is Continue
                }),
            decreases rest@.len(),
        {
            let ghost n = all.len() - rest@.len();
            proof {
                assert(rest@.last() == all[n]);
                assert(all.take(n + 1).drop_last() =~= all.take(n));
            }
            if let Some(record) = rest.pop() {
                assert(rest@ =~= all.skip(n + 1).reverse());
                let next = self.fold_one(record, acts);
                match next {
                    Next::Continue => {},
                    next => {
                        proof {
                            lemma_folded_stays(held, all, n + 1);
                        }
                        return next;
                    },
                }
            }
        }
        assert(all.take(all.len() as int) =~= all);
        Next::Continue
    }

    /// Take a turn. The acts come first, in order, and then what is next.
    pub fn seen(&mut self, seen: Seen) -> (r: (Vec<Act>, Next))
        requires
            old(self).wf(),
        ensures
            final(self).wf(),
            final(self)@ == turn(old(self)@, seen).held,
            acts_view(r.0@) == turn(old(self)@, seen).acts,
            is_next(r.1, turn(old(self)@, seen).next),
    {
        let mut acts: Vec<Act> = Vec::new();
        assert(acts_view(acts@) =~= Seq::empty());
        match seen {
            Seen::End => (acts, Next::Ended),
            Seen::Fault(e) => {
                if let Error::Server { code, .. } = &e {
                    if *code == Code::NotReducible && self.mode == Mode::Reducible {
                        self.mode = Mode::Records;
                        self.store = None;
                        return (acts, Next::Restart);
                    }
                    if *code == Code::OutOfRange {
                        self.lost = self.lost || self.store.is_some();
                        self.cursor = 0;
                        self.store = None;
                        return (acts, Next::Restart);
                    }
                }
                (acts, Next::Failed(e))
            },
            Seen::Frame(Response::View { version, value, .. }) => match snapshot_from(
                version,
                &value,
            ) {
                Err(e) => (acts, Next::Failed(e)),
                Ok(snapshot) => {
                    let rebuilt = self.store.is_some() || self.lost;
                    self.adopt(snapshot, &mut acts, rebuilt);
                    (acts, Next::Continue)
                },
            },
            Seen::Frame(Response::Records { records, .. }) => {
                let next = self.fold(records, &mut acts);
                if let Next::Continue = next {
                    self.publish(Status::Live, &mut acts);
                }
                (acts, next)
            },
            Seen::Frame(Response::Gap { from, to, .. }) => {
                if self.mode == Mode::Reducible {
                    return (acts, Next::Read { from, floor: to });
                }
                let mut acts = gap_act(from, to);
                self.cursor = to;
                self.store = None;
                self.publish(Status::Live, &mut acts);
                (acts, Next::Continue)
            },
            Seen::Frame(_) => (acts, Next::Continue),
        }
    }

    /// The view was read, as [`Next::Read`] asked.
    pub fn refetched(
        &mut self,
        from: Version,
        floor: Version,
        read: Result<view::View, Error>,
    ) -> (r: (Vec<Act>, Next))
        requires
            old(self).wf(),
        ensures
            final(self).wf(),
            final(self)@ == recovered(old(self)@, from, floor, read).held,
            acts_view(r.0@) == recovered(old(self)@, from, floor, read).acts,
            is_next(r.1, recovered(old(self)@, from, floor, read).next),
    {
        match read {
            Err(e) => {
                let acts = gap_act(from, floor);
                if e.is_transient() {
                    (acts, Next::Restart)
                } else {
                    (acts, Next::Failed(e))
                }
            },
            Ok(view) => {
                if view.version < floor {
                    return (gap_act(from, floor), Next::Restart);
                }
                match snapshot_from(view.version, &view.value) {
                    Err(e) => (gap_act(from, floor), Next::Failed(e)),
                    Ok(snapshot) => {
                        let version = snapshot.version();
                        let to: Version = if version > floor && version > self.cursor {
                            version
                        } else {
                            floor
                        };
                        let mut acts = gap_act(from, to);
                        self.adopt(snapshot, &mut acts, true);
                        (acts, Next::Continue)
                    },
                }
            },
        }
    }

    /// A session is over. Says what to tell the consumers, what to do, and the
    /// delay to use the next time.
    pub fn conclude(&self, over: Over, backoff: Backoff, delay: u64) -> (r: (
        Vec<Act>,
        After,
        u64,
    ))
        requires
            self.wf(),
        ensures
            acts_view(r.0@) == concluded(self@, over),
            (r.1, r.2 as int) == what_now(over, backoff, delay),
    {
        let mut acts: Vec<Act> = Vec::new();
        assert(acts_view(acts@) =~= Seq::empty());
        match over {
            Over::Restart => (acts, After::Again, backoff.min),
            Over::Ended => {
                self.publish(Status::Ended, &mut acts);
                assert(acts_view(acts@) =~= concluded(self@, over));
                (acts, After::Stop, delay)
            },
            Over::Failed(e) => {
                if fatal(&e) {
                    let ghost status = Status::Failed(Arc::new(e));
                    self.publish(Status::Failed(Arc::new(e)), &mut acts);
                    assert(acts_view(acts@) =~= published(self@.state(status)));
                    (acts, After::Stop, delay)
                } else {
                    self.publish(Status::Reconnecting, &mut acts);
                    assert(acts_view(acts@) =~= concluded(self@, over));
                    (acts, After::Wait(delay), backoff.next(delay))
                }
            },
        }
    }
}

// ---------------------------------------------------------------------
// What a follower promises.

/// The records that carry `patches`, from the version after `from` on.
pub open spec fn carries(records: Seq<Record>, from: Version) -> bool {
    forall|i: int| 0 <= i < records.len() ==> (#[trigger] records[i]).version == from + 1 + i
}

/// The root after these records were folded in one by one, each of which is a
/// patch that changes it.
pub open spec fn built(root: ValueView, records: Seq<Record>) -> Option<ValueView>
    decreases records.len(),
{
    if records.len() == 0 {
        Some(root)
    } else {
        match (built(root, records.drop_last()), patch_of(records.last().patch@)) {
            (Some(before), Ok(patch)) => match edited(patch, before) {
                Ok(after) => if alike_values(after, before) {
                    None
                } else {
                    Some(after)
                },
                Err(_) => None,
            },
            _ => None,
        }
    }
}

/// A follower converges on the server's view: it folds contiguous records to
/// the very root that their patches build, at the version of the last one, and
/// shows it live.
pub proof fn followers_converge(held: Held, id: crate::proto::Id, records: Vec<Record>)
    requires
        held.wf(),
        held.view is Some,
        carries(records@, held.cursor),
        built(held.view->0.root, records@) is Some,
    ensures
        ({
            let after = turn(held, Seen::Frame(Response::Records { id, records }));
            &&& after.held.cursor == held.cursor + records@.len()
            &&& after.held.view == Some(
                SnapshotView {
                    version: (held.cursor + records@.len()) as Version,
                    root: built(held.view->0.root, records@)->0,
                },
            )
            &&& after.next is Continue
            &&& after.acts == folded(held, records@).acts + published(
                after.held.state(Status::Live),
            )
        }),
{
    lemma_converges(held, records@);
}

proof fn lemma_converges(held: Held, records: Seq<Record>)
    requires
        held.wf(),
        held.view is Some,
        carries(records, held.cursor),
        built(held.view->0.root, records) is Some,
    ensures
        folded(held, records).next is Continue,
        folded(held, records).held == held.at(
            SnapshotView {
                version: (held.cursor + records.len()) as Version,
                root: built(held.view->0.root, records)->0,
            },
        ),
    decreases records.len(),
{
    if records.len() > 0 {
        let less = records.drop_last();
        assert(forall|i: int| 0 <= i < less.len() ==> less[i] == records[i]);
        lemma_converges(held, less);
        assert(records.last() == records[records.len() - 1]);
    }
}

/// What is folded already is passed over: a batch of versions that are not
/// above the cursor changes nothing and reaches no consumer.
pub proof fn replays_are_passed_over(held: Held, records: Seq<Record>)
    requires
        forall|i: int| 0 <= i < records.len() ==> (#[trigger] records[i]).version <= held.cursor,
    ensures
        folded(held, records) == (Turn {
            held,
            acts: Seq::empty(),
            next: NextView::Continue,
        }),
    decreases records.len(),
{
    if records.len() > 0 {
        let less = records.drop_last();
        assert(forall|i: int| 0 <= i < less.len() ==> less[i] == records[i]);
        replays_are_passed_over(held, less);
        assert(records.last() == records[records.len() - 1]);
    }
}

/// Whether the events told account for the versions in `(from, to]`, each
/// exactly once and in order: a record for its own version, a gap for those it
/// spans.
pub open spec fn accounts(acts: Seq<ActView>, from: Version, to: Version) -> bool
    decreases acts.len(),
{
    if acts.len() == 0 {
        from == to
    } else {
        match acts.last() {
            ActView::Emit(Event::Record(record)) => record.version == to && to > 0 && accounts(
                acts.drop_last(),
                from,
                (to - 1) as Version,
            ),
            ActView::Emit(Event::Gap { from: mid, to: end }) => end == to && mid < end && accounts(
                acts.drop_last(),
                from,
                mid,
            ),
            _ => false,
        }
    }
}

/// Records reach the consumer in order, with gaps marked: whatever a batch
/// holds, the events that folding it tells account for every version the
/// cursor moved over, each once.
pub proof fn events_account_for_every_version(held: Held, records: Seq<Record>)
    ensures
        accounts(folded(held, records).acts, held.cursor, folded(held, records).held.cursor),
        held.cursor <= folded(held, records).held.cursor,
    decreases records.len(),
{
    if records.len() > 0 {
        let before = folded(held, records.drop_last());
        let record = records.last();
        events_account_for_every_version(held, records.drop_last());
        if before.next is Continue {
            let told = before.acts.push(ActView::Emit(Event::Record(record)));
            assert(told.drop_last() =~= before.acts);
            let gap = ActView::Emit(
                Event::Gap { from: before.held.cursor, to: (record.version - 1) as Version },
            );
            let jumped = before.acts.push(gap);
            assert(jumped.drop_last() =~= before.acts);
            assert(jumped.push(ActView::Emit(Event::Record(record))).drop_last() =~= jumped);
            reveal_with_fuel(accounts, 3);
        }
    }
}

/// A gap is told before the view that was refetched over it can be seen. It
/// runs from where it was said to begin, up to its end at least, and to where
/// the view resumes where that is further on. That the view was rebuilt is told
/// once it can be seen.
pub proof fn gaps_are_told_first(held: Held, from: Version, floor: Version, read: view::View)
    requires
        read.version >= floor,
        snapshot_of(read.version, read.value@) is Some,
    ensures
        ({
            let snapshot = snapshot_of(read.version, read.value@)->0;
            let to = reached(held, floor, snapshot.version);
            let acts = recovered(held, from, floor, Ok(read)).acts;
            &&& acts =~= seq![
                ActView::Emit(Event::Gap { from, to }),
                ActView::Show(held.at(snapshot).state(Status::Live)),
                ActView::Wake(snapshot.version),
                reset(snapshot.version),
            ]
            &&& to >= floor
            &&& snapshot.version > held.cursor ==> to >= snapshot.version
        }),
{
}

/// A gap is told even where no view could be read to go on with, and nothing
/// that was held is given up for it.
pub proof fn gaps_are_told_without_a_view(
    held: Held,
    from: Version,
    floor: Version,
    read: Result<view::View, Error>,
)
    requires
        !(recovered(held, from, floor, read).next is Continue),
    ensures
        recovered(held, from, floor, read).acts == seq![
            ActView::Emit(Event::Gap { from, to: floor }),
        ],
        recovered(held, from, floor, read).held == held,
{
}

/// A view that replaces another, or one that was given up, is told as rebuilt
/// as soon as it can be seen.
pub proof fn rebuilt_views_are_told(
    held: Held,
    id: crate::proto::Id,
    version: Version,
    value: crate::json::Json,
)
    requires
        held.view is Some || held.lost,
        snapshot_of(version, value@) is Some,
    ensures
        ({
            let snapshot = snapshot_of(version, value@)->0;
            let after = turn(held, Seen::Frame(Response::View { id, version, value }));
            after.acts =~= seq![
                ActView::Show(held.at(snapshot).state(Status::Live)),
                ActView::Wake(snapshot.version),
                reset(snapshot.version),
            ]
        }),
        forall|e: Error|
            e is Server && e->Server_code == Code::OutOfRange ==> (#[trigger] turn(
                held,
                Seen::Fault(e),
            )).held.lost,
{
}

/// Whether no version wakes anyone before a state at that version was shown,
/// with nothing between the two.
pub open spec fn shown_first(acts: Seq<ActView>) -> bool {
    forall|i: int|
        0 <= i < acts.len() && (#[trigger] acts[i]) is Wake ==> i > 0 && acts[i - 1] is Show
            && acts[i - 1]->Show_0.version == acts[i]->Wake_0
}

proof fn lemma_folding_only_emits(held: Held, records: Seq<Record>)
    ensures
        forall|i: int|
            0 <= i < folded(held, records).acts.len() ==> (#[trigger] folded(
                held,
                records,
            ).acts[i]) is Emit,
    decreases records.len(),
{
    if records.len() > 0 {
        lemma_folding_only_emits(held, records.drop_last());
    }
}

/// Whoever a version wakes finds the state at that version already shown,
/// whatever was seen, read or concluded.
pub proof fn states_are_shown_before_versions_wake(
    held: Held,
    seen: Seen,
    from: Version,
    floor: Version,
    read: Result<view::View, Error>,
    over: Over,
)
    ensures
        shown_first(turn(held, seen).acts),
        shown_first(recovered(held, from, floor, read).acts),
        shown_first(concluded(held, over)),
{
    if let Seen::Frame(Response::Records { records, .. }) = seen {
        lemma_folding_only_emits(held, records@);
    }
}

/// Contiguous records that build on the view reach the consumer each once, in
/// order, and as they are; so do contiguous records where no view is kept, where
/// the cursor moves to the last.
pub proof fn records_are_told_in_order(held: Held, records: Seq<Record>)
    requires
        held.wf(),
        carries(records, held.cursor),
        held.view is Some ==> built(held.view->0.root, records) is Some,
    ensures
        ({
            let after = folded(held, records);
            &&& after.next is Continue
            &&& after.held.cursor == held.cursor + records.len()
            &&& after.held.mode == held.mode
            &&& after.held.view is Some <==> held.view is Some
            &&& after.acts.len() == records.len()
            &&& forall|i: int|
                0 <= i < records.len() ==> #[trigger] after.acts[i] == ActView::Emit(
                    Event::Record(records[i]),
                )
        }),
    decreases records.len(),
{
    if records.len() > 0 {
        let less = records.drop_last();
        let n = records.len() - 1;
        assert(forall|i: int| 0 <= i < less.len() ==> less[i] == records[i]);
        records_are_told_in_order(held, less);
        if held.view is Some {
            lemma_converges(held, less);
        }
        assert(records.last() == records[n]);
        let (before, after) = (folded(held, less), folded(held, records));
        assert forall|i: int| 0 <= i < records.len() implies #[trigger] after.acts[i]
            == ActView::Emit(Event::Record(records[i])) by {
            if i < n {
                assert(after.acts[i] == before.acts[i]);
            }
        }
    }
}

/// Nothing is folded on top of what is missing. Where a record is ahead of the
/// next version, a follower that keeps a view goes to read it, over exactly what
/// is missing before that record, and holds and tells nothing of the record; one
/// that keeps none marks what is missing and goes on with the record.
pub proof fn jumps_are_not_folded(held: Held, record: Record)
    requires
        record.version > held.cursor + 1,
    ensures
        ({
            let after = folded(held, seq![record]);
            &&& held.mode == Mode::Reducible ==> after.held == held && after.acts.len() == 0
                && after.next == NextView::Read {
                from: held.cursor,
                floor: (record.version - 1) as Version,
            }
            &&& held.mode == Mode::Records ==> after.held == (Held {
                cursor: record.version,
                view: None,
                ..held
            }) && after.next is Continue && after.acts == seq![
                ActView::Emit(
                    Event::Gap { from: held.cursor, to: (record.version - 1) as Version },
                ),
                ActView::Emit(Event::Record(record)),
            ]
        }),
{
    reveal_with_fuel(folded, 2);
    assert(seq![record].drop_last() =~= Seq::empty());
    let after = folded(held, seq![record]);
    if held.mode == Mode::Records {
        assert(after.acts =~= seq![
            ActView::Emit(Event::Gap { from: held.cursor, to: (record.version - 1) as Version }),
            ActView::Emit(Event::Record(record)),
        ]);
    }
}

/// A record that does not build on the view stops the follower, with the reason:
/// that it is no patch, that the patch does not apply, or that it changes nothing
/// and so cannot have minted the version that it says. Nothing of it is held or
/// told.
pub proof fn records_that_do_not_build_stop_it(held: Held, record: Record)
    requires
        held.view is Some,
        record.version == held.cursor + 1,
    ensures
        ({
            let after = folded(held, seq![record]);
            let root = held.view->0.root;
            match patch_of(record.patch@) {
                Err(reason) => after.next == NextView::Failed(Why::NoPatch(record.version, reason))
                    && after.held == held && after.acts.len() == 0,
                Ok(patch) => match edited(patch, root) {
                    Err(flaw) => after.next == NextView::Failed(Why::Flawed(flaw)) && after.held
                        == held && after.acts.len() == 0,
                    Ok(made) => if alike_values(made, root) {
                        &&& after.next is Failed && after.next->Failed_0 is Folded
                        &&& after.held == held && after.acts.len() == 0
                    } else {
                        &&& after.next is Continue
                        &&& after.held.view == Some(
                            SnapshotView { version: record.version, root: made },
                        )
                        &&& after.held.cursor == record.version
                    },
                },
            }
        }),
{
    reveal_with_fuel(folded, 2);
    assert(seq![record].drop_last() =~= Seq::empty());
}

/// What a follower is told of its stream decides what it does next. The end ends
/// it. A log that keeps no view is followed by its records from the same cursor
/// on. A cursor that the server cannot serve starts over from nothing. Any other
/// fault fails the session with that fault, and nothing is told or given up.
pub proof fn faults_decide_what_comes_next(held: Held, e: Error)
    ensures
        turn(held, Seen::End).next is Ended && turn(held, Seen::End).held == held && turn(
            held,
            Seen::End,
        ).acts.len() == 0,
        turn(held, Seen::Fault(e)).acts.len() == 0,
        ({
            let after = turn(held, Seen::Fault(e));
            let no_view = e is Server && e->Server_code == Code::NotReducible;
            let gone = e is Server && e->Server_code == Code::OutOfRange;
            &&& no_view && held.mode == Mode::Reducible ==> after.next is Restart
                && after.held.mode == Mode::Records && after.held.cursor == held.cursor
                && after.held.view is None
            &&& gone ==> after.next is Restart && after.held.cursor == 0 && after.held.view is None
                && after.held.mode == held.mode && (held.view is Some ==> after.held.lost)
            &&& !gone && !(no_view && held.mode == Mode::Reducible) ==> after.held == held
                && after.next == NextView::Failed(Why::Given(e))
        }),
{
}

/// What else comes on the stream: a view that can be read is held and shown, one
/// that cannot fails the session; a gap is read over where a view is kept, and
/// where none is it is told and the cursor moves to its end; a frame of any other
/// kind is passed over.
pub proof fn frames_decide_what_comes_next(held: Held, frame: Response)
    ensures
        ({
            let after = turn(held, Seen::Frame(frame));
            &&& frame matches Response::View { version, value, .. } ==> match snapshot_of(
                version,
                value@,
            ) {
                Some(snapshot) => after.next is Continue && after.held.view == Some(snapshot)
                    && after.held.cursor == snapshot.version && !after.held.lost
                    && after.held.mode == held.mode && after.acts.contains(
                    ActView::Show(
                        StateView {
                            snapshot: Some(snapshot),
                            version: snapshot.version,
                            status: Status::Live,
                        },
                    ),
                ),
                None => after.held == held && after.acts.len() == 0 && after.next
                    == NextView::Failed(Why::NoObject),
            }
            &&& frame matches Response::Gap { from, to, .. } ==> {
                &&& held.mode == Mode::Reducible ==> after.held == held && after.acts.len() == 0
                    && after.next == NextView::Read { from, floor: to }
                &&& held.mode == Mode::Records ==> after.held.cursor == to && after.next
                    is Continue && after.acts.len() == 3 && after.acts[0] == ActView::Emit(
                    Event::Gap { from, to },
                )
            }
            &&& !(frame is View || frame is Records || frame is Gap) ==> after.held == held
                && after.acts.len() == 0 && after.next is Continue
        }),
{
    if let Response::View { version, value, .. } = frame {
        if let Some(snapshot) = snapshot_of(version, value@) {
            let after = turn(held, Seen::Frame(frame));
            assert(after.acts[0] == ActView::Show(
                StateView {
                    snapshot: Some(snapshot),
                    version: snapshot.version,
                    status: Status::Live,
                },
            ));
        }
    }
}

/// A view that was read over a gap is taken where it is at the end of the gap or
/// above and is an object: the follower then holds and shows exactly that view. An
/// older one, or one that could not be read for now, starts the stream over;
/// anything else fails the session.
pub proof fn refetched_views_are_held(
    held: Held,
    from: Version,
    floor: Version,
    read: Result<view::View, Error>,
)
    ensures
        ({
            let after = recovered(held, from, floor, read);
            match read {
                Err(e) => {
                    &&& after.held == held
                    &&& e.transient() ==> after.next is Restart
                    &&& !e.transient() ==> after.next == NextView::Failed(Why::Given(e))
                },
                Ok(view) => {
                    let snapshot = snapshot_of(view.version, view.value@);
                    &&& view.version < floor ==> after.next is Restart && after.held == held
                    &&& view.version >= floor && snapshot is None ==> after.next
                        == NextView::Failed(Why::NoObject) && after.held == held
                    &&& view.version >= floor && snapshot is Some ==> after.next is Continue
                        && after.held.view == snapshot && after.held.cursor
                        == snapshot->0.version && after.held.mode == held.mode
                        && !after.held.lost
                },
            }
        }),
{
}

/// A follower stops for good where its log is not there, where it may not read it,
/// where it asked wrongly or was rejected, where the view cannot be built, and
/// where the hub was closed. Any other failure is one to try again after, each
/// time waiting longer; a restart is not a failure and waits not at all.
pub proof fn followers_try_again_unless_it_is_hopeless(
    e: Error,
    backoff: Backoff,
    delay: u64,
)
    ensures
        ({
            let hopeless = e is View || e is Closed || (e is Server && (e->Server_code
                == Code::NoSuchLog || e->Server_code == Code::Unauthorized || e->Server_code
                == Code::Malformed || e->Server_code == Code::Rejected));
            let (after, next) = what_now(Over::Failed(e), backoff, delay);
            &&& hopeless ==> after == After::Stop
            &&& !hopeless ==> after == After::Wait(delay)
            &&& !hopeless && 2 * delay <= backoff.max ==> next == 2 * delay
            &&& !hopeless && 2 * delay > backoff.max ==> next == backoff.max
        }),
        what_now(Over::Restart, backoff, delay) == (After::Again, backoff.min as int),
        what_now(Over::Ended, backoff, delay).0 == After::Stop,
{
}

/// How a session ended is shown with all that is held: an end as the end, a
/// hopeless failure with its reason, and any other as reconnecting. A restart shows
/// nothing.
pub proof fn sessions_end_in_the_open(held: Held, e: Error)
    ensures
        concluded(held, Over::Restart).len() == 0,
        concluded(held, Over::Ended)[0] == ActView::Show(
            StateView { snapshot: held.view, version: held.cursor, status: Status::Ended },
        ),
        ({
            let shown = concluded(held, Over::Failed(e))[0];
            &&& shown is Show && shown->Show_0.snapshot == held.view && shown->Show_0.version
                == held.cursor
            &&& what_now(
                Over::Failed(e),
                Backoff { min: 0, max: 0 },
                0,
            ).0 == After::Stop ==> shown->Show_0.status == Status::Failed(Arc::new(e))
            &&& what_now(
                Over::Failed(e),
                Backoff { min: 0, max: 0 },
                0,
            ).0 != After::Stop ==> shown->Show_0.status is Reconnecting
        }),
{
}

/// A session goes on from where the last one stopped, in the mode that the log
/// calls for.
pub proof fn sessions_go_on_from_the_cursor(held: Held, credit: u32)
    ensures
        held.options(credit).from == held.cursor,
        held.options(credit).mode == held.mode,
        held.options(credit).credit == Some(credit),
{
}

/// Whoever waits for a version is told that it was reached exactly where the state
/// has come that far, that it never will be where the follower failed before, and
/// to wait on otherwise.
pub proof fn waiting_ends_with_the_version(state: StateView, version: Version, r: Awaited)
    requires
        waited(state, version, r),
    ensures
        r is Reached <==> version <= state.version,
        r is Stopped <==> version > state.version && state.status is Failed,
        r is Pending <==> version > state.version && !(state.status is Failed),
{
}

/// The outbox after these events were tried one after another, each after the
/// notice that was owed then, and what was told of losses: `tries[i]` says whether
/// the notice and the event went out.
pub open spec fn posted(tries: Seq<(bool, bool)>) -> (Outbox, nat)
    decreases tries.len(),
{
    if tries.len() == 0 {
        (Outbox { dropped: 0 }, 0)
    } else {
        let (before, told) = posted(tries.drop_last());
        let (notice, event) = tries.last();
        let told_now = match before.owed() {
            Some(Event::Dropped(n)) => if notice {
                n as nat
            } else {
                0
            },
            _ => 0,
        };
        (before.after_notice(notice).after_try(event), told + told_now)
    }
}

/// The events that did not go out.
pub open spec fn unsent(tries: Seq<(bool, bool)>) -> nat
    decreases tries.len(),
{
    if tries.len() == 0 {
        0
    } else {
        unsent(tries.drop_last()) + if tries.last().1 {
            0nat
        } else {
            1
        }
    }
}

/// Nothing is lost in silence: the events that did not go out are those that the
/// consumer was told of, and those that it still will be.
pub proof fn losses_are_told(tries: Seq<(bool, bool)>)
    ensures
        unsent(tries) < u64::MAX ==> posted(tries).1 + posted(tries).0.dropped == unsent(tries),
    decreases tries.len(),
{
    if tries.len() > 0 {
        losses_are_told(tries.drop_last());
    }
}

/// The backlog has room for what may be in flight, within its bounds.
pub proof fn backlogs_fit_the_credit(credit: u32)
    ensures
        1 <= room(credit) <= 4096,
        1 <= credit <= 4096 ==> room(credit) == credit,
        credit == 0 ==> room(credit) == 1,
        credit > 4096 ==> room(credit) == 4096,
{
}

} // verus!
