//! Subscriptions: a stream of pushed frames, with the client half of the
//! credit contract wired to the consumer's own draining.

use super::error::Error;
use crate::list::backwards;
use crate::proto::{Id, Record, Request, Response, Version};
use vstd::prelude::*;

verus! {

/// What waiting for the next frame came to.
pub enum Polled {
    /// Nothing yet.
    Pending,
    /// No frame will come any more; the flag says whether that is because the
    /// stream overran its window.
    Closed(bool),
    Failed(Error),
    Frame(Response),
}

/// What the consumer is told.
pub enum Yield {
    /// Nothing yet.
    Pending,
    /// Nothing, but there may be more at once.
    Again,
    /// The end.
    End,
    Item(Result<Response, Error>),
}

/// The state of a live stream of frames for one subscription.
///
/// Yields `Records`, `View` and `Gap` frames as the server pushes them, and
/// ends after `End`. A server error ends it too, reported as the final item.
///
/// Credit is the point. The server may push at most the granted number of
/// records and then stops. More is granted only as frames are actually taken
/// out, so a consumer that stops polling stops the flow rather than growing a
/// buffer somewhere.
#[derive(Clone, Copy, Debug, PartialEq, Eq, Structural)]
pub struct Subscription {
    pub id: Id,
    /// Records the server may have in flight toward us.
    pub window: u32,
    /// Records handed to the consumer since the last grant went out.
    pub drained: u32,
    pub done: bool,
}

pub open spec fn saturated(n: int) -> u32 {
    if n > u32::MAX {
        u32::MAX
    } else {
        n as u32
    }
}

impl Subscription {
    pub fn open(id: Id, window: u32) -> (r: Self)
        ensures
            r == (Subscription { id, window, drained: 0, done: false }),
    {
        Subscription { id, window, drained: 0, done: false }
    }

    pub fn id(&self) -> (r: Id)
        ensures
            r == self.id,
    {
        self.id
    }

    /// Records the server may have in flight toward us.
    pub fn window(&self) -> (r: u32)
        ensures
            r == self.window,
    {
        self.window
    }

    /// How many frames the buffer holds. Sized to the credit window: the
    /// server may not push past it, so a full buffer means the contract was
    /// broken, not that we are slow.
    pub fn capacity(&self) -> (r: usize)
        ensures
            r == if self.window < 1 {
                1
            } else {
                self.window
            },
    {
        if self.window < 1 {
            1
        } else {
            self.window as usize
        }
    }

    /// The credit that is due: all that was drained, once that is half a
    /// window, which keeps the server pushing without a grant per record.
    pub open spec fn due(&self) -> u32 {
        if self.drained >= 1 && self.drained >= self.window / 2 {
            self.drained
        } else {
            0
        }
    }

    /// The grant to send now, if one is due.
    pub fn maybe_grant(&self) -> (r: Option<Request>)
        ensures
            r == if self.due() > 0 {
                Some(Request::Credit { id: self.id, grant: self.due() })
            } else {
                None
            },
    {
        let half = self.window / 2;
        let threshold = if half > 1 { half } else { 1 };
        if self.drained >= threshold {
            Some(Request::Credit { id: self.id, grant: self.drained })
        } else {
            None
        }
    }

    /// A grant of `records` that the consumer asks for before having earned
    /// it. Nothing is sent for a grant of nothing.
    pub fn grant(&self, records: u32) -> (r: Option<Request>)
        ensures
            r == if records > 0 {
                Some(Request::Credit { id: self.id, grant: records })
            } else {
                None
            },
    {
        if records == 0 {
            return None;
        }
        Some(Request::Credit { id: self.id, grant: records })
    }

    /// A grant went out, or the command queue was full: then the count is
    /// kept, to try again on the next drain rather than block a poll.
    pub fn granted(&mut self, grant: u32, sent: bool)
        ensures
            *final(self) == old(self).after_grant(grant, sent),
    {
        if sent {
            self.drained = self.drained.saturating_sub(grant);
        }
    }

    /// What one poll yields.
    pub open spec fn yields(self, polled: Polled) -> Yield {
        if self.done {
            Yield::End
        } else {
            match polled {
                Polled::Pending => Yield::Pending,
                Polled::Closed(overrun) => Yield::Item(
                    Err(
                        if overrun {
                            Error::Overrun { id: self.id }
                        } else {
                            Error::Disconnected { id: self.id }
                        },
                    ),
                ),
                Polled::Failed(e) => Yield::Item(Err(e)),
                // The acknowledgement that the stream is open, and, over SSE,
                // the session the transport already consumed. Both are
                // plumbing, not data.
                Polled::Frame(Response::Accepted { .. }) => Yield::Again,
                Polled::Frame(Response::Welcome { .. }) => Yield::Again,
                Polled::Frame(Response::End { .. }) => Yield::End,
                Polled::Frame(other) => Yield::Item(Ok(other)),
            }
        }
    }

    /// What is left after one poll.
    pub open spec fn stepped(self, polled: Polled) -> Subscription {
        if self.done {
            self
        } else {
            match polled {
                Polled::Closed(_) => Subscription { done: true, ..self },
                Polled::Failed(_) => Subscription { done: true, ..self },
                Polled::Frame(Response::End { .. }) => Subscription { done: true, ..self },
                Polled::Frame(Response::Records { records, .. }) => Subscription {
                    drained: saturated(self.drained + records@.len() as u32),
                    ..self
                },
                _ => self,
            }
        }
    }

    /// What is left after a grant was tried.
    pub open spec fn after_grant(self, grant: u32, sent: bool) -> Subscription {
        Subscription {
            drained: if !sent {
                self.drained
            } else if grant > self.drained {
                0
            } else {
                (self.drained - grant) as u32
            },
            ..self
        }
    }

    /// One poll. Where the result is an item of records, ask
    /// [`maybe_grant`](Subscription::maybe_grant) what is due.
    pub fn step(&mut self, polled: Polled) -> (r: Yield)
        ensures
            r == old(self).yields(polled),
            *final(self) == old(self).stepped(polled),
    {
        if self.done {
            return Yield::End;
        }
        match polled {
            Polled::Pending => Yield::Pending,
            Polled::Closed(overrun) => {
                self.done = true;
                let id = self.id;
                if overrun {
                    Yield::Item(Err(Error::Overrun { id }))
                } else {
                    Yield::Item(Err(Error::Disconnected { id }))
                }
            },
            Polled::Failed(e) => {
                self.done = true;
                Yield::Item(Err(e))
            },
            Polled::Frame(frame) => match frame {
                Response::Accepted { .. } => Yield::Again,
                Response::Welcome { .. } => Yield::Again,
                Response::End { .. } => {
                    self.done = true;
                    Yield::End
                },
                Response::Records { id, records } => {
                    self.drained = self.drained.saturating_add(records.len() as u32);
                    Yield::Item(Ok(Response::Records { id, records }))
                },
                other => Yield::Item(Ok(other)),
            },
        }
    }

    /// What dropping the subscription sends: a stream that has not ended is
    /// cancelled.
    pub fn farewell(&self) -> (r: Option<Request>)
        ensures
            r == if self.done {
                None
            } else {
                Some(Request::Cancel { id: self.id })
            },
    {
        if self.done {
            None
        } else {
            Some(Request::Cancel { id: self.id })
        }
    }
}

/// Of `taken` records handed to the consumer, `granted` were granted again.
pub open spec fn accounted(sub: Subscription, granted: nat, taken: nat) -> bool {
    granted + sub.drained == taken
}

/// Credit follows what was drained: across records handed to the consumer and
/// the grants they earn, what was granted never exceeds what was taken, and
/// what is still owed is exactly the difference.
pub proof fn grants_follow_what_was_drained(
    sub: Subscription,
    granted: nat,
    taken: nat,
    records: u32,
)
    requires
        accounted(sub, granted, taken),
        sub.drained + records <= u32::MAX,
    ensures
        granted <= taken,
        ({
            let drained = Subscription { drained: saturated(sub.drained + records), ..sub };
            let sent = Subscription {
                drained: (drained.drained - drained.due()) as u32,
                ..drained
            };
            &&& accounted(drained, granted, taken + records as nat)
            &&& accounted(sent, granted + drained.due() as nat, taken + records as nat)
            &&& drained.drained > sub.window / 2 ==> sent.drained == 0
        }),
{
}

/// One poll of a subscription: what waiting came to, and, where that took
/// records and a grant was due, whether the grant could be sent.
pub struct Turn {
    pub polled: Polled,
    pub sent: bool,
}

/// A subscription over its life: what is left of it, what it yielded, how many
/// records that were, and how much credit it sent.
pub struct Past {
    pub sub: Subscription,
    pub yielded: Seq<Yield>,
    pub taken: nat,
    pub granted: nat,
}

/// The records that a yield hands to the consumer.
pub open spec fn records_in(y: Yield) -> nat {
    match y {
        Yield::Item(Ok(Response::Records { records, .. })) => records@.len(),
        _ => 0,
    }
}

/// The credit that a turn sends.
pub open spec fn sends(sub: Subscription, turn: Turn) -> u32 {
    if turn.sent && sub.yields(turn.polled) matches Yield::Item(Ok(Response::Records { .. })) {
        sub.stepped(turn.polled).due()
    } else {
        0
    }
}

/// What a subscription comes to after these turns.
pub open spec fn lived(id: Id, window: u32, turns: Seq<Turn>) -> Past
    decreases turns.len(),
{
    if turns.len() == 0 {
        Past {
            sub: Subscription { id, window, drained: 0, done: false },
            yielded: Seq::empty(),
            taken: 0,
            granted: 0,
        }
    } else {
        let before = lived(id, window, turns.drop_last());
        let turn = turns.last();
        let y = before.sub.yields(turn.polled);
        let grant = sends(before.sub, turn);
        Past {
            sub: before.sub.stepped(turn.polled).after_grant(grant, grant > 0),
            yielded: before.yielded.push(y),
            taken: before.taken + records_in(y),
            granted: before.granted + grant as nat,
        }
    }
}

/// Whether a yield ends a subscription.
pub open spec fn is_last(y: Yield) -> bool {
    y is End || (y matches Yield::Item(Err(_)))
}

/// Over its whole life a subscription sends no more credit than the records it
/// yielded, and what it did not send yet it still owes, as far as that can be
/// counted. Plumbing is never yielded. Nothing follows the end: after an error
/// or the end of the stream it yields nothing but the end.
pub proof fn subscriptions_keep_their_word(id: Id, window: u32, turns: Seq<Turn>)
    ensures
        ({
            let past = lived(id, window, turns);
            &&& past.yielded.len() == turns.len()
            &&& past.granted + past.sub.drained <= past.taken
            &&& past.taken <= u32::MAX ==> past.granted + past.sub.drained == past.taken
            &&& forall|i: int|
                0 <= i < turns.len() ==> !(#[trigger] past.yielded[i] matches Yield::Item(
                    Ok(Response::Accepted { .. }),
                )) && !(past.yielded[i] matches Yield::Item(Ok(Response::Welcome { .. })))
            &&& forall|i: int, j: int|
                #![trigger past.yielded[i], past.yielded[j]]
                0 <= i < j < turns.len() && is_last(past.yielded[i]) ==> past.yielded[j] is End
            &&& past.sub.done <==> exists|i: int|
                0 <= i < turns.len() && is_last(#[trigger] past.yielded[i])
        }),
    decreases turns.len(),
{
    if turns.len() > 0 {
        let less = turns.drop_last();
        subscriptions_keep_their_word(id, window, less);
        let before = lived(id, window, less);
        let past = lived(id, window, turns);
        let n = turns.len() - 1;
        assert(past.yielded[n] == before.sub.yields(turns.last().polled));
        assert forall|i: int| 0 <= i < n implies #[trigger] past.yielded[i]
            == before.yielded[i] by {}
        match turns.last().polled {
            Polled::Frame(Response::Records { records, .. }) => {
                assert(records@.len() as u32 <= records@.len());
            },
            _ => {},
        }
        if past.sub.done {
            if before.sub.done {
                let i = choose|i: int| 0 <= i < n && is_last(#[trigger] before.yielded[i]);
                assert(is_last(past.yielded[i]));
            } else {
                assert(is_last(past.yielded[n]));
            }
        }
        assert forall|i: int, j: int|
            #![trigger past.yielded[i], past.yielded[j]]
            0 <= i < j < turns.len() && is_last(past.yielded[i]) implies past.yielded[j] is End by {
            assert(past.yielded[i] == before.yielded[i]);
            if j < n {
                assert(past.yielded[j] == before.yielded[j]);
            } else {
                assert(is_last(before.yielded[i]));
                assert(before.sub.done);
            }
        }
    }
}

/// Credit is sent only by a turn that takes records, once half a window or more
/// was drained, and then for all that was.
pub proof fn credit_is_sent_for_all_that_was_drained(sub: Subscription, turn: Turn)
    requires
        sends(sub, turn) > 0,
    ensures
        sub.yields(turn.polled) matches Yield::Item(Ok(Response::Records { .. })),
        sends(sub, turn) == sub.stepped(turn.polled).drained,
        sends(sub, turn) >= 1 && sends(sub, turn) >= sub.window / 2,
        sub.stepped(turn.polled).after_grant(sends(sub, turn), true).drained == 0,
{
}

/// While it has not ended, a subscription hands on exactly what it comes to: a
/// frame of records, a view or a gap goes to the consumer as it is, an error as
/// the error it is, a stream that breaks off as a lost connection or as an
/// overrun of this very subscription. The end and any error are the last thing
/// it hands on, and nothing else is.
pub proof fn polls_hand_on_what_they_come_to(sub: Subscription, polled: Polled)
    ensures
        sub.done ==> sub.yields(polled) is End && sub.stepped(polled) == sub,
        sub.stepped(polled).id == sub.id && sub.stepped(polled).window == sub.window,
        !sub.done ==> {
            let y = sub.yields(polled);
            &&& polled is Pending ==> y is Pending
            &&& polled matches Polled::Failed(e) ==> y == Yield::Item(Err::<Response, Error>(e))
            &&& polled == Polled::Closed(true) ==> y == Yield::Item(
                Err::<Response, Error>(Error::Overrun { id: sub.id }),
            )
            &&& polled == Polled::Closed(false) ==> y == Yield::Item(
                Err::<Response, Error>(Error::Disconnected { id: sub.id }),
            )
            &&& polled matches Polled::Frame(frame) ==> {
                &&& frame is Records || frame is View || frame is Gap ==> y == Yield::Item(
                    Ok::<Response, Error>(frame),
                )
                &&& frame is End ==> y is End
                &&& frame is Accepted || frame is Welcome ==> y is Again
                &&& !(frame is End || frame is Accepted || frame is Welcome) ==> y == Yield::Item(
                    Ok::<Response, Error>(frame),
                )
            }
            &&& sub.stepped(polled).done <==> polled is Failed || polled is Closed || (polled
                matches Polled::Frame(frame) && frame is End)
            &&& sub.stepped(polled).drained != sub.drained ==> polled is Frame
                && polled->Frame_0 is Records
        },
{
}

/// The frames that were handed to the consumer.
pub open spec fn handed(yielded: Seq<Yield>) -> Seq<Response>
    decreases yielded.len(),
{
    if yielded.len() == 0 {
        Seq::empty()
    } else {
        match yielded.last() {
            Yield::Item(Ok(frame)) => handed(yielded.drop_last()).push(frame),
            _ => handed(yielded.drop_last()),
        }
    }
}

/// Whether something that was waited for says that the stream is over.
pub open spec fn is_over(polled: Polled) -> bool {
    polled is Failed || polled is Closed || (polled matches Polled::Frame(frame) && frame is End)
}

/// The frames that came before the stream was over, but for those that say that
/// it is open.
pub open spec fn pushed(turns: Seq<Turn>) -> Seq<Response>
    decreases turns.len(),
{
    if turns.len() == 0 {
        Seq::empty()
    } else {
        let before = pushed(turns.drop_last());
        if exists|i: int| 0 <= i < turns.len() && is_over((#[trigger] turns[i]).polled) {
            before
        } else {
            match turns.last().polled {
                Polled::Frame(frame) => if frame is Accepted || frame is Welcome {
                    before
                } else {
                    before.push(frame)
                },
                _ => before,
            }
        }
    }
}

/// Nothing is lost, nothing is made up and nothing changes places: over the
/// whole life of a subscription, what the consumer was handed are the frames
/// that came before its end, other than those that say that it is open.
pub proof fn consumers_get_every_frame(id: Id, window: u32, turns: Seq<Turn>)
    ensures
        handed(lived(id, window, turns).yielded) == pushed(turns),
        lived(id, window, turns).sub.done <==> exists|i: int|
            0 <= i < turns.len() && is_over((#[trigger] turns[i]).polled),
        lived(id, window, turns).sub.id == id,
    decreases turns.len(),
{
    if turns.len() > 0 {
        let less = turns.drop_last();
        let n = turns.len() - 1;
        consumers_get_every_frame(id, window, less);
        let before = lived(id, window, less);
        let past = lived(id, window, turns);
        polls_hand_on_what_they_come_to(before.sub, turns.last().polled);
        assert(past.yielded.drop_last() =~= before.yielded);
        assert(turns[n] == turns.last());
        if before.sub.done {
            let i = choose|i: int| 0 <= i < less.len() && is_over((#[trigger] less[i]).polled);
            assert(turns[i] == less[i]);
        } else if exists|i: int| 0 <= i < turns.len() && is_over((#[trigger] turns[i]).polled) {
            let i = choose|i: int| 0 <= i < turns.len() && is_over((#[trigger] turns[i]).polled);
            if i < n {
                assert(less[i] == turns[i]);
            }
            assert(i == n);
        }
    }
}

/// The records that a subscription counts are the records that it handed out.
pub open spec fn total_records(frames: Seq<Response>) -> nat
    decreases frames.len(),
{
    if frames.len() == 0 {
        0
    } else {
        total_records(frames.drop_last()) + match frames.last() {
            Response::Records { records, .. } => records@.len(),
            _ => 0,
        }
    }
}

/// What a subscription sent and still owes is what it handed out, record by
/// record, as far as that can be counted.
pub proof fn credit_covers_every_record(id: Id, window: u32, turns: Seq<Turn>)
    ensures
        lived(id, window, turns).taken == total_records(pushed(turns)),
        total_records(pushed(turns)) <= u32::MAX ==> lived(id, window, turns).granted + lived(
            id,
            window,
            turns,
        ).sub.drained == total_records(pushed(turns)),
    decreases turns.len(),
{
    subscriptions_keep_their_word(id, window, turns);
    consumers_get_every_frame(id, window, turns);
    if turns.len() > 0 {
        let less = turns.drop_last();
        credit_covers_every_record(id, window, less);
        consumers_get_every_frame(id, window, less);
        let before = lived(id, window, less);
        let past = lived(id, window, turns);
        assert(past.yielded.drop_last() =~= before.yielded);
        let y = past.yielded.last();
        if let Yield::Item(Ok(frame)) = y {
            assert(pushed(turns) == pushed(less).push(frame));
            assert(pushed(turns).drop_last() =~= pushed(less));
        }
    }
}

/// The flow never stops for want of credit: as long as none is due, fewer
/// records were drained than fit the window, so the server may still push. What
/// is due is all that was drained, and it falls due with half a window.
pub proof fn credit_falls_due_in_time(sub: Subscription)
    ensures
        sub.due() == 0 || sub.due() == sub.drained,
        sub.due() == 0 <==> sub.drained == 0 || 2 * sub.drained + 1 < sub.window,
        sub.due() == 0 && sub.window >= 1 ==> sub.drained < sub.window,
{
}

/// A grant that went out is taken off what was drained, and one that did not is
/// still owed.
pub proof fn grants_are_taken_off_once(sub: Subscription, grant: u32, sent: bool)
    ensures
        !sent ==> sub.after_grant(grant, sent) == sub,
        sent && grant <= sub.drained ==> sub.after_grant(grant, sent).drained + grant
            == sub.drained,
        sub.after_grant(grant, sent).done == sub.done,
        sub.after_grant(grant, sent).id == sub.id,
        sub.after_grant(grant, sent).window == sub.window,
{
}

/// What a subscriber observes.
#[derive(Clone, Debug, PartialEq)]
pub enum Event {
    /// One record, in version order.
    Record(Record),
    /// Versions in `(from, to]` are gone from the server's retention.
    Gap { from: Version, to: Version },
}

/// The events that a frame carries.
pub open spec fn events(frame: Response) -> Seq<Event> {
    match frame {
        Response::Records { records, .. } => Seq::new(
            records@.len(),
            |i: int| Event::Record(records@[i]),
        ),
        Response::Gap { from, to, .. } => seq![Event::Gap { from, to }],
        _ => Seq::empty(),
    }
}

/// The events that a frame carries, in order.
pub fn events_of(frame: Response) -> (r: Vec<Event>)
    ensures
        r@ == events(frame),
{
    let mut out: Vec<Event> = Vec::new();
    match frame {
        Response::Records { records, .. } => {
            let ghost all = records@;
            let mut reversed = backwards(records);
            while reversed.len() > 0
                invariant
                    out@.len() + reversed@.len() == all.len(),
                    forall|i: int|
                        0 <= i < reversed@.len() ==> #[trigger] reversed@[i] == all[all.len() - 1
                            - i],
                    forall|i: int|
                        0 <= i < out@.len() ==> #[trigger] out@[i] == Event::Record(all[i]),
                decreases reversed@.len(),
            {
                match reversed.pop() {
                    Some(record) => out.push(Event::Record(record)),
                    None => {},
                }
            }
            assert(out@ =~= Seq::new(all.len(), |i: int| Event::Record(all[i])));
        },
        Response::Gap { from, to, .. } => {
            out.push(Event::Gap { from, to });
            assert(out@ =~= seq![Event::Gap { from, to }]);
        },
        _ => {},
    }
    out
}

/// A subscriber observes every record of a frame, in order, and every gap, and
/// nothing else.
pub proof fn subscribers_observe_records_and_gaps(frame: Response)
    ensures
        frame matches Response::Records { records, .. } ==> {
            &&& events(frame).len() == records@.len()
            &&& forall|i: int|
                0 <= i < records@.len() ==> #[trigger] events(frame)[i] == Event::Record(
                    records@[i],
                )
        },
        frame matches Response::Gap { from, to, .. } ==> events(frame).len() == 1 && events(
            frame,
        )[0] == (Event::Gap { from, to }),
        !(frame is Records || frame is Gap) ==> events(frame).len() == 0,
{
}

} // verus!
