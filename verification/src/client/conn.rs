//! One connection's multiplexer: many exchanges, one socket, one writer.

use super::error::{is_mismatch, mismatch, unpack, unpacked, Error};
use crate::proto::{Id, Request, Response, VERSION};
use std::collections::{HashMap, VecDeque};
use vstd::prelude::*;

verus! {

/// What a caller asks a connection to do. `C` is where the one reply of a
/// call goes, `S` is where the frames of a stream go.
pub enum Command<C, S> {
    /// One request, one reply, matched by id.
    Call { req: Request, reply: C },
    /// One request, many replies, until `End` or `Error`.
    Stream { req: Request, sink: S },
    /// A frame whose reply is not awaited: `Credit`, `Cancel`.
    Fire(Request),
    /// The caller gave up. Drop the waiter so the map cannot grow without
    /// bound on a server that never answers.
    Forget(Id),
}

/// Who waits for frames with some id.
pub enum Waiter<C, S> {
    Call(C),
    Stream(S),
}

/// What to do with a frame that arrived.
pub enum Delivery<C> {
    /// A reply to something already abandoned, or a stream the caller
    /// cancelled. Both are ordinary races, not errors.
    Unknown,
    /// The one reply of a call.
    Reply(C, Result<Response, Error>),
    /// The next frame of stream `id`, and whether it is the last.
    Push(Id, Result<Response, Error>, bool),
}

/// The exchanges on one connection.
pub struct Mux<C, S> {
    waiters: HashMap<u64, Waiter<C, S>>,
    pending: VecDeque<Request>,
}

/// What a multiplexer holds.
pub struct MuxView<C, S> {
    pub waiters: Map<u64, Waiter<C, S>>,
    pub pending: Seq<Request>,
}

impl<C, S> MuxView<C, S> {
    /// The state after a command.
    pub open spec fn accepted(self, cmd: Command<C, S>) -> MuxView<C, S> {
        match cmd {
            Command::Call { req, reply } => MuxView {
                waiters: self.waiters.insert(req.id(), Waiter::Call(reply)),
                pending: self.pending.push(req),
            },
            Command::Stream { req, sink } => MuxView {
                waiters: self.waiters.insert(req.id(), Waiter::Stream(sink)),
                pending: self.pending.push(req),
            },
            Command::Fire(req) => MuxView { pending: self.pending.push(req), ..self },
            Command::Forget(id) => MuxView { waiters: self.waiters.remove(id), ..self },
        }
    }

    /// The state after the next frame was written, and that frame.
    pub open spec fn sent(self) -> (MuxView<C, S>, Option<Request>) {
        if self.pending.len() == 0 {
            (self, None)
        } else {
            (MuxView { pending: self.pending.drop_first(), ..self }, Some(self.pending[0]))
        }
    }

    /// The state after a frame was handed to a stream, or could not be.
    pub open spec fn handed(self, id: Id, taken: bool, last: bool) -> MuxView<C, S> {
        if !taken || last {
            MuxView { waiters: self.waiters.remove(id), ..self }
        } else {
            self
        }
    }

    /// What a frame is to be done with, and the state after it.
    pub open spec fn delivered(self, frame: Response) -> (MuxView<C, S>, Delivery<C>) {
        let id = frame.id();
        if !self.waiters.contains_key(id) {
            (self, Delivery::Unknown)
        } else {
            match self.waiters[id] {
                Waiter::Call(reply) => (
                    MuxView { waiters: self.waiters.remove(id), ..self },
                    Delivery::Reply(reply, unpacked(frame)),
                ),
                Waiter::Stream(_) => (
                    self,
                    Delivery::Push(id, unpacked(frame), frame.is_final()),
                ),
            }
        }
    }
}

impl<C, S> Mux<C, S> {
    pub closed spec fn view(&self) -> MuxView<C, S> {
        MuxView { waiters: self.waiters@, pending: self.pending@ }
    }

    pub fn new() -> (r: Self)
        ensures
            r@ == (MuxView::<C, S> { waiters: Map::empty(), pending: Seq::empty() }),
    {
        Mux { waiters: HashMap::new(), pending: VecDeque::new() }
    }

    /// Whether another command may be taken on, where at most `cap` frames
    /// may be waiting to be written.
    pub fn has_room(&self, cap: usize) -> (r: bool)
        ensures
            r == (self@.pending.len() < cap),
    {
        self.pending.len() < cap
    }

    /// Whether a frame is waiting to be written.
    pub fn has_pending(&self) -> (r: bool)
        ensures
            r == (self@.pending.len() > 0),
    {
        self.pending.len() > 0
    }

    /// The frame to write next, in the order of the commands.
    pub fn next_out(&mut self) -> (r: Option<Request>)
        ensures
            (final(self)@, r) == old(self)@.sent(),
    {
        let ghost before = self@;
        let r = self.pending.pop_front();
        assert(before.pending.len() > 0 ==> self@.pending =~= before.pending.drop_first());
        r
    }

    pub fn accept(&mut self, cmd: Command<C, S>)
        ensures
            final(self)@ == old(self)@.accepted(cmd),
    {
        match cmd {
            Command::Call { req, reply } => {
                self.waiters.insert(req.id(), Waiter::Call(reply));
                self.pending.push_back(req);
            },
            Command::Stream { req, sink } => {
                self.waiters.insert(req.id(), Waiter::Stream(sink));
                self.pending.push_back(req);
            },
            Command::Fire(req) => self.pending.push_back(req),
            Command::Forget(id) => {
                self.waiters.remove(&id);
            },
        }
    }

    /// Where a frame goes. After a push, say with
    /// [`pushed`](Mux::pushed) how it went.
    pub fn deliver(&mut self, frame: Response) -> (r: Delivery<C>)
        ensures
            (final(self)@, r) == old(self)@.delivered(frame),
    {
        let id = frame.id();
        let last = frame.is_final();
        match self.waiters.get(&id) {
            None => return Delivery::Unknown,
            Some(Waiter::Stream(_)) => return Delivery::Push(id, unpack(frame), last),
            Some(Waiter::Call(_)) => {},
        }
        match self.waiters.remove(&id) {
            Some(Waiter::Call(reply)) => Delivery::Reply(reply, unpack(frame)),
            _ => Delivery::Unknown,
        }
    }

    /// Where the frames of stream `id` go.
    pub fn sink(&self, id: Id) -> (r: Option<&S>)
        ensures
            match r {
                Some(sink) => self@.waiters.contains_key(id) && self@.waiters[id]
                    == Waiter::<C, S>::Stream(*sink),
                None => !(self@.waiters.contains_key(id) && self@.waiters[id] is Stream),
            },
    {
        match self.waiters.get(&id) {
            Some(Waiter::Stream(sink)) => Some(sink),
            _ => None,
        }
    }

    /// A frame was handed to stream `id`, or its buffer was full. Full means
    /// the server pushed past the credit it was granted, since the buffer is
    /// sized to that window: this stream alone is dropped, and the connection
    /// keeps serving everyone else. The result says whether that happened.
    pub fn pushed(&mut self, id: Id, taken: bool, last: bool) -> (r: bool)
        ensures
            r == !taken,
            final(self)@ == old(self)@.handed(id, taken, last),
    {
        if !taken || last {
            self.waiters.remove(&id);
        }
        !taken
    }

    /// The connection is gone. Everyone who waited, to be failed at once: a
    /// caller who already knows the answer can never arrive must not sit out
    /// its own timeout.
    pub fn die(self) -> (r: Vec<(Id, Waiter<C, S>, Error)>)
        ensures
            forall|i: int|
                0 <= i < r@.len() ==> {
                    let (id, waiter, error) = #[trigger] r@[i];
                    &&& self@.waiters.contains_key(id)
                    &&& waiter == self@.waiters[id]
                    &&& error == (Error::Disconnected { id })
                },
            forall|id: u64| #[trigger]
                self@.waiters.contains_key(id) ==> exists|i: int|
                    0 <= i < r@.len() && (#[trigger] r@[i]).0 == id,
            forall|i: int, j: int|
                #![trigger r@[i], r@[j]]
                0 <= i < j < r@.len() ==> r@[i].0 != r@[j].0,
    {
        let ghost all = self.waiters@;
        let mut ids: Vec<u64> = Vec::new();
        for entry in it: self.waiters.iter()
            invariant
                all == self.waiters@,
                it.seq() == vstd::std_specs::iter::IteratorSpec::remaining(
                    &vstd::std_specs::hash::spec_hash_map_iter(&self.waiters),
                ),
                ids@.len() == it.index(),
                forall|j: int| 0 <= j < ids@.len() ==> ids@[j] == *(#[trigger] it.seq()[j]).0,
        {
            ids.push(*entry.0);
        }
        let ghost seq = vstd::std_specs::iter::IteratorSpec::remaining(
            &vstd::std_specs::hash::spec_hash_map_iter(&self.waiters),
        );
        proof {
            assert forall|i: int| 0 <= i < ids@.len() implies all.contains_key(
                #[trigger] ids@[i],
            ) by {
                assert(all.contains_key(*seq[i].0));
            }
            assert forall|id: u64| #[trigger] all.contains_key(id) implies ids@.contains(id) by {
                assert(seq.contains((&id, &all[id])));
                let k = choose|k: int| 0 <= k < seq.len() && seq[k] == (&id, &all[id]);
                assert(ids@[k] == id);
            }
            assert forall|i: int, j: int|
                #![trigger ids@[i], ids@[j]]
                0 <= i < j < ids@.len() implies ids@[i] != ids@[j] by {
                assert(all[*seq[i].0] == *seq[i].1);
                assert(all[*seq[j].0] == *seq[j].1);
                assert(seq[i] != seq[j]);
            }
        }
        let mut waiters = self.waiters;
        let mut out: Vec<(Id, Waiter<C, S>, Error)> = Vec::new();
        let mut i: usize = 0;
        while i < ids.len()
            invariant
                i <= ids@.len(),
                out@.len() == i,
                forall|j: int| 0 <= j < ids@.len() ==> all.contains_key(#[trigger] ids@[j]),
                forall|j: int, k: int|
                    #![trigger ids@[j], ids@[k]]
                    0 <= j < k < ids@.len() ==> ids@[j] != ids@[k],
                forall|j: int|
                    i <= j < ids@.len() ==> waiters@.contains_key(#[trigger] ids@[j])
                        && waiters@[ids@[j]] == all[ids@[j]],
                forall|j: int|
                    0 <= j < i ==> (#[trigger] out@[j]).0 == ids@[j] && out@[j].1 == all[ids@[j]]
                        && out@[j].2 == (Error::Disconnected { id: ids@[j] }),
            decreases ids@.len() - i,
        {
            let id = ids[i];
            match waiters.remove(&id) {
                Some(waiter) => out.push((id, waiter, Error::Disconnected { id })),
                None => {},
            }
            i += 1;
        }
        proof {
            assert forall|id: u64| #[trigger] all.contains_key(id) implies exists|i: int|
                0 <= i < out@.len() && (#[trigger] out@[i]).0 == id by {
                assert(ids@.contains(id));
                let k = choose|k: int| 0 <= k < ids@.len() && ids@[k] == id;
                assert(out@[k].0 == id);
            }
        }
        out
    }
}

/// The first frame on a connection that has one.
pub fn hello(id: Id) -> (r: Request)
    ensures
        r == (Request::Hello { id, version: VERSION }),
{
    Request::Hello { id, version: VERSION }
}

pub open spec fn greeted(id: Id, answer: Option<Response>, r: Result<u16, Error>) -> bool {
    match answer {
        None => r is Err && r->Err_0 == (Error::Disconnected { id }),
        Some(Response::Welcome { version, .. }) => r == Ok::<u16, Error>(version),
        Some(Response::Error { id: refused, code, message }) => r is Err && r->Err_0 == (
        Error::Server { id: refused, code, message }),
        Some(other) => r is Err && is_mismatch(r->Err_0, id, "welcome"@, other),
    }
}

/// What answers a greeting sent as `id`; `None` where the connection closed
/// instead. A server of another protocol version is taken as it is: the
/// result says which one it speaks.
///
/// Anything else arriving first is a protocol violation, since no other
/// exchange exists yet on this connection.
pub fn handshake(id: Id, answer: Option<Response>) -> (r: Result<u16, Error>)
    ensures
        greeted(id, answer, r),
{
    match answer {
        None => Err(Error::Disconnected { id }),
        Some(Response::Welcome { version, .. }) => Ok(version),
        Some(Response::Error { id, code, message }) => Err(Error::from_frame(id, code, message)),
        Some(other) => Err(mismatch(id, "welcome", &other)),
    }
}

/// A call is answered at most once: the frame that answers it takes its
/// waiter away, and a second one finds nobody.
pub proof fn calls_are_answered_once<C, S>(
    mux: MuxView<C, S>,
    frame: Response,
    again: Response,
)
    requires
        mux.delivered(frame).1 is Reply,
        again.id() == frame.id(),
    ensures
        mux.delivered(frame).0.delivered(again).1 is Unknown,
{
}

/// Frames leave in the order in which they were asked for, and nothing that
/// arrives in between changes it.
pub proof fn frames_leave_in_order<C, S>(
    mux: MuxView<C, S>,
    cmd: Command<C, S>,
    frame: Response,
)
    ensures
        mux.pending.is_prefix_of(mux.accepted(cmd).pending),
        mux.delivered(frame).0.pending == mux.pending,
{
}

/// What one exchange is told does not depend on any other: a frame touches
/// the waiter of its own id and no other.
pub proof fn exchanges_do_not_disturb_each_other<C, S>(
    mux: MuxView<C, S>,
    frame: Response,
    other: u64,
)
    requires
        other != frame.id(),
    ensures
        mux.delivered(frame).0.waiters.contains_key(other) == mux.waiters.contains_key(other),
        mux.waiters.contains_key(other) ==> mux.delivered(frame).0.waiters[other]
            == mux.waiters[other],
{
}

/// A call gets the frame that answers it: of the frames that come with its id the
/// first is its reply, as it is, or as the error that it says.
pub proof fn calls_get_their_replies<C, S>(
    mux: MuxView<C, S>,
    req: Request,
    reply: C,
    frame: Response,
)
    requires
        frame.id() == req.id(),
    ensures
        ({
            let (after, delivery) = mux.accepted(Command::Call { req, reply }).delivered(frame);
            &&& delivery matches Delivery::Reply(to, result) && to == reply && match frame {
                Response::Error { id, code, message } => result == Err::<Response, Error>(
                    Error::Server { id, code, message },
                ),
                _ => result == Ok::<Response, Error>(frame),
            }
            &&& !after.waiters.contains_key(req.id())
        }),
{
}

/// A stream gets every frame that comes with its id, until it is told that one of
/// them was the last, could not take one, or was forgotten. The last are an end
/// and an error.
pub proof fn streams_get_their_frames<C, S>(
    mux: MuxView<C, S>,
    req: Request,
    sink: S,
    frame: Response,
    again: Response,
)
    requires
        frame.id() == req.id(),
        again.id() == req.id(),
    ensures
        ({
            let open = mux.accepted(Command::Stream { req, sink });
            let (after, delivery) = open.delivered(frame);
            &&& after == open
            &&& delivery matches Delivery::Push(id, result, last) && id == req.id() && (last <==> (
            frame is End || frame is Error)) && match frame {
                Response::Error { id, code, message } => result == Err::<Response, Error>(
                    Error::Server { id, code, message },
                ),
                _ => result == Ok::<Response, Error>(frame),
            }
            &&& after.handed(req.id(), true, false).delivered(again).1 is Push
            &&& after.handed(req.id(), true, true).delivered(again).1 is Unknown
            &&& after.handed(req.id(), false, false).delivered(again).1 is Unknown
            &&& after.accepted(Command::Forget(req.id())).delivered(again).1 is Unknown
        }),
{
}

/// Every command but one to forget is written, after all that were before it, and
/// as it was given; a command to forget writes nothing. What is written is what
/// was asked for first.
pub proof fn commands_are_written_once<C, S>(mux: MuxView<C, S>, cmd: Command<C, S>)
    ensures
        cmd matches Command::Call { req, .. } ==> mux.accepted(cmd).pending == mux.pending.push(
            req,
        ),
        cmd matches Command::Stream { req, .. } ==> mux.accepted(cmd).pending == mux.pending.push(
            req,
        ),
        cmd matches Command::Fire(req) ==> mux.accepted(cmd).pending == mux.pending.push(req)
            && mux.accepted(cmd).waiters == mux.waiters,
        cmd is Forget ==> mux.accepted(cmd).pending == mux.pending,
        mux.sent().0.waiters == mux.waiters,
        mux.pending.len() == 0 ==> mux.sent().1 is None && mux.sent().0 == mux,
        mux.pending.len() > 0 ==> mux.sent().1 is Some && seq![mux.sent().1->0]
            + mux.sent().0.pending == mux.pending,
{
    if mux.pending.len() > 0 {
        assert(seq![mux.sent().1->0] + mux.sent().0.pending =~= mux.pending);
    }
}

/// A command touches the waiter of its own id and no other.
pub proof fn commands_do_not_disturb_each_other<C, S>(
    mux: MuxView<C, S>,
    cmd: Command<C, S>,
    id: Id,
    other: u64,
)
    requires
        cmd matches Command::Call { req, .. } ==> req.id() != other,
        cmd matches Command::Stream { req, .. } ==> req.id() != other,
        cmd matches Command::Forget(gone) ==> gone != other,
        id != other,
    ensures
        mux.accepted(cmd).waiters.contains_key(other) == mux.waiters.contains_key(other),
        mux.waiters.contains_key(other) ==> mux.accepted(cmd).waiters[other]
            == mux.waiters[other],
        forall|taken: bool, last: bool| #[trigger]
            mux.handed(id, taken, last).waiters.contains_key(other) == mux.waiters.contains_key(
                other,
            ),
        forall|taken: bool, last: bool|
            mux.waiters.contains_key(other) ==> (#[trigger] mux.handed(
                id,
                taken,
                last,
            )).waiters[other] == mux.waiters[other],
{
}

/// A greeting is answered by a welcome, whatever version that speaks, and by
/// nothing else: an error is the server's refusal, and a connection that closes is
/// lost.
pub proof fn only_welcomes_answer_greetings(
    id: Id,
    answer: Option<Response>,
    r: Result<u16, Error>,
)
    requires
        greeted(id, answer, r),
    ensures
        r is Ok <==> answer is Some && answer->0 is Welcome,
        r is Ok ==> r->Ok_0 == answer->0->Welcome_version,
        answer is None ==> r->Err_0 is Disconnected,
        answer is Some && answer->0 is Error ==> r->Err_0 is Server && r->Err_0->Server_code
            == answer->0->code && r->Err_0->Server_message == answer->0->message,
{
}

} // verus!
