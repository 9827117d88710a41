//! A pool of connections to the server under load: which acknowledgements are
//! owed on them, and what each phase of a run takes for an answer.

use super::error::Error;
use super::fault::Fault;
use crate::proto::{Id, Request, Response};
use crate::text::same;
use std::collections::{HashMap, HashSet};
use vstd::prelude::*;

verus! {

/// The id of every request outside the load itself.
pub const CONTROL: u64 = 0xffff_ffff_ffff_fffe;

/// What is owed on each connection.
#[verifier::ext_equal]
pub struct Owed {
    /// For each stream, how many acknowledgements are outstanding.
    pub confirmations: Seq<Map<u64, u64>>,
    /// The streams that were not acknowledged yet.
    pub unopened: Seq<Set<u64>>,
}

/// Whether a request is answered with an acknowledgement.
pub open spec fn confirms(request: Request) -> bool {
    request is Subscribe || request is Credit
}

impl Owed {
    pub open spec fn wf(self) -> bool {
        self.confirmations.len() == self.unopened.len()
    }

    pub open spec fn count(self, peer: int, id: u64) -> u64 {
        if self.confirmations[peer].contains_key(id) {
            self.confirmations[peer][id]
        } else {
            0
        }
    }

    pub open spec fn with_count(self, peer: int, id: u64, n: u64) -> Owed {
        Owed {
            confirmations: self.confirmations.update(
                peer,
                self.confirmations[peer].insert(id, n),
            ),
            ..self
        }
    }

    /// After a request goes out on connection `peer`.
    pub open spec fn expecting(self, peer: int, request: Request) -> Owed {
        let id = request.id();
        if !confirms(request) {
            self
        } else {
            let n = self.count(peer, id);
            let more = self.with_count(
                peer,
                id,
                if n < u64::MAX {
                    (n + 1) as u64
                } else {
                    n
                },
            );
            if request is Subscribe {
                Owed {
                    unopened: self.unopened.update(peer, self.unopened[peer].insert(id)),
                    ..more
                }
            } else {
                more
            }
        }
    }

    /// After a frame came in on connection `peer`, and what it is then.
    pub open spec fn hearing(self, peer: int, response: Response) -> (
        Owed,
        Result<Response, Fault>,
    ) {
        match response {
            Response::Error { id, code, message } => (
                self,
                Err(Fault::Server { peer: peer as usize, id, code, message }),
            ),
            Response::Accepted { id } => if !self.confirmations[peer].contains_key(id) {
                (self, Err(Fault::UnexpectedOk { peer: peer as usize, id }))
            } else if self.confirmations[peer][id] == 0 {
                (self, Err(Fault::DuplicateOk { peer: peer as usize, id }))
            } else {
                let less = self.with_count(peer, id, (self.confirmations[peer][id] - 1) as u64);
                (
                    Owed {
                        unopened: self.unopened.update(peer, self.unopened[peer].remove(id)),
                        ..less
                    },
                    Ok(response),
                )
            },
            Response::Records { id, .. } => if self.unopened[peer].contains(id) {
                (self, Err(Fault::Unacknowledged { id }))
            } else {
                (self, Ok(response))
            },
            _ => (self, Ok(response)),
        }
    }

    /// Whether no acknowledgement is outstanding.
    pub open spec fn settled(self) -> bool {
        forall|peer: int, id: u64|
            0 <= peer < self.confirmations.len() ==> #[trigger] self.count(peer, id) == 0
    }
}

/// The acknowledgements owed on a pool of connections.
pub struct Desk {
    confirmations: Vec<HashMap<u64, u64>>,
    unopened: Vec<HashSet<u64>>,
}

impl Desk {
    pub closed spec fn view(&self) -> Owed {
        Owed {
            confirmations: Seq::new(
                self.confirmations@.len(),
                |i: int| self.confirmations@[i]@,
            ),
            unopened: Seq::new(self.unopened@.len(), |i: int| self.unopened@[i]@),
        }
    }

    pub open spec fn peers(&self) -> nat {
        self@.confirmations.len()
    }

    pub fn new(peers: usize) -> (r: Self)
        ensures
            r@.wf(),
            r.peers() == peers,
            r@.settled(),
            forall|i: int| 0 <= i < peers ==> (#[trigger] r@.confirmations[i]) == Map::<
                u64,
                u64,
            >::empty() && r@.unopened[i] == Set::<u64>::empty(),
    {
        let mut confirmations: Vec<HashMap<u64, u64>> = Vec::new();
        let mut unopened: Vec<HashSet<u64>> = Vec::new();
        let mut i: usize = 0;
        while i < peers
            invariant
                i <= peers,
                confirmations@.len() == i,
                unopened@.len() == i,
                forall|j: int|
                    0 <= j < i ==> (#[trigger] confirmations@[j])@ == Map::<u64, u64>::empty(),
                forall|j: int| 0 <= j < i ==> (#[trigger] unopened@[j])@ == Set::<u64>::empty(),
            decreases peers - i,
        {
            confirmations.push(HashMap::new());
            unopened.push(HashSet::new());
            i += 1;
        }
        Desk { confirmations, unopened }
    }

    /// A request is about to go out on connection `peer`.
    pub fn expect(&mut self, peer: usize, request: &Request)
        requires
            old(self)@.wf(),
            peer < old(self).peers(),
        ensures
            final(self)@ == old(self)@.expecting(peer as int, *request),
            final(self)@.wf(),
    {
        let ghost before = self@;
        let opens = matches!(request, Request::Subscribe { .. });
        if !opens && !matches!(request, Request::Credit { .. }) {
            return;
        }
        let id = request.id();
        let n: u64 = match self.confirmations[peer].get(&id) {
            Some(n) => *n,
            None => 0,
        };
        assert(n == before.count(peer as int, id));
        let more = n.saturating_add(1);
        let mut map: HashMap<u64, u64> = HashMap::new();
        std::mem::swap(&mut map, &mut self.confirmations[peer]);
        map.insert(id, more);
        self.confirmations[peer] = map;
        if opens {
            let mut set: HashSet<u64> = HashSet::new();
            std::mem::swap(&mut set, &mut self.unopened[peer]);
            set.insert(id);
            self.unopened[peer] = set;
        }
        assert(self@ =~= before.expecting(peer as int, *request));
    }

    /// Something came in on connection `peer`.
    pub fn next(&mut self, peer: usize, event: Result<Response, Error>) -> (r: Result<
        Response,
        Fault,
    >)
        requires
            old(self)@.wf(),
            peer < old(self).peers(),
        ensures
            final(self)@.wf(),
            match event {
                Ok(response) => (final(self)@, r) == old(self)@.hearing(peer as int, response),
                Err(e) => final(self)@ == old(self)@ && r == Err::<Response, Fault>(
                    Fault::Connection { peer, why: e.message },
                ),
            },
    {
        let ghost before = self@;
        let response = match event {
            Ok(response) => response,
            Err(e) => return Err(Fault::Connection { peer, why: e.message }),
        };
        match response {
            Response::Error { id, code, message } => Err(
                Fault::Server { peer, id, code, message },
            ),
            Response::Accepted { id } => {
                let n: u64 = match self.confirmations[peer].get(&id) {
                    Some(n) => *n,
                    None => return Err(Fault::UnexpectedOk { peer, id }),
                };
                if n == 0 {
                    return Err(Fault::DuplicateOk { peer, id });
                }
                let mut map: HashMap<u64, u64> = HashMap::new();
                std::mem::swap(&mut map, &mut self.confirmations[peer]);
                map.insert(id, n - 1);
                self.confirmations[peer] = map;
                let mut set: HashSet<u64> = HashSet::new();
                std::mem::swap(&mut set, &mut self.unopened[peer]);
                set.remove(&id);
                self.unopened[peer] = set;
                assert(self@ =~= before.hearing(peer as int, response).0);
                Ok(Response::Accepted { id })
            },
            Response::Records { id, records } => {
                if self.unopened[peer].contains(&id) {
                    return Err(Fault::Unacknowledged { id });
                }
                Ok(Response::Records { id, records })
            },
            other => Ok(other),
        }
    }

    /// Whether no acknowledgement is outstanding.
    pub fn settled(&self) -> (r: bool)
        requires
            self@.wf(),
        ensures
            r == self@.settled(),
    {
        let mut peer: usize = 0;
        while peer < self.confirmations.len()
            invariant
                peer <= self.confirmations@.len(),
                forall|p: int, id: u64| 0 <= p < peer ==> #[trigger] self@.count(p, id) == 0,
            decreases self.confirmations@.len() - peer,
        {
            let map = &self.confirmations[peer];
            for entry in it: map.iter()
                invariant
                    peer < self.confirmations@.len(),
                    *map == self.confirmations@[peer as int],
                    it.seq() == vstd::std_specs::iter::IteratorSpec::remaining(
                        &vstd::std_specs::hash::spec_hash_map_iter(map),
                    ),
                    forall|j: int|
                        #![trigger it.seq()[j]]
                        0 <= j < it.index() ==> *it.seq()[j].1 == 0,
            {
                let (id, n) = entry;
                assert(map@.contains_key(*id) && map@[*id] == *n);
                if *n > 0 {
                    assert(self@.count(peer as int, *id) == *n);
                    return false;
                }
            }
            assert forall|id: u64| #[trigger] self@.count(peer as int, id) == 0 by {
                if map@.contains_key(id) {
                    let seq = vstd::std_specs::iter::IteratorSpec::remaining(
                        &vstd::std_specs::hash::spec_hash_map_iter(map),
                    );
                    assert(seq.contains((&id, &map@[id])));
                }
            }
            peer += 1;
        }
        true
    }
}

/// Nothing is acknowledged twice: after as many acknowledgements of a stream
/// as it was owed, one more is refused.
pub proof fn acknowledgements_are_counted(owed: Owed, peer: int, id: u64)
    requires
        owed.wf(),
        0 <= peer < owed.confirmations.len(),
        peer <= usize::MAX,
    ensures
        ({
            let (after, r) = owed.hearing(peer, Response::Accepted { id });
            &&& r is Ok <==> owed.count(peer, id) > 0
            &&& r is Ok ==> after.count(peer, id) == owed.count(peer, id) - 1
            &&& r is Err ==> after == owed
        }),
{
}

/// No stream is listened to before it was acknowledged: records on one that
/// was just opened are refused, until its acknowledgement came.
pub proof fn streams_open_before_they_push(
    owed: Owed,
    peer: int,
    request: Request,
    records: Vec<crate::proto::Record>,
)
    requires
        owed.wf(),
        0 <= peer < owed.confirmations.len(),
        peer <= usize::MAX,
        request is Subscribe,
    ensures
        ({
            let id = request.id();
            let opened = owed.expecting(peer, request);
            let push = Response::Records { id, records };
            &&& opened.hearing(peer, push).1 == Err::<Response, Fault>(Fault::Unacknowledged { id })
            &&& opened.hearing(peer, Response::Accepted { id }).0.hearing(peer, push).1 == Ok::<
                Response,
                Fault,
            >(push)
        }),
{
}

// ---------------------------------------------------------------------
// One question at a time.

/// A request outside the load, and what answers it.
#[derive(Clone, Copy, Debug, PartialEq, Eq, Structural)]
pub struct Control {
    pub id: Id,
    /// Whether an acknowledgement is the answer.
    pub confirms: bool,
}

impl Control {
    pub fn begin(request: &Request) -> (r: Self)
        ensures
            r == (Control { id: request.id(), confirms: confirms(*request) }),
    {
        Control {
            id: request.id(),
            confirms: matches!(request, Request::Subscribe { .. } | Request::Credit { .. }),
        }
    }

    pub open spec fn answered_by(self, response: Response) -> bool {
        response.id() == self.id && (self.confirms || !(response is Accepted))
    }

    pub open spec fn judged(self, response: Response) -> Result<Option<Response>, Fault> {
        if self.answered_by(response) {
            Ok(Some(response))
        } else if response is Pong || response is Accepted {
            Ok(None)
        } else {
            Err(Fault::Control { reply: response })
        }
    }

    /// The answer, if this is it. Stray pongs and acknowledgements are passed
    /// over, anything else is out of place.
    pub fn judge(&self, response: Response) -> (r: Result<Option<Response>, Fault>)
        ensures
            r == self.judged(response),
    {
        let quiet = matches!(response, Response::Accepted { .. });
        if response.id() == self.id && (self.confirms || !quiet) {
            return Ok(Some(response));
        }
        if quiet || matches!(response, Response::Pong { .. }) {
            return Ok(None);
        }
        Err(Fault::Control { reply: response })
    }
}

/// The request that creates a plain log.
pub fn creation(name: &String) -> (r: Request)
    ensures
        r == (Request::Create { id: CONTROL, log: *name, reducible: false }),
{
    Request::Create { id: CONTROL, log: name.clone(), reducible: false }
}

/// Whether a reply says that the plain log `name` is there.
pub open spec fn says_created(name: Seq<char>, reply: Response) -> bool {
    reply is Logs && reply->logs@.len() == 1 && reply->logs@[0].name@ == name
        && !reply->logs@[0].reducible
}

pub fn created(name: &String, reply: Response) -> (r: Result<(), Fault>)
    ensures
        r == if says_created(name@, reply) {
            Ok::<(), Fault>(())
        } else {
            Err(Fault::Create { name: *name, reply })
        },
{
    match &reply {
        Response::Logs { logs, .. } => {
            if logs.len() == 1 && same(logs[0].name.as_str(), name.as_str())
                && !logs[0].reducible {
                return Ok(());
            }
        },
        _ => {},
    }
    Err(Fault::Create { name: name.clone(), reply })
}

// ---------------------------------------------------------------------
// Is everyone there?

/// The connections that are still waited for after this came in on `peer`, and
/// what it comes to.
pub open spec fn beat(waiting: Set<usize>, peer: usize, response: Response) -> (
    Set<usize>,
    Result<(), Fault>,
) {
    (
        if response == (Response::Pong { id: CONTROL }) {
            waiting.remove(peer)
        } else {
            waiting
        },
        if response is Pong || response is Accepted {
            Ok(())
        } else {
            Err(Fault::Heartbeat { reply: response })
        },
    )
}

/// The connections that have not answered a ping yet.
pub struct Heartbeat {
    waiting: HashSet<usize>,
}

impl Heartbeat {
    pub closed spec fn view(&self) -> Set<usize> {
        self.waiting@
    }

    /// Every connection is asked.
    pub fn begin(peers: usize) -> (r: Self)
        ensures
            r@.finite(),
            r@ == Set::new(|peer: usize| peer < peers),
    {
        let mut waiting: HashSet<usize> = HashSet::new();
        let mut i: usize = 0;
        while i < peers
            invariant
                i <= peers,
                waiting@.finite(),
                waiting@ =~= Set::new(|peer: usize| peer < i),
            decreases peers - i,
        {
            waiting.insert(i);
            i += 1;
        }
        Heartbeat { waiting }
    }

    /// The question.
    pub fn ping() -> (r: Request)
        ensures
            r == (Request::Ping { id: CONTROL }),
    {
        Request::Ping { id: CONTROL }
    }

    /// Something came in on connection `peer`.
    pub fn heard(&mut self, peer: usize, response: Response) -> (r: Result<(), Fault>)
        requires
            old(self)@.finite(),
        ensures
            final(self)@.finite(),
            (final(self)@, r) == beat(old(self)@, peer, response),
    {
        match response {
            Response::Pong { id } => {
                if id == CONTROL {
                    self.waiting.remove(&peer);
                }
                Ok(())
            },
            Response::Accepted { .. } => Ok(()),
            other => Err(Fault::Heartbeat { reply: other }),
        }
    }

    /// Whether every connection answered and nothing is owed on any.
    pub fn done(&self, desk: &Desk) -> (r: bool)
        requires
            self@.finite(),
            desk@.wf(),
        ensures
            r == (self@ == Set::<usize>::empty() && desk@.settled()),
    {
        if self.waiting.len() > 0 {
            return false;
        }
        assert(self@ =~= Set::empty()) by {
            self@.lemma_len0_is_empty();
        }
        desk.settled()
    }
}

// ---------------------------------------------------------------------
// What is owed, and what is heard.

/// Subscriptions and grants owe one acknowledgement each, on the connection they
/// go out on, and nothing else does; a subscription is not open until then. What
/// other streams and other connections are owed stays the same.
pub proof fn requests_owe_acknowledgements(
    owed: Owed,
    peer: int,
    request: Request,
    other: int,
    id: u64,
)
    requires
        owed.wf(),
        0 <= peer < owed.confirmations.len(),
        0 <= other < owed.confirmations.len(),
        owed.count(peer, request.id()) < u64::MAX,
    ensures
        ({
            let after = owed.expecting(peer, request);
            &&& request is Subscribe || request is Credit ==> after.count(peer, request.id())
                == owed.count(peer, request.id()) + 1
            &&& !(request is Subscribe || request is Credit) ==> after == owed
            &&& other != peer || id != request.id() ==> after.count(other, id) == owed.count(
                other,
                id,
            ) && (after.unopened[other].contains(id) <==> owed.unopened[other].contains(id))
            &&& request is Subscribe ==> after.unopened[peer].contains(request.id())
            &&& request is Credit ==> after.unopened == owed.unopened
            &&& after.wf() && after.confirmations.len() == owed.confirmations.len()
        }),
{
}

/// A frame is handed on as it is unless the server reports an error, acknowledges
/// what it does not owe, or pushes on a stream that is not open. Only an
/// acknowledgement changes what is owed, and only of its own stream on its own
/// connection.
pub proof fn frames_are_handed_on_or_refused(
    owed: Owed,
    peer: int,
    response: Response,
    other: int,
    id: u64,
)
    requires
        owed.wf(),
        0 <= peer < owed.confirmations.len(),
        0 <= other < owed.confirmations.len(),
        peer <= usize::MAX,
    ensures
        ({
            let (after, r) = owed.hearing(peer, response);
            &&& r is Ok ==> r->Ok_0 == response
            &&& r is Err <==> {
                ||| response is Error
                ||| response is Accepted && owed.count(peer, response->Accepted_id) == 0
                ||| response is Records && owed.unopened[peer].contains(response->Records_id)
            }
            &&& response is Error ==> r->Err_0 is Server && r->Err_0->Server_peer == peer
                && r->Err_0->Server_id == response->Error_id && r->Err_0->code == response->code
                && r->Err_0->message == response->message
            &&& !(response is Accepted) ==> after == owed
            &&& other != peer || (response is Accepted && id != response->Accepted_id)
                ==> after.count(other, id) == owed.count(other, id) && (
            after.unopened[other].contains(id) <==> owed.unopened[other].contains(id))
            &&& response is Accepted && r is Ok ==> !after.unopened[peer].contains(
                response->Accepted_id,
            )
        }),
{
}

/// A question outside the load is answered by what carries its id, though an
/// acknowledgement answers only what is acknowledged. Pongs and acknowledgements
/// that are no answer are passed over, and anything else is out of place.
pub proof fn questions_get_their_own_answers(control: Control, response: Response)
    ensures
        control.judged(response) matches Ok(Some(answer)) ==> answer == response && response.id()
            == control.id,
        response.id() == control.id && !(response is Accepted) ==> control.judged(response) == Ok::<
            Option<Response>,
            Fault,
        >(Some(response)),
        response is Accepted ==> (control.judged(response) == Ok::<Option<Response>, Fault>(
            Some(response),
        ) <==> response.id() == control.id && control.confirms),
        response is Accepted || response is Pong ==> control.judged(response) is Ok,
        response.id() != control.id && !(response is Accepted || response is Pong)
            ==> control.judged(response) == Err::<Option<Response>, Fault>(
            Fault::Control { reply: response },
        ),
{
}

/// A log counts as created only where the reply lists it alone, under its name, as
/// a plain one.
pub proof fn creations_are_listed(name: Seq<char>, reply: Response)
    ensures
        says_created(name, reply) ==> reply is Logs && reply->logs@.len() == 1
            && reply->logs@[0].name@ == name && reply->logs@[0].reducible == false,
        reply is Logs && reply->logs@.len() == 1 && reply->logs@[0].name@ == name
            && !reply->logs@[0].reducible ==> says_created(name, reply),
{
}

/// The connections that are still waited for after all this came in.
pub open spec fn still_waiting(
    waiting: Set<usize>,
    heard: Seq<(usize, Response)>,
) -> Set<usize>
    decreases heard.len(),
{
    if heard.len() == 0 {
        waiting
    } else {
        beat(still_waiting(waiting, heard.drop_last()), heard.last().0, heard.last().1).0
    }
}

/// A connection is waited for until its own answer came: the pong to the question,
/// and no other frame, on it, and on no other connection.
pub proof fn everyone_is_waited_for(
    waiting: Set<usize>,
    heard: Seq<(usize, Response)>,
    peer: usize,
)
    ensures
        still_waiting(waiting, heard).contains(peer) <==> waiting.contains(peer) && forall|i: int|
            0 <= i < heard.len() ==> #[trigger] heard[i] != (
                peer,
                Response::Pong { id: CONTROL },
            ),
    decreases heard.len(),
{
    if heard.len() > 0 {
        let less = heard.drop_last();
        everyone_is_waited_for(waiting, less, peer);
        assert(forall|i: int| 0 <= i < less.len() ==> less[i] == heard[i]);
        assert(heard[heard.len() - 1] == heard.last());
        if still_waiting(waiting, heard).contains(peer) {
            assert forall|i: int| 0 <= i < heard.len() implies #[trigger] heard[i] != (
                peer,
                Response::Pong { id: CONTROL },
            ) by {
                if i < less.len() {
                    assert(less[i] == heard[i]);
                }
            }
        }
    }
}

/// While everyone is waited for, nothing but pongs and acknowledgements is in
/// place.
pub proof fn heartbeats_take_pongs_and_acknowledgements(
    waiting: Set<usize>,
    peer: usize,
    response: Response,
)
    ensures
        beat(waiting, peer, response).1 is Ok <==> response is Pong || response is Accepted,
        beat(waiting, peer, response).1 is Err ==> beat(waiting, peer, response).1->Err_0 == (
        Fault::Heartbeat { reply: response }),
{
}

} // verus!
