//! Durable backing for a log.

use super::reducible::Versioned;
use super::Version;
use crate::proto::buffer::content;
use bytes::Bytes;
use vstd::prelude::*;

verus! {

/// One encoded patch at the version it minted.
pub struct Record {
    pub version: Version,
    pub patch: Bytes,
}

/// A record, by what it says.
pub type Entry = (Version, Seq<u8>);

impl Record {
    pub open spec fn view(&self) -> (Version, Seq<u8>) {
        (self.version, content(self.patch))
    }
}

pub open spec fn entries(records: Seq<Record>) -> Seq<(Version, Seq<u8>)> {
    Seq::new(records.len(), |i: int| records[i]@)
}

/// The entries above a version, in their order.
pub open spec fn above(entries: Seq<(Version, Seq<u8>)>, version: int) -> Seq<(Version, Seq<u8>)> {
    entries.filter(|e: (Version, Seq<u8>)| e.0 > version)
}

/// What a cold start found on disk.
pub struct Recovered<V> {
    /// The checkpointed pointer, if a header was written. `None` means replay
    /// from the structure's own zero value.
    pub header: Option<V>,
    /// Records after the checkpoint, in version order, contiguous.
    pub tail: Vec<Record>,
}

impl<V> Default for Recovered<V> {
    fn default() -> (r: Self)
        ensures
            r.header is None,
            r.tail@.len() == 0,
    {
        Recovered { header: None, tail: Vec::new() }
    }
}

/// What was asked of a store, and what went wrong with it, if anything did.
pub enum Request<M, E> {
    Write(Seq<(Version, Seq<u8>)>, Option<E>),
    Header(M, Option<E>),
    Sync(Option<E>),
}

/// What went wrong, if anything did.
pub open spec fn fault<T, E>(answer: Result<T, E>) -> Option<E> {
    match answer {
        Ok(_) => None,
        Err(e) => Some(e),
    }
}

/// Durable backing for a log.
///
/// Parameterized on the view type its data structure produces, because
/// [`write_header`](Storage::write_header) checkpoints exactly that pointer.
/// A header lets recovery skip the records it covers; without one, every
/// record must be replayed.
///
/// Nothing here promises durability except [`sync`](Storage::sync). `append`
/// may return before the bytes leave the page cache, which is what makes
/// group commit possible.
pub trait Storage: Sized {
    type View: Versioned;

    type Error;

    /// Everything that was ever asked of this store to change, in order, each
    /// with its answer.
    closed spec fn asked(&self) -> Seq<Request<<Self::View as Versioned>::Model, Self::Error>> {
        arbitrary()
    }

    /// Whether what is appended is kept at all.
    closed spec fn keeps(&self) -> bool {
        arbitrary()
    }

    /// The records that are recoverable.
    closed spec fn held(&self) -> Seq<(Version, Seq<u8>)> {
        arbitrary()
    }

    /// The last checkpoint.
    closed spec fn checkpointed(&self) -> Option<<Self::View as Versioned>::Model> {
        arbitrary()
    }

    /// The oldest version still readable.
    closed spec fn floor(&self) -> Version {
        arbitrary()
    }

    /// Append records in version order.
    ///
    /// Atomicity is over a *prefix*, not the whole call. On `Ok`, every record
    /// is recoverable. On `Err`, the store is left exactly as it was before the
    /// call, as observed through [`load`](Storage::load) and
    /// [`read_after`](Storage::read_after).
    fn append(&mut self, records: &[Record]) -> (r: Result<(), Self::Error>)
        ensures
            final(self).asked() == old(self).asked().push(
                Request::Write(entries(records@), fault(r)),
            ),
            final(self).keeps() == old(self).keeps(),
            final(self).checkpointed() == old(self).checkpointed(),
            final(self).held() == if r is Ok && old(self).keeps() {
                old(self).held() + entries(records@)
            } else {
                old(self).held()
            },
    ;

    /// Checkpoint the MVCC pointer. Records at or below its version become
    /// eligible for reclamation.
    fn write_header(&mut self, view: &Self::View) -> (r: Result<(), Self::Error>)
        ensures
            final(self).asked() == old(self).asked().push(Request::Header(view.model(), fault(r))),
            final(self).keeps() == old(self).keeps(),
            r is Ok && old(self).keeps() ==> {
                &&& final(self).checkpointed() == Some(view.model())
                &&& above(final(self).held(), Self::View::number(view.model()) as int) == above(
                    old(self).held(),
                    Self::View::number(view.model()) as int,
                )
            },
    ;

    /// Flush to stable storage. Returns once the bytes survive power loss.
    fn sync(&mut self) -> (r: Result<(), Self::Error>)
        ensures
            final(self).asked() == old(self).asked().push(Request::Sync(fault(r))),
            final(self).keeps() == old(self).keeps(),
            final(self).held() == old(self).held(),
            final(self).checkpointed() == old(self).checkpointed(),
    ;

    /// Read what a cold start should replay.
    fn load(&mut self) -> (r: Result<Recovered<Self::View>, Self::Error>)
        ensures
            final(self).asked() == old(self).asked(),
            final(self).keeps() == old(self).keeps(),
            final(self).held() == old(self).held(),
            final(self).checkpointed() == old(self).checkpointed(),
            match r {
                Ok(found) => {
                    &&& match found.header {
                        Some(view) => old(self).checkpointed() == Some(view.model()),
                        None => old(self).checkpointed() is None,
                    }
                    &&& entries(found.tail@) == above(
                        old(self).held(),
                        match old(self).checkpointed() {
                            Some(model) => Self::View::number(model) as int,
                            None => -1,
                        },
                    )
                },
                Err(e) => true,
            },
    ;

    /// Records in `(after, after + limit]`, for subscribers that fell behind
    /// the in-memory ring. Returns fewer than `limit` at the end of the log.
    fn read_after(&self, after: Version, limit: usize) -> (r: Result<Vec<Record>, Self::Error>)
        ensures
            r is Ok ==> entries(r->Ok_0@) == {
                let rest = above(self.held(), after as int);
                rest.take(
                    if limit < rest.len() {
                        limit as int
                    } else {
                        rest.len() as int
                    },
                )
            },
    ;

    /// Oldest version still readable. Anything below has been reclaimed.
    fn oldest(&self) -> (r: Version)
        ensures
            r == self.floor(),
    ;
}

/// Storage that forgets. Every append is accepted and discarded; recovery
/// always reports an empty log.
pub struct Discard<V: Versioned> {
    asked: Ghost<Seq<Request<V::Model, Never>>>,
}

impl<V: Versioned> Discard<V> {
    pub closed spec fn trace(&self) -> Seq<Request<V::Model, Never>> {
        self.asked@
    }

    pub fn new() -> (r: Self)
        ensures
            r.asked() == Seq::<Request<V::Model, Never>>::empty(),
    {
        Discard { asked: Ghost(Seq::empty()) }
    }
}

impl<V: Versioned> Default for Discard<V> {
    fn default() -> (r: Self)
        ensures
            r.asked() == Seq::<Request<V::Model, Never>>::empty(),
    {
        Discard::new()
    }
}

/// What cannot happen.
#[derive(Clone, Copy, Debug, PartialEq, Eq, Structural)]
pub struct Never {}

impl<V: Versioned> Storage for Discard<V> {
    type View = V;

    type Error = Never;

    open spec fn asked(&self) -> Seq<Request<V::Model, Never>> {
        self.trace()
    }

    open spec fn keeps(&self) -> bool {
        false
    }

    open spec fn held(&self) -> Seq<(Version, Seq<u8>)> {
        Seq::empty()
    }

    open spec fn checkpointed(&self) -> Option<V::Model> {
        None
    }

    open spec fn floor(&self) -> Version {
        0
    }

    fn append(&mut self, records: &[Record]) -> (r: Result<(), Never>)
        ensures
            r is Ok,
            final(self).asked() == old(self).asked().push(Request::Write(entries(records@), None)),
            final(self).keeps() == old(self).keeps(),
            final(self).held() == old(self).held(),
            final(self).checkpointed() == old(self).checkpointed(),
    {
        self.asked = Ghost(self.asked@.push(Request::Write(entries(records@), None)));
        Ok(())
    }

    fn write_header(&mut self, view: &V) -> (r: Result<(), Never>)
        ensures
            r is Ok,
            final(self).asked() == old(self).asked().push(Request::Header(view.model(), None)),
            final(self).keeps() == old(self).keeps(),
    {
        self.asked = Ghost(self.asked@.push(Request::Header(view.model(), None)));
        Ok(())
    }

    fn sync(&mut self) -> (r: Result<(), Never>)
        ensures
            r is Ok,
            final(self).asked() == old(self).asked().push(Request::Sync(None)),
            final(self).keeps() == old(self).keeps(),
            final(self).held() == old(self).held(),
            final(self).checkpointed() == old(self).checkpointed(),
    {
        self.asked = Ghost(self.asked@.push(Request::Sync(None)));
        Ok(())
    }

    fn load(&mut self) -> (r: Result<Recovered<V>, Never>)
        ensures
            r is Ok,
            r->Ok_0.header is None,
            r->Ok_0.tail@.len() == 0,
            old(self).checkpointed() is None,
            old(self).held().len() == 0,
    {
        let found: Recovered<V> = Recovered::default();
        assert(entries(found.tail@) =~= above(self.held(), -1)) by {
            reveal(Seq::filter);
        }
        Ok(found)
    }

    fn read_after(&self, after: Version, limit: usize) -> (r: Result<Vec<Record>, Never>)
        ensures
            r is Ok,
            r->Ok_0@.len() == 0,
            self.held().len() == 0,
    {
        let none: Vec<Record> = Vec::new();
        assert(above(self.held(), after as int) =~= Seq::empty()) by {
            reveal(Seq::filter);
        }
        assert(entries(none@) =~= Seq::empty());
        Ok(none)
    }

    fn oldest(&self) -> (r: Version)
        ensures
            r == self.floor(),
    {
        0
    }
}

} // verus!
