//! A [`Reducible`] made durable by a [`Storage`].

use super::reducible::{Outcome, Reducible, Versioned};
use super::storage::{above, entries, fault, Record, Recovered, Request, Storage};
use super::{Error, Version};
use crate::json::{Json, JsonView};
use crate::list::backwards;
use crate::proto::buffer::to_bytes;
use vstd::prelude::*;

verus! {

/// How far an append must get before it is acknowledged.
#[derive(Clone, Copy, Debug, PartialEq, Eq, Structural)]
pub enum Durability {
    /// Acknowledge once the version exists in memory. Survives nothing.
    Memory,
    /// Acknowledge once the record reached the kernel. Survives a process
    /// crash, not a power cut.
    Written,
    /// Acknowledge once the record is on stable storage.
    Durable,
}

impl Default for Durability {
    fn default() -> (r: Self)
        ensures
            r == Durability::Written,
    {
        Durability::Written
    }
}

/// A patch, and what it is written down as, or why it cannot be.
pub struct Coded<P, C> {
    pub patch: P,
    pub bytes: Result<Vec<u8>, C>,
}

impl<P, C> Coded<P, C> {
    pub open spec fn view(&self) -> (P, Result<Seq<u8>, C>) {
        (
            self.patch,
            match self.bytes {
                Ok(bytes) => Ok(bytes@),
                Err(e) => Err(e),
            },
        )
    }
}

pub open spec fn coded<P, C>(patches: Seq<Coded<P, C>>) -> Seq<(P, Result<Seq<u8>, C>)> {
    Seq::new(patches.len(), |i: int| patches[i]@)
}

/// What records say, to someone who takes bytes for what `meaning` says.
pub open spec fn read<P, C>(
    records: Seq<(Version, Seq<u8>)>,
    meaning: spec_fn(Seq<u8>) -> Result<P, C>,
) -> Seq<(Version, Result<P, C>)> {
    Seq::new(records.len(), |i: int| (records[i].0, meaning(records[i].1)))
}

/// Every patch that could be written down is read back as it was.
pub open spec fn faithful<P, C>(
    patches: Seq<(P, Result<Seq<u8>, C>)>,
    meaning: spec_fn(Seq<u8>) -> Result<P, C>,
) -> bool {
    forall|i: int|
        0 <= i < patches.len() && (#[trigger] patches[i]).1 is Ok ==> meaning(patches[i].1->Ok_0)
            == Ok::<P, C>(patches[i].0)
}

/// What folding a batch comes to.
#[verifier::ext_equal]
pub enum Fold<M, D, C> {
    /// The state after each patch, the records of those that minted a
    /// version, and the last state.
    Done { views: Seq<M>, records: Seq<(Version, Seq<u8>)>, last: M },
    Rejected(D),
    Uncoded(C),
}

/// The first patch that cannot be written down or is refused ends a batch.
pub open spec fn fold<D: Reducible, C>(
    start: <D::View as Versioned>::Model,
    patches: Seq<(D::Patch, Result<Seq<u8>, C>)>,
) -> Fold<<D::View as Versioned>::Model, D::Error, C>
    decreases patches.len(),
{
    if patches.len() == 0 {
        Fold::Done { views: Seq::empty(), records: Seq::empty(), last: start }
    } else {
        match fold::<D, C>(start, patches.drop_last()) {
            Fold::Done { views, records, last } => match patches.last().1 {
                Err(e) => Fold::Uncoded(e),
                Ok(bytes) => match D::step(last, patches.last().0) {
                    Outcome::Changed(next) => Fold::Done {
                        views: views.push(next),
                        records: records.push((D::View::number(next), bytes)),
                        last: next,
                    },
                    Outcome::Unchanged => Fold::Done { views: views.push(last), records, last },
                    Outcome::Refused(e) => Fold::Rejected(e),
                },
            },
            stopped => stopped,
        }
    }
}

/// What replaying records comes to: the last state, or why not.
pub open spec fn replay<D: Reducible, C, S>(
    start: <D::View as Versioned>::Model,
    records: Seq<(Version, Result<D::Patch, C>)>,
) -> Result<<D::View as Versioned>::Model, Error<D::Error, S, C>>
    decreases records.len(),
{
    if records.len() == 0 {
        Ok(start)
    } else {
        match replay::<D, C, S>(start, records.drop_last()) {
            Err(e) => Err(e),
            Ok(last) => match records.last().1 {
                Err(e) => Err(Error::Codec(e)),
                Ok(patch) => match D::step(last, patch) {
                    Outcome::Refused(e) => Err(Error::Data(e)),
                    Outcome::Changed(next) => if D::View::number(next) == records.last().0 {
                        Ok(next)
                    } else {
                        Err(
                            Error::Version {
                                expected: records.last().0,
                                actual: D::View::number(next),
                            },
                        )
                    },
                    Outcome::Unchanged => if records.last().0 == 0 {
                        Ok(last)
                    } else {
                        Err(Error::Version { expected: records.last().0, actual: 0 })
                    },
                },
            },
        }
    }
}

/// The state after each of the records that are replayed.
pub open spec fn states<D: Reducible, C, S>(
    start: <D::View as Versioned>::Model,
    records: Seq<(Version, Result<D::Patch, C>)>,
) -> Seq<<D::View as Versioned>::Model> {
    Seq::new(records.len(), |i: int| replay::<D, C, S>(start, records.take(i + 1))->Ok_0)
}

/// The state that a cold start begins with: the checkpoint, or the
/// structure's own zero value.
pub open spec fn beginning<D: Reducible, S: Storage<View = D::View>>(
    data: D,
    storage: S,
) -> <D::View as Versioned>::Model {
    match storage.checkpointed() {
        None => data.now(),
        Some(model) => model,
    }
}

/// The records that a cold start replays: those after the checkpoint.
pub open spec fn tail<S: Storage>(storage: S) -> Seq<(Version, Seq<u8>)> {
    above(
        storage.held(),
        match storage.checkpointed() {
            None => -1,
            Some(model) => S::View::number(model) as int,
        },
    )
}

/// What a cold start comes to, where bytes mean what `meaning` says.
pub open spec fn recovery<D: Reducible, S: Storage<View = D::View>, C>(
    data: D,
    storage: S,
    meaning: spec_fn(Seq<u8>) -> Result<D::Patch, C>,
) -> Result<<D::View as Versioned>::Model, Error<D::Error, S::Error, C>> {
    if storage.checkpointed() is Some && D::resumption(storage.checkpointed()->0) is Err {
        Err(Error::Data(D::resumption(storage.checkpointed()->0)->Err_0))
    } else {
        replay::<D, C, S::Error>(beginning(data, storage), read(tail(storage), meaning))
    }
}

/// Nothing was asked of a store, and nothing in it changed.
pub open spec fn same_store<S: Storage>(a: S, b: S) -> bool {
    &&& a.asked() == b.asked()
    &&& a.keeps() == b.keeps()
    &&& a.held() == b.held()
    &&& a.checkpointed() == b.checkpointed()
}

/// Records were written to a store. Where it was then told to sync, `flushed`
/// is what went wrong with that, if anything did.
pub open spec fn wrote<S: Storage>(
    before: S,
    after: S,
    records: Seq<(Version, Seq<u8>)>,
    flushed: Option<Option<S::Error>>,
) -> bool {
    let written = before.asked().push(Request::Write(records, None));
    &&& after.asked() == match flushed {
        Some(answer) => written.push(Request::Sync(answer)),
        None => written,
    }
    &&& after.keeps() == before.keeps()
    &&& after.checkpointed() == before.checkpointed()
    &&& after.held() == if before.keeps() {
        before.held() + records
    } else {
        before.held()
    }
}

/// A store was asked to write records and answered that it did not.
pub open spec fn declined<S: Storage>(
    before: S,
    after: S,
    records: Seq<(Version, Seq<u8>)>,
    why: S::Error,
) -> bool {
    &&& after.asked() == before.asked().push(Request::Write(records, Some(why)))
    &&& after.keeps() == before.keeps()
    &&& after.checkpointed() == before.checkpointed()
    &&& after.held() == before.held()
}

/// A checkpoint was written to a store, which was then told to sync. `flushed`
/// is what went wrong with that, if anything did.
pub open spec fn headed<S: Storage>(
    before: S,
    after: S,
    model: <S::View as Versioned>::Model,
    flushed: Option<S::Error>,
) -> bool {
    &&& after.asked() == before.asked().push(Request::Header(model, None)).push(
        Request::Sync(flushed),
    )
    &&& before.keeps() ==> {
        &&& after.checkpointed() == Some(model)
        &&& above(after.held(), S::View::number(model) as int) == above(
            before.held(),
            S::View::number(model) as int,
        )
    }
}

/// How far a log has come: what is observable, and how much of that is on
/// stable storage.
#[derive(Clone, Copy, Debug, PartialEq, Eq, Structural)]
pub struct Frontier {
    pub watermark: Version,
    pub synced: Version,
}

/// What went wrong with a write, or with the sync after it if there was one.
pub open spec fn failure<E>(written: Result<(), E>, flushed: Option<Result<(), E>>) -> Option<E> {
    match (written, flushed) {
        (Err(e), _) => Some(e),
        (Ok(()), Some(Err(e))) => Some(e),
        _ => None,
    }
}

/// How far a log has come after an append of versions up to `top`.
pub open spec fn frontier<E>(
    before: Frontier,
    top: Version,
    written: Result<(), E>,
    flushed: Option<Result<(), E>>,
) -> Frontier {
    match failure(written, flushed) {
        None => Frontier {
            watermark: top,
            synced: if flushed is Some {
                top
            } else {
                before.synced
            },
        },
        Some(_) => before,
    }
}

/// Settle an append of versions up to `top` by what the store answered to the
/// write, and to the sync after it if there was one. Nothing moves unless all
/// went well, and the sync frontier only after a sync.
pub fn settle<E>(
    before: Frontier,
    top: Version,
    written: Result<(), E>,
    flushed: Option<Result<(), E>>,
) -> (r: (Result<(), E>, Frontier))
    ensures
        fault(r.0) == failure(written, flushed),
        r.1 == frontier(before, top, written, flushed),
{
    match (written, flushed) {
        (Ok(()), None) => (Ok(()), Frontier { watermark: top, synced: before.synced }),
        (Ok(()), Some(Ok(()))) => (Ok(()), Frontier { watermark: top, synced: top }),
        (Ok(()), Some(Err(e))) => (Err(e), before),
        (Err(e), _) => (Err(e), before),
    }
}

/// Settle a sync by what the store answered: the sync frontier moves up to the
/// watermark where it went well.
pub fn flush<E>(before: Frontier, flushed: Result<(), E>) -> (r: (Result<(), E>, Frontier))
    ensures
        fault(r.0) == fault(flushed),
        r.1 == match flushed {
            Ok(()) => Frontier { watermark: before.watermark, synced: before.watermark },
            Err(_) => before,
        },
{
    match flushed {
        Ok(()) => (
            Ok(()),
            Frontier { watermark: before.watermark, synced: before.watermark },
        ),
        Err(e) => (Err(e), before),
    }
}

/// What a store answered, as a log passes it on.
pub fn passed_on<T, D, S, C>(answer: Result<T, S>) -> (r: Result<T, Error<D, S, C>>)
    ensures
        r == match answer {
            Ok(found) => Ok::<T, Error<D, S, C>>(found),
            Err(e) => Err(Error::Storage(e)),
        },
{
    match answer {
        Ok(found) => Ok(found),
        Err(e) => Err(Error::Storage(e)),
    }
}

/// A view plus the durability frontier it was observed under.
pub struct LogView<V> {
    pub view: V,
    /// Highest version on stable storage at observation time.
    pub synced: Version,
}

impl<V: Versioned> Versioned for LogView<V> {
    type Model = (V::Model, Version);

    open spec fn model(&self) -> (V::Model, Version) {
        (self.view.model(), self.synced)
    }

    open spec fn number(model: (V::Model, Version)) -> Version {
        V::number(model.0)
    }

    open spec fn materialized(model: (V::Model, Version)) -> JsonView {
        V::materialized(model.0)
    }

    fn version(&self) -> (r: Version)
        ensures
            r == Self::number(self.model()),
    {
        self.view.version()
    }

    fn state(&self) -> (r: Json)
        ensures
            r@ == Self::materialized(self.model()),
    {
        self.view.state()
    }

    fn share(&self) -> (r: Self)
        ensures
            r.model() == self.model(),
    {
        LogView { view: self.view.share(), synced: self.synced }
    }
}

/// A [`Reducible`] made durable by a [`Storage`].
///
/// A log is not itself a `Reducible`: whether its commit goes through is up to
/// the storage, which a structure that folds patches has none of.
///
/// Two version counters run here. The structure's own counter moves as soon
/// as a patch folds into memory. The *watermark* moves only once the record
/// backing that version is on disk to the requested degree. Everything
/// outward-facing (acknowledgements, subscriber fan-out, reads) rides the
/// watermark, so nothing observable ever exists that the write-ahead log has
/// not already recorded. If a write fails after the fold, the structure is
/// truncated back to the watermark and the failure is reported.
pub struct Log<D: Reducible, S: Storage<View = D::View>> {
    data: D,
    storage: S,
    watermark: Version,
    synced: Version,
}

/// What a log is.
pub struct State<D, S> {
    pub data: D,
    pub storage: S,
    pub watermark: Version,
    pub synced: Version,
}

/// One step in the life of a log. What it showed it goes on showing, and the
/// sync frontier moves only to the watermark, and only where the last thing
/// that the store answered was that it synced.
pub open spec fn advances<D: Reducible, S: Storage<View = D::View>>(
    before: State<D, S>,
    after: State<D, S>,
) -> bool {
    &&& before.storage.asked().is_prefix_of(after.storage.asked())
    &&& before.watermark <= after.watermark
    &&& after.synced == before.synced || {
        &&& after.synced == after.watermark
        &&& after.storage.asked().len() > before.storage.asked().len()
        &&& after.storage.asked().last() == Request::<
            <S::View as Versioned>::Model,
            S::Error,
        >::Sync(None)
    }
}

/// The first `limit` entries above a version, or all where there are fewer.
pub open spec fn some_above(
    entries: Seq<(Version, Seq<u8>)>,
    after: Version,
    limit: usize,
) -> Seq<(Version, Seq<u8>)> {
    let rest = above(entries, after as int);
    rest.take(
        if limit < rest.len() {
            limit as int
        } else {
            rest.len() as int
        },
    )
}

/// What an append reports and leaves.
pub open spec fn appended<D: Reducible, S: Storage<View = D::View>, C>(
    before: State<D, S>,
    patches: Seq<(D::Patch, Result<Seq<u8>, C>)>,
    durability: Durability,
    r: Result<Vec<D::View>, Error<D::Error, S::Error, C>>,
    after: State<D, S>,
) -> bool {
    &&& advances(before, after)
    &&& r is Err ==> {
        &&& same_data(after.data, before.data)
        &&& after.watermark == before.watermark
        &&& after.synced == before.synced
    }
    &&& match fold::<D, C>(before.data.now(), patches) {
        Fold::Rejected(e) => {
            &&& r is Err && r->Err_0 == Error::<D::Error, S::Error, C>::Data(e)
            &&& after.storage == before.storage
        },
        Fold::Uncoded(e) => {
            &&& r is Err && r->Err_0 == Error::<D::Error, S::Error, C>::Codec(e)
            &&& after.storage == before.storage
        },
        Fold::Done { views, records, last } => if records.len() == 0 {
            &&& r is Ok && views_of(r->Ok_0@) == views
            &&& same_data(after.data, before.data)
            &&& after.storage == before.storage
            &&& after.watermark == before.watermark
            &&& after.synced == before.synced
        } else {
            &&& r is Ok ==> {
                &&& views_of(r->Ok_0@) == views
                &&& after.data.now() == last
                &&& retained(before.data, after.data, views)
                &&& after.watermark == records.last().0
                &&& after.synced == if durability == Durability::Durable {
                    records.last().0
                } else {
                    before.synced
                }
                &&& wrote(
                    before.storage,
                    after.storage,
                    records,
                    if durability == Durability::Durable {
                        Some(None)
                    } else {
                        None
                    },
                )
            }
            &&& r matches Err(e) ==> {
                &&& e is Storage
                &&& declined(before.storage, after.storage, records, e->Storage_0) || (durability
                    == Durability::Durable && wrote(
                    before.storage,
                    after.storage,
                    records,
                    Some(Some(e->Storage_0)),
                ))
            }
        },
    }
}

/// What a checkpoint reports and leaves.
pub open spec fn checkpoints<D: Reducible, S: Storage<View = D::View>, C>(
    before: State<D, S>,
    r: Result<(), Error<D::Error, S::Error, C>>,
    after: State<D, S>,
) -> bool {
    let now = before.data.now();
    &&& advances(before, after)
    &&& after.data == before.data
    &&& after.watermark == before.watermark
    &&& after.storage.keeps() == before.storage.keeps()
    &&& match r {
        Ok(()) => {
            &&& after.synced == before.watermark
            &&& headed(before.storage, after.storage, now, None)
        },
        Err(e) => {
            &&& e is Storage
            &&& after.synced == before.synced
            &&& after.storage.asked() == before.storage.asked().push(
                Request::Header(now, Some(e->Storage_0)),
            ) || headed(before.storage, after.storage, now, Some(e->Storage_0))
        },
    }
}

/// What a sync reports and leaves.
pub open spec fn syncs<D: Reducible, S: Storage<View = D::View>, C>(
    before: State<D, S>,
    r: Result<(), Error<D::Error, S::Error, C>>,
    after: State<D, S>,
) -> bool {
    &&& advances(before, after)
    &&& after.data == before.data
    &&& after.watermark == before.watermark
    &&& after.storage.keeps() == before.storage.keeps()
    &&& after.storage.held() == before.storage.held()
    &&& after.storage.checkpointed() == before.storage.checkpointed()
    &&& match r {
        Ok(()) => {
            &&& after.synced == before.watermark
            &&& after.storage.asked() == before.storage.asked().push(Request::Sync(None))
        },
        Err(e) => {
            &&& e is Storage
            &&& after.synced == before.synced
            &&& after.storage.asked() == before.storage.asked().push(
                Request::Sync(Some(e->Storage_0)),
            )
        },
    }
}

pub open spec fn views_of<V: Versioned>(views: Seq<V>) -> Seq<V::Model> {
    Seq::new(views.len(), |i: int| views[i].model())
}

/// Two structures hold the same current state and the same history.
pub open spec fn same_data<D: Reducible>(a: D, b: D) -> bool {
    &&& a.now() == b.now()
    &&& forall|v: Version| #[trigger] a.past(v) == b.past(v)
}

/// A structure rebuilt from a checkpoint: it sits there, and retains nothing
/// else.
pub open spec fn resumed<D: Reducible>(
    data: D,
    model: <D::View as Versioned>::Model,
) -> bool {
    &&& data.now() == model
    &&& forall|v: Version| #[trigger]
        data.past(v) == if v == D::View::number(model) {
            Some(model)
        } else {
            None
        }
}

/// The history of one structure, with further states added to it.
pub open spec fn retained<D: Reducible>(
    before: D,
    after: D,
    views: Seq<<D::View as Versioned>::Model>,
) -> bool {
    &&& forall|v: Version|
        v <= D::View::number(before.now()) ==> #[trigger] after.past(v) == before.past(v)
    &&& forall|i: int|
        0 <= i < views.len() ==> after.past(D::View::number(#[trigger] views[i])) == Some(views[i])
}

impl<D: Reducible, S: Storage<View = D::View>> Log<D, S> {
    pub closed spec fn parts(&self) -> State<D, S> {
        State {
            data: self.data,
            storage: self.storage,
            watermark: self.watermark,
            synced: self.synced,
        }
    }

    /// Memory never leads the log, and nothing is durable that is not there.
    pub open spec fn wf(&self) -> bool {
        &&& self.parts().data.wf()
        &&& D::View::number(self.parts().data.now()) == self.parts().watermark
        &&& self.parts().synced <= self.parts().watermark
    }

    /// Recover from storage: adopt the checkpointed header if there is one.
    /// The records after it are still to be replayed.
    pub fn open<C>(data: D, storage: S) -> (r: Result<
        Opening<D, S>,
        Error<D::Error, S::Error, C>,
    >)
        requires
            data.wf(),
        ensures
            match r {
                Ok(opening) => {
                    &&& opening.wf()
                    &&& opening.start() == beginning(data, storage)
                    &&& match storage.checkpointed() {
                        Some(model) => resumed(opening.data(), model),
                        None => opening.data() == data,
                    }
                    &&& opening.tail() == tail(storage)
                    &&& same_store(opening.store(), storage)
                    &&& storage.checkpointed() matches Some(model) ==> D::resumption(model) is Ok
                },
                Err(Error::Storage(_)) => true,
                Err(e) => storage.checkpointed() matches Some(model) && D::resumption(model) is Err
                    && e == Error::<D::Error, S::Error, C>::Data(D::resumption(model)->Err_0),
            },
    {
        let mut store = storage;
        let answer = store.load();
        Opening::found(data, store, answer)
    }
}

/// A log that has found its checkpoint, with the records after it.
pub struct Opening<D: Reducible, S: Storage<View = D::View>> {
    data: D,
    storage: S,
    tail: Vec<Record>,
}

/// Records with what their patches were read as.
pub open spec fn decoded<P, C>(
    tail: Seq<(Version, Seq<u8>)>,
    patches: Seq<Result<P, C>>,
) -> Seq<(Version, Result<P, C>)> {
    Seq::new(tail.len(), |i: int| (tail[i].0, patches[i]))
}

impl<D: Reducible, S: Storage<View = D::View>> Opening<D, S> {
    pub open spec fn wf(&self) -> bool {
        self.data().wf()
    }

    /// The structure, as far as the checkpoint goes.
    pub closed spec fn data(&self) -> D {
        self.data
    }

    pub open spec fn start(&self) -> <D::View as Versioned>::Model {
        self.data().now()
    }

    pub closed spec fn tail(&self) -> Seq<(Version, Seq<u8>)> {
        entries(self.tail@)
    }

    pub closed spec fn store(&self) -> S {
        self.storage
    }

    /// What a store answered when it was asked what to recover: adopt the
    /// header if it found one, else start from `data`.
    pub fn found<C>(
        data: D,
        storage: S,
        answer: Result<Recovered<D::View>, S::Error>,
    ) -> (r: Result<Self, Error<D::Error, S::Error, C>>)
        requires
            data.wf(),
        ensures
            match answer {
                Err(e) => r == Err::<Self, Error<D::Error, S::Error, C>>(Error::Storage(e)),
                Ok(found) => match found.header {
                    Some(view) => match D::resumption(view.model()) {
                        Err(e) => r == Err::<Self, Error<D::Error, S::Error, C>>(Error::Data(e)),
                        Ok(()) => {
                            &&& r is Ok && r->Ok_0.wf()
                            &&& r->Ok_0.store() == storage
                            &&& r->Ok_0.tail() == entries(found.tail@)
                            &&& resumed(r->Ok_0.data(), view.model())
                        },
                    },
                    None => {
                        &&& r is Ok && r->Ok_0.wf()
                        &&& r->Ok_0.store() == storage
                        &&& r->Ok_0.tail() == entries(found.tail@)
                        &&& r->Ok_0.data() == data
                    },
                },
            },
    {
        let recovered = match answer {
            Ok(recovered) => recovered,
            Err(e) => return Err(Error::Storage(e)),
        };
        let adopted = match recovered.header {
            Some(view) => match D::resume(view) {
                Ok(data) => {
                    proof {
                        data.retains_the_current();
                    }
                    data
                },
                Err(e) => return Err(Error::Data(e)),
            },
            None => data,
        };
        Ok(Opening { data: adopted, storage, tail: recovered.tail })
    }

    /// The records to replay.
    pub fn records(&self) -> (r: &[Record])
        ensures
            entries(r@) == self.tail(),
    {
        self.tail.as_slice()
    }

    /// Replay the records. `patches[i]` is what the `i`-th of them was read
    /// as, or why it cannot be.
    pub fn replay<C>(self, patches: Vec<Result<D::Patch, C>>) -> (r: Result<
        Log<D, S>,
        Error<D::Error, S::Error, C>,
    >)
        requires
            self.wf(),
            patches@.len() == self.tail().len(),
        ensures
            match r {
                Ok(log) => {
                    &&& replay::<D, C, S::Error>(
                        self.start(),
                        decoded(self.tail(), patches@),
                    ) == Ok::<<D::View as Versioned>::Model, Error<D::Error, S::Error, C>>(
                        log.parts().data.now(),
                    )
                    &&& log.wf()
                    &&& log.parts().synced == log.parts().watermark
                    &&& log.parts().storage == self.store()
                    &&& retained(
                        self.data(),
                        log.parts().data,
                        states::<D, C, S::Error>(self.start(), decoded(self.tail(), patches@)),
                    )
                },
                Err(e) => replay::<D, C, S::Error>(
                    self.start(),
                    decoded(self.tail(), patches@),
                ) == Err::<<D::View as Versioned>::Model, Error<D::Error, S::Error, C>>(e),
            },
    {
        let mut folded = self.data;
        let ghost start = folded.now();
        let ghost found = folded;
        let tail = self.tail;
        let ghost all = patches@;
        let ghost recs = decoded(entries(tail@), all);
        let ghost reached = states::<D, C, S::Error>(start, recs);
        let mut rest = backwards(patches);
        let mut i: usize = 0;
        assert(recs.take(0) =~= Seq::empty());
        assert(all.skip(0) =~= all);
        while i < tail.len()
            invariant
                i <= tail.len(),
                folded.wf(),
                all == patches@,
                all.len() == tail@.len(),
                recs == decoded(entries(tail@), all),
                recs == decoded(self.tail(), patches@),
                found == self.data(),
                start == found.now(),
                reached == states::<D, C, S::Error>(start, recs),
                D::View::number(start) <= D::View::number(folded.now()),
                retained(found, folded, reached.take(i as int)),
                rest@ == all.skip(i as int).reverse(),
                replay::<D, C, S::Error>(start, recs.take(i as int)) is Ok,
                replay::<D, C, S::Error>(start, recs.take(i as int))->Ok_0 == folded.now(),
            decreases tail.len() - i,
        {
            proof {
                assert(recs.take(i + 1).drop_last() =~= recs.take(i as int));
                assert(recs.take(i + 1).last() == (tail@[i as int].version, all[i as int]));
                lemma_replay_stops::<D, C, S::Error>(start, recs, i + 1);
                assert(reached.take(i + 1) =~= reached.take(i as int).push(reached[i as int]));
                folded.retains_the_current();
                assert(rest@.last() == all[i as int]);
            }
            let version = tail[i].version;
            let patch: D::Patch = match rest.pop() {
                Some(Ok(patch)) => patch,
                Some(Err(e)) => return Err(Error::Codec(e)),
                None => {
                    assert(false);
                    return Err(Error::Version { expected: version, actual: 0 });
                },
            };
            assert(rest@ =~= all.skip(i + 1).reverse());
            let mut staged = folded.stage();
            match folded.stage_patch(&mut staged, &patch) {
                Ok(()) => {},
                Err(e) => return Err(Error::Data(e)),
            }
            proof {
                D::step_mints_the_next(folded.now(), patch);
            }
            let minted: Version = match folded.commit(staged) {
                Ok(Some(view)) => view.version(),
                Ok(None) => 0,
                Err(e) => return Err(Error::Data(e)),
            };
            if minted != version {
                return Err(Error::Version { expected: version, actual: minted });
            }
            proof {
                folded.retains_the_current();
            }
            i += 1;
        }
        assert(recs.take(i as int) =~= recs);
        assert(reached.take(i as int) =~= reached);
        let watermark = folded.version();
        Ok(Log { data: folded, storage: self.storage, watermark, synced: watermark })
    }
}

impl<D: Reducible, S: Storage<View = D::View>> Log<D, S> {
    /// Highest version that is observable: folded into memory and recorded.
    pub fn watermark(&self) -> (r: Version)
        ensures
            r == self.parts().watermark,
    {
        self.watermark
    }

    /// Highest version on stable storage.
    pub fn synced(&self) -> (r: Version)
        ensures
            r == self.parts().synced,
    {
        self.synced
    }

    pub fn view(&self) -> (r: LogView<D::View>)
        requires
            self.wf(),
        ensures
            r.view.model() == self.parts().data.now(),
            r.synced == self.parts().synced,
    {
        LogView { view: self.data.view(), synced: self.synced }
    }

    pub fn view_at(&self, version: Version) -> (r: Option<LogView<D::View>>)
        requires
            self.wf(),
        ensures
            match r {
                Some(found) => version <= self.parts().watermark && self.parts().data.past(version)
                    == Some(found.view.model()) && found.synced == self.parts().synced,
                None => version > self.parts().watermark || self.parts().data.past(
                    version,
                ) is None,
            },
    {
        if version > self.watermark {
            return None;
        }
        match self.data.view_at(version) {
            Some(view) => Some(LogView { view, synced: self.synced }),
            None => None,
        }
    }

    /// Records after `version`, for a subscriber that fell behind the ring.
    pub fn read_after<C>(&self, after: Version, limit: usize) -> (r: Result<
        Vec<Record>,
        Error<D::Error, S::Error, C>,
    >)
        ensures
            match r {
                Ok(records) => entries(records@) == some_above(
                    self.parts().storage.held(),
                    after,
                    limit,
                ),
                Err(e) => e is Storage,
            },
    {
        passed_on(self.storage.read_after(after, limit))
    }

    pub fn oldest(&self) -> (r: Version)
        ensures
            r == self.parts().storage.floor(),
    {
        self.storage.oldest()
    }

    /// The structure and the storage, parted.
    pub fn into_parts(self) -> (r: (D, S))
        ensures
            r == (self.parts().data, self.parts().storage),
    {
        (self.data, self.storage)
    }

    /// Fold many patches, one version each, behind a single write and at most
    /// a single sync. This is the group-commit path: cost per patch falls as
    /// the batch grows, with no timer and no artificial delay.
    ///
    /// On a storage failure the structure is truncated back to the watermark
    /// so that memory never leads the log, and the error is returned. Patches
    /// that the structure rejects, or that cannot be written down, abort the
    /// whole batch before anything is written.
    pub fn append<C>(
        &mut self,
        patches: Vec<Coded<D::Patch, C>>,
        durability: Durability,
    ) -> (r: Result<Vec<D::View>, Error<D::Error, S::Error, C>>)
        requires
            old(self).wf(),
        ensures
            final(self).wf(),
            appended(old(self).parts(), coded(patches@), durability, r, final(self).parts()),
    {
        if patches.len() == 0 {
            assert(coded(patches@) =~= Seq::empty());
            let none: Vec<D::View> = Vec::new();
            assert(views_of(none@) =~= Seq::empty());
            return Ok(none);
        }
        let base = self.watermark;
        let ghost start = self.data;
        let ghost given = patches@;
        let ghost todo = coded(given);
        let ghost all = fold::<D, C>(start.now(), todo);
        let count = patches.len();
        let mut rest = backwards(patches);
        let mut records: Vec<Record> = Vec::new();
        let mut views: Vec<D::View> = Vec::new();
        let mut i: usize = 0;
        proof {
            start.retains_the_current();
            assert(todo.take(0) =~= Seq::empty());
            assert(given.skip(0) =~= given);
            assert(views_of(views@) =~= Seq::empty());
            assert(entries(records@) =~= Seq::empty());
        }
        while i < count
            invariant
                i <= count,
                count == given.len(),
                given == patches@,
                todo == coded(given),
                rest@ == given.skip(i as int).reverse(),
                self.data.wf(),
                start.wf(),
                start == old(self).data,
                base == D::View::number(start.now()),
                base == old(self).watermark,
                start.past(base) == Some(start.now()),
                all == fold::<D, C>(start.now(), todo),
                fold::<D, C>(start.now(), todo.take(i as int)) == (Fold::<
                    <D::View as Versioned>::Model,
                    D::Error,
                    C,
                >::Done {
                    views: views_of(views@),
                    records: entries(records@),
                    last: self.data.now(),
                }),
                D::View::number(self.data.now()) >= base,
                records@.len() == 0 ==> same_data(self.data, start),
                records@.len() > 0 ==> records@.last().version == D::View::number(self.data.now()),
                records@.len() > 0 ==> records@.last().version > base,
                retained(start, self.data, views_of(views@)),
                self.storage == old(self).storage,
                self.watermark == old(self).watermark,
                self.synced == old(self).synced,
                self.synced <= self.watermark,
            decreases count - i,
        {
            proof {
                assert(todo.take(i + 1).drop_last() =~= todo.take(i as int));
                assert(todo.take(i + 1).last() == given[i as int]@);
                lemma_fold_stops::<D, C>(start.now(), todo, i + 1);
                D::step_mints_the_next(self.data.now(), given[i as int].patch);
                assert(rest@.last() == given[i as int]);
            }
            let Coded { patch, bytes } = match rest.pop() {
                Some(next) => next,
                None => {
                    assert(false);
                    return Ok(views);
                },
            };
            assert(rest@ =~= given.skip(i + 1).reverse());
            let encoded = match bytes {
                Ok(bytes) => to_bytes(bytes),
                Err(e) => {
                    self.unwind(base, Ghost(start));
                    return Err(Error::Codec(e));
                },
            };
            let mut staged = self.data.stage();
            match self.data.stage_patch(&mut staged, &patch) {
                Ok(()) => {},
                Err(e) => {
                    self.unwind(base, Ghost(start));
                    return Err(Error::Data(e));
                },
            }
            let ghost views_before = views@;
            let ghost records_before = records@;
            proof {
                self.data.retains_the_current();
            }
            match self.data.commit(staged) {
                Ok(Some(view)) => {
                    records.push(Record { version: view.version(), patch: encoded });
                    views.push(view);
                    proof {
                        assert(views_of(views@) =~= views_of(views_before).push(view.model()));
                        assert(entries(records@) =~= entries(records_before).push(
                            records@.last()@,
                        ));
                    }
                },
                // An identity patch mints no version and leaves no record.
                Ok(None) => {
                    views.push(self.data.view());
                    proof {
                        assert(views_of(views@) =~= views_of(views_before).push(self.data.now()));
                    }
                },
                Err(e) => {
                    self.unwind(base, Ghost(start));
                    return Err(Error::Data(e));
                },
            }
            i += 1;
        }
        assert(todo.take(i as int) =~= todo);
        if records.len() == 0 {
            assert(entries(records@) =~= Seq::empty());
            return Ok(views);
        }
        let ghost recs = entries(records@);
        assert(recs.last() == records@.last()@);
        let top = records[records.len() - 1].version;
        let written = self.storage.append(records.as_slice());
        let flushed = if written.is_ok() && durability == Durability::Durable {
            Some(self.storage.sync())
        } else {
            None
        };
        let before = Frontier { watermark: self.watermark, synced: self.synced };
        let (settled, frontier) = settle(before, top, written, flushed);
        match settled {
            Ok(()) => {
                self.watermark = frontier.watermark;
                self.synced = frontier.synced;
                Ok(views)
            },
            Err(e) => {
                self.unwind(base, Ghost(start));
                Err(Error::Storage(e))
            },
        }
    }

    /// Take memory back to `base`, where it stood at `start`.
    fn unwind(&mut self, base: Version, Ghost(start): Ghost<D>)
        requires
            old(self).data.wf(),
            start.wf(),
            base == D::View::number(start.now()),
            start.past(base) == Some(start.now()),
            forall|v: Version| v <= base ==> #[trigger] old(self).data.past(v) == start.past(v),
        ensures
            final(self).data.wf(),
            same_data(final(self).data, start),
            final(self).storage == old(self).storage,
            final(self).watermark == old(self).watermark,
            final(self).synced == old(self).synced,
    {
        proof {
            start.retains_the_current();
        }
        assert(self.data.past(base) == start.past(base));
        let _ = self.data.truncate(base);
        assert forall|v: Version| #[trigger] self.data.past(v) == start.past(v) by {}
    }

    /// Checkpoint the current MVCC pointer into the storage header, letting
    /// recovery skip every record it covers.
    pub fn checkpoint<C>(&mut self) -> (r: Result<(), Error<D::Error, S::Error, C>>)
        requires
            old(self).wf(),
        ensures
            final(self).wf(),
            checkpoints(old(self).parts(), r, final(self).parts()),
    {
        let view = self.data.view();
        match self.storage.write_header(&view) {
            Ok(()) => self.sync(),
            Err(e) => Err(Error::Storage(e)),
        }
    }

    /// Flush without checkpointing, advancing the sync frontier.
    pub fn sync<C>(&mut self) -> (r: Result<(), Error<D::Error, S::Error, C>>)
        requires
            old(self).wf(),
        ensures
            final(self).wf(),
            syncs(old(self).parts(), r, final(self).parts()),
    {
        let flushed = self.storage.sync();
        let before = Frontier { watermark: self.watermark, synced: self.synced };
        let (settled, frontier) = flush(before, flushed);
        self.synced = frontier.synced;
        passed_on(settled)
    }
}

/// What stops a shorter batch stops a longer one.
proof fn lemma_fold_stops<D: Reducible, C>(
    start: <D::View as Versioned>::Model,
    patches: Seq<(D::Patch, Result<Seq<u8>, C>)>,
    n: int,
)
    requires
        0 <= n <= patches.len(),
    ensures
        !(fold::<D, C>(start, patches.take(n)) is Done) ==> fold::<D, C>(
            start,
            patches,
        ) == fold::<D, C>(start, patches.take(n)),
    decreases patches.len() - n,
{
    if n < patches.len() {
        lemma_fold_stops::<D, C>(start, patches, n + 1);
        assert(patches.take(n + 1).drop_last() =~= patches.take(n));
    } else {
        assert(patches.take(n) =~= patches);
    }
}

/// What stops a shorter replay stops a longer one.
proof fn lemma_replay_stops<D: Reducible, C, S>(
    start: <D::View as Versioned>::Model,
    records: Seq<(Version, Result<D::Patch, C>)>,
    n: int,
)
    requires
        0 <= n <= records.len(),
    ensures
        replay::<D, C, S>(start, records.take(n)) is Err ==> replay::<D, C, S>(
            start,
            records,
        ) == replay::<D, C, S>(start, records.take(n)),
    decreases records.len() - n,
{
    if n < records.len() {
        lemma_replay_stops::<D, C, S>(start, records, n + 1);
        assert(records.take(n + 1).drop_last() =~= records.take(n));
    } else {
        assert(records.take(n) =~= records);
    }
}

// ---------------------------------------------------------------------
// What a log promises as a whole.

/// The versions that a batch mints follow one another without a gap, from the
/// one after where it started.
pub proof fn appends_mint_contiguous_versions<D: Reducible, C>(
    start: <D::View as Versioned>::Model,
    patches: Seq<(D::Patch, Result<Seq<u8>, C>)>,
)
    requires
        fold::<D, C>(start, patches) is Done,
    ensures
        forall|i: int|
            0 <= i < fold::<D, C>(start, patches)->records.len() ==> (#[trigger] fold::<
                D,
                C,
            >(start, patches)->records[i]).0 == D::View::number(start) + 1 + i,
        D::View::number(fold::<D, C>(start, patches)->last) == D::View::number(start)
            + fold::<D, C>(start, patches)->records.len(),
        fold::<D, C>(start, patches)->views.len() == patches.len(),
    decreases patches.len(),
{
    if patches.len() > 0 {
        appends_mint_contiguous_versions::<D, C>(start, patches.drop_last());
        let last = fold::<D, C>(start, patches.drop_last())->last;
        D::step_mints_the_next(last, patches.last().0);
    }
}

/// A patch that changes nothing mints no version and leaves no record.
pub proof fn identity_patches_leave_no_record<D: Reducible, C>(
    start: <D::View as Versioned>::Model,
    patch: (D::Patch, Result<Seq<u8>, C>),
)
    requires
        patch.1 is Ok,
        D::step(start, patch.0) is Unchanged,
    ensures
        fold::<D, C>(start, seq![patch]) == (Fold::<
            <D::View as Versioned>::Model,
            D::Error,
            C,
        >::Done { views: seq![start], records: Seq::empty(), last: start }),
{
    reveal_with_fuel(fold, 2);
    assert(seq![patch].drop_last() =~= Seq::empty());
    assert(Seq::empty().push(start) =~= seq![start]);
}

/// The states of a log, one step of its life after another.
pub open spec fn life<D: Reducible, S: Storage<View = D::View>>(states: Seq<State<D, S>>) -> bool {
    forall|i: int|
        0 <= i < states.len() - 1 ==> advances(#[trigger] states[i], states[i + 1])
}

/// What a log says is on stable storage was there when it began, or was
/// everything observable at a moment when the store answered that it synced.
pub proof fn synced_versions_were_synced<D: Reducible, S: Storage<View = D::View>>(
    states: Seq<State<D, S>>,
    n: int,
)
    requires
        life(states),
        0 <= n < states.len(),
    ensures
        states[n].synced == states[0].synced || exists|i: int|
            0 < i <= n && (#[trigger] states[i]).watermark == states[n].synced
                && states[i].storage.asked().len() > 0 && states[i].storage.asked().last()
                == Request::<<S::View as Versioned>::Model, S::Error>::Sync(None),
    decreases n,
{
    if n > 0 {
        synced_versions_were_synced(states, n - 1);
        assert(advances(states[n - 1], states[n - 1 + 1]));
        if states[n].synced != states[n - 1].synced {
            assert(states[n].watermark == states[n].synced);
        }
    }
}

/// Replaying records in two parts comes to the same as replaying them at once.
pub proof fn replay_goes_on_where_it_stopped<D: Reducible, C, S>(
    start: <D::View as Versioned>::Model,
    first: Seq<(Version, Result<D::Patch, C>)>,
    second: Seq<(Version, Result<D::Patch, C>)>,
)
    ensures
        replay::<D, C, S>(start, first + second) == match replay::<D, C, S>(start, first) {
            Ok(model) => replay::<D, C, S>(model, second),
            Err(e) => Err(e),
        },
    decreases second.len(),
{
    if second.len() == 0 {
        assert(first + second =~= first);
    } else {
        assert((first + second).drop_last() =~= first + second.drop_last());
        assert((first + second).last() == second.last());
        replay_goes_on_where_it_stopped::<D, C, S>(start, first, second.drop_last());
    }
}

/// Recovery gives back what was appended: the records of a batch, read as they
/// were written and replayed from where the batch started, come to the state
/// that the batch ended in.
pub proof fn recovery_gives_back_what_was_appended<D: Reducible, C, S>(
    start: <D::View as Versioned>::Model,
    patches: Seq<(D::Patch, Result<Seq<u8>, C>)>,
    meaning: spec_fn(Seq<u8>) -> Result<D::Patch, C>,
)
    requires
        faithful(patches, meaning),
        fold::<D, C>(start, patches) is Done,
    ensures
        replay::<D, C, S>(start, read(fold::<D, C>(start, patches)->records, meaning)) == Ok::<
            <D::View as Versioned>::Model,
            Error<D::Error, S, C>,
        >(fold::<D, C>(start, patches)->last),
    decreases patches.len(),
{
    let records = fold::<D, C>(start, patches)->records;
    if patches.len() > 0 {
        let less = patches.drop_last();
        assert(forall|i: int| 0 <= i < less.len() ==> less[i] == patches[i]);
        recovery_gives_back_what_was_appended::<D, C, S>(start, less, meaning);
        let before = fold::<D, C>(start, less);
        let last = before->last;
        let patch = patches.last();
        assert(patch == patches[patches.len() - 1]);
        D::step_mints_the_next(last, patch.0);
        if D::step(last, patch.0) is Changed {
            assert(read(records, meaning).drop_last() =~= read(before->records, meaning));
        }
    } else {
        assert(read(records, meaning) =~= Seq::empty());
    }
}

/// Opening a log and replaying its records as what they mean is a recovery.
pub proof fn opening_and_replaying_recovers<D: Reducible, S: Storage<View = D::View>, C>(
    data: D,
    storage: S,
    patches: Seq<Result<D::Patch, C>>,
    meaning: spec_fn(Seq<u8>) -> Result<D::Patch, C>,
)
    requires
        storage.checkpointed() matches Some(model) ==> D::resumption(model) is Ok,
        patches.len() == tail(storage).len(),
        forall|i: int|
            0 <= i < patches.len() ==> #[trigger] patches[i] == meaning(tail(storage)[i].1),
    ensures
        replay::<D, C, S::Error>(beginning(data, storage), decoded(tail(storage), patches))
            == recovery::<D, S, C>(data, storage, meaning),
{
    assert(decoded(tail(storage), patches) =~= read(tail(storage), meaning));
}

/// A cold start from `zero` would come to exactly what the log shows, where
/// bytes mean what `meaning` says, and nothing that is stored lies above the
/// watermark.
pub open spec fn backed<D: Reducible, S: Storage<View = D::View>, C>(
    log: State<D, S>,
    zero: D,
    meaning: spec_fn(Seq<u8>) -> Result<D::Patch, C>,
) -> bool {
    &&& recovery::<D, S, C>(zero, log.storage, meaning) == Ok::<
        <D::View as Versioned>::Model,
        Error<D::Error, S::Error, C>,
    >(log.data.now())
    &&& log.watermark == D::View::number(log.data.now())
    &&& forall|i: int|
        0 <= i < log.storage.held().len() ==> (#[trigger] log.storage.held()[i]).0
            <= log.watermark
    &&& log.storage.checkpointed() is Some ==> D::View::number(log.storage.checkpointed()->0)
        <= log.watermark
}

proof fn lemma_above_add(
    a: Seq<(Version, Seq<u8>)>,
    b: Seq<(Version, Seq<u8>)>,
    version: int,
)
    ensures
        above(a + b, version) == above(a, version) + above(b, version),
    decreases b.len(),
{
    reveal(Seq::filter);
    let p = |e: (Version, Seq<u8>)| e.0 > version;
    if b.len() == 0 {
        assert(a + b =~= a);
        assert(above(b, version) =~= Seq::empty());
        assert(above(a, version) + above(b, version) =~= above(a, version));
    } else {
        assert((a + b).drop_last() =~= a + b.drop_last());
        assert((a + b).last() == b.last());
        lemma_above_add(a, b.drop_last(), version);
        if p(b.last()) {
            assert(above(a, version) + above(b.drop_last(), version).push(b.last()) =~= (above(
                a,
                version,
            ) + above(b.drop_last(), version)).push(b.last()));
        }
    }
}

proof fn lemma_above_all(a: Seq<(Version, Seq<u8>)>, version: int)
    requires
        forall|i: int| 0 <= i < a.len() ==> (#[trigger] a[i]).0 > version,
    ensures
        above(a, version) == a,
    decreases a.len(),
{
    reveal(Seq::filter);
    if a.len() > 0 {
        assert(a[a.len() - 1] == a.last());
        assert forall|i: int| 0 <= i < a.drop_last().len() implies (#[trigger] a.drop_last()[i]).0
            > version by {
            assert(a.drop_last()[i] == a[i]);
        }
        lemma_above_all(a.drop_last(), version);
        assert(a.drop_last().push(a.last()) =~= a);
    } else {
        assert(above(a, version) =~= a);
    }
}

proof fn lemma_above_none(a: Seq<(Version, Seq<u8>)>, version: int)
    requires
        forall|i: int| 0 <= i < a.len() ==> (#[trigger] a[i]).0 <= version,
    ensures
        above(a, version) == Seq::<(Version, Seq<u8>)>::empty(),
    decreases a.len(),
{
    reveal(Seq::filter);
    if a.len() > 0 {
        assert(a[a.len() - 1] == a.last());
        assert forall|i: int| 0 <= i < a.drop_last().len() implies (#[trigger] a.drop_last()[i]).0
            <= version by {
            assert(a.drop_last()[i] == a[i]);
        }
        lemma_above_none(a.drop_last(), version);
    }
}

/// Nothing is ever exposed that the write-ahead log has not recorded: a log
/// that a cold start would reproduce stays one across an append that succeeds
/// on a store that keeps what it is given.
pub proof fn appends_stay_recoverable<D: Reducible, S: Storage<View = D::View>, C>(
    zero: D,
    before: State<D, S>,
    after: State<D, S>,
    patches: Seq<(D::Patch, Result<Seq<u8>, C>)>,
    meaning: spec_fn(Seq<u8>) -> Result<D::Patch, C>,
)
    requires
        backed(before, zero, meaning),
        faithful(patches, meaning),
        fold::<D, C>(before.data.now(), patches) is Done,
        after.data.now() == fold::<D, C>(before.data.now(), patches)->last,
        after.watermark == D::View::number(after.data.now()),
        after.storage.checkpointed() == before.storage.checkpointed(),
        after.storage.held() == before.storage.held() + fold::<D, C>(
            before.data.now(),
            patches,
        )->records,
    ensures
        backed(after, zero, meaning),
{
    let records = fold::<D, C>(before.data.now(), patches)->records;
    appends_mint_contiguous_versions::<D, C>(before.data.now(), patches);
    recovery_gives_back_what_was_appended::<D, C, S::Error>(before.data.now(), patches, meaning);
    let floor: int = match before.storage.checkpointed() {
        Some(model) => D::View::number(model) as int,
        None => -1,
    };
    lemma_above_add(before.storage.held(), records, floor);
    lemma_above_all(records, floor);
    assert(read(tail(before.storage) + records, meaning) =~= read(tail(before.storage), meaning)
        + read(records, meaning));
    replay_goes_on_where_it_stopped::<D, C, S::Error>(
        beginning(zero, before.storage),
        read(tail(before.storage), meaning),
        read(records, meaning),
    );
    assert forall|i: int| 0 <= i < after.storage.held().len() implies (
    #[trigger] after.storage.held()[i]).0 <= after.watermark by {
        if i < before.storage.held().len() {
            assert(after.storage.held()[i] == before.storage.held()[i]);
        } else {
            assert(after.storage.held()[i] == records[i - before.storage.held().len()]);
        }
    }
}

/// A checkpoint stands in for the records it covers: after one that succeeds
/// on a store that keeps what it is given, a cold start from any zero value
/// comes to the state that was checkpointed.
pub proof fn checkpoints_cover_what_came_before<D: Reducible, S: Storage<View = D::View>, C>(
    zero: D,
    other: D,
    before: State<D, S>,
    after: State<D, S>,
    meaning: spec_fn(Seq<u8>) -> Result<D::Patch, C>,
)
    requires
        backed(before, zero, meaning),
        D::resumption(before.data.now()) is Ok,
        after.data == before.data,
        after.watermark == before.watermark,
        after.storage.checkpointed() == Some(before.data.now()),
        above(after.storage.held(), before.watermark as int) == above(
            before.storage.held(),
            before.watermark as int,
        ),
    ensures
        recovery::<D, S, C>(other, after.storage, meaning) == Ok::<
            <D::View as Versioned>::Model,
            Error<D::Error, S::Error, C>,
        >(before.data.now()),
{
    lemma_above_none(before.storage.held(), before.watermark as int);
    assert(read(tail(after.storage), meaning) =~= Seq::empty());
}

/// A batch folds patch by patch: folding it in two parts comes to the same as
/// folding it at once, with the states and the records of both, one after the
/// other, and what stops a part stops the whole.
pub proof fn batches_fold_in_parts<D: Reducible, C>(
    start: <D::View as Versioned>::Model,
    first: Seq<(D::Patch, Result<Seq<u8>, C>)>,
    second: Seq<(D::Patch, Result<Seq<u8>, C>)>,
)
    ensures
        match fold::<D, C>(start, first) {
            Fold::Done { views, records, last } => match fold::<D, C>(last, second) {
                Fold::Done { views: more, records: further, last: end } => fold::<D, C>(
                    start,
                    first + second,
                ) == (Fold::<<D::View as Versioned>::Model, D::Error, C>::Done {
                    views: views + more,
                    records: records + further,
                    last: end,
                }),
                stopped => fold::<D, C>(start, first + second) == stopped,
            },
            stopped => fold::<D, C>(start, first + second) == stopped,
        },
    decreases second.len(),
{
    let all = first + second;
    if second.len() == 0 {
        assert(all =~= first);
        if let Fold::Done { views, records, last } = fold::<D, C>(start, first) {
            assert(views + Seq::empty() =~= views);
            assert(records + Seq::empty() =~= records);
        }
    } else {
        let less = second.drop_last();
        assert(all.drop_last() =~= first + less);
        assert(all.last() == second.last());
        batches_fold_in_parts::<D, C>(start, first, less);
        if let Fold::Done { views, records, last } = fold::<D, C>(start, first) {
            if let Fold::Done { views: more, records: further, last: end } = fold::<D, C>(
                last,
                less,
            ) {
                if second.last().1 is Ok {
                    if let Outcome::Changed(next) = D::step(end, second.last().0) {
                        let record = (D::View::number(next), second.last().1->Ok_0);
                        assert((views + more).push(next) =~= views + more.push(next));
                        assert((records + further).push(record) =~= records + further.push(
                            record,
                        ));
                    } else {
                        assert((views + more).push(end) =~= views + more.push(end));
                    }
                }
            }
        }
    }
}

/// One patch that changes the state mints one version, recorded as what the patch
/// was written down as; one that is refused, or that cannot be written down, ends
/// the batch with that reason.
pub proof fn patches_fold_to_their_records<D: Reducible, C>(
    start: <D::View as Versioned>::Model,
    patch: D::Patch,
    bytes: Seq<u8>,
    unwritten: C,
)
    ensures
        fold::<D, C>(start, Seq::empty()) == (Fold::<
            <D::View as Versioned>::Model,
            D::Error,
            C,
        >::Done { views: Seq::empty(), records: Seq::empty(), last: start }),
        fold::<D, C>(start, seq![(patch, Err(unwritten))]) == Fold::<
            <D::View as Versioned>::Model,
            D::Error,
            C,
        >::Uncoded(unwritten),
        D::step(start, patch) matches Outcome::Refused(e) ==> fold::<D, C>(
            start,
            seq![(patch, Ok(bytes))],
        ) == Fold::<<D::View as Versioned>::Model, D::Error, C>::Rejected(e),
        D::step(start, patch) matches Outcome::Changed(next) ==> fold::<D, C>(
            start,
            seq![(patch, Ok(bytes))],
        ) == (Fold::<<D::View as Versioned>::Model, D::Error, C>::Done {
            views: seq![next],
            records: seq![(D::View::number(next), bytes)],
            last: next,
        }),
{
    reveal_with_fuel(fold, 2);
    let one = seq![(patch, Ok::<Seq<u8>, C>(bytes))];
    let none = seq![(patch, Err::<Seq<u8>, C>(unwritten))];
    assert(one.drop_last() =~= Seq::empty());
    assert(none.drop_last() =~= Seq::empty());
    if let Outcome::Changed(next) = D::step(start, patch) {
        assert(Seq::empty().push(next) =~= seq![next]);
        assert(Seq::empty().push((D::View::number(next), bytes)) =~= seq![
            (D::View::number(next), bytes),
        ]);
    }
}

/// One record replays where its patch is readable, is not refused, and mints
/// exactly the version that the record says.
pub proof fn records_replay_to_their_versions<D: Reducible, C, S>(
    start: <D::View as Versioned>::Model,
    version: Version,
    patch: D::Patch,
    unread: C,
)
    ensures
        replay::<D, C, S>(start, Seq::empty()) == Ok::<
            <D::View as Versioned>::Model,
            Error<D::Error, S, C>,
        >(start),
        replay::<D, C, S>(start, seq![(version, Err(unread))]) == Err::<
            <D::View as Versioned>::Model,
            Error<D::Error, S, C>,
        >(Error::Codec(unread)),
        replay::<D, C, S>(start, seq![(version, Ok(patch))]) is Ok && version > 0 ==> D::step(
            start,
            patch,
        ) is Changed && D::View::number(D::step(start, patch)->Changed_0) == version && replay::<
            D,
            C,
            S,
        >(start, seq![(version, Ok(patch))])->Ok_0 == D::step(start, patch)->Changed_0,
        D::step(start, patch) is Changed && D::View::number(D::step(start, patch)->Changed_0)
            == version ==> replay::<D, C, S>(start, seq![(version, Ok(patch))]) is Ok,
{
    reveal_with_fuel(replay, 2);
    let one = seq![(version, Ok::<D::Patch, C>(patch))];
    let none = seq![(version, Err::<D::Patch, C>(unread))];
    assert(one.drop_last() =~= Seq::empty());
    assert(none.drop_last() =~= Seq::empty());
}

/// An append that fails leaves no trace in what the log shows. One that the
/// structure refuses or that cannot be written down asks nothing of the store; one
/// that fails for the store asked it to write the whole batch, and shows none of
/// it.
pub proof fn failed_appends_show_nothing<D: Reducible, S: Storage<View = D::View>, C>(
    before: State<D, S>,
    patches: Seq<(D::Patch, Result<Seq<u8>, C>)>,
    durability: Durability,
    r: Result<Vec<D::View>, Error<D::Error, S::Error, C>>,
    after: State<D, S>,
    version: Version,
)
    requires
        appended(before, patches, durability, r, after),
        r is Err,
    ensures
        after.data.now() == before.data.now(),
        after.data.past(version) == before.data.past(version),
        after.watermark == before.watermark,
        after.synced == before.synced,
        !(fold::<D, C>(before.data.now(), patches) is Done) ==> after.storage == before.storage,
        fold::<D, C>(before.data.now(), patches) matches Fold::Rejected(e) ==> r->Err_0
            == Error::<D::Error, S::Error, C>::Data(e),
        fold::<D, C>(before.data.now(), patches) matches Fold::Uncoded(e) ==> r->Err_0
            == Error::<D::Error, S::Error, C>::Codec(e),
        fold::<D, C>(before.data.now(), patches) is Done ==> r->Err_0 is Storage
            && after.storage.asked().len() > before.storage.asked().len()
            && after.storage.asked()[before.storage.asked().len() as int] is Write
            && after.storage.asked()[before.storage.asked().len() as int]->Write_0 == fold::<D, C>(
            before.data.now(),
            patches,
        )->records,
{
}

/// An append that succeeds was written down first: every patch went through, the
/// states handed back are those after each of them, the store answered that it
/// wrote exactly the records of the versions that were minted, and only then does
/// the log show them, up to the last. Where it was to be durable the store then
/// answered that it synced, and all of it is on stable storage. Where no patch
/// changed anything, nothing was asked.
pub proof fn acknowledged_appends_were_written<D: Reducible, S: Storage<View = D::View>, C>(
    before: State<D, S>,
    patches: Seq<(D::Patch, Result<Seq<u8>, C>)>,
    durability: Durability,
    r: Result<Vec<D::View>, Error<D::Error, S::Error, C>>,
    after: State<D, S>,
)
    requires
        appended(before, patches, durability, r, after),
        before.watermark == D::View::number(before.data.now()),
        r is Ok,
    ensures
        fold::<D, C>(before.data.now(), patches) is Done,
        ({
            let done = fold::<D, C>(before.data.now(), patches);
            let records = done->records;
            let asked = before.storage.asked().len() as int;
            &&& r->Ok_0@.len() == patches.len()
            &&& forall|i: int|
                0 <= i < patches.len() ==> (#[trigger] r->Ok_0@[i]).model() == done->views[i]
            &&& records.len() > 0 ==> after.data.now() == done->last
            &&& after.watermark == before.watermark + records.len()
            &&& records.len() == 0 ==> after.storage == before.storage && after.synced
                == before.synced
            &&& records.len() > 0 ==> {
                &&& after.storage.asked()[asked] == Request::<
                    <S::View as Versioned>::Model,
                    S::Error,
                >::Write(records, None)
                &&& durability == Durability::Durable ==> after.synced == after.watermark
                    && after.storage.asked().len() == asked + 2 && after.storage.asked().last()
                    == Request::<<S::View as Versioned>::Model, S::Error>::Sync(None)
                &&& durability != Durability::Durable ==> after.synced == before.synced
                    && after.storage.asked().len() == asked + 1
            }
        }),
{
    appends_mint_contiguous_versions::<D, C>(before.data.now(), patches);
    let done = fold::<D, C>(before.data.now(), patches);
    assert forall|i: int| 0 <= i < patches.len() implies (#[trigger] r->Ok_0@[i]).model()
        == done->views[i] by {
        assert(views_of(r->Ok_0@)[i] == r->Ok_0@[i].model());
    }
    if done->records.len() > 0 {
        let n = done->records.len() - 1;
        assert(done->records[n] == done->records.last());
    }
    assert(views_of(r->Ok_0@).len() == r->Ok_0@.len());
}

/// Whatever an append comes to, on a store that keeps what it is given a cold
/// start comes to what the log shows, unless a sync failed after the write.
pub proof fn logs_stay_recoverable<D: Reducible, S: Storage<View = D::View>, C>(
    zero: D,
    before: State<D, S>,
    patches: Seq<(D::Patch, Result<Seq<u8>, C>)>,
    durability: Durability,
    r: Result<Vec<D::View>, Error<D::Error, S::Error, C>>,
    after: State<D, S>,
    meaning: spec_fn(Seq<u8>) -> Result<D::Patch, C>,
)
    requires
        backed(before, zero, meaning),
        faithful(patches, meaning),
        before.storage.keeps(),
        appended(before, patches, durability, r, after),
        r is Ok || after.storage.held() == before.storage.held(),
    ensures
        backed(after, zero, meaning),
{
    if r is Ok {
        let done = fold::<D, C>(before.data.now(), patches);
        acknowledged_appends_were_written(before, patches, durability, r, after);
        appends_mint_contiguous_versions::<D, C>(before.data.now(), patches);
        if done->records.len() > 0 {
            appends_stay_recoverable(zero, before, after, patches, meaning);
        }
    } else {
        assert(tail(after.storage) == tail(before.storage));
    }
}

/// A checkpoint that succeeds has the store hold the very state that the log
/// shows, and all of it on stable storage; one that fails moves nothing.
pub proof fn checkpoints_write_what_is_shown<D: Reducible, S: Storage<View = D::View>, C>(
    before: State<D, S>,
    r: Result<(), Error<D::Error, S::Error, C>>,
    after: State<D, S>,
)
    requires
        checkpoints(before, r, after),
    ensures
        after.data == before.data && after.watermark == before.watermark,
        r is Ok ==> {
            let asked = before.storage.asked().len() as int;
            &&& after.synced == after.watermark
            &&& after.storage.asked().len() == asked + 2
            &&& after.storage.asked()[asked] == Request::<
                <S::View as Versioned>::Model,
                S::Error,
            >::Header(before.data.now(), None)
            &&& after.storage.asked()[asked + 1] == Request::<
                <S::View as Versioned>::Model,
                S::Error,
            >::Sync(None)
            &&& before.storage.keeps() ==> after.storage.checkpointed() == Some(before.data.now())
        },
        r is Err ==> after.synced == before.synced && r->Err_0 is Storage,
{
}

/// After a sync that succeeds everything that the log shows is on stable storage;
/// one that fails moves nothing.
pub proof fn syncs_cover_what_is_shown<D: Reducible, S: Storage<View = D::View>, C>(
    before: State<D, S>,
    r: Result<(), Error<D::Error, S::Error, C>>,
    after: State<D, S>,
)
    requires
        syncs(before, r, after),
    ensures
        after.data == before.data && after.watermark == before.watermark,
        after.storage.held() == before.storage.held(),
        after.storage.asked().len() == before.storage.asked().len() + 1,
        r is Ok ==> after.synced == after.watermark && after.storage.asked().last() == Request::<
            <S::View as Versioned>::Model,
            S::Error,
        >::Sync(None),
        r is Err ==> after.synced == before.synced && after.storage.asked().last() == Request::<
            <S::View as Versioned>::Model,
            S::Error,
        >::Sync(Some(r->Err_0->Storage_0)),
{
}

/// The frontiers move only where everything that was asked went well: the
/// watermark with the write, the sync frontier only with a sync.
pub proof fn frontiers_move_when_all_went_well<E>(
    before: Frontier,
    top: Version,
    written: Result<(), E>,
    flushed: Option<Result<(), E>>,
)
    ensures
        written is Err || (flushed is Some && flushed->0 is Err) ==> frontier(
            before,
            top,
            written,
            flushed,
        ) == before && failure(written, flushed) is Some,
        written is Err ==> failure(written, flushed) == Some(written->Err_0),
        written is Ok && flushed is Some && flushed->0 is Err ==> failure(written, flushed) == Some(
            flushed->0->Err_0,
        ),
        written is Ok && !(flushed is Some && flushed->0 is Err) ==> failure(written, flushed)
            is None && frontier(before, top, written, flushed).watermark == top,
        written is Ok && flushed is None ==> frontier(before, top, written, flushed).synced
            == before.synced,
        written is Ok && flushed is Some && flushed->0 is Ok ==> frontier(
            before,
            top,
            written,
            flushed,
        ).synced == top,
{
}

proof fn lemma_above_members(a: Seq<(Version, Seq<u8>)>, version: int)
    ensures
        above(a, version).len() <= a.len(),
        forall|i: int|
            0 <= i < above(a, version).len() ==> (#[trigger] above(a, version)[i]).0 > version
                && a.contains(above(a, version)[i]),
        forall|i: int|
            0 <= i < a.len() && (#[trigger] a[i]).0 > version ==> above(a, version).contains(a[i]),
    decreases a.len(),
{
    reveal(Seq::filter);
    let found = above(a, version);
    if a.len() > 0 {
        let less = a.drop_last();
        let before = above(less, version);
        lemma_above_members(less, version);
        let n = a.len() - 1;
        assert(a[n] == a.last());
        assert forall|i: int| 0 <= i < found.len() implies (#[trigger] found[i]).0 > version
            && a.contains(found[i]) by {
            if i < before.len() {
                assert(found[i] == before[i]);
                let j = choose|j: int| 0 <= j < less.len() && less[j] == before[i];
                assert(a[j] == found[i]);
            } else {
                assert(found[i] == a[n]);
            }
        }
        assert forall|i: int| 0 <= i < a.len() && (#[trigger] a[i]).0
            > version implies found.contains(a[i]) by {
            if i < n {
                assert(less[i] == a[i]);
                let j = choose|j: int| 0 <= j < before.len() && before[j] == less[i];
                assert(found[j] == a[i]);
            } else {
                assert(found[found.len() - 1] == a[n]);
            }
        }
    }
}

/// A subscriber that fell behind reads records above its version only, each of
/// which is held, never more than it asked for, and all there are where there are
/// no more than that.
pub proof fn readers_get_what_lies_above(
    entries: Seq<(Version, Seq<u8>)>,
    after: Version,
    limit: usize,
)
    ensures
        some_above(entries, after, limit).len() <= limit,
        forall|i: int|
            0 <= i < some_above(entries, after, limit).len() ==> (#[trigger] some_above(
                entries,
                after,
                limit,
            )[i]).0 > after && entries.contains(some_above(entries, after, limit)[i]),
        some_above(entries, after, limit).len() < limit ==> forall|i: int|
            0 <= i < entries.len() && (#[trigger] entries[i]).0 > after ==> some_above(
                entries,
                after,
                limit,
            ).contains(entries[i]),
{
    let rest = above(entries, after as int);
    let found = some_above(entries, after, limit);
    lemma_above_members(entries, after as int);
    assert forall|i: int| 0 <= i < found.len() implies (#[trigger] found[i]).0 > after
        && entries.contains(found[i]) by {
        assert(found[i] == rest[i]);
    }
    if found.len() < limit {
        assert(found =~= rest);
    }
}

/// What could be viewed before an append can still be viewed after it, as it was;
/// and where the append went through, so can every state that it led to.
pub proof fn appends_keep_what_can_be_viewed<D: Reducible, S: Storage<View = D::View>, C>(
    before: State<D, S>,
    patches: Seq<(D::Patch, Result<Seq<u8>, C>)>,
    durability: Durability,
    r: Result<Vec<D::View>, Error<D::Error, S::Error, C>>,
    after: State<D, S>,
    version: Version,
    i: int,
)
    requires
        appended(before, patches, durability, r, after),
    ensures
        version <= D::View::number(before.data.now()) ==> after.data.past(version)
            == before.data.past(version),
        r is Err ==> after.data.now() == before.data.now() && after.data.past(version)
            == before.data.past(version),
        ({
            let done = fold::<D, C>(before.data.now(), patches);
            r is Ok && done->records.len() > 0 && 0 <= i < done->views.len()
                ==> after.data.past(D::View::number(done->views[i])) == Some(done->views[i])
        }),
{
}

} // verus!
