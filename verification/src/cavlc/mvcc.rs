//! Versions: snapshots, the batches that lead from one to the next, and the
//! store that keeps them.

use super::error::{Error, Flaw};
use super::patch::{patches_go_through_where_they_fit, patches_leave_what_they_name, Patch};
use super::value::{alike_values, values_are_equal_part_by_part, Value, ValueView};
use super::Version;
use crate::keyed::{lemma_finds, lemma_found, lookup, sorted};
use std::sync::{Arc, Mutex};
use vstd::prelude::*;

verus! {

#[verifier::external_type_specification]
#[verifier::external_body]
#[verifier::reject_recursive_types(T)]
pub struct ExMutex<T: ?Sized>(std::sync::Mutex<T>);

/// What a snapshot says.
#[verifier::ext_equal]
pub struct SnapshotView {
    pub version: Version,
    pub root: ValueView,
}

/// An immutable root and the version it represents, copied together.
#[derive(Debug)]
pub struct Snapshot {
    version: Version,
    root: Value,
}

impl Clone for Snapshot {
    fn clone(&self) -> (r: Self)
        ensures
            r == *self,
    {
        Snapshot { version: self.version, root: self.root.clone() }
    }
}

impl Snapshot {
    pub closed spec fn view(&self) -> SnapshotView {
        SnapshotView { version: self.version, root: self.root@ }
    }

    /// Import a detached snapshot, as recovered from a checkpoint header.
    /// The root must be an object; the version is taken on trust.
    pub fn new(version: Version, root: Value) -> (r: Result<Self, Error>)
        ensures
            match r {
                Ok(snapshot) => root@ is Object && snapshot@ == (SnapshotView {
                    version,
                    root: root@,
                }),
                Err(e) => root@ is Atom && e == Error::RootMustBeObject,
            },
    {
        if root.as_object().is_none() {
            return Err(Error::RootMustBeObject);
        }
        Ok(Snapshot { version, root })
    }

    /// A snapshot taken on trust altogether.
    pub fn detached(version: Version, root: Value) -> (r: Self)
        ensures
            r@ == (SnapshotView { version, root: root@ }),
    {
        Snapshot { version, root }
    }

    pub fn version(&self) -> (r: Version)
        ensures
            r == self@.version,
    {
        self.version
    }

    pub fn root(&self) -> (r: &Value)
        ensures
            r@ == self@.root,
    {
        &self.root
    }
}

/// One batch, in application order. Versions start at 1.
/// Its prior state is snapshot `version - 1`, not duplicated in the patch.
#[derive(Debug, PartialEq)]
pub struct Commit {
    pub version: Version,
    pub patches: Vec<Patch>,
}

#[verifier::ext_equal]
pub struct CommitView {
    pub version: Version,
    pub patches: Seq<Patch>,
}

impl Commit {
    pub open spec fn view(&self) -> CommitView {
        CommitView { version: self.version, patches: self.patches@ }
    }
}

impl Clone for Commit {
    fn clone(&self) -> (r: Self)
        ensures
            r@ == self@,
    {
        let patches = self.patches.clone();
        assert(patches@ =~= self.patches@);
        Commit { version: self.version, patches }
    }
}

#[derive(Clone, Debug)]
pub struct ApplyResult {
    pub snapshot: Snapshot,
    /// None when no submitted patch changed the working state.
    pub record: Option<Commit>,
}

/// What patches make of a root, one after another, where each one is in order
/// and changes something.
pub open spec fn run(root: ValueView, patches: Seq<Patch>) -> Option<ValueView>
    decreases patches.len(),
{
    if patches.len() == 0 {
        Some(root)
    } else {
        match run(root, patches.drop_last()) {
            None => None,
            Some(before) => match patches.last().applied(before) {
                Err(_) => None,
                Ok(after) => if alike_values(after, before) {
                    None
                } else {
                    Some(after)
                },
            },
        }
    }
}

/// Which store a batch belongs to. Two are the same only where one is a copy
/// of the other.
pub type Owner = Arc<Mutex<()>>;

/// `Mutex::new`. Nothing is claimed of the mutex.
#[verifier::external_body]
fn new_mutex() -> (r: Mutex<()>) {
    Mutex::new(())
}

/// `Arc::ptr_eq`: whether two pointers are to the same mutex. A mutex stands
/// in contracts for its own identity, as it cannot be copied.
#[verifier::external_body]
fn same_owner(a: &Arc<Mutex<()>>, b: &Arc<Mutex<()>>) -> (r: bool)
    ensures
        r == (*a == *b),
{
    Arc::ptr_eq(a, b)
}

#[verifier::ext_equal]
pub struct BatchView {
    pub owner: Arc<Mutex<()>>,
    pub base: SnapshotView,
    /// The generation in which the base was minted.
    pub birth: u64,
    pub working: ValueView,
    pub patches: Seq<Patch>,
}

/// Private working state. Failed patches leave earlier successful edits intact.
/// Dropping this value aborts the batch. A commit consumes it.
#[derive(Debug)]
pub struct Batch {
    owner: Arc<Mutex<()>>,
    base: Snapshot,
    birth: u64,
    working: Value,
    patches: Vec<Patch>,
}

impl Batch {
    pub closed spec fn view(&self) -> BatchView {
        BatchView {
            owner: self.owner,
            base: self.base@,
            birth: self.birth,
            working: self.working@,
            patches: self.patches@,
        }
    }

    /// The patches lead from the base to the working state.
    pub open spec fn wf(&self) -> bool {
        run(self@.base.root, self@.patches) == Some(self@.working)
    }

    pub fn base(&self) -> (r: &Snapshot)
        ensures
            r@ == self@.base,
    {
        &self.base
    }

    pub fn root(&self) -> (r: &Value)
        ensures
            r@ == self@.working,
    {
        &self.working
    }

    /// Fold one patch into the working state. A patch that changes nothing is
    /// not kept.
    pub fn apply(&mut self, patch: &Patch) -> (r: Result<(), Error>)
        ensures
            folds(old(self)@, *patch, r, final(self)@),
            old(self).wf() ==> final(self).wf(),
    {
        let next = match patch.apply(&self.working) {
            Ok(next) => next,
            Err(e) => return Err(e),
        };
        if !next.equal(&self.working) {
            proof {
                let before = self.patches@;
                assert(before.push(*patch).drop_last() =~= before);
            }
            self.patches.push(patch.clone());
            self.working = next;
        }
        Ok(())
    }
}

/// What folding a patch into a batch comes to.
pub open spec fn folds(
    before: BatchView,
    patch: Patch,
    r: Result<(), Error>,
    after: BatchView,
) -> bool {
    match patch.applied(before.working) {
        Err(e) => r == Err::<(), Error>(e) && after == before,
        Ok(next) => r is Ok && after == if alike_values(next, before.working) {
            before
        } else {
            BatchView { working: next, patches: before.patches.push(patch), ..before }
        },
    }
}

#[verifier::ext_equal]
pub struct StoreView {
    pub owner: Arc<Mutex<()>>,
    pub base: Version,
    pub snapshots: Seq<SnapshotView>,
    /// The generation in which each snapshot was minted.
    pub births: Seq<u64>,
    pub log: Seq<CommitView>,
    /// How often versions were discarded.
    pub generation: u64,
}

impl StoreView {
    /// Snapshots run without a gap from the base on, and each commit leads
    /// from one to the next.
    pub open spec fn wf(self) -> bool {
        &&& self.snapshots.len() > 0
        &&& self.births.len() == self.snapshots.len()
        &&& forall|i: int|
            0 <= i < self.births.len() ==> #[trigger] self.births[i] <= self.generation
        &&& self.log.len() == self.snapshots.len() - 1
        &&& self.base + self.log.len() <= Version::MAX
        &&& forall|i: int|
            0 <= i < self.snapshots.len() ==> (#[trigger] self.snapshots[i]).version == self.base
                + i
        &&& forall|i: int|
            0 <= i < self.log.len() ==> {
                &&& (#[trigger] self.log[i]).version == self.base + i + 1
                &&& self.log[i].patches.len() > 0
                &&& run(self.snapshots[i].root, self.log[i].patches) == Some(
                    self.snapshots[i + 1].root,
                )
            }
    }

    pub open spec fn current(self) -> SnapshotView {
        self.snapshots.last()
    }

    pub open spec fn at(self, version: Version) -> Option<SnapshotView> {
        if self.base <= version < self.base + self.snapshots.len() {
            Some(self.snapshots[version - self.base])
        } else {
            None
        }
    }

    /// The commits of the versions in `(after, through]`, where all of them are
    /// retained.
    pub open spec fn between(self, after: Version, through: Version) -> Option<Seq<CommitView>> {
        if self.base <= after <= through <= self.base + self.log.len() {
            Some(self.log.subrange(after - self.base, through - self.base))
        } else {
            None
        }
    }

    /// The store after a commit of `patches`, which lead to `root`.
    pub open spec fn extended(self, patches: Seq<Patch>, root: ValueView) -> StoreView {
        let version = (self.current().version + 1) as Version;
        StoreView {
            snapshots: self.snapshots.push(SnapshotView { version, root }),
            births: self.births.push(self.generation),
            log: self.log.push(CommitView { version, patches }),
            ..self
        }
    }

    /// The store after every version above `version` was discarded, if that
    /// one is retained.
    pub open spec fn truncated(self, version: Version) -> StoreView {
        if self.at(version) is Some && version < self.current().version {
            let keep = version - self.base;
            StoreView {
                snapshots: self.snapshots.take(keep + 1),
                births: self.births.take(keep + 1),
                log: self.log.take(keep),
                generation: if self.generation < u64::MAX {
                    (self.generation + 1) as u64
                } else {
                    u64::MAX
                },
                ..self
            }
        } else {
            self
        }
    }

    /// The same history, as if nothing had ever been discarded.
    pub open spec fn unbroken(self) -> StoreView {
        StoreView {
            births: Seq::new(self.snapshots.len(), |i: int| 0u64),
            generation: 0,
            ..self
        }
    }
}

/// One single-writer concurrency domain. All history stays in memory until dropped.
/// No locks or runtime are required. Use external synchronization if sharing
/// the writer; owned snapshots are immutable and may be read independently.
#[derive(Debug)]
pub struct Store {
    owner: Arc<Mutex<()>>,
    /// Version of `snapshots[0]`. Nonzero only after resuming a checkpoint.
    base: Version,
    snapshots: Vec<Snapshot>,
    /// The generation in which each snapshot was minted. A number alone does
    /// not tell a version from one that was minted in its place after it was
    /// discarded.
    births: Vec<u64>,
    log: Vec<Commit>,
    generation: u64,
}

pub open spec fn store_of(owner: Arc<Mutex<()>>, first: SnapshotView) -> StoreView {
    StoreView {
        owner,
        base: first.version,
        snapshots: seq![first],
        births: seq![0],
        log: Seq::empty(),
        generation: 0,
    }
}

/// What publishing a batch comes to.
pub open spec fn published(store: StoreView, batch: BatchView) -> Result<Option<StoreView>, Error> {
    if store.owner != batch.owner {
        Err(Error::ForeignBatch)
    } else if store.current() != batch.base || store.births.last() != batch.birth {
        Err(
            Error::Conflict { expected: batch.base.version, actual: store.current().version },
        )
    } else if batch.patches.len() == 0 {
        Ok(None)
    } else if store.current().version == Version::MAX {
        Err(Error::VersionOverflow)
    } else {
        Ok(Some(store.extended(batch.patches, batch.working)))
    }
}

/// What publishing a batch reports and leaves.
pub open spec fn publishes(
    before: StoreView,
    batch: BatchView,
    r: Result<ApplyResult, Error>,
    after: StoreView,
) -> bool {
    match published(before, batch) {
        Err(e) => r == Err::<ApplyResult, Error>(e) && after == before,
        Ok(None) => r is Ok && r->Ok_0.record is None && r->Ok_0.snapshot@ == before.current()
            && after == before,
        Ok(Some(store)) => r is Ok && after == store && r->Ok_0.snapshot@ == store.current()
            && r->Ok_0.record is Some && r->Ok_0.record->0@ == store.log.last(),
    }
}

/// What applying one patch reports and leaves.
pub open spec fn applies(
    before: StoreView,
    patch: Patch,
    r: Result<ApplyResult, Error>,
    after: StoreView,
) -> bool {
    match patch.applied(before.current().root) {
        Err(e) => r == Err::<ApplyResult, Error>(e) && after == before,
        Ok(next) => if alike_values(next, before.current().root) {
            r is Ok && r->Ok_0.record is None && r->Ok_0.snapshot@ == before.current() && after
                == before
        } else if before.current().version == Version::MAX {
            r == Err::<ApplyResult, Error>(Error::VersionOverflow) && after == before
        } else {
            r is Ok && after == before.extended(seq![patch], next) && r->Ok_0.snapshot@
                == after.current() && r->Ok_0.record is Some && r->Ok_0.record->0@
                == after.log.last()
        },
    }
}

/// What one patch of a recorded batch comes to.
pub open spec fn rerun_patch(root: ValueView, patch: Patch) -> Result<ValueView, Error> {
    match patch.applied(root) {
        Err(e) => Err(e),
        Ok(next) => if alike_values(next, root) {
            Err(Error::InvalidPatch(Flaw::Identity))
        } else {
            Ok(next)
        },
    }
}

pub open spec fn rerun(root: ValueView, patches: Seq<Patch>) -> Result<ValueView, Error>
    decreases patches.len(),
{
    if patches.len() == 0 {
        Ok(root)
    } else {
        match rerun(root, patches.drop_last()) {
            Err(e) => Err(e),
            Ok(before) => rerun_patch(before, patches.last()),
        }
    }
}

/// What replaying one recorded batch comes to.
pub open spec fn rerun_commit(store: StoreView, record: CommitView) -> Result<StoreView, Error> {
    if store.current().version == Version::MAX {
        Err(Error::VersionOverflow)
    } else if record.version != store.current().version + 1 {
        Err(
            Error::InvalidVersion {
                expected: (store.current().version + 1) as Version,
                actual: record.version,
            },
        )
    } else if record.patches.len() == 0 {
        Err(Error::InvalidPatch(Flaw::EmptyBatch))
    } else {
        match rerun(store.current().root, record.patches) {
            Err(e) => Err(e),
            Ok(root) => Ok(store.extended(record.patches, root)),
        }
    }
}

/// What replaying recorded batches comes to.
pub open spec fn replayed(store: StoreView, records: Seq<CommitView>) -> Result<StoreView, Error>
    decreases records.len(),
{
    if records.len() == 0 {
        Ok(store)
    } else {
        match replayed(store, records.drop_last()) {
            Err(e) => Err(e),
            Ok(before) => rerun_commit(before, records.last()),
        }
    }
}

pub open spec fn commits(records: Seq<Commit>) -> Seq<CommitView> {
    Seq::new(records.len(), |i: int| records[i]@)
}

proof fn lemma_rerun_is_run(root: ValueView, patches: Seq<Patch>)
    ensures
        run(root, patches) is Some <==> rerun(root, patches) is Ok,
        run(root, patches) is Some ==> run(root, patches)->0 == rerun(root, patches)->Ok_0,
    decreases patches.len(),
{
    if patches.len() > 0 {
        lemma_rerun_is_run(root, patches.drop_last());
    }
}

proof fn lemma_rerun_stops(root: ValueView, patches: Seq<Patch>, n: int)
    requires
        0 <= n <= patches.len(),
    ensures
        rerun(root, patches.take(n)) is Err ==> rerun(root, patches) == rerun(
            root,
            patches.take(n),
        ),
    decreases patches.len() - n,
{
    if n < patches.len() {
        lemma_rerun_stops(root, patches, n + 1);
        assert(patches.take(n + 1).drop_last() =~= patches.take(n));
    } else {
        assert(patches.take(n) =~= patches);
    }
}

proof fn lemma_replayed_stops(store: StoreView, records: Seq<CommitView>, n: int)
    requires
        0 <= n <= records.len(),
    ensures
        replayed(store, records.take(n)) is Err ==> replayed(store, records) == replayed(
            store,
            records.take(n),
        ),
    decreases records.len() - n,
{
    if n < records.len() {
        lemma_replayed_stops(store, records, n + 1);
        assert(records.take(n + 1).drop_last() =~= records.take(n));
    } else {
        assert(records.take(n) =~= records);
    }
}

/// A store extended by patches that lead from its current root stays one.
proof fn lemma_extended_wf(store: StoreView, patches: Seq<Patch>, root: ValueView)
    requires
        store.wf(),
        store.current().version < Version::MAX,
        patches.len() > 0,
        run(store.current().root, patches) == Some(root),
    ensures
        store.extended(patches, root).wf(),
{
    let after = store.extended(patches, root);
    assert(store.snapshots[store.snapshots.len() - 1] == store.current());
    assert forall|i: int| 0 <= i < after.log.len() implies {
        &&& (#[trigger] after.log[i]).version == after.base + i + 1
        &&& after.log[i].patches.len() > 0
        &&& run(after.snapshots[i].root, after.log[i].patches) == Some(after.snapshots[i + 1].root)
    } by {
        if i < store.log.len() {
            assert(after.log[i] == store.log[i]);
            assert(after.snapshots[i] == store.snapshots[i]);
            assert(after.snapshots[i + 1] == store.snapshots[i + 1]);
        }
    }
}

impl Default for Store {
    fn default() -> (r: Self)
        ensures
            r@ == store_of(
                r@.owner,
                SnapshotView { version: 0, root: ValueView::Object(Seq::empty()) },
            ),
            r@.wf(),
    {
        Store::new()
    }
}

impl Store {
    pub closed spec fn view(&self) -> StoreView {
        StoreView {
            owner: self.owner,
            base: self.base,
            snapshots: Seq::new(self.snapshots@.len(), |i: int| self.snapshots@[i]@),
            births: self.births@,
            log: commits(self.log@),
            generation: self.generation,
        }
    }

    pub fn new() -> (r: Self)
        ensures
            r@ == store_of(
                r@.owner,
                SnapshotView { version: 0, root: ValueView::Object(Seq::empty()) },
            ),
            r@.wf(),
    {
        Store::resume(Snapshot { version: 0, root: Value::default() })
    }

    /// Initial state is version 0 and is not recorded in the patch log.
    pub fn from_value(root: Value) -> (r: Result<Self, Error>)
        ensures
            match r {
                Ok(store) => root@ is Object && store@ == store_of(
                    store@.owner,
                    SnapshotView { version: 0, root: root@ },
                ) && store@.wf(),
                Err(e) => root@ is Atom && e == Error::RootMustBeObject,
            },
    {
        if root.as_object().is_none() {
            return Err(Error::RootMustBeObject);
        }
        Ok(Store::resume(Snapshot { version: 0, root }))
    }

    pub fn snapshot(&self) -> (r: Snapshot)
        requires
            self@.wf(),
        ensures
            r@ == self@.current(),
    {
        let last = self.snapshots.len() - 1;
        assert(self@.snapshots[last as int] == self.snapshots@[last as int]@);
        self.snapshots[last].clone()
    }

    /// The oldest version still retained. Nonzero after a resume.
    pub fn base(&self) -> (r: Version)
        ensures
            r == self@.base,
    {
        self.base
    }

    pub fn snapshot_at(&self, version: Version) -> (r: Option<Snapshot>)
        ensures
            match r {
                Some(snapshot) => self@.at(version) == Some(snapshot@),
                None => self@.at(version) is None,
            },
    {
        if version < self.base {
            return None;
        }
        let index = version - self.base;
        if index >= self.snapshots.len() as u64 {
            return None;
        }
        assert(self@.snapshots[index as int] == self.snapshots@[index as int]@);
        Some(self.snapshots[index as usize].clone())
    }

    pub fn log(&self) -> (r: &[Commit])
        ensures
            commits(r@) == self@.log,
    {
        self.log.as_slice()
    }

    /// Read the half-open version range (after, through]. Invalid bounds fail.
    pub fn patches_between(&self, after: Version, through: Version) -> (r: Option<&[Commit]>)
        ensures
            self@.between(after, through) == match r {
                Some(found) => Some(commits(found@)),
                None => None,
            },
    {
        if after > through || after < self.base {
            return None;
        }
        let start = after - self.base;
        let end = through - self.base;
        if end > self.log.len() as u64 {
            return None;
        }
        let found = vstd::slice::slice_subrange(
            self.log.as_slice(),
            start as usize,
            end as usize,
        );
        assert(commits(found@) =~= self@.log.subrange(start as int, end as int));
        Some(found)
    }

    /// Discard every version above `version`, making it current again.
    /// O(discarded); retained snapshots keep sharing their structure. A
    /// version that was never reached is a no-op. Outstanding batches based
    /// on a discarded version are rejected on publication, as always.
    pub fn truncate(&mut self, version: Version)
        requires
            old(self)@.wf(),
        ensures
            final(self)@.wf(),
            final(self)@ == old(self)@.truncated(version),
    {
        let ghost before = self@;
        if version < self.base {
            return;
        }
        let keep = version - self.base;
        if keep >= (self.snapshots.len() - 1) as u64 {
            assert(before.snapshots[before.snapshots.len() - 1] == before.current());
            return;
        }
        self.snapshots.truncate(keep as usize + 1);
        self.births.truncate(keep as usize + 1);
        self.log.truncate(keep as usize);
        self.generation = self.generation.saturating_add(1);
        proof {
            assert(before.snapshots[before.snapshots.len() - 1] == before.current());
            assert(self@.births =~= before.births.take(keep + 1));
            assert(self@.snapshots =~= before.snapshots.take(keep + 1));
            assert(self@.log =~= before.log.take(keep as int));
            assert forall|i: int| 0 <= i < self@.log.len() implies {
                &&& (#[trigger] self@.log[i]).version == self@.base + i + 1
                &&& self@.log[i].patches.len() > 0
                &&& run(self@.snapshots[i].root, self@.log[i].patches) == Some(
                    self@.snapshots[i + 1].root,
                )
            } by {
                assert(self@.log[i] == before.log[i]);
                assert(self@.snapshots[i] == before.snapshots[i]);
                assert(self@.snapshots[i + 1] == before.snapshots[i + 1]);
            }
        }
    }

    /// Resume from a checkpointed snapshot. Its version becomes the base, and
    /// the returned store has no history below it.
    pub fn resume(snapshot: Snapshot) -> (r: Self)
        ensures
            r@ == store_of(r@.owner, snapshot@),
            r@.wf(),
    {
        let ghost first = snapshot@;
        let base = snapshot.version;
        let mut snapshots: Vec<Snapshot> = Vec::new();
        snapshots.push(snapshot);
        let mut births: Vec<u64> = Vec::new();
        births.push(0);
        let r = Store {
            owner: Arc::new(new_mutex()),
            base,
            snapshots,
            births,
            log: Vec::new(),
            generation: 0,
        };
        assert(r@.births =~= seq![0]);
        assert(r@.snapshots =~= seq![first]);
        assert(r@.log =~= Seq::empty());
        r
    }

    pub fn begin_batch(&self) -> (r: Batch)
        requires
            self@.wf(),
        ensures
            r@ == (BatchView {
                owner: self@.owner,
                base: self@.current(),
                birth: self@.births.last(),
                working: self@.current().root,
                patches: Seq::empty(),
            }),
            r.wf(),
    {
        let base = self.snapshot();
        let working = base.root.clone();
        let birth = self.births[self.births.len() - 1];
        let r = Batch { owner: self.owner.clone(), base, birth, working, patches: Vec::new() };
        assert(r@.patches =~= Seq::empty());
        r
    }

    /// Strict version check, even for empty batches and version 0.
    /// A stale or foreign batch cannot publish any part of its state.
    pub fn apply_batch(&mut self, batch: Batch) -> (r: Result<ApplyResult, Error>)
        requires
            old(self)@.wf(),
        ensures
            publishes(old(self)@, batch@, r, final(self)@),
            batch.wf() ==> final(self)@.wf(),
    {
        let ghost before = self@;
        if !same_owner(&self.owner, &batch.owner) {
            return Err(Error::ForeignBatch);
        }
        let current = self.snapshot();
        let birth = self.births[self.births.len() - 1];
        if current.version != batch.base.version || birth != batch.birth || !current.root.identical(
            &batch.base.root,
        ) {
            return Err(
                Error::Conflict { expected: batch.base.version, actual: current.version },
            );
        }
        if batch.patches.len() == 0 {
            return Ok(ApplyResult { snapshot: current, record: None });
        }
        if current.version == Version::MAX {
            return Err(Error::VersionOverflow);
        }
        let version = current.version + 1;
        let record = Commit { version, patches: batch.patches };
        let snapshot = Snapshot { version, root: batch.working };
        self.log.push(record.clone());
        self.snapshots.push(snapshot.clone());
        self.births.push(self.generation);
        proof {
            let after = before.extended(batch@.patches, batch@.working);
            assert(self@.snapshots =~= after.snapshots);
            assert(self@.log =~= after.log);
            if batch.wf() {
                lemma_extended_wf(before, batch@.patches, batch@.working);
            }
        }
        Ok(ApplyResult { snapshot, record: Some(record) })
    }
}

impl Store {
    pub fn apply(&mut self, patch: &Patch) -> (r: Result<ApplyResult, Error>)
        requires
            old(self)@.wf(),
        ensures
            final(self)@.wf(),
            applies(old(self)@, *patch, r, final(self)@),
    {
        let mut batch = self.begin_batch();
        match batch.apply(patch) {
            Ok(()) => {},
            Err(e) => return Err(e),
        }
        assert(Seq::<Patch>::empty().push(*patch) =~= seq![*patch]);
        self.apply_batch(batch)
    }

    /// Reconstructs from version 0 plus contiguous batch records.
    /// Empty batches, identity patches, and invalid operations are rejected.
    /// No partial store is returned on failure. Replay preserves record order.
    pub fn replay(initial: Value, records: &Vec<Commit>) -> (r: Result<Self, Error>)
        ensures
            match r {
                Ok(store) => {
                    &&& initial@ is Object
                    &&& store@.wf()
                    &&& replayed(
                        store_of(store@.owner, SnapshotView { version: 0, root: initial@ }),
                        commits(records@),
                    ) == Ok::<StoreView, Error>(store@)
                },
                Err(e) => if initial@ is Atom {
                    e == Error::RootMustBeObject
                } else {
                    exists|owner: Arc<Mutex<()>>| #[trigger]
                        replayed(
                            store_of(owner, SnapshotView { version: 0, root: initial@ }),
                            commits(records@),
                        ) == Err::<StoreView, Error>(e)
                },
            },
    {
        let mut store = match Store::from_value(initial) {
            Ok(store) => store,
            Err(e) => return Err(e),
        };
        let ghost start = store@;
        let ghost all = commits(records@);
        let ghost owner = store@.owner;
        assert(start == store_of(owner, SnapshotView { version: 0, root: initial@ }));
        let mut i: usize = 0;
        assert(all.take(0) =~= Seq::empty());
        while i < records.len()
            invariant
                i <= records.len(),
                all == commits(records@),
                store@.wf(),
                store@.owner == owner,
                initial@ is Object,
                start == store_of(owner, SnapshotView { version: 0, root: initial@ }),
                replayed(start, all.take(i as int)) == Ok::<StoreView, Error>(store@),
            decreases records.len() - i,
        {
            let record = &records[i];
            proof {
                assert(all.take(i + 1).drop_last() =~= all.take(i as int));
                assert(all.take(i + 1).last() == record@);
                lemma_replayed_stops(start, all, i + 1);
            }
            match store.replay_commit(record) {
                Ok(()) => {},
                Err(e) => {
                    assert(replayed(
                        store_of(owner, SnapshotView { version: 0, root: initial@ }),
                        all,
                    ) == Err::<StoreView, Error>(e));
                    return Err(e);
                },
            }
            i += 1;
        }
        assert(all.take(i as int) =~= all);
        Ok(store)
    }

    fn replay_commit(&mut self, record: &Commit) -> (r: Result<(), Error>)
        requires
            old(self)@.wf(),
        ensures
            final(self)@.wf(),
            final(self)@.owner == old(self)@.owner,
            match r {
                Ok(()) => rerun_commit(old(self)@, record@) == Ok::<StoreView, Error>(
                    final(self)@,
                ),
                Err(e) => rerun_commit(old(self)@, record@) == Err::<StoreView, Error>(e),
            },
    {
        let current = self.snapshot();
        if current.version == Version::MAX {
            return Err(Error::VersionOverflow);
        }
        let expected = current.version + 1;
        if record.version != expected {
            return Err(Error::InvalidVersion { expected, actual: record.version });
        }
        let mut batch = self.begin_batch();
        if record.patches.len() == 0 {
            return Err(Error::InvalidPatch(Flaw::EmptyBatch));
        }
        let ghost root = self@.current().root;
        let ghost opened = batch@;
        let mut i: usize = 0;
        assert(record.patches@.take(0) =~= Seq::empty());
        while i < record.patches.len()
            invariant
                i <= record.patches.len(),
                batch.wf(),
                batch@.patches == record.patches@.take(i as int),
                batch@ == (BatchView {
                    working: batch@.working,
                    patches: batch@.patches,
                    ..opened
                }),
                rerun(root, record.patches@.take(i as int)) == Ok::<ValueView, Error>(
                    batch@.working,
                ),
                *self == *old(self),
                self@.wf(),
                root == self@.current().root,
                opened.base == self@.current(),
                opened.birth == self@.births.last(),
                opened.owner == self@.owner,
                self@.current().version < Version::MAX,
                record.version == self@.current().version + 1,
                record.patches.len() > 0,
            decreases record.patches.len() - i,
        {
            let patch = &record.patches[i];
            proof {
                assert(record.patches@.take(i + 1).drop_last() =~= record.patches@.take(i as int));
                assert(record.patches@.take(i + 1).last() == *patch);
                lemma_rerun_stops(root, record.patches@, i + 1);
            }
            let before = batch.patches.len();
            match batch.apply(patch) {
                Ok(()) => {},
                Err(e) => return Err(e),
            }
            if batch.patches.len() == before {
                return Err(Error::InvalidPatch(Flaw::Identity));
            }
            assert(batch@.patches =~= record.patches@.take(i + 1));
            i += 1;
        }
        assert(record.patches@.take(i as int) =~= record.patches@);
        match self.apply_batch(batch) {
            Ok(_) => Ok(()),
            Err(e) => Err(e),
        }
    }
}

// ---------------------------------------------------------------------
// What a store promises as a whole.

/// A batch from another store, or opened on anything but the current version,
/// publishes no part of its state.
pub proof fn stale_and_foreign_batches_publish_nothing(store: StoreView, batch: BatchView)
    requires
        store.owner != batch.owner || store.current() != batch.base || store.births.last()
            != batch.birth,
    ensures
        published(store, batch) is Err,
{
}

/// Every version above `version` was minted after `generation`.
pub open spec fn minted_since(store: StoreView, version: Version, generation: u64) -> bool {
    &&& store.generation > generation
    &&& forall|i: int|
        0 <= i < store.snapshots.len() && (#[trigger] store.snapshots[i]).version > version
            ==> store.births[i] > generation
}

/// A discarded version stays discarded: what is minted in its place is told
/// apart from it, whatever is committed or discarded after that, so a batch
/// that is based on it is never published. Discards can be counted up to
/// `u64::MAX`.
pub proof fn discarded_versions_stay_discarded(
    store: StoreView,
    version: Version,
    later: StoreView,
    patches: Seq<Patch>,
    root: ValueView,
    other: Version,
    batch: BatchView,
)
    requires
        store.wf(),
        store.at(version) is Some,
        version < store.current().version,
        store.generation < u64::MAX,
        later.wf(),
        minted_since(later, version, store.generation),
        batch.base.version > version,
        batch.birth <= store.generation,
    ensures
        minted_since(store.truncated(version), version, store.generation),
        minted_since(later.extended(patches, root), version, store.generation),
        minted_since(later.truncated(other), version, store.generation),
        published(later, batch) is Err,
{
    let cut = store.truncated(version);
    assert forall|i: int|
        0 <= i < cut.snapshots.len() && (#[trigger] cut.snapshots[i]).version
            > version implies cut.births[i] > store.generation by {
        assert(cut.snapshots[i] == store.snapshots[i]);
    }
    assert(later.snapshots[later.snapshots.len() - 1] == later.current());
    let grown = later.extended(patches, root);
    assert forall|i: int|
        0 <= i < grown.snapshots.len() && (#[trigger] grown.snapshots[i]).version
            > version implies grown.births[i] > store.generation by {
        if i < later.snapshots.len() {
            assert(grown.snapshots[i] == later.snapshots[i]);
        }
    }
    let less = later.truncated(other);
    assert forall|i: int|
        0 <= i < less.snapshots.len() && (#[trigger] less.snapshots[i]).version
            > version implies less.births[i] > store.generation by {
        assert(less.snapshots[i] == later.snapshots[i]);
    }
}

/// Published snapshots stay as they are, whatever is committed after them.
pub proof fn snapshots_outlive_commits(
    store: StoreView,
    patches: Seq<Patch>,
    root: ValueView,
    version: Version,
)
    requires
        store.wf(),
        store.current().version < Version::MAX,
        store.at(version) is Some,
    ensures
        store.extended(patches, root).at(version) == store.at(version),
        store.extended(patches, root).at((store.current().version + 1) as Version) == Some(
            SnapshotView { version: (store.current().version + 1) as Version, root },
        ),
{
    assert(store.snapshots[store.snapshots.len() - 1] == store.current());
}

spec fn prefix(store: StoreView, n: int) -> StoreView {
    StoreView { snapshots: store.snapshots.take(n + 1), log: store.log.take(n), ..store }.unbroken()
}

proof fn lemma_replay_prefix(store: StoreView, n: int)
    requires
        store.wf(),
        0 <= n <= store.log.len(),
    ensures
        replayed(store_of(store.owner, store.snapshots[0]), store.log.take(n)) == Ok::<
            StoreView,
            Error,
        >(prefix(store, n)),
    decreases n,
{
    let first = store_of(store.owner, store.snapshots[0]);
    if n == 0 {
        assert(store.log.take(0) =~= Seq::empty());
        assert(store.snapshots.take(1) =~= seq![store.snapshots[0]]);
        assert(prefix(store, 0).births =~= seq![0u64]);
        assert(prefix(store, 0) == first);
    } else {
        lemma_replay_prefix(store, n - 1);
        let before = prefix(store, n - 1);
        let record = store.log[n - 1];
        assert(store.log.take(n).drop_last() =~= store.log.take(n - 1));
        assert(store.log.take(n).last() == record);
        assert(before.current() == store.snapshots[n - 1]);
        lemma_rerun_is_run(before.current().root, record.patches);
        let after = before.extended(record.patches, store.snapshots[n].root);
        assert(store.snapshots[n].version == store.base + n);
        assert(after.snapshots =~= store.snapshots.take(n + 1));
        assert(after.births =~= prefix(store, n).births);
        assert(after.log =~= store.log.take(n));
        assert(after == prefix(store, n));
        assert(rerun_commit(before, record) == Ok::<StoreView, Error>(after));
    }
}

/// The log of a store, replayed on its first snapshot, gives the store back:
/// every version, every root, as if nothing had ever been discarded.
pub proof fn replay_reproduces_a_store(store: StoreView)
    requires
        store.wf(),
    ensures
        replayed(store_of(store.owner, store.snapshots[0]), store.log) == Ok::<StoreView, Error>(
            store.unbroken(),
        ),
{
    lemma_replay_prefix(store, store.log.len() as int);
    assert(store.log.take(store.log.len() as int) =~= store.log);
    assert(store.snapshots.take(store.log.len() + 1int) =~= store.snapshots);
}

/// A store has taken one step on: the next version is current, at `root`, its
/// commit is the last, and everything before stays as it was.
pub open spec fn one_version_on(
    before: StoreView,
    after: StoreView,
    patches: Seq<Patch>,
    root: ValueView,
) -> bool {
    &&& after.owner == before.owner
    &&& after.base == before.base
    &&& after.snapshots.len() == before.snapshots.len() + 1
    &&& forall|i: int|
        0 <= i < before.snapshots.len() ==> #[trigger] after.snapshots[i] == before.snapshots[i]
            && after.births[i] == before.births[i]
    &&& after.snapshots.last().version == before.snapshots.last().version + 1
    &&& after.snapshots.last().root == root
    &&& after.log.len() == before.log.len() + 1
    &&& forall|i: int| 0 <= i < before.log.len() ==> #[trigger] after.log[i] == before.log[i]
    &&& after.log.last().version == before.snapshots.last().version + 1
    &&& after.log.last().patches == patches
}

/// One patch mints one version exactly where it changes the root: then the next
/// version is current with what the patch makes of the root, and its commit
/// holds that patch alone. A patch that changes nothing, that is refused, or
/// that comes after the last version that can be counted, leaves everything as
/// it was.
pub proof fn patches_mint_where_they_change(
    before: StoreView,
    patch: Patch,
    r: Result<ApplyResult, Error>,
    after: StoreView,
)
    requires
        before.wf(),
        applies(before, patch, r, after),
    ensures
        ({
            let made = patch.applied(before.snapshots.last().root);
            let last = before.snapshots.last();
            &&& made is Err ==> r is Err && r->Err_0 == made->Err_0
            &&& r is Err ==> after == before
            &&& made is Ok && alike_values(made->Ok_0, last.root) ==> r is Ok && after == before
                && r->Ok_0.record is None && r->Ok_0.snapshot@ == last
            &&& made is Ok && !alike_values(made->Ok_0, last.root) && last.version < Version::MAX
                ==> {
                &&& r is Ok
                &&& one_version_on(before, after, seq![patch], made->Ok_0)
                &&& r->Ok_0.snapshot@ == after.snapshots.last()
                &&& r->Ok_0.record matches Some(record) && record@ == after.log.last()
            }
        }),
{
}

/// A patch that replaces what stands under a key by something else mints the
/// next version, in which that stands there and everything else as before.
pub proof fn replacements_mint_versions(
    before: StoreView,
    patch: Patch,
    r: Result<ApplyResult, Error>,
    after: StoreView,
    entries: Seq<(Seq<char>, ValueView)>,
    other: Seq<char>,
)
    requires
        before.wf(),
        applies(before, patch, r, after),
        before.snapshots.last().version < Version::MAX,
        before.snapshots.last().root == ValueView::Object(entries),
        sorted(entries),
        patch.edits().create@.len() == 0,
        patch.edits().delete@.len() == 0,
        patch.edits().update@.len() == 1,
        patch.edits().update@[0].1 is Replace,
        lookup(entries, patch.edits().update@[0].0@) matches Some(old) && !alike_values(
            patch.edits().update@[0].1->Replace_0@,
            old,
        ),
    ensures
        r is Ok,
        after.snapshots.len() == before.snapshots.len() + 1,
        after.snapshots.last().version == before.snapshots.last().version + 1,
        after.log.len() == before.log.len() + 1,
        after.snapshots.last().root matches ValueView::Object(now) && {
            &&& lookup(now, patch.edits().update@[0].0@) == Some(
                patch.edits().update@[0].1->Replace_0@,
            )
            &&& other != patch.edits().update@[0].0@ ==> lookup(now, other) == lookup(
                entries,
                other,
            )
        },
{
    let root = ValueView::Object(entries);
    let key = patch.edits().update@[0].0@;
    patches_go_through_where_they_fit(patch, entries, crate::json::JsonView::Null);
    assert(patch.applied(root) is Ok);
    let now = patch.applied(root)->Ok_0->Object_0;
    patches_leave_what_they_name(patch, entries, now, key);
    patches_leave_what_they_name(patch, entries, now, other);
    lemma_found(entries, key);
    let i = choose|i: int| 0 <= i < entries.len() && #[trigger] entries[i] == (
        key,
        lookup(entries, key)->0,
    );
    values_are_equal_part_by_part(ValueView::Object(now), root);
    if alike_values(ValueView::Object(now), root) {
        assert(now[i].0 == entries[i].0);
        lemma_finds(now, i);
    }
}

/// A batch folds what it is given: a patch that is refused leaves it as it was,
/// one that changes nothing is not kept, and one that changes the working state
/// comes last among its patches.
pub proof fn batches_keep_what_changes(
    before: BatchView,
    patch: Patch,
    r: Result<(), Error>,
    after: BatchView,
)
    requires
        folds(before, patch, r, after),
    ensures
        after.owner == before.owner && after.base == before.base && after.birth == before.birth,
        r is Err <==> patch.applied(before.working) is Err,
        r is Err ==> r->Err_0 == patch.applied(before.working)->Err_0,
        r is Err ==> after == before,
        r is Ok && alike_values(patch.applied(before.working)->Ok_0, before.working) ==> after
            == before,
        r is Ok && !alike_values(patch.applied(before.working)->Ok_0, before.working) ==> {
            &&& after.working == patch.applied(before.working)->Ok_0
            &&& after.patches.len() == before.patches.len() + 1
            &&& after.patches.last() == patch
            &&& forall|i: int|
                0 <= i < before.patches.len() ==> #[trigger] after.patches[i] == before.patches[i]
        },
{
}

/// A batch of this store that was opened on its current version publishes
/// exactly what it holds: all its patches as one version at its working state,
/// or nothing at all where it holds none.
pub proof fn batches_publish_what_they_hold(
    before: StoreView,
    batch: BatchView,
    r: Result<ApplyResult, Error>,
    after: StoreView,
)
    requires
        before.wf(),
        publishes(before, batch, r, after),
    ensures
        r is Err ==> after == before,
        batch.owner != before.owner ==> r == Err::<ApplyResult, Error>(Error::ForeignBatch),
        batch.owner == before.owner && (batch.base != before.snapshots.last() || batch.birth
            != before.births.last()) ==> r == Err::<ApplyResult, Error>(
            Error::Conflict {
                expected: batch.base.version,
                actual: before.snapshots.last().version,
            },
        ),
        batch.owner == before.owner && batch.base == before.snapshots.last() && batch.birth
            == before.births.last() ==> {
            &&& batch.patches.len() == 0 ==> r is Ok && after == before && r->Ok_0.record is None
                && r->Ok_0.snapshot@ == before.snapshots.last()
            &&& batch.patches.len() > 0 && before.snapshots.last().version < Version::MAX ==> {
                &&& r is Ok
                &&& one_version_on(before, after, batch.patches, batch.working)
                &&& r->Ok_0.snapshot@ == after.snapshots.last()
                &&& r->Ok_0.record matches Some(record) && record@ == after.log.last()
            }
            &&& batch.patches.len() > 0 && before.snapshots.last().version == Version::MAX ==> r
                == Err::<ApplyResult, Error>(Error::VersionOverflow)
        },
{
}

/// Discarding what lies above a retained version makes it current again and
/// keeps all up to it; where nothing lies above, or the version is not
/// retained, nothing changes.
pub proof fn truncation_keeps_what_came_before(
    store: StoreView,
    version: Version,
    other: Version,
)
    requires
        store.wf(),
    ensures
        store.truncated(version).wf(),
        store.base <= version <= store.snapshots.last().version ==> {
            let cut = store.truncated(version);
            &&& cut.snapshots.last() == store.snapshots[version - store.base]
            &&& cut.snapshots.last().version == version
            &&& other <= version ==> cut.at(other) == store.at(other)
            &&& other > version ==> cut.at(other) is None
            &&& cut.log == store.log.take(version - store.base)
        },
        !(store.base <= version < store.snapshots.last().version) ==> store.truncated(version)
            == store,
{
    assert(store.snapshots[store.snapshots.len() - 1] == store.snapshots.last());
    let cut = store.truncated(version);
    if store.base <= version < store.snapshots.last().version {
        assert forall|i: int| 0 <= i < cut.log.len() implies {
            &&& (#[trigger] cut.log[i]).version == cut.base + i + 1
            &&& cut.log[i].patches.len() > 0
            &&& run(cut.snapshots[i].root, cut.log[i].patches) == Some(cut.snapshots[i + 1].root)
        } by {
            assert(cut.log[i] == store.log[i]);
            assert(cut.snapshots[i] == store.snapshots[i]);
            assert(cut.snapshots[i + 1] == store.snapshots[i + 1]);
        }
    } else if version == store.snapshots.last().version {
        assert(store.log.take(version - store.base) =~= store.log);
    }
}

/// A store finds a version where it retains it, and what it finds is at that
/// version.
pub proof fn stores_find_what_they_retain(store: StoreView, version: Version)
    requires
        store.wf(),
    ensures
        store.at(version) is Some <==> store.base <= version <= store.snapshots.last().version,
        store.at(version) matches Some(found) ==> found.version == version
            && store.snapshots.contains(found),
        store.at(store.snapshots.last().version) == Some(store.snapshots.last()),
        store.current() == store.snapshots.last(),
{
    assert(store.snapshots[store.snapshots.len() - 1] == store.snapshots.last());
    if store.at(version) is Some {
        assert(store.snapshots[version - store.base] == store.at(version)->0);
    }
}

/// The commits between two versions are those that lead from the one to the
/// other: one for each version above the first and up to the second, in order.
pub proof fn commits_lead_from_version_to_version(
    store: StoreView,
    after: Version,
    through: Version,
)
    requires
        store.wf(),
    ensures
        store.between(after, through) is Some <==> store.base <= after <= through
            <= store.snapshots.last().version,
        store.between(after, through) matches Some(found) ==> {
            &&& found.len() == through - after
            &&& forall|i: int|
                0 <= i < found.len() ==> (#[trigger] found[i]).version == after + 1 + i
                    && store.log.contains(found[i])
        },
{
    assert(store.snapshots[store.snapshots.len() - 1] == store.snapshots.last());
    if store.between(after, through) is Some {
        let found = store.between(after, through)->0;
        assert forall|i: int| 0 <= i < found.len() implies (#[trigger] found[i]).version == after
            + 1 + i && store.log.contains(found[i]) by {
            assert(found[i] == store.log[after - store.base + i]);
        }
    }
}

/// A store begins with the snapshot it was given, and with nothing else.
pub proof fn stores_begin_with_one_version(owner: Arc<Mutex<()>>, first: SnapshotView)
    ensures
        ({
            let store = store_of(owner, first);
            &&& store.wf()
            &&& store.snapshots == seq![first]
            &&& store.at(first.version) == Some(first)
            &&& store.log.len() == 0
        }),
{
}

/// Running patches in two parts comes to the same as running them at once; one
/// patch goes through exactly where it applies and changes something.
pub proof fn patches_run_one_after_another(
    root: ValueView,
    first: Seq<Patch>,
    second: Seq<Patch>,
    patch: Patch,
)
    ensures
        run(root, Seq::empty()) == Some(root),
        run(root, seq![patch]) == match patch.applied(root) {
            Ok(after) => if alike_values(after, root) {
                None
            } else {
                Some(after)
            },
            Err(_) => None,
        },
        run(root, first + second) == match run(root, first) {
            Some(between) => run(between, second),
            None => None,
        },
    decreases second.len(),
{
    assert(seq![patch].drop_last() =~= Seq::empty());
    assert(seq![patch].last() == patch);
    reveal_with_fuel(run, 2);
    if second.len() == 0 {
        assert(first + second =~= first);
    } else {
        let all = first + second;
        assert(all.drop_last() =~= first + second.drop_last());
        assert(all.last() == second.last());
        patches_run_one_after_another(root, first, second.drop_last(), patch);
    }
}

/// What is replayed is what was recorded: each record must be the next version,
/// hold something, and lead by its patches, each of which changes something, to
/// the root that the store then has.
pub proof fn replays_follow_the_records(store: StoreView, record: CommitView)
    requires
        store.wf(),
    ensures
        rerun_commit(store, record) is Ok <==> store.snapshots.last().version < Version::MAX
            && record.version == store.snapshots.last().version + 1 && record.patches.len() > 0
            && run(store.snapshots.last().root, record.patches) is Some,
        rerun_commit(store, record) matches Ok(after) ==> one_version_on(
            store,
            after,
            record.patches,
            run(store.snapshots.last().root, record.patches)->0,
        ),
{
    lemma_rerun_is_run(store.snapshots.last().root, record.patches);
}

/// Replaying records in two parts comes to the same as replaying them at once.
pub proof fn records_replay_one_after_another(
    store: StoreView,
    first: Seq<CommitView>,
    second: Seq<CommitView>,
    record: CommitView,
)
    ensures
        replayed(store, Seq::empty()) == Ok::<StoreView, Error>(store),
        replayed(store, seq![record]) == rerun_commit(store, record),
        replayed(store, first + second) == match replayed(store, first) {
            Ok(between) => replayed(between, second),
            Err(e) => Err(e),
        },
    decreases second.len(),
{
    assert(seq![record].drop_last() =~= Seq::empty());
    assert(seq![record].last() == record);
    reveal_with_fuel(replayed, 2);
    if second.len() == 0 {
        assert(first + second =~= first);
    } else {
        let all = first + second;
        assert(all.drop_last() =~= first + second.drop_last());
        assert(all.last() == second.last());
        records_replay_one_after_another(store, first, second.drop_last(), record);
    }
}

} // verus!
