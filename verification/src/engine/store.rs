//! [`Store`] as a [`Reducible`].
//!
//! The mapping is direct because the store already separates working state
//! from published state: `Batch` is staged work, `apply_batch` is the commit,
//! and `Snapshot` is the MVCC pointer.

use super::reducible::{reports, Outcome, Reducible, Versioned};
use super::Version;
use crate::cavlc::error::Error;
use crate::cavlc::mvcc::{published, Batch, BatchView, Snapshot, SnapshotView, Store};
use crate::cavlc::patch::Patch;
use crate::cavlc::value::{alike_values, to_json_view};
use crate::json::{Json, JsonView};
use vstd::prelude::*;

verus! {

impl Versioned for Snapshot {
    type Model = SnapshotView;

    open spec fn model(&self) -> SnapshotView {
        self@
    }

    open spec fn number(model: SnapshotView) -> Version {
        model.version
    }

    open spec fn materialized(model: SnapshotView) -> JsonView {
        to_json_view(model.root)
    }

    fn version(&self) -> (r: Version)
        ensures
            r == Self::number(self.model()),
    {
        Snapshot::version(self)
    }

    fn state(&self) -> (r: Json)
        ensures
            r@ == Self::materialized(self.model()),
    {
        self.root().to_json()
    }

    fn share(&self) -> (r: Self)
        ensures
            r.model() == self.model(),
    {
        self.clone()
    }
}

impl Reducible for Store {
    type Patch = Patch;

    type View = Snapshot;

    type Staged = Batch;

    type Error = Error;

    open spec fn wf(&self) -> bool {
        self@.wf()
    }

    open spec fn now(&self) -> SnapshotView {
        self@.current()
    }

    open spec fn past(&self, version: Version) -> Option<SnapshotView> {
        self@.at(version)
    }

    open spec fn step(model: SnapshotView, patch: Patch) -> Outcome<SnapshotView, Error> {
        match patch.applied(model.root) {
            Err(e) => Outcome::Refused(e),
            Ok(root) => if alike_values(root, model.root) {
                Outcome::Unchanged
            } else if model.version == Version::MAX {
                Outcome::Refused(Error::VersionOverflow)
            } else {
                Outcome::Changed(SnapshotView { version: (model.version + 1) as Version, root })
            },
        }
    }

    open spec fn sound(staged: Batch) -> bool {
        staged.wf()
    }

    open spec fn staged_on(staged: Batch) -> Version {
        staged@.base.version
    }

    open spec fn opened(&self, staged: Batch) -> bool {
        staged@ == (BatchView {
            owner: self@.owner,
            base: self@.current(),
            birth: self@.births.last(),
            working: self@.current().root,
            patches: Seq::empty(),
        })
    }

    open spec fn outcome(&self, staged: Batch) -> Outcome<SnapshotView, Error> {
        match published(self@, staged@) {
            Err(e) => Outcome::Refused(e),
            Ok(None) => Outcome::Unchanged,
            Ok(Some(after)) => Outcome::Changed(after.current()),
        }
    }

    open spec fn resumption(model: SnapshotView) -> Result<(), Error> {
        Ok(())
    }

    proof fn step_mints_the_next(model: SnapshotView, patch: Patch) {
    }

    proof fn retains_the_current(&self) {
        assert(self@.snapshots[self@.snapshots.len() - 1] == self@.current());
        assert(self.past(Snapshot::number(self.now())) == Some(self.now()));
        assert forall|v: Version| #[trigger] self.past(v) is Some implies Snapshot::number(
            self.past(v)->0,
        ) == v && v <= Snapshot::number(self.now()) by {}
    }

    fn stage(&self) -> (r: Batch)
        ensures
            Self::sound(r),
            Self::staged_on(r) == Snapshot::number(self.now()),
            self.opened(r),
            self.outcome(r) is Unchanged,
    {
        self.begin_batch()
    }

    fn stage_patch(&self, staged: &mut Batch, patch: &Patch) -> (r: Result<(), Error>)
        ensures
            Self::sound(*final(staged)),
            Self::staged_on(*final(staged)) == Self::staged_on(*old(staged)),
            r is Err ==> self.outcome(*final(staged)) == self.outcome(*old(staged)),
            self.opened(*old(staged)) ==> match r {
                Ok(()) => self.outcome(*final(staged)) == Self::step(self.now(), *patch),
                Err(e) => Self::step(self.now(), *patch) is Refused && Self::step(
                    self.now(),
                    *patch,
                )->Refused_0 == e,
            },
    {
        staged.apply(patch)
    }

    fn commit(&mut self, staged: Batch) -> (r: Result<Option<Snapshot>, Error>)
        ensures
            final(self).wf(),
            reports(r, old(self).outcome(staged)),
            Self::staged_on(staged) != Snapshot::number(old(self).now()) ==> r is Err,
            final(self).now() == match r {
                Ok(Some(view)) => view.model(),
                _ => old(self).now(),
            },
            forall|v: Version| #[trigger]
                final(self).past(v) == match r {
                    Ok(Some(view)) => if v == Snapshot::number(view.model()) {
                        Some(view.model())
                    } else {
                        old(self).past(v)
                    },
                    _ => old(self).past(v),
                },
    {
        let ghost before = self@;
        let applied = match self.apply_batch(staged) {
            Ok(applied) => applied,
            Err(e) => return Err(e),
        };
        proof {
            assert(before.snapshots[before.snapshots.len() - 1] == before.current());
        }
        if applied.record.is_some() {
            Ok(Some(applied.snapshot))
        } else {
            Ok(None)
        }
    }

    fn view(&self) -> (r: Snapshot) {
        let r = self.snapshot();
        assert(r.model() == self.now());
        r
    }

    fn view_at(&self, version: Version) -> (r: Option<Snapshot>)
        ensures
            match r {
                Some(view) => self.past(version) == Some(view.model()),
                None => self.past(version) is None,
            },
    {
        self.snapshot_at(version)
    }

    fn truncate(&mut self, version: Version) -> (r: Result<(), Error>) {
        let ghost before = *self;
        Store::truncate(self, version);
        proof {
            assert(self.wf());
            if before.past(version) is Some {
                assert(self.now() == before.past(version)->0);
                assert forall|v: Version| #[trigger]
                    self.past(v) == if v <= version {
                        before.past(v)
                    } else {
                        None
                    } by {}
            }
        }
        Ok(())
    }

    fn resume(view: Snapshot) -> (r: Result<Self, Error>) {
        let store = Store::resume(view);
        assert(Self::resumption(view.model()) is Ok);
        assert(store.wf() && store.now() == view.model());
        Ok(store)
    }
}

/// A store takes the step that a patch asks for where the patch applies and
/// changes the root: to the next version, with what the patch makes of the root.
pub proof fn stores_step_where_patches_change(model: SnapshotView, patch: Patch)
    ensures
        ({
            let made = patch.applied(model.root);
            let step = <Store as Reducible>::step(model, patch);
            &&& made is Err ==> step is Refused && step->Refused_0 == made->Err_0
            &&& made is Ok && alike_values(made->Ok_0, model.root) ==> step is Unchanged
            &&& made is Ok && !alike_values(made->Ok_0, model.root) && model.version < Version::MAX
                ==> step is Changed && step->Changed_0.version == model.version + 1
                && step->Changed_0.root == made->Ok_0
            &&& made is Ok && !alike_values(made->Ok_0, model.root) && model.version == Version::MAX
                ==> step is Refused && step->Refused_0 == Error::VersionOverflow
            &&& Snapshot::number(model) == model.version
            &&& Snapshot::materialized(model) == to_json_view(model.root)
        }),
{
}

} // verus!
