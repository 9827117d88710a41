//! Data structures that fold patches into versions.

use super::Version;
use crate::json::{Json, JsonView};
use vstd::prelude::*;

verus! {

/// An MVCC pointer. Immutable, cheap to share, safe to hand to readers that
/// outlive the writer.
pub trait Versioned: Sized {
    /// What a pointer means.
    type Model;

    spec fn model(&self) -> Self::Model;

    spec fn number(model: Self::Model) -> Version;

    spec fn materialized(model: Self::Model) -> JsonView;

    fn version(&self) -> (r: Version)
        ensures
            r == Self::number(self.model()),
    ;

    /// The materialized state this pointer names, without the version framing
    /// the pointer carries around it.
    fn state(&self) -> (r: Json)
        ensures
            r@ == Self::materialized(self.model()),
    ;

    /// The same pointer once more.
    fn share(&self) -> (r: Self)
        ensures
            r.model() == self.model(),
    ;
}

/// What comes of applying a patch to a state.
#[verifier::ext_equal]
pub enum Outcome<M, E> {
    /// A new state.
    Changed(M),
    /// The same state; no version is minted.
    Unchanged,
    Refused(E),
}

/// `r` reports `outcome`.
pub open spec fn reports<V: Versioned, E>(
    r: Result<Option<V>, E>,
    outcome: Outcome<V::Model, E>,
) -> bool {
    match r {
        Ok(Some(view)) => outcome is Changed && outcome->Changed_0 == view.model(),
        Ok(None) => outcome is Unchanged,
        Err(e) => outcome is Refused && outcome->Refused_0 == e,
    }
}

/// A data structure that folds patches into versions.
///
/// Application is two-phase on purpose. [`stage_patch`](Reducible::stage_patch)
/// validates against current state and produces private working state that
/// nothing can observe; [`commit`](Reducible::commit) publishes it as one new
/// version. That split is what lets a log write its record to disk *before*
/// the change becomes visible, which is the whole point of a write-ahead log.
///
/// A staged value borrows nothing from the structure, so a caller may abandon
/// it by dropping it. Committing staged work built against a stale version
/// fails.
pub trait Reducible: Sized {
    /// The unit of change.
    type Patch;

    /// The pointer handed out by `commit`, and the type a
    /// [`Storage`](super::storage::Storage) checkpoints.
    type View: Versioned;

    /// Private, unpublished working state.
    type Staged;

    type Error;

    spec fn wf(&self) -> bool;

    /// The current state.
    spec fn now(&self) -> <Self::View as Versioned>::Model;

    /// A retained state.
    spec fn past(&self, version: Version) -> Option<<Self::View as Versioned>::Model>;

    /// What one patch makes of a state: a new state, none where it changes
    /// nothing, or a refusal.
    spec fn step(model: <Self::View as Versioned>::Model, patch: Self::Patch) -> Outcome<
        <Self::View as Versioned>::Model,
        Self::Error,
    >;

    /// Working state that staging could have produced.
    spec fn sound(staged: Self::Staged) -> bool;

    /// The version that working state was opened against.
    spec fn staged_on(staged: Self::Staged) -> Version;

    /// Working state just opened on the current version.
    spec fn opened(&self, staged: Self::Staged) -> bool;

    /// What committing working state comes to.
    spec fn outcome(&self, staged: Self::Staged) -> Outcome<
        <Self::View as Versioned>::Model,
        Self::Error,
    >;

    /// Whether a structure can be rebuilt from a checkpointed state.
    spec fn resumption(model: <Self::View as Versioned>::Model) -> Result<(), Self::Error>;

    /// A patch that changes anything mints exactly the next version.
    proof fn step_mints_the_next(
        model: <Self::View as Versioned>::Model,
        patch: Self::Patch,
    )
        ensures
            Self::step(model, patch) is Changed ==> Self::View::number(
                Self::step(model, patch)->Changed_0,
            ) == Self::View::number(model) + 1,
    ;

    /// The current version is retained, nothing above it is, and each retained
    /// state carries the version it is retained under.
    proof fn retains_the_current(&self)
        requires
            self.wf(),
        ensures
            self.past(Self::View::number(self.now())) == Some(self.now()),
            forall|v: Version| #[trigger]
                self.past(v) is Some ==> Self::View::number(self.past(v)->0) == v && v
                    <= Self::View::number(self.now()),
    ;

    /// Open working state against the current version.
    fn stage(&self) -> (r: Self::Staged)
        requires
            self.wf(),
        ensures
            Self::sound(r),
            Self::staged_on(r) == Self::View::number(self.now()),
            self.opened(r),
            self.outcome(r) is Unchanged,
    ;

    /// Fold one patch into working state. Errors leave earlier staged patches
    /// intact; the caller decides whether to continue or drop.
    fn stage_patch(&self, staged: &mut Self::Staged, patch: &Self::Patch) -> (r: Result<
        (),
        Self::Error,
    >)
        requires
            self.wf(),
            Self::sound(*old(staged)),
        ensures
            Self::sound(*final(staged)),
            Self::staged_on(*final(staged)) == Self::staged_on(*old(staged)),
            r is Err ==> self.outcome(*final(staged)) == self.outcome(*old(staged)),
            self.opened(*old(staged)) ==> match r {
                Ok(()) => self.outcome(*final(staged)) == Self::step(self.now(), *patch),
                Err(e) => Self::step(self.now(), *patch) is Refused && Self::step(
                    self.now(),
                    *patch,
                )->Refused_0 == e,
            },
    ;

    /// Publish working state as one new version. Fails if the base moved.
    /// Returns `None` when nothing staged actually changed the state, in which
    /// case no version is minted.
    fn commit(&mut self, staged: Self::Staged) -> (r: Result<Option<Self::View>, Self::Error>)
        requires
            old(self).wf(),
            Self::sound(staged),
        ensures
            final(self).wf(),
            reports(r, old(self).outcome(staged)),
            Self::staged_on(staged) != Self::View::number(old(self).now()) ==> r is Err,
            final(self).now() == match r {
                Ok(Some(view)) => view.model(),
                _ => old(self).now(),
            },
            forall|v: Version| #[trigger]
                final(self).past(v) == match r {
                    Ok(Some(view)) => if v == Self::View::number(view.model()) {
                        Some(view.model())
                    } else {
                        old(self).past(v)
                    },
                    _ => old(self).past(v),
                },
    ;

    /// The current pointer.
    fn view(&self) -> (r: Self::View)
        requires
            self.wf(),
        ensures
            r.model() == self.now(),
    ;

    /// A historical pointer, if the structure still retains it.
    fn view_at(&self, version: Version) -> (r: Option<Self::View>)
        requires
            self.wf(),
        ensures
            match r {
                Some(view) => self.past(version) == Some(view.model()),
                None => self.past(version) is None,
            },
    ;

    /// Forget every version above `version`, making it current again.
    ///
    /// Free for a partially persistent structure: the older roots are still
    /// there and nothing shares the discarded ones. A log calls this when a
    /// record fails to reach disk after the change was already folded into
    /// memory, so that memory never runs ahead of the write-ahead log.
    fn truncate(&mut self, version: Version) -> (r: Result<(), Self::Error>)
        requires
            old(self).wf(),
        ensures
            final(self).wf(),
            old(self).past(version) is Some ==> {
                &&& r is Ok
                &&& final(self).now() == old(self).past(version)->0
                &&& forall|v: Version| #[trigger]
                    final(self).past(v) == if v <= version {
                        old(self).past(v)
                    } else {
                        None
                    }
            },
    ;

    /// Rebuild from a checkpointed pointer. The result sits at the version of
    /// `view` and retains no history below it, which is what lets recovery skip
    /// every record the checkpoint covers.
    fn resume(view: Self::View) -> (r: Result<Self, Self::Error>)
        ensures
            match r {
                Ok(data) => {
                    &&& Self::resumption(view.model()) is Ok
                    &&& data.wf()
                    &&& data.now() == view.model()
                    &&& forall|v: Version|
                        v < Self::View::number(view.model()) ==> #[trigger] data.past(v) is None
                },
                Err(e) => Self::resumption(view.model()) == Err::<(), Self::Error>(e),
            },
    ;

    fn version(&self) -> (r: Version)
        requires
            self.wf(),
        ensures
            r == Self::View::number(self.now()),
    {
        self.view().version()
    }

    /// Stage, then commit, one patch.
    fn apply(&mut self, patch: &Self::Patch) -> (r: Result<Option<Self::View>, Self::Error>)
        requires
            old(self).wf(),
        ensures
            final(self).wf(),
            reports(r, Self::step(old(self).now(), *patch)),
            final(self).now() == match r {
                Ok(Some(view)) => view.model(),
                _ => old(self).now(),
            },
            forall|v: Version| #[trigger]
                final(self).past(v) == match r {
                    Ok(Some(view)) => if v == Self::View::number(view.model()) {
                        Some(view.model())
                    } else {
                        old(self).past(v)
                    },
                    _ => old(self).past(v),
                },
    {
        let mut staged = self.stage();
        match self.stage_patch(&mut staged, patch) {
            Ok(()) => self.commit(staged),
            Err(e) => Err(e),
        }
    }
}

/// The degenerate reducible: counts versions, keeps nothing.
///
/// Useful on its own as a plain append-only log, where subscribers care about
/// the patch stream and nobody needs a materialized view.
#[derive(Debug)]
pub struct Noop {
    /// The oldest version retained. Nonzero only after resuming a checkpoint.
    base: Version,
    version: Version,
}

/// [`Noop`]'s view is just the counter.
#[derive(Clone, Copy, Debug, PartialEq, Eq, Structural)]
pub struct Tick(pub Version);

impl Versioned for Tick {
    type Model = Version;

    open spec fn model(&self) -> Version {
        self.0
    }

    open spec fn number(model: Version) -> Version {
        model
    }

    /// A counter materializes nothing.
    open spec fn materialized(model: Version) -> JsonView {
        JsonView::Null
    }

    fn version(&self) -> (r: Version) {
        self.0
    }

    fn state(&self) -> (r: Json) {
        Json::Null
    }

    fn share(&self) -> (r: Tick) {
        *self
    }
}

/// The version counter is exhausted.
#[derive(Clone, Copy, Debug, PartialEq, Eq, Structural)]
pub struct Overflow {}

/// What [`Noop`] refuses.
#[derive(Clone, Copy, Debug, PartialEq, Eq, Structural)]
pub enum Refusal {
    Exhausted(Overflow),
    /// The work was staged against another version than the current one.
    Stale { expected: Version, actual: Version },
}

/// [`Noop`]'s working state: how many patches were staged, and against which
/// version.
#[derive(Clone, Copy, Debug, PartialEq, Eq, Structural)]
pub struct Staged {
    pub base: Version,
    pub count: usize,
}

impl Noop {
    pub closed spec fn count(&self) -> Version {
        self.version
    }

    /// The oldest version retained.
    pub closed spec fn floor(&self) -> Version {
        self.base
    }

    pub fn new() -> (r: Self)
        ensures
            r.wf(),
            r.now() == 0,
            r.floor() == 0,
    {
        Noop { base: 0, version: 0 }
    }
}

impl Default for Noop {
    fn default() -> (r: Self)
        ensures
            r.wf(),
            r.now() == 0,
            r.floor() == 0,
    {
        Noop::new()
    }
}

impl Reducible for Noop {
    type Patch = Json;

    type View = Tick;

    type Staged = Staged;

    type Error = Refusal;

    open spec fn wf(&self) -> bool {
        self.floor() <= self.count()
    }

    open spec fn now(&self) -> Version {
        self.count()
    }

    open spec fn past(&self, version: Version) -> Option<Version> {
        if self.floor() <= version <= self.count() {
            Some(version)
        } else {
            None
        }
    }

    open spec fn step(model: Version, patch: Json) -> Outcome<Version, Refusal> {
        if model == Version::MAX {
            Outcome::Refused(Refusal::Exhausted(Overflow {  }))
        } else {
            Outcome::Changed((model + 1) as Version)
        }
    }

    open spec fn sound(staged: Staged) -> bool {
        true
    }

    open spec fn staged_on(staged: Staged) -> Version {
        staged.base
    }

    open spec fn opened(&self, staged: Staged) -> bool {
        staged == (Staged { base: self.count(), count: 0 })
    }

    open spec fn outcome(&self, staged: Staged) -> Outcome<Version, Refusal> {
        if staged.base != self.count() {
            Outcome::Refused(Refusal::Stale { expected: staged.base, actual: self.count() })
        } else if staged.count == 0 {
            Outcome::Unchanged
        } else if self.count() == Version::MAX {
            Outcome::Refused(Refusal::Exhausted(Overflow {  }))
        } else {
            Outcome::Changed((self.count() + 1) as Version)
        }
    }

    open spec fn resumption(model: Version) -> Result<(), Refusal> {
        Ok(())
    }

    proof fn step_mints_the_next(model: Version, patch: Json) {
    }

    proof fn retains_the_current(&self) {
    }

    fn stage(&self) -> (r: Staged)
        ensures
            Self::sound(r),
            Self::staged_on(r) == Tick::number(self.now()),
            self.opened(r),
            self.outcome(r) is Unchanged,
    {
        Staged { base: self.version, count: 0 }
    }

    fn stage_patch(&self, staged: &mut Staged, patch: &Json) -> (r: Result<(), Refusal>)
        ensures
            r is Ok,
            Self::sound(*final(staged)),
            Self::staged_on(*final(staged)) == Self::staged_on(*old(staged)),
            *final(staged) == (Staged {
                base: old(staged).base,
                count: if old(staged).count < usize::MAX {
                    (old(staged).count + 1) as usize
                } else {
                    usize::MAX
                },
            }),
            self.opened(*old(staged)) ==> self.outcome(*final(staged)) == Self::step(
                self.now(),
                *patch,
            ),
    {
        staged.count = staged.count.saturating_add(1);
        Ok(())
    }

    fn commit(&mut self, staged: Staged) -> (r: Result<Option<Tick>, Refusal>)
        ensures
            reports(r, old(self).outcome(staged)),
            Self::staged_on(staged) != Tick::number(old(self).now()) ==> r is Err,
            r is Ok && r->Ok_0 is Some ==> Tick::number(r->Ok_0->0.model()) == old(self).now() + 1,
            final(self).floor() == old(self).floor(),
    {
        if staged.base != self.version {
            return Err(Refusal::Stale { expected: staged.base, actual: self.version });
        }
        if staged.count == 0 {
            return Ok(None);
        }
        if self.version == Version::MAX {
            return Err(Refusal::Exhausted(Overflow {  }));
        }
        self.version = self.version + 1;
        assert(forall|v: Version| #[trigger]
            self.past(v) == if v == self.version {
                Some(self.version)
            } else {
                old(self).past(v)
            });
        Ok(Some(Tick(self.version)))
    }

    fn view(&self) -> (r: Tick)
        ensures
            r.model() == self.now(),
    {
        Tick(self.version)
    }

    fn view_at(&self, version: Version) -> (r: Option<Tick>) {
        if self.base <= version && version <= self.version {
            Some(Tick(version))
        } else {
            None
        }
    }

    fn truncate(&mut self, version: Version) -> (r: Result<(), Refusal>)
        ensures
            r is Ok,
            final(self).now() == match old(self).past(version) {
                Some(kept) => kept,
                None => old(self).now(),
            },
            final(self).floor() == old(self).floor(),
    {
        if self.base <= version && version < self.version {
            self.version = version;
        }
        Ok(())
    }

    fn resume(view: Tick) -> (r: Result<Self, Refusal>)
        ensures
            r matches Ok(data) && data.floor() == view.0,
    {
        Ok(Noop { base: view.0, version: view.0 })
    }
}

/// A log without a structure counts: every patch mints the next version, whatever
/// it says, as long as versions can be counted.
pub proof fn counters_count_every_patch(version: Version, patch: Json)
    ensures
        version < Version::MAX ==> <Noop as Reducible>::step(version, patch) is Changed && <
            Noop as Reducible>::step(version, patch)->Changed_0 == version + 1,
        version == Version::MAX ==> <Noop as Reducible>::step(version, patch) is Refused,
        Tick::number(version) == version,
{
}

/// A log without a structure retains every version from where it began up to the
/// current one, each as the count it is; what was staged on another version is
/// refused, nothing staged changes nothing, and anything else mints one version.
pub proof fn counters_retain_every_version(counter: Noop, version: Version, staged: Staged)
    requires
        counter.wf(),
    ensures
        counter.past(version) is Some <==> counter.floor() <= version && version <= counter.now(),
        counter.past(version) is Some ==> counter.past(version)->0 == version,
        staged.base != counter.now() ==> counter.outcome(staged) == Outcome::<
            Version,
            Refusal,
        >::Refused(Refusal::Stale { expected: staged.base, actual: counter.now() }),
        staged.base == counter.now() && staged.count == 0 ==> counter.outcome(staged) is Unchanged,
        staged.base == counter.now() && staged.count > 0 && counter.now() < Version::MAX
            ==> counter.outcome(staged) is Changed && counter.outcome(staged)->Changed_0
            == counter.now() + 1,
{
}

} // verus!
