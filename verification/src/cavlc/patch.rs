//! Patches: what an edit creates, updates and deletes.

use super::avl::{lemma_without_sorted, maps_lose_what_was_removed, without, AvlMap};
use super::error::{Error, Flaw};
use super::value::{Value, ValueView};
use crate::json::JsonView;
use crate::keyed::{lemma_put_lookup, lemma_put_sorted, lookup, put, sorted};
use std::sync::Arc;
use vstd::prelude::*;

verus! {

/// An edit of one object. Keys are created first, then updated, then deleted.
/// Cloning a patch is O(1).
#[derive(Debug, PartialEq)]
pub struct Patch(pub Arc<Edits>);

#[derive(Debug, PartialEq)]
pub struct Edits {
    /// Keys that must not be there yet.
    pub create: Vec<(String, Value)>,
    /// Keys that must be there.
    pub update: Vec<(String, Change)>,
    /// Keys that must be there.
    pub delete: Vec<String>,
}

#[derive(Debug, PartialEq)]
pub enum Change {
    /// Another value in its place.
    Replace(Value),
    /// An edit of the object that is there.
    Edit(Patch),
}

/// The entries after keys were created.
pub open spec fn created(
    entries: Seq<(Seq<char>, ValueView)>,
    create: Seq<(String, Value)>,
) -> Result<Seq<(Seq<char>, ValueView)>, Error>
    decreases create.len(),
{
    if create.len() == 0 {
        Ok(entries)
    } else {
        match created(entries, create.drop_last()) {
            Err(e) => Err(e),
            Ok(before) => {
                let (key, value) = create.last();
                if lookup(before, key@) is Some {
                    Err(Error::InvalidPatch(Flaw::KeyExists(key)))
                } else {
                    Ok(put(before, key@, value@))
                }
            },
        }
    }
}

/// The entries after keys were updated.
pub open spec fn updated(
    entries: Seq<(Seq<char>, ValueView)>,
    update: Seq<(String, Change)>,
) -> Result<Seq<(Seq<char>, ValueView)>, Error>
    decreases update, 1int,
{
    if update.len() == 0 {
        Ok(entries)
    } else {
        match updated(entries, update.drop_last()) {
            Err(e) => Err(e),
            Ok(before) => {
                let (key, change) = update.last();
                match lookup(before, key@) {
                    None => Err(Error::InvalidPatch(Flaw::NoSuchKey(key))),
                    Some(child) => match change {
                        Change::Replace(value) => Ok(put(before, key@, value@)),
                        Change::Edit(patch) => match patch.applied(child) {
                            Err(e) => Err(e),
                            Ok(edited) => Ok(put(before, key@, edited)),
                        },
                    },
                }
            },
        }
    }
}

/// The entries after keys were deleted.
pub open spec fn deleted(
    entries: Seq<(Seq<char>, ValueView)>,
    delete: Seq<String>,
) -> Result<Seq<(Seq<char>, ValueView)>, Error>
    decreases delete.len(),
{
    if delete.len() == 0 {
        Ok(entries)
    } else {
        match deleted(entries, delete.drop_last()) {
            Err(e) => Err(e),
            Ok(before) => {
                let key = delete.last();
                if lookup(before, key@) is None {
                    Err(Error::InvalidPatch(Flaw::NoSuchKey(key)))
                } else {
                    Ok(without(before, key@))
                }
            },
        }
    }
}

impl Clone for Patch {
    fn clone(&self) -> (r: Self)
        ensures
            r == *self,
    {
        Patch(self.0.clone())
    }
}

impl Patch {
    pub open spec fn edits(&self) -> Edits {
        *self.0
    }

    /// What the patch makes of a value.
    pub open spec fn applied(self, value: ValueView) -> Result<ValueView, Error>
        decreases self, 0int,
    {
        match value {
            ValueView::Atom(_) => Err(Error::InvalidPatch(Flaw::NotAnObject)),
            ValueView::Object(entries) => match created(entries, self.0.create@) {
                Err(e) => Err(e),
                Ok(first) => match updated(first, self.0.update@) {
                    Err(e) => Err(e),
                    Ok(second) => match deleted(second, self.0.delete@) {
                        Err(e) => Err(e),
                        Ok(third) => Ok(ValueView::Object(third)),
                    },
                },
            },
        }
    }

    pub fn new(edits: Edits) -> (r: Self)
        ensures
            r.edits() == edits,
    {
        Patch(Arc::new(edits))
    }
}

/// What stops a shorter list of creations stops a longer one.
proof fn lemma_created_stops(
    entries: Seq<(Seq<char>, ValueView)>,
    create: Seq<(String, Value)>,
    n: int,
)
    requires
        0 <= n <= create.len(),
    ensures
        created(entries, create.take(n)) is Err ==> created(entries, create) == created(
            entries,
            create.take(n),
        ),
    decreases create.len() - n,
{
    if n < create.len() {
        lemma_created_stops(entries, create, n + 1);
        assert(create.take(n + 1).drop_last() =~= create.take(n));
    } else {
        assert(create.take(n) =~= create);
    }
}

proof fn lemma_updated_stops(
    entries: Seq<(Seq<char>, ValueView)>,
    update: Seq<(String, Change)>,
    n: int,
)
    requires
        0 <= n <= update.len(),
    ensures
        updated(entries, update.take(n)) is Err ==> updated(entries, update) == updated(
            entries,
            update.take(n),
        ),
    decreases update.len() - n,
{
    if n < update.len() {
        lemma_updated_stops(entries, update, n + 1);
        assert(update.take(n + 1).drop_last() =~= update.take(n));
    } else {
        assert(update.take(n) =~= update);
    }
}

proof fn lemma_deleted_stops(
    entries: Seq<(Seq<char>, ValueView)>,
    delete: Seq<String>,
    n: int,
)
    requires
        0 <= n <= delete.len(),
    ensures
        deleted(entries, delete.take(n)) is Err ==> deleted(entries, delete) == deleted(
            entries,
            delete.take(n),
        ),
    decreases delete.len() - n,
{
    if n < delete.len() {
        lemma_deleted_stops(entries, delete, n + 1);
        assert(delete.take(n + 1).drop_last() =~= delete.take(n));
    } else {
        assert(delete.take(n) =~= delete);
    }
}

fn create_all(map: AvlMap, create: &Vec<(String, Value)>) -> (r: Result<AvlMap, Error>)
    ensures
        match r {
            Ok(out) => created(map.entries(), create@) == Ok::<
                Seq<(Seq<char>, ValueView)>,
                Error,
            >(out.entries()),
            Err(e) => created(map.entries(), create@) == Err::<
                Seq<(Seq<char>, ValueView)>,
                Error,
            >(e),
        },
{
    let ghost start = map.entries();
    let mut out = map;
    let mut i: usize = 0;
    assert(create@.take(0) =~= Seq::empty());
    while i < create.len()
        invariant
            i <= create.len(),
            created(start, create@.take(i as int)) == Ok::<Seq<(Seq<char>, ValueView)>, Error>(
                out.entries(),
            ),
            start == map.entries(),
        decreases create.len() - i,
    {
        proof {
            assert(create@.take(i + 1).drop_last() =~= create@.take(i as int));
            lemma_created_stops(start, create@, i + 1);
        }
        let key = &create[i].0;
        if out.get(key.as_str()).is_some() {
            return Err(Error::InvalidPatch(Flaw::KeyExists(key.clone())));
        }
        out = out.insert(key.clone(), create[i].1.clone());
        i += 1;
    }
    assert(create@.take(i as int) =~= create@);
    Ok(out)
}

fn delete_all(map: AvlMap, delete: &Vec<String>) -> (r: Result<AvlMap, Error>)
    ensures
        match r {
            Ok(out) => deleted(map.entries(), delete@) == Ok::<
                Seq<(Seq<char>, ValueView)>,
                Error,
            >(out.entries()),
            Err(e) => deleted(map.entries(), delete@) == Err::<
                Seq<(Seq<char>, ValueView)>,
                Error,
            >(e),
        },
{
    let ghost start = map.entries();
    let mut out = map;
    let mut i: usize = 0;
    assert(delete@.take(0) =~= Seq::empty());
    while i < delete.len()
        invariant
            i <= delete.len(),
            deleted(start, delete@.take(i as int)) == Ok::<Seq<(Seq<char>, ValueView)>, Error>(
                out.entries(),
            ),
            start == map.entries(),
        decreases delete.len() - i,
    {
        proof {
            assert(delete@.take(i + 1).drop_last() =~= delete@.take(i as int));
            lemma_deleted_stops(start, delete@, i + 1);
        }
        let key = &delete[i];
        if out.get(key.as_str()).is_none() {
            return Err(Error::InvalidPatch(Flaw::NoSuchKey(key.clone())));
        }
        out = out.remove(key.as_str());
        i += 1;
    }
    assert(delete@.take(i as int) =~= delete@);
    Ok(out)
}

impl Patch {
    fn update_all(&self, map: AvlMap) -> (r: Result<AvlMap, Error>)
        ensures
            match r {
                Ok(out) => updated(map.entries(), self.0.update@) == Ok::<
                    Seq<(Seq<char>, ValueView)>,
                    Error,
                >(out.entries()),
                Err(e) => updated(map.entries(), self.0.update@) == Err::<
                    Seq<(Seq<char>, ValueView)>,
                    Error,
                >(e),
            },
        decreases self, 0int,
    {
        let ghost start = map.entries();
        let update = &self.0.update;
        let mut out = map;
        let mut i: usize = 0;
        assert(update@.take(0) =~= Seq::empty());
        while i < update.len()
            invariant
                i <= update.len(),
                *update == self.0.update,
                updated(start, update@.take(i as int)) == Ok::<
                    Seq<(Seq<char>, ValueView)>,
                    Error,
                >(out.entries()),
                start == map.entries(),
            decreases update.len() - i,
        {
            proof {
                assert(update@.take(i + 1).drop_last() =~= update@.take(i as int));
                lemma_updated_stops(start, update@, i + 1);
            }
            let key = &update[i].0;
            let next = match out.get(key.as_str()) {
                None => return Err(Error::InvalidPatch(Flaw::NoSuchKey(key.clone()))),
                Some(child) => match &update[i].1 {
                    Change::Replace(value) => value.clone(),
                    Change::Edit(patch) => {
                        proof {
                            assert(decreases_to!(*self => self.0.update));
                            assert(decreases_to!(*update => update@));
                            assert(decreases_to!(update@ => update@[i as int]));
                            assert(decreases_to!(update@[i as int] => update@[i as int].1));
                            assert(decreases_to!(update@[i as int].1 => update@[i as int].1->Edit_0));
                        }
                        match patch.apply(child) {
                            Ok(edited) => edited,
                            Err(e) => return Err(e),
                        }
                    },
                },
            };
            out = out.insert(key.clone(), next);
            i += 1;
        }
        assert(update@.take(i as int) =~= update@);
        Ok(out)
    }

    /// The value after the edit; the one given stays as it is.
    pub fn apply(&self, value: &Value) -> (r: Result<Value, Error>)
        ensures
            match r {
                Ok(edited) => self.applied(value@) == Ok::<ValueView, Error>(edited@),
                Err(e) => self.applied(value@) == Err::<ValueView, Error>(e),
            },
        decreases self, 1int,
    {
        let map = match value.as_object() {
            Some(map) => map.share(),
            None => return Err(Error::InvalidPatch(Flaw::NotAnObject)),
        };
        let first = match create_all(map, &self.0.create) {
            Ok(map) => map,
            Err(e) => return Err(e),
        };
        let second = match self.update_all(first) {
            Ok(map) => map,
            Err(e) => return Err(e),
        };
        match delete_all(second, &self.0.delete) {
            Ok(map) => Ok(Value::object(map)),
            Err(e) => Err(e),
        }
    }
}

/// A patch without an edit in it changes nothing.
pub proof fn empty_patches_change_nothing(
    patch: Patch,
    entries: Seq<(Seq<char>, ValueView)>,
)
    requires
        patch.edits().create@.len() == 0,
        patch.edits().update@.len() == 0,
        patch.edits().delete@.len() == 0,
    ensures
        patch.applied(ValueView::Object(entries)) == Ok::<ValueView, Error>(
            ValueView::Object(entries),
        ),
{
}

// ---------------------------------------------------------------------
// What an edit leaves behind, key by key.

/// Some key of the list is `key`.
pub open spec fn creates(create: Seq<(String, Value)>, key: Seq<char>) -> bool {
    exists|i: int| 0 <= i < create.len() && (#[trigger] create[i]).0@ == key
}

pub open spec fn updates(update: Seq<(String, Change)>, key: Seq<char>) -> bool {
    exists|i: int| 0 <= i < update.len() && (#[trigger] update[i]).0@ == key
}

pub open spec fn deletes(delete: Seq<String>, key: Seq<char>) -> bool {
    exists|i: int| 0 <= i < delete.len() && (#[trigger] delete[i])@ == key
}

/// No two creations have one key.
pub open spec fn distinct_creations(create: Seq<(String, Value)>) -> bool {
    forall|i: int, j: int|
        #![trigger create[i], create[j]]
        0 <= i < j < create.len() ==> create[i].0@ != create[j].0@
}

/// No two updates have one key.
pub open spec fn distinct_updates(update: Seq<(String, Change)>) -> bool {
    forall|i: int, j: int|
        #![trigger update[i], update[j]]
        0 <= i < j < update.len() ==> update[i].0@ != update[j].0@
}

/// No two deletions have one key.
pub open spec fn distinct_deletions(delete: Seq<String>) -> bool {
    forall|i: int, j: int|
        #![trigger delete[i], delete[j]]
        0 <= i < j < delete.len() ==> delete[i]@ != delete[j]@
}

proof fn lemma_created_keys(
    entries: Seq<(Seq<char>, ValueView)>,
    create: Seq<(String, Value)>,
    key: Seq<char>,
)
    requires
        sorted(entries),
    ensures
        created(entries, create) is Ok <==> distinct_creations(create) && forall|i: int|
            0 <= i < create.len() ==> lookup(entries, (#[trigger] create[i]).0@) is None,
        created(entries, create) matches Ok(after) ==> {
            &&& sorted(after)
            &&& !creates(create, key) ==> lookup(after, key) == lookup(entries, key)
            &&& forall|i: int|
                0 <= i < create.len() && (#[trigger] create[i]).0@ == key ==> lookup(after, key)
                    == Some(create[i].1@)
        },
    decreases create.len(),
{
    if create.len() > 0 {
        let less = create.drop_last();
        let n = create.len() - 1;
        let (k, v) = create.last();
        assert(create[n] == create.last());
        assert forall|i: int| 0 <= i < less.len() implies #[trigger] less[i] == create[i] by {}
        lemma_created_keys(entries, less, key);
        lemma_created_keys(entries, less, k@);
        if created(entries, less) is Ok {
            let before = created(entries, less)->Ok_0;
            lemma_put_sorted(before, k@, v@);
            lemma_put_lookup(before, k@, v@, key);
            if lookup(before, k@) is Some {
                if creates(less, k@) {
                    let i = choose|i: int| 0 <= i < less.len() && (#[trigger] less[i]).0@ == k@;
                    assert(create[i].0@ == create[n].0@);
                } else {
                    assert(lookup(entries, create[n].0@) is Some);
                }
            } else {
                assert(!creates(less, k@)) by {
                    if creates(less, k@) {
                        let i = choose|i: int|
                            0 <= i < less.len() && (#[trigger] less[i]).0@ == k@;
                        assert(lookup(before, k@) == Some(less[i].1@));
                    }
                }
                assert forall|i: int| 0 <= i < create.len() implies lookup(
                    entries,
                    (#[trigger] create[i]).0@,
                ) is None by {
                    if i < n {
                        assert(less[i] == create[i]);
                    }
                }
                assert forall|i: int, j: int|
                    #![trigger create[i], create[j]]
                    0 <= i < j < create.len() implies create[i].0@ != create[j].0@ by {
                    assert(create[i] == less[i]);
                    if j < n {
                        assert(create[j] == less[j]);
                    }
                }
                if creates(create, key) && key != k@ {
                    let i = choose|i: int|
                        0 <= i < create.len() && (#[trigger] create[i]).0@ == key;
                    assert(less[i] == create[i]);
                }
                if creates(less, key) {
                    let i = choose|i: int| 0 <= i < less.len() && (#[trigger] less[i]).0@ == key;
                    assert(create[i].0@ == key);
                }
                assert(creates(create, k@));
                assert forall|i: int| 0 <= i < create.len() && (#[trigger] create[i]).0@
                    == key implies lookup(put(before, k@, v@), key) == Some(create[i].1@) by {
                    if i < n {
                        assert(less[i] == create[i]);
                        assert(creates(less, key));
                    }
                }
            }
        } else if distinct_creations(create) && forall|i: int|
            0 <= i < create.len() ==> lookup(entries, (#[trigger] create[i]).0@) is None {
            assert forall|i: int, j: int|
                #![trigger less[i], less[j]]
                0 <= i < j < less.len() implies less[i].0@ != less[j].0@ by {
                assert(create[i].0@ != create[j].0@);
            }
            assert forall|i: int| 0 <= i < less.len() implies lookup(
                entries,
                (#[trigger] less[i]).0@,
            ) is None by {
                assert(create[i] == less[i]);
            }
            assert(false);
        }
    }
}

proof fn lemma_updated_keys(
    entries: Seq<(Seq<char>, ValueView)>,
    update: Seq<(String, Change)>,
    key: Seq<char>,
)
    requires
        sorted(entries),
    ensures
        updated(entries, update) matches Ok(after) ==> {
            &&& sorted(after)
            &&& lookup(after, key) is Some <==> lookup(entries, key) is Some
            &&& updates(update, key) ==> lookup(entries, key) is Some
            &&& !updates(update, key) ==> lookup(after, key) == lookup(entries, key)
            &&& distinct_updates(update) ==> forall|i: int|
                0 <= i < update.len() && (#[trigger] update[i]).0@ == key ==> match update[i].1 {
                    Change::Replace(value) => lookup(after, key) == Some(value@),
                    Change::Edit(inner) => inner.applied(lookup(entries, key)->0) == Ok::<
                        ValueView,
                        Error,
                    >(lookup(after, key)->0),
                }
        },
    decreases update.len(),
{
    if update.len() > 0 {
        let less = update.drop_last();
        let n = update.len() - 1;
        let (k, change) = update.last();
        assert(update[n] == update.last());
        assert forall|i: int| 0 <= i < less.len() implies #[trigger] less[i] == update[i] by {}
        lemma_updated_keys(entries, less, key);
        lemma_updated_keys(entries, less, k@);
        if updated(entries, update) is Ok {
            let before = updated(entries, less)->Ok_0;
            let after = updated(entries, update)->Ok_0;
            let value = match change {
                Change::Replace(value) => value@,
                Change::Edit(inner) => inner.applied(lookup(before, k@)->0)->Ok_0,
            };
            assert(after == put(before, k@, value));
            lemma_put_sorted(before, k@, value);
            lemma_put_lookup(before, k@, value, key);
            if updates(less, key) {
                let i = choose|i: int| 0 <= i < less.len() && (#[trigger] less[i]).0@ == key;
                assert(update[i].0@ == key);
            }
            assert(updates(update, k@));
            if updates(update, key) && key != k@ {
                let i = choose|i: int| 0 <= i < update.len() && (#[trigger] update[i]).0@ == key;
                assert(less[i] == update[i]);
            }
            if distinct_updates(update) {
                assert forall|i: int, j: int|
                    #![trigger less[i], less[j]]
                    0 <= i < j < less.len() implies less[i].0@ != less[j].0@ by {
                    assert(update[i].0@ != update[j].0@);
                }
                assert(!updates(less, k@)) by {
                    if updates(less, k@) {
                        let i = choose|i: int|
                            0 <= i < less.len() && (#[trigger] less[i]).0@ == k@;
                        assert(update[i].0@ != update[n].0@);
                    }
                }
                assert forall|i: int| 0 <= i < update.len() && (#[trigger] update[i]).0@
                    == key implies match update[i].1 {
                    Change::Replace(value) => lookup(after, key) == Some(value@),
                    Change::Edit(inner) => inner.applied(lookup(entries, key)->0) == Ok::<
                        ValueView,
                        Error,
                    >(lookup(after, key)->0),
                } by {
                    if i < n {
                        assert(update[i].0@ != update[n].0@);
                        assert(less[i] == update[i]);
                    }
                }
            }
        }
    }
}

/// Updates go through where every key is there and every nested edit goes
/// through.
proof fn lemma_updated_succeeds(
    entries: Seq<(Seq<char>, ValueView)>,
    update: Seq<(String, Change)>,
)
    requires
        sorted(entries),
        distinct_updates(update),
    ensures
        updated(entries, update) is Ok <==> forall|i: int|
            0 <= i < update.len() ==> {
                &&& lookup(entries, (#[trigger] update[i]).0@) is Some
                &&& update[i].1 matches Change::Edit(inner) ==> inner.applied(
                    lookup(entries, update[i].0@)->0,
                ) is Ok
            },
    decreases update.len(),
{
    if update.len() > 0 {
        let less = update.drop_last();
        let n = update.len() - 1;
        let (k, change) = update.last();
        assert(update[n] == update.last());
        assert forall|i: int| 0 <= i < less.len() implies #[trigger] less[i] == update[i] by {}
        assert forall|i: int, j: int|
            #![trigger less[i], less[j]]
            0 <= i < j < less.len() implies less[i].0@ != less[j].0@ by {
            assert(update[i].0@ != update[j].0@);
        }
        lemma_updated_succeeds(entries, less);
        lemma_updated_keys(entries, less, k@);
        assert(!updates(less, k@)) by {
            if updates(less, k@) {
                let i = choose|i: int| 0 <= i < less.len() && (#[trigger] less[i]).0@ == k@;
                assert(update[i].0@ != update[n].0@);
            }
        }
        if updated(entries, less) is Err {
            let i = choose|i: int|
                0 <= i < less.len() && !({
                    &&& lookup(entries, (#[trigger] less[i]).0@) is Some
                    &&& less[i].1 matches Change::Edit(inner) ==> inner.applied(
                        lookup(entries, less[i].0@)->0,
                    ) is Ok
                });
            assert(update[i] == less[i]);
        } else {
            assert forall|i: int| 0 <= i < n implies {
                &&& lookup(entries, (#[trigger] update[i]).0@) is Some
                &&& update[i].1 matches Change::Edit(inner) ==> inner.applied(
                    lookup(entries, update[i].0@)->0,
                ) is Ok
            } by {
                assert(update[i] == less[i]);
            }
        }
    }
}

proof fn lemma_deleted_keys(
    entries: Seq<(Seq<char>, ValueView)>,
    delete: Seq<String>,
    key: Seq<char>,
)
    requires
        sorted(entries),
    ensures
        deleted(entries, delete) is Ok <==> distinct_deletions(delete) && forall|i: int|
            0 <= i < delete.len() ==> lookup(entries, (#[trigger] delete[i])@) is Some,
        deleted(entries, delete) matches Ok(after) ==> {
            &&& sorted(after)
            &&& lookup(after, key) == if deletes(delete, key) {
                None
            } else {
                lookup(entries, key)
            }
        },
    decreases delete.len(),
{
    if delete.len() > 0 {
        let less = delete.drop_last();
        let n = delete.len() - 1;
        let k = delete.last();
        assert(delete[n] == k);
        assert forall|i: int| 0 <= i < less.len() implies #[trigger] less[i] == delete[i] by {}
        lemma_deleted_keys(entries, less, key);
        lemma_deleted_keys(entries, less, k@);
        assert(deletes(less, key) ==> deletes(delete, key)) by {
            if deletes(less, key) {
                let i = choose|i: int| 0 <= i < less.len() && (#[trigger] less[i])@ == key;
                assert(delete[i]@ == key);
            }
        }
        assert(deletes(delete, key) && key != k@ ==> deletes(less, key)) by {
            if deletes(delete, key) && key != k@ {
                let i = choose|i: int| 0 <= i < delete.len() && (#[trigger] delete[i])@ == key;
                assert(less[i]@ == key);
            }
        }
        assert(deletes(delete, k@));
        if deleted(entries, less) is Ok {
            let before = deleted(entries, less)->Ok_0;
            lemma_without_sorted(before, k@, Seq::empty());
            maps_lose_what_was_removed(before, k@, key);
            if lookup(before, k@) is None {
                if deletes(less, k@) {
                    let i = choose|i: int| 0 <= i < less.len() && (#[trigger] less[i])@ == k@;
                    assert(delete[i]@ == delete[n]@);
                }
            } else {
                assert forall|i: int, j: int|
                    #![trigger delete[i], delete[j]]
                    0 <= i < j < delete.len() implies delete[i]@ != delete[j]@ by {
                    assert(delete[i] == less[i]);
                    if j < n {
                        assert(delete[j] == less[j]);
                    } else if delete[i]@ == k@ {
                        assert(deletes(less, k@));
                    }
                }
                assert forall|i: int| 0 <= i < delete.len() implies lookup(
                    entries,
                    (#[trigger] delete[i])@,
                ) is Some by {
                    if i < n {
                        assert(less[i] == delete[i]);
                    }
                }
            }
        } else if distinct_deletions(delete) && forall|i: int|
            0 <= i < delete.len() ==> lookup(entries, (#[trigger] delete[i])@) is Some {
            assert forall|i: int, j: int|
                #![trigger less[i], less[j]]
                0 <= i < j < less.len() implies less[i]@ != less[j]@ by {
                assert(delete[i]@ != delete[j]@);
            }
            assert forall|i: int| 0 <= i < less.len() implies lookup(
                entries,
                (#[trigger] less[i])@,
            ) is Some by {
                assert(delete[i] == less[i]);
            }
            assert(false);
        }
    }
}

/// An edit that goes through leaves behind exactly what it names. Under a key
/// that it deletes nothing is found any more. Otherwise, under a key that it
/// replaces the new value is found, under one whose object it edits what the
/// nested edit makes of the value that was there or was created, under one that
/// it creates the created value, and under every other key what was there.
pub proof fn patches_leave_what_they_name(
    patch: Patch,
    entries: Seq<(Seq<char>, ValueView)>,
    after: Seq<(Seq<char>, ValueView)>,
    key: Seq<char>,
)
    requires
        sorted(entries),
        patch.applied(ValueView::Object(entries)) == Ok::<ValueView, Error>(
            ValueView::Object(after),
        ),
    ensures
        sorted(after),
        deletes(patch.edits().delete@, key) ==> lookup(after, key) is None,
        !creates(patch.edits().create@, key) && !updates(patch.edits().update@, key)
            && !deletes(patch.edits().delete@, key) ==> lookup(after, key) == lookup(entries, key),
        forall|i: int|
            0 <= i < patch.edits().create@.len() && (#[trigger] patch.edits().create@[i]).0@ == key
                && !updates(patch.edits().update@, key) && !deletes(patch.edits().delete@, key)
                ==> lookup(after, key) == Some(patch.edits().create@[i].1@),
        distinct_updates(patch.edits().update@) && !deletes(patch.edits().delete@, key)
            ==> forall|i: int|
            0 <= i < patch.edits().update@.len() && (#[trigger] patch.edits().update@[i]).0@ == key
                ==> match patch.edits().update@[i].1 {
                Change::Replace(value) => lookup(after, key) == Some(value@),
                Change::Edit(inner) => {
                    &&& lookup(after, key) is Some
                    &&& !creates(patch.edits().create@, key) ==> lookup(entries, key) is Some
                        && inner.applied(lookup(entries, key)->0) == Ok::<ValueView, Error>(
                        lookup(after, key)->0,
                    )
                    &&& forall|j: int|
                        0 <= j < patch.edits().create@.len() && (
                        #[trigger] patch.edits().create@[j]).0@ == key ==> inner.applied(
                            patch.edits().create@[j].1@,
                        ) == Ok::<ValueView, Error>(lookup(after, key)->0)
                },
            },
{
    let edits = patch.edits();
    let first = created(entries, edits.create@)->Ok_0;
    let second = updated(first, edits.update@)->Ok_0;
    lemma_created_keys(entries, edits.create@, key);
    lemma_updated_keys(first, edits.update@, key);
    lemma_deleted_keys(second, edits.delete@, key);
}

/// An edit of an object goes through exactly where no key is created twice or
/// is there already, every key to update or delete is there or was created,
/// none is deleted twice, and the nested edits go through. Nothing else is
/// edited.
pub proof fn patches_go_through_where_they_fit(
    patch: Patch,
    entries: Seq<(Seq<char>, ValueView)>,
    atom: JsonView,
)
    requires
        sorted(entries),
        distinct_updates(patch.edits().update@),
    ensures
        patch.applied(ValueView::Atom(atom)) == Err::<ValueView, Error>(
            Error::InvalidPatch(Flaw::NotAnObject),
        ),
        patch.applied(ValueView::Object(entries)) is Ok ==> patch.applied(
            ValueView::Object(entries),
        )->Ok_0 is Object,
        patch.applied(ValueView::Object(entries)) is Ok <==> {
            &&& distinct_creations(patch.edits().create@)
            &&& forall|i: int|
                0 <= i < patch.edits().create@.len() ==> lookup(
                    entries,
                    (#[trigger] patch.edits().create@[i]).0@,
                ) is None
            &&& forall|i: int|
                0 <= i < patch.edits().update@.len() ==> {
                    let key = (#[trigger] patch.edits().update@[i]).0@;
                    &&& creates(patch.edits().create@, key) || lookup(entries, key) is Some
                    &&& patch.edits().update@[i].1 matches Change::Edit(inner) ==> {
                        &&& !creates(patch.edits().create@, key) ==> inner.applied(
                            lookup(entries, key)->0,
                        ) is Ok
                        &&& forall|j: int|
                            0 <= j < patch.edits().create@.len() && (
                            #[trigger] patch.edits().create@[j]).0@ == key ==> inner.applied(
                                patch.edits().create@[j].1@,
                            ) is Ok
                    }
                }
            &&& distinct_deletions(patch.edits().delete@)
            &&& forall|i: int|
                0 <= i < patch.edits().delete@.len() ==> creates(
                    patch.edits().create@,
                    (#[trigger] patch.edits().delete@[i])@,
                ) || lookup(entries, patch.edits().delete@[i]@) is Some
        },
{
    let edits = patch.edits();
    lemma_created_keys(entries, edits.create@, Seq::empty());
    if created(entries, edits.create@) is Ok {
        let first = created(entries, edits.create@)->Ok_0;
        assert forall|key: Seq<char>| #[trigger] lookup(first, key) is Some <==> creates(
            edits.create@,
            key,
        ) || lookup(entries, key) is Some by {
            lemma_created_keys(entries, edits.create@, key);
            if creates(edits.create@, key) {
                let i = choose|i: int|
                    0 <= i < edits.create@.len() && (#[trigger] edits.create@[i]).0@ == key;
                assert(lookup(first, key) == Some(edits.create@[i].1@));
            }
        }
        assert forall|i: int|
            #![trigger edits.update@[i]]
            0 <= i < edits.update@.len() && lookup(first, edits.update@[i].0@) is Some implies {
            let key = edits.update@[i].0@;
            &&& !creates(edits.create@, key) ==> lookup(first, key) == lookup(entries, key)
            &&& forall|j: int|
                0 <= j < edits.create@.len() && (#[trigger] edits.create@[j]).0@ == key ==> lookup(
                    first,
                    key,
                ) == Some(edits.create@[j].1@)
        } by {
            lemma_created_keys(entries, edits.create@, edits.update@[i].0@);
        }
        lemma_updated_succeeds(first, edits.update@);
        assert(updated(first, edits.update@) is Ok <==> forall|i: int|
            0 <= i < edits.update@.len() ==> {
                let key = (#[trigger] edits.update@[i]).0@;
                &&& creates(edits.create@, key) || lookup(entries, key) is Some
                &&& edits.update@[i].1 matches Change::Edit(inner) ==> {
                    &&& !creates(edits.create@, key) ==> inner.applied(
                        lookup(entries, key)->0,
                    ) is Ok
                    &&& forall|j: int|
                        0 <= j < edits.create@.len() && (#[trigger] edits.create@[j]).0@ == key
                            ==> inner.applied(edits.create@[j].1@) is Ok
                }
            });
        if updated(first, edits.update@) is Ok {
            let second = updated(first, edits.update@)->Ok_0;
            lemma_updated_keys(first, edits.update@, Seq::empty());
            lemma_deleted_keys(second, edits.delete@, Seq::empty());
            assert forall|i: int| 0 <= i < edits.delete@.len() implies (lookup(
                second,
                (#[trigger] edits.delete@[i])@,
            ) is Some <==> creates(edits.create@, edits.delete@[i]@) || lookup(
                entries,
                edits.delete@[i]@,
            ) is Some) by {
                lemma_updated_keys(first, edits.update@, edits.delete@[i]@);
            }
        }
    }
}

proof fn lemma_created_refusal(
    entries: Seq<(Seq<char>, ValueView)>,
    create: Seq<(String, Value)>,
)
    requires
        sorted(entries),
    ensures
        created(entries, create) matches Err(e) ==> exists|i: int|
            0 <= i < create.len() && e == Error::InvalidPatch(
                Flaw::KeyExists((#[trigger] create[i]).0),
            ) && (lookup(entries, create[i].0@) is Some || creates(
                create.take(i),
                create[i].0@,
            )),
    decreases create.len(),
{
    if create.len() > 0 && created(entries, create) is Err {
        let less = create.drop_last();
        let n = create.len() - 1;
        let e = created(entries, create)->Err_0;
        lemma_created_refusal(entries, less);
        if created(entries, less) is Err {
            let i = choose|i: int|
                0 <= i < less.len() && e == Error::InvalidPatch(
                    Flaw::KeyExists((#[trigger] less[i]).0),
                ) && (lookup(entries, less[i].0@) is Some || creates(less.take(i), less[i].0@));
            assert(create[i] == less[i]);
            assert(less.take(i) =~= create.take(i));
        } else {
            lemma_created_keys(entries, less, create[n].0@);
            assert(create.take(n) =~= less);
            assert(e == Error::InvalidPatch(Flaw::KeyExists(create[n].0)));
        }
    }
}

proof fn lemma_updated_refusal(
    entries: Seq<(Seq<char>, ValueView)>,
    update: Seq<(String, Change)>,
)
    requires
        sorted(entries),
        forall|i: int| 0 <= i < update.len() ==> (#[trigger] update[i]).1 is Replace,
    ensures
        updated(entries, update) matches Err(e) ==> exists|i: int|
            0 <= i < update.len() && e == Error::InvalidPatch(
                Flaw::NoSuchKey((#[trigger] update[i]).0),
            ) && lookup(entries, update[i].0@) is None,
    decreases update.len(),
{
    if update.len() > 0 && updated(entries, update) is Err {
        let less = update.drop_last();
        let n = update.len() - 1;
        let e = updated(entries, update)->Err_0;
        assert forall|i: int| 0 <= i < less.len() implies (#[trigger] less[i]).1 is Replace by {
            assert(less[i] == update[i]);
        }
        lemma_updated_refusal(entries, less);
        if updated(entries, less) is Err {
            let i = choose|i: int|
                0 <= i < less.len() && e == Error::InvalidPatch(
                    Flaw::NoSuchKey((#[trigger] less[i]).0),
                ) && lookup(entries, less[i].0@) is None;
            assert(update[i] == less[i]);
        } else {
            lemma_updated_keys(entries, less, update[n].0@);
            assert(update[n].1 is Replace);
            assert(e == Error::InvalidPatch(Flaw::NoSuchKey(update[n].0)));
        }
    }
}

proof fn lemma_deleted_refusal(entries: Seq<(Seq<char>, ValueView)>, delete: Seq<String>)
    requires
        sorted(entries),
    ensures
        deleted(entries, delete) matches Err(e) ==> exists|i: int|
            0 <= i < delete.len() && e == Error::InvalidPatch(
                Flaw::NoSuchKey(#[trigger] delete[i]),
            ) && (lookup(entries, delete[i]@) is None || deletes(delete.take(i), delete[i]@)),
    decreases delete.len(),
{
    if delete.len() > 0 && deleted(entries, delete) is Err {
        let less = delete.drop_last();
        let n = delete.len() - 1;
        let e = deleted(entries, delete)->Err_0;
        lemma_deleted_refusal(entries, less);
        if deleted(entries, less) is Err {
            let i = choose|i: int|
                0 <= i < less.len() && e == Error::InvalidPatch(
                    Flaw::NoSuchKey(#[trigger] less[i]),
                ) && (lookup(entries, less[i]@) is None || deletes(less.take(i), less[i]@));
            assert(delete[i] == less[i]);
            assert(less.take(i) =~= delete.take(i));
        } else {
            lemma_deleted_keys(entries, less, delete[n]@);
            assert(delete.take(n) =~= less);
            assert(e == Error::InvalidPatch(Flaw::NoSuchKey(delete[n])));
        }
    }
}

/// An edit without nested ones that is refused says which key is in its way: one
/// to create that is there already or was created before, or one to update or
/// to delete that is not there, or was deleted before.
pub proof fn refusals_name_the_key(patch: Patch, entries: Seq<(Seq<char>, ValueView)>, e: Error)
    requires
        sorted(entries),
        forall|i: int|
            0 <= i < patch.edits().update@.len() ==> (#[trigger] patch.edits().update@[i]).1
                is Replace,
        patch.applied(ValueView::Object(entries)) == Err::<ValueView, Error>(e),
    ensures
        ({
            let (create, update, delete) = (
                patch.edits().create@,
                patch.edits().update@,
                patch.edits().delete@,
            );
            ||| exists|i: int|
                0 <= i < create.len() && e == Error::InvalidPatch(
                    Flaw::KeyExists((#[trigger] create[i]).0),
                ) && (lookup(entries, create[i].0@) is Some || creates(
                    create.take(i),
                    create[i].0@,
                ))
            ||| exists|i: int|
                0 <= i < update.len() && e == Error::InvalidPatch(
                    Flaw::NoSuchKey((#[trigger] update[i]).0),
                ) && lookup(entries, update[i].0@) is None && !creates(create, update[i].0@)
            ||| exists|i: int|
                0 <= i < delete.len() && e == Error::InvalidPatch(
                    Flaw::NoSuchKey(#[trigger] delete[i]),
                ) && ((lookup(entries, delete[i]@) is None && !creates(create, delete[i]@))
                    || deletes(delete.take(i), delete[i]@))
        }),
{
    let (create, update, delete) = (
        patch.edits().create@,
        patch.edits().update@,
        patch.edits().delete@,
    );
    lemma_created_refusal(entries, create);
    if created(entries, create) is Ok {
        let first = created(entries, create)->Ok_0;
        lemma_created_keys(entries, create, Seq::empty());
        lemma_updated_refusal(first, update);
        if updated(first, update) is Err {
            let i = choose|i: int|
                0 <= i < update.len() && e == Error::InvalidPatch(
                    Flaw::NoSuchKey((#[trigger] update[i]).0),
                ) && lookup(first, update[i].0@) is None;
            lemma_created_keys(entries, create, update[i].0@);
            assert(!creates(create, update[i].0@));
        } else {
            let second = updated(first, update)->Ok_0;
            lemma_updated_keys(first, update, Seq::empty());
            lemma_deleted_refusal(second, delete);
            let i = choose|i: int|
                0 <= i < delete.len() && e == Error::InvalidPatch(
                    Flaw::NoSuchKey(#[trigger] delete[i]),
                ) && (lookup(second, delete[i]@) is None || deletes(delete.take(i), delete[i]@));
            lemma_updated_keys(first, update, delete[i]@);
            lemma_created_keys(entries, create, delete[i]@);
            if lookup(second, delete[i]@) is None {
                assert(!creates(create, delete[i]@));
            }
        }
    }
}

} // verus!
