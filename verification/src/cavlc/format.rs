//! Patches and snapshots as JSON.
//!
//! A patch is an object with up to three fields: `Create` maps keys to values,
//! `Update` maps keys to what replaces them or, where that is an object, to a
//! patch of the object there, and `Delete` lists keys. A snapshot is an object
//! of its `version` and its `root`, or the two in an array.

use super::avl::without;
use super::error::{Error, Flaw};
use super::mvcc::{Snapshot, SnapshotView};
use super::patch::{created, deleted, updated, Change, Edits, Patch};
use super::value::{of_json_view, Value, ValueView};
use super::Version;
use crate::json::{
    canonical, fields_view, lemma_object, mistyped, Json, JsonView, Number, NumberView,
};
use crate::keyed::{lookup, put};
use crate::text::same;
use std::sync::Arc;
use vstd::prelude::*;

verus! {

/// What a patch says.
#[verifier::ext_equal]
pub struct PatchView {
    pub create: Seq<(Seq<char>, ValueView)>,
    pub update: Seq<(Seq<char>, ChangeView)>,
    pub delete: Seq<Seq<char>>,
}

#[verifier::ext_equal]
pub enum ChangeView {
    Replace(ValueView),
    Edit(PatchView),
}

pub open spec fn patch_view(patch: Patch) -> PatchView
    decreases patch,
{
    let edits = *patch.0;
    PatchView {
        create: Seq::new(
            edits.create@.len(),
            |i: int| (edits.create@[i].0@, edits.create@[i].1@),
        ),
        update: Seq::new(
            edits.update@.len(),
            |i: int|
                if 0 <= i < edits.update@.len() {
                    (
                        edits.update@[i].0@,
                        match edits.update@[i].1 {
                            Change::Replace(value) => ChangeView::Replace(value@),
                            Change::Edit(inner) => ChangeView::Edit(patch_view(inner)),
                        },
                    )
                } else {
                    (Seq::empty(), ChangeView::Replace(ValueView::Atom(JsonView::Null)))
                },
        ),
        delete: Seq::new(edits.delete@.len(), |i: int| edits.delete@[i]@),
    }
}

/// The value of the first field with this name.
pub open spec fn field(fields: Seq<(Seq<char>, JsonView)>, name: Seq<char>) -> Option<JsonView>
    decreases fields.len(),
{
    if fields.len() == 0 {
        None
    } else if fields[0].0 == name {
        Some(fields[0].1)
    } else {
        field(fields.drop_first(), name)
    }
}

/// Where the first field with this name stands, or the number of fields.
pub open spec fn field_at(fields: Seq<(Seq<char>, JsonView)>, name: Seq<char>) -> int
    decreases fields.len(),
{
    if fields.len() == 0 || fields[0].0 == name {
        0
    } else {
        1 + field_at(fields.drop_first(), name)
    }
}

proof fn lemma_field(fields: Seq<(Seq<char>, JsonView)>, name: Seq<char>)
    ensures
        0 <= field_at(fields, name) <= fields.len(),
        field(fields, name) is Some <==> field_at(fields, name) < fields.len(),
        field(fields, name) is Some ==> field(fields, name)->0 == fields[field_at(fields, name)].1,
    decreases fields.len(),
{
    if fields.len() > 0 && fields[0].0 != name {
        lemma_field(fields.drop_first(), name);
    }
}

pub open spec fn created_of(json: Option<JsonView>) -> Result<
    Seq<(Seq<char>, ValueView)>,
    Seq<char>,
> {
    match json {
        None => Ok(Seq::empty()),
        Some(JsonView::Object(entries)) => Ok(
            Seq::new(entries.len(), |i: int| (entries[i].0, of_json_view(entries[i].1))),
        ),
        Some(other) => Err(mistyped(other, "a map"@)),
    }
}

pub open spec fn deleted_of(json: Option<JsonView>) -> Result<Seq<Seq<char>>, Seq<char>> {
    match json {
        None => Ok(Seq::empty()),
        Some(JsonView::Array(items)) => texts_of(items),
        Some(other) => Err(mistyped(other, "a sequence"@)),
    }
}

/// The strings that these are, up to the first that is none.
pub open spec fn texts_of(items: Seq<JsonView>) -> Result<Seq<Seq<char>>, Seq<char>>
    decreases items.len(),
{
    if items.len() == 0 {
        Ok(Seq::empty())
    } else {
        match texts_of(items.drop_last()) {
            Err(reason) => Err(reason),
            Ok(before) => match items.last() {
                JsonView::Text(text) => Ok(before.push(text)),
                other => Err(mistyped(other, "a string"@)),
            },
        }
    }
}

/// The first field that no patch has.
pub open spec fn stray(fields: Seq<(Seq<char>, JsonView)>) -> Option<Seq<char>>
    decreases fields.len(),
{
    if fields.len() == 0 {
        None
    } else {
        match stray(fields.drop_last()) {
            Some(name) => Some(name),
            None => {
                let name = fields.last().0;
                if name == "Create"@ || name == "Update"@ || name == "Delete"@ {
                    None
                } else {
                    Some(name)
                }
            },
        }
    }
}

pub open spec fn stray_text(name: Seq<char>) -> Seq<char> {
    "unknown field `"@ + name + "`, expected one of `Create`, `Update`, `Delete`"@
}

/// The patch that some JSON is, whatever the order of its keys, or why it is
/// none.
pub open spec fn patch_of(json: JsonView) -> Result<PatchView, Seq<char>> {
    patch_in(canonical(json))
}

/// The patch that some JSON is, key by key as they stand, or why it is none.
pub open spec fn patch_in(json: JsonView) -> Result<PatchView, Seq<char>>
    decreases json, 1int,
{
    match json {
        JsonView::Object(fields) => match stray(fields) {
            Some(name) => Err(stray_text(name)),
            None => {
                let at = field_at(fields, "Update"@);
                let update = if 0 <= at < fields.len() {
                    match fields[at].1 {
                        JsonView::Object(entries) => changes_of(entries),
                        other => Err(mistyped(other, "a map"@)),
                    }
                } else {
                    Ok(Seq::empty())
                };
                match created_of(field(fields, "Create"@)) {
                    Err(reason) => Err(reason),
                    Ok(create) => match update {
                        Err(reason) => Err(reason),
                        Ok(update) => match deleted_of(field(fields, "Delete"@)) {
                            Err(reason) => Err(reason),
                            Ok(delete) => Ok(PatchView { create, update, delete }),
                        },
                    },
                }
            },
        },
        other => Err(mistyped(other, "a patch"@)),
    }
}

pub open spec fn changes_of(entries: Seq<(Seq<char>, JsonView)>) -> Result<
    Seq<(Seq<char>, ChangeView)>,
    Seq<char>,
>
    decreases entries, 2int,
{
    if entries.len() == 0 {
        Ok(Seq::empty())
    } else {
        match changes_of(entries.drop_last()) {
            Err(reason) => Err(reason),
            Ok(before) => {
                let (key, json) = entries.last();
                match json {
                    JsonView::Object(_) => match patch_in(json) {
                        Err(reason) => Err(reason),
                        Ok(inner) => Ok(before.push((key, ChangeView::Edit(inner)))),
                    },
                    _ => Ok(before.push((key, ChangeView::Replace(of_json_view(json))))),
                }
            },
        }
    }
}

fn position(fields: &Vec<(String, Json)>, name: &str) -> (r: usize)
    ensures
        r == field_at(fields_view(fields@), name@),
        r <= fields@.len(),
{
    let ghost all = fields_view(fields@);
    let mut i: usize = 0;
    assert(all.skip(0) =~= all);
    while i < fields.len()
        invariant
            i <= fields@.len(),
            all == fields_view(fields@),
            field_at(all, name@) == i + field_at(all.skip(i as int), name@),
        decreases fields@.len() - i,
    {
        assert(all.skip(i as int)[0] == all[i as int]);
        if same(fields[i].0.as_str(), name) {
            return i;
        }
        assert(all.skip(i as int).drop_first() =~= all.skip(i + 1));
        i += 1;
    }
    i
}

/// What stands in an optional place.
spec fn seen_in(json: Option<&Json>) -> Option<JsonView> {
    match json {
        Some(json) => Some(json@),
        None => None,
    }
}

fn read_create(json: Option<&Json>) -> (r: Result<Vec<(String, Value)>, String>)
    ensures
        match r {
            Ok(create) => created_of(seen_in(json)) == Ok::<_, Seq<char>>(
                Seq::new(create@.len(), |i: int| (create@[i].0@, create@[i].1@)),
            ),
            Err(reason) => created_of(seen_in(json)) == Err::<
                Seq<(Seq<char>, ValueView)>,
                _,
            >(reason@),
        },
{
    let mut out: Vec<(String, Value)> = Vec::new();
    match json {
        None => {
            assert(Seq::new(out@.len(), |i: int| (out@[i].0@, out@[i].1@)) =~= Seq::empty());
            Ok(out)
        },
        Some(json) => match json {
            Json::Object(entries) => {
                let ghost all = fields_view(entries@);
                proof {
                    lemma_object(*json);
                }
                let mut i: usize = 0;
                while i < entries.len()
                    invariant
                        i <= entries@.len(),
                        out@.len() == i,
                        all == fields_view(entries@),
                        forall|j: int|
                            0 <= j < i ==> (#[trigger] out@[j]).0@ == all[j].0 && out@[j].1@
                                == of_json_view(all[j].1),
                    decreases entries@.len() - i,
                {
                    out.push((entries[i].0.clone(), Value::from_json(&entries[i].1)));
                    i += 1;
                }
                assert(Seq::new(out@.len(), |i: int| (out@[i].0@, out@[i].1@)) =~= Seq::new(
                    all.len(),
                    |i: int| (all[i].0, of_json_view(all[i].1)),
                ));
                Ok(out)
            },
            other => Err(other.complain("a map")),
        },
    }
}

proof fn lemma_texts_stop(items: Seq<JsonView>, n: int)
    requires
        0 <= n <= items.len(),
        texts_of(items.take(n)) is Err,
    ensures
        texts_of(items) == texts_of(items.take(n)),
    decreases items.len() - n,
{
    if n < items.len() {
        assert(items.take(n + 1).drop_last() =~= items.take(n));
        lemma_texts_stop(items, n + 1);
    } else {
        assert(items.take(n) =~= items);
    }
}

fn read_delete(json: Option<&Json>) -> (r: Result<Vec<String>, String>)
    ensures
        match r {
            Ok(delete) => deleted_of(seen_in(json)) == Ok::<_, Seq<char>>(
                Seq::new(delete@.len(), |i: int| delete@[i]@),
            ),
            Err(reason) => deleted_of(seen_in(json)) == Err::<Seq<Seq<char>>, _>(reason@),
        },
{
    let mut out: Vec<String> = Vec::new();
    match json {
        None => {
            assert(Seq::new(out@.len(), |i: int| out@[i]@) =~= Seq::empty());
            Ok(out)
        },
        Some(inner) => match inner {
            Json::Array(items) => {
                let ghost all = inner@->Array_0;
                let mut i: usize = 0;
                assert(all.take(0) =~= Seq::empty());
                assert(Seq::new(out@.len(), |i: int| out@[i]@) =~= Seq::empty());
                while i < items.len()
                    invariant
                        i <= items@.len(),
                        out@.len() == i,
                        json == Some(inner),
                        *inner == Json::Array(*items),
                        inner@ == JsonView::Array(all),
                        all.len() == items@.len(),
                        texts_of(all.take(i as int)) == Ok::<_, Seq<char>>(
                            Seq::new(out@.len(), |i: int| out@[i]@),
                        ),
                    decreases items@.len() - i,
                {
                    let ghost so_far = Seq::new(out@.len(), |i: int| out@[i]@);
                    proof {
                        assert(all[i as int] == items@[i as int]@);
                        assert(all.take(i + 1).drop_last() =~= all.take(i as int));
                        assert(all.take(i + 1).last() == all[i as int]);
                    }
                    match &items[i] {
                        Json::Text(text) => out.push(text.clone()),
                        other => {
                            proof {
                                lemma_texts_stop(all, i + 1);
                            }
                            return Err(other.complain("a string"));
                        },
                    }
                    assert(Seq::new(out@.len(), |i: int| out@[i]@) =~= so_far.push(
                        out@[i as int]@,
                    ));
                    i += 1;
                }
                assert(all.take(i as int) =~= all);
                Ok(out)
            },
            other => Err(other.complain("a sequence")),
        },
    }
}

/// The first field that no patch has.
fn find_stray(fields: &Vec<(String, Json)>) -> (r: Option<String>)
    ensures
        stray(fields_view(fields@)) == match r {
            Some(name) => Some(name@),
            None => None,
        },
{
    let ghost all = fields_view(fields@);
    let mut i: usize = 0;
    assert(all.take(0) =~= Seq::empty());
    while i < fields.len()
        invariant
            i <= fields@.len(),
            all == fields_view(fields@),
            stray(all.take(i as int)) is None,
        decreases fields@.len() - i,
    {
        let name = fields[i].0.as_str();
        proof {
            assert(all.take(i + 1).drop_last() =~= all.take(i as int));
            assert(all.take(i + 1).last() == all[i as int]);
        }
        if !same(name, "Create") && !same(name, "Update") && !same(name, "Delete") {
            proof {
                lemma_stray_stays(all, i + 1);
            }
            return Some(fields[i].0.clone());
        }
        i += 1;
    }
    assert(all.take(i as int) =~= all);
    None
}

proof fn lemma_stray_stays(fields: Seq<(Seq<char>, JsonView)>, n: int)
    requires
        0 <= n <= fields.len(),
        stray(fields.take(n)) is Some,
    ensures
        stray(fields) == stray(fields.take(n)),
    decreases fields.len() - n,
{
    if n < fields.len() {
        assert(fields.take(n + 1).drop_last() =~= fields.take(n));
        lemma_stray_stays(fields, n + 1);
    } else {
        assert(fields.take(n) =~= fields);
    }
}

pub open spec fn changes_view(update: Seq<(String, Change)>) -> Seq<(Seq<char>, ChangeView)> {
    Seq::new(
        update.len(),
        |i: int|
            (
                update[i].0@,
                match update[i].1 {
                    Change::Replace(value) => ChangeView::Replace(value@),
                    Change::Edit(inner) => ChangeView::Edit(patch_view(inner)),
                },
            ),
    )
}

proof fn lemma_changes_stop(entries: Seq<(Seq<char>, JsonView)>, n: int)
    requires
        0 <= n <= entries.len(),
        changes_of(entries.take(n)) is Err,
    ensures
        changes_of(entries) == changes_of(entries.take(n)),
    decreases entries.len() - n,
{
    if n < entries.len() {
        assert(entries.take(n + 1).drop_last() =~= entries.take(n));
        lemma_changes_stop(entries, n + 1);
    } else {
        assert(entries.take(n) =~= entries);
    }
}

impl Patch {
    pub open spec fn view(&self) -> PatchView {
        patch_view(*self)
    }

    fn read_update(json: &Json) -> (r: Result<Vec<(String, Change)>, String>)
        ensures
            match r {
                Ok(update) => json@ is Object && changes_of(json@->Object_0) == Ok::<_, Seq<char>>(
                    changes_view(update@),
                ),
                Err(reason) => if json@ is Object {
                    changes_of(json@->Object_0) == Err::<Seq<(Seq<char>, ChangeView)>, _>(reason@)
                } else {
                    reason@ == mistyped(json@, "a map"@)
                },
            },
        decreases json, 0int,
    {
        match json {
            Json::Object(entries) => {
                let ghost all = fields_view(entries@);
                proof {
                    lemma_object(*json);
                }
                let mut out: Vec<(String, Change)> = Vec::new();
                let mut i: usize = 0;
                assert(all.take(0) =~= Seq::empty());
                assert(changes_view(out@) =~= Seq::empty());
                while i < entries.len()
                    invariant
                        i <= entries@.len(),
                        *json == Json::Object(*entries),
                        json@ == JsonView::Object(all),
                        all == fields_view(entries@),
                        out@.len() == i,
                        changes_of(all.take(i as int)) == Ok::<_, Seq<char>>(changes_view(out@)),
                    decreases entries@.len() - i,
                {
                    let ghost so_far = out@;
                    proof {
                        assert(decreases_to!(*json => json->Object_0));
                        assert(decreases_to!(*entries => entries@));
                        assert(decreases_to!(entries@ => entries@[i as int]));
                        assert(decreases_to!(entries@[i as int] => entries@[i as int].1));
                        assert(all.take(i + 1).drop_last() =~= all.take(i as int));
                        assert(all.take(i + 1).last() == all[i as int]);
                    }
                    let key = entries[i].0.clone();
                    match &entries[i].1 {
                        Json::Object(_) => {
                            match Patch::read(&entries[i].1) {
                                Ok(inner) => out.push((key, Change::Edit(inner))),
                                Err(reason) => {
                                    proof {
                                        lemma_changes_stop(all, i + 1);
                                    }
                                    return Err(reason);
                                },
                            }
                        },
                        other => out.push((key, Change::Replace(Value::from_json(other)))),
                    }
                    assert(changes_view(out@) =~= changes_view(so_far).push(
                        changes_view(out@)[i as int],
                    ));
                    i += 1;
                }
                assert(all.take(i as int) =~= all);
                Ok(out)
            },
            other => Err(other.complain("a map")),
        }
    }

    /// The patch that some JSON is, or why it is none.
    pub fn from_json(json: &Json) -> (r: Result<Patch, String>)
        ensures
            match r {
                Ok(patch) => patch_of(json@) == Ok::<_, Seq<char>>(patch@),
                Err(reason) => patch_of(json@) == Err::<PatchView, _>(reason@),
            },
    {
        Patch::read(&json.to_canonical())
    }

    fn read(json: &Json) -> (r: Result<Patch, String>)
        ensures
            match r {
                Ok(patch) => patch_in(json@) == Ok::<_, Seq<char>>(patch@),
                Err(reason) => patch_in(json@) == Err::<PatchView, _>(reason@),
            },
        decreases json, 1int,
    {
        match json {
            Json::Object(fields) => {
                let ghost all = fields_view(fields@);
                proof {
                    lemma_object(*json);
                }
                if let Some(name) = find_stray(fields) {
                    let mut reason = String::from_str("unknown field `");
                    reason.append(name.as_str());
                    reason.append("`, expected one of `Create`, `Update`, `Delete`");
                    return Err(reason);
                }
                proof {
                    lemma_field(all, "Create"@);
                    lemma_field(all, "Update"@);
                    lemma_field(all, "Delete"@);
                }
                let c = position(fields, "Create");
                let create = match read_create(
                    if c < fields.len() {
                        Some(&fields[c].1)
                    } else {
                        None
                    },
                ) {
                    Ok(create) => create,
                    Err(reason) => return Err(reason),
                };
                let u = position(fields, "Update");
                let update = if u < fields.len() {
                    proof {
                        assert(decreases_to!(*json => json->Object_0));
                        assert(decreases_to!(*fields => fields@));
                        assert(decreases_to!(fields@ => fields@[u as int]));
                        assert(decreases_to!(fields@[u as int] => fields@[u as int].1));
                    }
                    match Patch::read_update(&fields[u].1) {
                        Ok(update) => update,
                        Err(reason) => return Err(reason),
                    }
                } else {
                    let none: Vec<(String, Change)> = Vec::new();
                    assert(changes_view(none@) =~= Seq::empty());
                    none
                };
                let d = position(fields, "Delete");
                let delete = match read_delete(
                    if d < fields.len() {
                        Some(&fields[d].1)
                    } else {
                        None
                    },
                ) {
                    Ok(delete) => delete,
                    Err(reason) => return Err(reason),
                };
                let patch = Patch(Arc::new(Edits { create, update, delete }));
                assert(patch@.update =~= changes_view(update@));
                Ok(patch)
            },
            other => Err(other.complain("a patch")),
        }
    }
}

// ---------------------------------------------------------------------
// What a patch does is up to what it says.

/// What is wrong with an edit.
pub enum FlawView {
    KeyExists(Seq<char>),
    NoSuchKey(Seq<char>),
    NotAnObject,
}

/// What an edit makes of a value.
pub open spec fn edited(patch: PatchView, value: ValueView) -> Result<ValueView, FlawView>
    decreases patch, 0int,
{
    match value {
        ValueView::Atom(_) => Err(FlawView::NotAnObject),
        ValueView::Object(entries) => match with_created(entries, patch.create) {
            Err(flaw) => Err(flaw),
            Ok(first) => match with_updated(first, patch.update) {
                Err(flaw) => Err(flaw),
                Ok(second) => match with_deleted(second, patch.delete) {
                    Err(flaw) => Err(flaw),
                    Ok(third) => Ok(ValueView::Object(third)),
                },
            },
        },
    }
}

pub open spec fn with_created(
    entries: Seq<(Seq<char>, ValueView)>,
    create: Seq<(Seq<char>, ValueView)>,
) -> Result<Seq<(Seq<char>, ValueView)>, FlawView>
    decreases create.len(),
{
    if create.len() == 0 {
        Ok(entries)
    } else {
        match with_created(entries, create.drop_last()) {
            Err(flaw) => Err(flaw),
            Ok(before) => if lookup(before, create.last().0) is Some {
                Err(FlawView::KeyExists(create.last().0))
            } else {
                Ok(put(before, create.last().0, create.last().1))
            },
        }
    }
}

pub open spec fn with_updated(
    entries: Seq<(Seq<char>, ValueView)>,
    update: Seq<(Seq<char>, ChangeView)>,
) -> Result<Seq<(Seq<char>, ValueView)>, FlawView>
    decreases update, 1int,
{
    if update.len() == 0 {
        Ok(entries)
    } else {
        match with_updated(entries, update.drop_last()) {
            Err(flaw) => Err(flaw),
            Ok(before) => {
                let (key, change) = update.last();
                match lookup(before, key) {
                    None => Err(FlawView::NoSuchKey(key)),
                    Some(child) => match change {
                        ChangeView::Replace(value) => Ok(put(before, key, value)),
                        ChangeView::Edit(patch) => match edited(patch, child) {
                            Err(flaw) => Err(flaw),
                            Ok(value) => Ok(put(before, key, value)),
                        },
                    },
                }
            },
        }
    }
}

pub open spec fn with_deleted(
    entries: Seq<(Seq<char>, ValueView)>,
    delete: Seq<Seq<char>>,
) -> Result<Seq<(Seq<char>, ValueView)>, FlawView>
    decreases delete.len(),
{
    if delete.len() == 0 {
        Ok(entries)
    } else {
        match with_deleted(entries, delete.drop_last()) {
            Err(flaw) => Err(flaw),
            Ok(before) => if lookup(before, delete.last()) is None {
                Err(FlawView::NoSuchKey(delete.last()))
            } else {
                Ok(without(before, delete.last()))
            },
        }
    }
}

/// Whether an error is a refused edit with this flaw.
pub open spec fn is_flaw(e: Error, flaw: FlawView) -> bool {
    match (e, flaw) {
        (Error::InvalidPatch(Flaw::KeyExists(key)), FlawView::KeyExists(k)) => key@ == k,
        (Error::InvalidPatch(Flaw::NoSuchKey(key)), FlawView::NoSuchKey(k)) => key@ == k,
        (Error::InvalidPatch(Flaw::NotAnObject), FlawView::NotAnObject) => true,
        _ => false,
    }
}

/// Whether two ways to run an edit come to the same.
pub open spec fn agree<T>(a: Result<T, Error>, b: Result<T, FlawView>) -> bool {
    match (a, b) {
        (Ok(x), Ok(y)) => x == y,
        (Err(e), Err(flaw)) => is_flaw(e, flaw),
        _ => false,
    }
}

proof fn lemma_created_agree(
    entries: Seq<(Seq<char>, ValueView)>,
    create: Seq<(String, Value)>,
)
    ensures
        agree(
            created(entries, create),
            with_created(entries, Seq::new(create.len(), |i: int| (create[i].0@, create[i].1@))),
        ),
    decreases create.len(),
{
    let all = Seq::new(create.len(), |i: int| (create[i].0@, create[i].1@));
    if create.len() > 0 {
        let less = create.drop_last();
        lemma_created_agree(entries, less);
        assert(all.drop_last() =~= Seq::new(less.len(), |i: int| (less[i].0@, less[i].1@)));
    }
}

proof fn lemma_deleted_agree(entries: Seq<(Seq<char>, ValueView)>, delete: Seq<String>)
    ensures
        agree(
            deleted(entries, delete),
            with_deleted(entries, Seq::new(delete.len(), |i: int| delete[i]@)),
        ),
    decreases delete.len(),
{
    let all = Seq::new(delete.len(), |i: int| delete[i]@);
    if delete.len() > 0 {
        let less = delete.drop_last();
        lemma_deleted_agree(entries, less);
        assert(all.drop_last() =~= Seq::new(less.len(), |i: int| less[i]@));
    }
}

proof fn lemma_updated_agree(entries: Seq<(Seq<char>, ValueView)>, update: Seq<(String, Change)>)
    ensures
        agree(updated(entries, update), with_updated(entries, changes_view(update))),
    decreases update, 1int,
{
    if update.len() > 0 {
        let less = update.drop_last();
        lemma_updated_agree(entries, less);
        assert(changes_view(update).drop_last() =~= changes_view(less));
        assert(decreases_to!(update => update[update.len() - 1]));
        if let Ok(before) = updated(entries, less) {
            if let Some(child) = lookup(before, update.last().0@) {
                if let Change::Edit(inner) = update.last().1 {
                    patches_do_what_they_say(inner, child);
                }
            }
        }
    }
}

/// What a patch makes of a value is up to what the patch says: two that say
/// the same do the same.
pub proof fn patches_do_what_they_say(patch: Patch, value: ValueView)
    ensures
        agree(patch.applied(value), edited(patch@, value)),
    decreases patch, 0int,
{
    if let ValueView::Object(entries) = value {
        lemma_created_agree(entries, patch.0.create@);
        assert(decreases_to!(patch => patch.0));
        assert(decreases_to!(patch => patch.0.update@));
        assert(patch@.update =~= changes_view(patch.0.update@));
        if let Ok(first) = created(entries, patch.0.create@) {
            lemma_updated_agree(first, patch.0.update@);
            if let Ok(second) = updated(first, patch.0.update@) {
                lemma_deleted_agree(second, patch.0.delete@);
            }
        }
    }
}

// ---------------------------------------------------------------------
// Snapshots.

/// A snapshot that says its own version: an object of that and its root, or
/// the two in an array.
pub open spec fn framed(json: JsonView) -> Option<SnapshotView> {
    match json {
        JsonView::Object(fields) => match (field(fields, "version"@), field(fields, "root"@)) {
            (Some(JsonView::Number(NumberView::Unsigned(version))), Some(root)) => if fields.len()
                == 2 {
                Some(SnapshotView { version, root: of_json_view(root) })
            } else {
                None
            },
            _ => None,
        },
        JsonView::Array(items) => if items.len() == 2 {
            match items[0] {
                JsonView::Number(NumberView::Unsigned(version)) => Some(
                    SnapshotView { version, root: of_json_view(items[1]) },
                ),
                _ => None,
            }
        } else {
            None
        },
        _ => None,
    }
}

/// What a view is as a snapshot: the snapshot itself, a log's view that wraps
/// it, or the bare root, which then is taken to be at `version` and must be an
/// object. The order of keys does not count.
pub open spec fn snapshot_of(version: Version, json: JsonView) -> Option<SnapshotView> {
    snapshot_in(version, canonical(json))
}

/// What a view is as a snapshot, key by key as they stand.
pub open spec fn snapshot_in(version: Version, json: JsonView) -> Option<SnapshotView>
    decreases json,
{
    if framed(json) is Some {
        framed(json)
    } else {
        match json {
            JsonView::Object(fields) => {
                let at = field_at(fields, "view"@);
                if 0 <= at < fields.len() {
                    snapshot_in(version, fields[at].1)
                } else {
                    Some(SnapshotView { version, root: of_json_view(json) })
                }
            },
            _ => None,
        }
    }
}

fn read_framed(json: &Json) -> (r: Option<Snapshot>)
    ensures
        match r {
            Some(snapshot) => framed(json@) == Some(snapshot@),
            None => framed(json@) is None,
        },
{
    match json {
        Json::Object(fields) => {
            let ghost all = fields_view(fields@);
            proof {
                lemma_object(*json);
                lemma_field(all, "version"@);
                lemma_field(all, "root"@);
            }
            let v = position(fields, "version");
            let r = position(fields, "root");
            if fields.len() != 2 || v >= fields.len() || r >= fields.len() {
                return None;
            }
            match &fields[v].1 {
                Json::Number(Number::Unsigned(version)) => Some(
                    Snapshot::detached(*version, Value::from_json(&fields[r].1)),
                ),
                _ => None,
            }
        },
        Json::Array(items) => {
            if items.len() != 2 {
                return None;
            }
            assert(json@->Array_0[0] == items@[0]@);
            assert(json@->Array_0[1] == items@[1]@);
            match &items[0] {
                Json::Number(Number::Unsigned(version)) => Some(
                    Snapshot::detached(*version, Value::from_json(&items[1])),
                ),
                _ => None,
            }
        },
        _ => None,
    }
}

impl Snapshot {
    /// Read a view as a snapshot. The payload may be the snapshot itself, a
    /// log view wrapping it, or the bare root; `version` decides when the
    /// payload does not carry one.
    pub fn from_view(version: Version, json: &Json) -> (r: Option<Snapshot>)
        ensures
            match r {
                Some(snapshot) => snapshot_of(version, json@) == Some(snapshot@),
                None => snapshot_of(version, json@) is None,
            },
    {
        Snapshot::read(version, &json.to_canonical())
    }

    fn read(version: Version, json: &Json) -> (r: Option<Snapshot>)
        ensures
            match r {
                Some(snapshot) => snapshot_in(version, json@) == Some(snapshot@),
                None => snapshot_in(version, json@) is None,
            },
        decreases json,
    {
        match read_framed(json) {
            Some(snapshot) => return Some(snapshot),
            None => {},
        }
        match json {
            Json::Object(fields) => {
                proof {
                    lemma_object(*json);
                    lemma_field(fields_view(fields@), "view"@);
                }
                let at = position(fields, "view");
                if at < fields.len() {
                    proof {
                        assert(decreases_to!(*json => json->Object_0));
                        assert(decreases_to!(*fields => fields@));
                        assert(decreases_to!(fields@ => fields@[at as int]));
                        assert(decreases_to!(fields@[at as int] => fields@[at as int].1));
                    }
                    return Snapshot::read(version, &fields[at].1);
                }
                Some(Snapshot::detached(version, Value::from_json(json)))
            },
            _ => None,
        }
    }
}

// ---------------------------------------------------------------------
// What JSON says as a patch and as a snapshot.

/// Each name stands once.
pub open spec fn distinct_names(fields: Seq<(Seq<char>, JsonView)>) -> bool {
    forall|i: int, j: int|
        #![trigger fields[i], fields[j]]
        0 <= i < j < fields.len() ==> fields[i].0 != fields[j].0
}

proof fn lemma_field_first(fields: Seq<(Seq<char>, JsonView)>, name: Seq<char>)
    ensures
        0 <= field_at(fields, name) <= fields.len(),
        field_at(fields, name) < fields.len() ==> fields[field_at(fields, name)].0 == name,
        forall|i: int|
            0 <= i < field_at(fields, name) && i < fields.len() ==> (#[trigger] fields[i]).0
                != name,
    decreases fields.len(),
{
    if fields.len() > 0 && fields[0].0 != name {
        let rest = fields.drop_first();
        lemma_field_first(rest, name);
        assert forall|i: int| 0 <= i < field_at(fields, name) && i < fields.len() implies (
        #[trigger] fields[i]).0 != name by {
            if i > 0 {
                assert(fields[i] == rest[i - 1]);
            }
        }
    }
}

proof fn lemma_texts(items: Seq<JsonView>)
    ensures
        texts_of(items) is Ok <==> forall|i: int|
            0 <= i < items.len() ==> (#[trigger] items[i]) is Text,
        texts_of(items) matches Ok(texts) ==> texts.len() == items.len() && forall|i: int|
            0 <= i < items.len() ==> (#[trigger] items[i])->Text_0 == texts[i],
    decreases items.len(),
{
    if items.len() > 0 {
        let less = items.drop_last();
        let n = items.len() - 1;
        lemma_texts(less);
        assert(items[n] == items.last());
        assert forall|i: int| 0 <= i < less.len() implies #[trigger] less[i] == items[i] by {}
        if texts_of(items) is Ok {
            assert forall|i: int| 0 <= i < items.len() implies (#[trigger] items[i]) is Text
                && items[i]->Text_0 == texts_of(items)->Ok_0[i] by {
                if i < n {
                    assert(less[i] == items[i]);
                }
            }
        } else if forall|i: int| 0 <= i < items.len() ==> (#[trigger] items[i]) is Text {
            assert forall|i: int| 0 <= i < less.len() implies (#[trigger] less[i]) is Text by {
                assert(less[i] == items[i]);
            }
        }
    }
}

proof fn lemma_stray(fields: Seq<(Seq<char>, JsonView)>)
    ensures
        stray(fields) is None <==> forall|i: int|
            0 <= i < fields.len() ==> (#[trigger] fields[i]).0 == "Create"@ || fields[i].0
                == "Update"@ || fields[i].0 == "Delete"@,
    decreases fields.len(),
{
    if fields.len() > 0 {
        let less = fields.drop_last();
        let n = fields.len() - 1;
        lemma_stray(less);
        assert(fields[n] == fields.last());
        assert forall|i: int| 0 <= i < less.len() implies #[trigger] less[i] == fields[i] by {}
        if stray(less) is None {
            assert forall|i: int| 0 <= i < n implies (#[trigger] fields[i]).0 == "Create"@
                || fields[i].0 == "Update"@ || fields[i].0 == "Delete"@ by {
                assert(less[i] == fields[i]);
            }
        } else {
            let i = choose|i: int|
                0 <= i < less.len() && !((#[trigger] less[i]).0 == "Create"@ || less[i].0
                    == "Update"@ || less[i].0 == "Delete"@);
            assert(fields[i] == less[i]);
        }
    }
}

proof fn lemma_changes(entries: Seq<(Seq<char>, JsonView)>)
    ensures
        changes_of(entries) is Ok <==> forall|i: int|
            0 <= i < entries.len() ==> ((#[trigger] entries[i]).1 is Object ==> patch_in(
                entries[i].1,
            ) is Ok),
        changes_of(entries) matches Ok(changes) ==> changes.len() == entries.len() && forall|i: int|
            0 <= i < entries.len() ==> (#[trigger] entries[i]).0 == changes[i].0 && match
                changes[i].1 {
                ChangeView::Edit(inner) => entries[i].1 is Object && patch_in(entries[i].1) == Ok::<
                    PatchView,
                    Seq<char>,
                >(inner),
                ChangeView::Replace(value) => !(entries[i].1 is Object) && value == of_json_view(
                    entries[i].1,
                ),
            },
    decreases entries.len(),
{
    if entries.len() > 0 {
        let less = entries.drop_last();
        let n = entries.len() - 1;
        lemma_changes(less);
        assert(entries[n] == entries.last());
        assert forall|i: int| 0 <= i < less.len() implies #[trigger] less[i] == entries[i] by {}
        if changes_of(entries) is Ok {
            let changes = changes_of(entries)->Ok_0;
            let before = changes_of(less)->Ok_0;
            assert forall|i: int| 0 <= i < entries.len() implies (#[trigger] entries[i]).0
                == changes[i].0 && match changes[i].1 {
                ChangeView::Edit(inner) => entries[i].1 is Object && patch_in(entries[i].1) == Ok::<
                    PatchView,
                    Seq<char>,
                >(inner),
                ChangeView::Replace(value) => !(entries[i].1 is Object) && value == of_json_view(
                    entries[i].1,
                ),
            } by {
                if i < n {
                    assert(less[i] == entries[i]);
                    assert(changes[i] == before[i]);
                }
            }
        } else if changes_of(less) is Err {
            let i = choose|i: int|
                0 <= i < less.len() && (#[trigger] less[i]).1 is Object && patch_in(
                    less[i].1,
                ) is Err;
            assert(entries[i] == less[i]);
        }
    }
}

/// JSON says as a patch what stands in it. It is one exactly where it is an object
/// that has no other fields than `Create`, `Update` and `Delete`, where the first
/// two are objects and the last is an array of strings, and where every object
/// among the updates is a patch itself. Then the patch creates each key with its
/// value, replaces each key with what is no object, edits each with the patch that
/// stands there, and deletes each key of the list, all in the order given.
pub proof fn patches_say_what_stands_in_them(fields: Seq<(Seq<char>, JsonView)>, i: int)
    requires
        distinct_names(fields),
        0 <= i < fields.len(),
        patch_in(JsonView::Object(fields)) is Ok,
    ensures
        ({
            let patch = patch_in(JsonView::Object(fields))->Ok_0;
            let (name, json) = fields[i];
            &&& name == "Create"@ || name == "Update"@ || name == "Delete"@
            &&& name == "Create"@ ==> json is Object && patch.create.len() == json->Object_0.len()
                && forall|k: int|
                0 <= k < patch.create.len() ==> #[trigger] patch.create[k] == (
                    json->Object_0[k].0,
                    of_json_view(json->Object_0[k].1),
                )
            &&& name == "Update"@ ==> json is Object && patch.update.len() == json->Object_0.len()
                && forall|k: int|
                0 <= k < json->Object_0.len() ==> (#[trigger] json->Object_0[k]).0
                    == patch.update[k].0 && match patch.update[k].1 {
                    ChangeView::Edit(inner) => json->Object_0[k].1 is Object && patch_in(
                        json->Object_0[k].1,
                    ) == Ok::<PatchView, Seq<char>>(inner),
                    ChangeView::Replace(value) => !(json->Object_0[k].1 is Object) && value
                        == of_json_view(json->Object_0[k].1),
                }
            &&& name == "Delete"@ ==> json is Array && patch.delete.len() == json->Array_0.len()
                && forall|k: int|
                0 <= k < json->Array_0.len() ==> (#[trigger] json->Array_0[k]) == JsonView::Text(
                    patch.delete[k],
                )
        }),
{
    lemma_stray(fields);
    assert(fields[i].0 == "Create"@ || fields[i].0 == "Update"@ || fields[i].0 == "Delete"@);
    let (name, json) = fields[i];
    lemma_field_first(fields, name);
    lemma_field(fields, name);
    let at = field_at(fields, name);
    assert(at == i) by {
        if i < at {
            assert(fields[i].0 != name);
        }
        if at < i {
            assert(fields[at].0 != fields[i].0);
        }
    }
    if name == "Update"@ {
        if json is Object {
            lemma_changes(json->Object_0);
        }
    }
    if name == "Delete"@ {
        if json is Array {
            lemma_texts(json->Array_0);
        }
    }
}

/// What a patch does not say it does not do, and whatever says all of it rightly
/// is one: without a field nothing is created, updated or deleted.
pub proof fn patches_say_no_more(fields: Seq<(Seq<char>, JsonView)>, other: JsonView)
    requires
        distinct_names(fields),
        !(other is Object),
    ensures
        patch_in(other) is Err,
        patch_in(JsonView::Object(fields)) matches Ok(patch) ==> {
            &&& (forall|i: int| 0 <= i < fields.len() ==> (#[trigger] fields[i]).0 != "Create"@)
                ==> patch.create.len() == 0
            &&& (forall|i: int| 0 <= i < fields.len() ==> (#[trigger] fields[i]).0 != "Update"@)
                ==> patch.update.len() == 0
            &&& (forall|i: int| 0 <= i < fields.len() ==> (#[trigger] fields[i]).0 != "Delete"@)
                ==> patch.delete.len() == 0
        },
        (forall|i: int|
            0 <= i < fields.len() ==> {
                ||| (#[trigger] fields[i]).0 == "Create"@ && fields[i].1 is Object
                ||| fields[i].0 == "Update"@ && fields[i].1 is Object && forall|k: int|
                    0 <= k < fields[i].1->Object_0.len() ==> ((
                    #[trigger] fields[i].1->Object_0[k]).1 is Object ==> patch_in(
                        fields[i].1->Object_0[k].1,
                    ) is Ok)
                ||| fields[i].0 == "Delete"@ && fields[i].1 is Array && forall|k: int|
                    0 <= k < fields[i].1->Array_0.len() ==> (#[trigger] fields[i].1->Array_0[k])
                        is Text
            }) ==> patch_in(JsonView::Object(fields)) is Ok,
{
    lemma_stray(fields);
    lemma_field_first(fields, "Create"@);
    lemma_field_first(fields, "Update"@);
    lemma_field_first(fields, "Delete"@);
    lemma_field(fields, "Create"@);
    lemma_field(fields, "Update"@);
    lemma_field(fields, "Delete"@);
    reveal_strlit("Create");
    reveal_strlit("Update");
    reveal_strlit("Delete");
    assert("Create"@ != "Update"@) by {
        assert("Create"@[0] == 'C' && "Update"@[0] == 'U');
    }
    assert("Create"@ != "Delete"@) by {
        assert("Create"@[0] == 'C' && "Delete"@[0] == 'D');
    }
    assert("Update"@ != "Delete"@) by {
        assert("Update"@[0] == 'U' && "Delete"@[0] == 'D');
    }
    let (c, u, d) = (
        field_at(fields, "Create"@),
        field_at(fields, "Update"@),
        field_at(fields, "Delete"@),
    );
    if c < fields.len() {
        assert(fields[c].0 == "Create"@);
    }
    if u < fields.len() {
        assert(fields[u].0 == "Update"@);
        if fields[u].1 is Object {
            lemma_changes(fields[u].1->Object_0);
        }
    }
    if d < fields.len() {
        assert(fields[d].0 == "Delete"@);
        if fields[d].1 is Array {
            lemma_texts(fields[d].1->Array_0);
        }
    }
}

/// The order of keys does not count, in a patch or in a view.
pub proof fn key_order_does_not_matter_here(a: JsonView, b: JsonView, version: Version)
    requires
        canonical(a) == canonical(b),
    ensures
        patch_of(a) == patch_of(b),
        snapshot_of(version, a) == snapshot_of(version, b),
        canonical(a) == a ==> patch_of(a) == patch_in(a) && snapshot_of(version, a) == snapshot_in(
            version,
            a,
        ),
{
}

/// A view is read in each of its shapes. A version and a root, as the two fields
/// of an object or the two items of an array, are the snapshot itself; a field
/// `view` of any other object is read in its place; any other object is the root,
/// at the version given; and nothing else is a view.
pub proof fn views_come_in_three_shapes(
    fields: Seq<(Seq<char>, JsonView)>,
    version: Version,
    i: int,
    own: u64,
    root: JsonView,
    other: JsonView,
)
    requires
        distinct_names(fields),
    ensures
        snapshot_in(
            version,
            JsonView::Array(seq![JsonView::Number(NumberView::Unsigned(own)), root]),
        ) == Some(SnapshotView { version: own, root: of_json_view(root) }),
        fields == seq![
            ("root"@, root),
            ("version"@, JsonView::Number(NumberView::Unsigned(own))),
        ] ==> snapshot_in(version, JsonView::Object(fields)) == Some(
            SnapshotView { version: own, root: of_json_view(root) },
        ),
        0 <= i < fields.len() && fields[i].0 == "view"@ ==> snapshot_in(
            version,
            JsonView::Object(fields),
        ) == snapshot_in(version, fields[i].1),
        (forall|k: int| 0 <= k < fields.len() ==> (#[trigger] fields[k]).0 != "view"@) && (
        forall|k: int| 0 <= k < fields.len() ==> (#[trigger] fields[k]).0 != "version"@)
            ==> snapshot_in(version, JsonView::Object(fields)) == Some(
            SnapshotView { version, root: of_json_view(JsonView::Object(fields)) },
        ),
        !(other is Object || other is Array) ==> snapshot_in(version, other) is None,
        other matches JsonView::Array(items) ==> (items.len() != 2 ==> snapshot_in(version, other)
            is None),
{
    reveal_strlit("view");
    reveal_strlit("root");
    reveal_strlit("version");
    assert("view"@ != "root"@ && "view"@ != "version"@ && "root"@ != "version"@) by {
        assert("view"@[0] == 'v' && "root"@[0] == 'r' && "version"@[0] == 'v');
        assert("view"@.len() == 4 && "version"@.len() == 7);
    }
    let pair = seq![JsonView::Number(NumberView::Unsigned(own)), root];
    assert(pair[0] == JsonView::Number(NumberView::Unsigned(own)) && pair[1] == root);
    lemma_field_first(fields, "view"@);
    lemma_field_first(fields, "version"@);
    lemma_field_first(fields, "root"@);
    lemma_field(fields, "view"@);
    lemma_field(fields, "version"@);
    lemma_field(fields, "root"@);
    let (v, n, r) = (
        field_at(fields, "view"@),
        field_at(fields, "version"@),
        field_at(fields, "root"@),
    );
    if 0 <= i < fields.len() && fields[i].0 == "view"@ {
        assert(v == i) by {
            if v < i {
                assert(fields[v].0 != fields[i].0);
            }
        }
        if fields.len() == 2 && n < fields.len() && r < fields.len() {
            assert(n != r && n != i && r != i);
        }
    }
    if fields == seq![("root"@, root), ("version"@, JsonView::Number(NumberView::Unsigned(own)))] {
        assert(fields[0].0 == "root"@ && fields[1].0 == "version"@);
        assert(r == 0) by {
            if r > 0 {
                assert(fields[0].0 != "root"@);
            }
        }
        assert(n == 1) by {
            if n > 1 {
                assert(fields[1].0 != "version"@);
            }
        }
    }
}

} // verus!
