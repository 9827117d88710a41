//! Immutable JSON.

use super::avl::{listing, AvlMap};
use crate::json::{
    alike, by_key, canonical, canonical_is_final, counts, levelled, Json, JsonView,
};
use crate::keyed::{lemma_put_lookup, lemma_put_sorted, lookup, put, sorted};
use crate::text::same;
use std::sync::Arc;
use vstd::prelude::*;

verus! {

/// Immutable JSON. Each object is an AVL map; arrays are atomic leaf values.
/// Cloning any value is O(1). Object edits share every untouched child.
#[derive(Debug)]
pub struct Value(Arc<Kind>);

#[derive(Debug)]
enum Kind {
    Object(AvlMap),
    Atom(Json),
}

/// What a value is: an object's entries in the order of their keys, or
/// anything else JSON can say.
pub enum ValueView {
    Object(Seq<(Seq<char>, ValueView)>),
    Atom(JsonView),
}

pub closed spec fn value_view(value: Value) -> ValueView
    decreases value,
{
    match *value.0 {
        Kind::Object(map) => ValueView::Object(map.entries()),
        Kind::Atom(json) => ValueView::Atom(canonical(json@)),
    }
}

/// The JSON that a value is.
pub open spec fn to_json_view(value: ValueView) -> JsonView
    decreases value,
{
    match value {
        ValueView::Atom(json) => json,
        ValueView::Object(entries) => JsonView::Object(
            Seq::new(
                entries.len(),
                |i: int|
                    if 0 <= i < entries.len() {
                        (entries[i].0, to_json_view(entries[i].1))
                    } else {
                        (Seq::empty(), JsonView::Null)
                    },
            ),
        ),
    }
}

/// The value that some JSON is: objects by their keys, where the last of two
/// equal ones counts, and everything else as it stands but for the order of
/// keys within.
pub open spec fn of_json_view(json: JsonView) -> ValueView
    decreases json, 0int,
{
    match json {
        JsonView::Object(fields) => ValueView::Object(of_fields(fields)),
        other => ValueView::Atom(canonical(other)),
    }
}

pub open spec fn of_fields(fields: Seq<(Seq<char>, JsonView)>) -> Seq<(Seq<char>, ValueView)>
    decreases fields, 1int,
{
    if fields.len() == 0 {
        Seq::empty()
    } else {
        put(of_fields(fields.drop_last()), fields.last().0, of_json_view(fields.last().1))
    }
}

/// The same value, where the two zeros among the doubles are one.
pub open spec fn level(value: ValueView) -> ValueView
    decreases value,
{
    match value {
        ValueView::Atom(json) => ValueView::Atom(levelled(json)),
        ValueView::Object(entries) => ValueView::Object(
            Seq::new(
                entries.len(),
                |i: int|
                    if 0 <= i < entries.len() {
                        (entries[i].0, level(entries[i].1))
                    } else {
                        (Seq::empty(), ValueView::Atom(JsonView::Null))
                    },
            ),
        ),
    }
}

/// Values that are equal: the sign of a zero does not count.
pub open spec fn alike_values(a: ValueView, b: ValueView) -> bool {
    level(a) == level(b)
}

/// What a path of keys leads to.
pub open spec fn descend(value: ValueView, path: Seq<Seq<char>>) -> Option<ValueView>
    decreases path.len(),
{
    if path.len() == 0 {
        Some(value)
    } else {
        match descend(value, path.drop_last()) {
            Some(ValueView::Object(entries)) => lookup(entries, path.last()),
            _ => None,
        }
    }
}

/// `Arc::ptr_eq`: whether two pointers are to the same allocation, which then
/// holds one and the same value. Nothing is said of pointers that differ.
#[verifier::external_body]
fn same_allocation<T>(a: &Arc<T>, b: &Arc<T>) -> (r: bool)
    ensures
        r ==> *a == *b,
{
    Arc::ptr_eq(a, b)
}

impl Clone for Value {
    fn clone(&self) -> (r: Self)
        ensures
            r == *self,
    {
        Value(self.0.clone())
    }
}

impl Default for Value {
    /// The empty object.
    fn default() -> (r: Self)
        ensures
            r@ == ValueView::Object(Seq::empty()),
    {
        Value::object(AvlMap::new())
    }
}

impl Value {
    pub open spec fn view(&self) -> ValueView {
        value_view(*self)
    }

    pub fn object(map: AvlMap) -> (r: Self)
        ensures
            r@ == ValueView::Object(map.entries()),
    {
        Value(Arc::new(Kind::Object(map)))
    }

    pub fn as_object(&self) -> (r: Option<&AvlMap>)
        ensures
            match r {
                Some(map) => self@ == ValueView::Object(map.entries()),
                None => self@ is Atom,
            },
    {
        match &*self.0 {
            Kind::Object(map) => Some(map),
            Kind::Atom(_) => None,
        }
    }

    pub fn as_atom(&self) -> (r: Option<&Json>)
        ensures
            match r {
                Some(json) => self@ == ValueView::Atom(canonical(json@)),
                None => self@ is Object,
            },
    {
        match &*self.0 {
            Kind::Object(_) => None,
            Kind::Atom(json) => Some(json),
        }
    }

    pub fn get(&self, key: &str) -> (r: Option<&Value>)
        ensures
            match r {
                Some(value) => self@ is Object && lookup(self@->Object_0, key@) == Some(value@),
                None => self@ is Object ==> lookup(self@->Object_0, key@) is None,
            },
    {
        match self.as_object() {
            Some(map) => map.get(key),
            None => None,
        }
    }

    /// Literal path segments, without dotted-name or JSON Pointer ambiguity.
    pub fn at(&self, path: &[&str]) -> (r: Option<&Value>)
        ensures
            match r {
                Some(value) => descend(self@, Seq::new(path@.len(), |i: int| path@[i]@)) == Some(
                    value@,
                ),
                None => descend(self@, Seq::new(path@.len(), |i: int| path@[i]@)) is None,
            },
    {
        let ghost keys = Seq::new(path@.len(), |i: int| path@[i]@);
        let mut value = self;
        let mut i: usize = 0;
        assert(keys.take(0) =~= Seq::empty());
        while i < path.len()
            invariant
                i <= path.len(),
                keys == Seq::new(path@.len(), |i: int| path@[i]@),
                descend(self@, keys.take(i as int)) == Some(value@),
            decreases path.len() - i,
        {
            assert(keys.take(i + 1).drop_last() =~= keys.take(i as int));
            assert(keys.take(i + 1).last() == path@[i as int]@);
            value = match value.get(path[i]) {
                Some(next) => next,
                None => {
                    proof {
                        lemma_dead_end(self@, keys, i + 1);
                    }
                    return None;
                },
            };
            i += 1;
        }
        assert(keys.take(i as int) =~= keys);
        Some(value)
    }

    /// Whether the two are one allocation. Equal values need not be.
    pub fn ptr_eq(&self, other: &Value) -> (r: bool)
        ensures
            r ==> self@ == other@,
    {
        same_allocation(&self.0, &other.0)
    }

    /// Equal as JSON is: the sign of a zero does not count.
    pub fn equal(&self, other: &Value) -> (r: bool)
        ensures
            r == alike_values(self@, other@),
    {
        self.reads_as(other, true)
    }

    /// Whether the two are the same to the sign of every zero.
    pub fn identical(&self, other: &Value) -> (r: bool)
        ensures
            r == (self@ == other@),
    {
        self.reads_as(other, false)
    }

    fn reads_as(&self, other: &Value, loose: bool) -> (r: bool)
        ensures
            r == if loose {
                alike_values(self@, other@)
            } else {
                self@ == other@
            },
        decreases self@,
    {
        if self.ptr_eq(other) {
            return true;
        }
        match (&*self.0, &*other.0) {
            (Kind::Atom(a), Kind::Atom(b)) => if loose {
                a.equal(b)
            } else {
                a.identical(b)
            },
            (Kind::Object(a), Kind::Object(b)) => {
                let x = a.iter();
                let y = b.iter();
                let ghost xs = listing(x@);
                let ghost ys = listing(y@);
                assert(self@ == ValueView::Object(xs));
                assert(other@ == ValueView::Object(ys));
                let ghost (p, q) = (level(self@)->Object_0, level(other@)->Object_0);
                if x.len() != y.len() {
                    assert(xs.len() != ys.len() && p.len() != q.len());
                    return false;
                }
                let mut i: usize = 0;
                while i < x.len()
                    invariant
                        i <= x.len(),
                        x.len() == y.len(),
                        xs == listing(x@),
                        ys == listing(y@),
                        self@ == ValueView::Object(xs),
                        other@ == ValueView::Object(ys),
                        p == level(self@)->Object_0,
                        q == level(other@)->Object_0,
                        loose ==> forall|j: int| 0 <= j < i ==> #[trigger] p[j] == q[j],
                        !loose ==> forall|j: int| 0 <= j < i ==> #[trigger] xs[j] == ys[j],
                    decreases x.len() - i,
                {
                    proof {
                        assert(decreases_to!(self@ => self@->Object_0));
                        assert(decreases_to!(xs => xs[i as int]));
                        assert(decreases_to!(xs[i as int] => xs[i as int].1));
                        assert(xs[i as int] == (x@[i as int].0@, x@[i as int].1@));
                        assert(ys[i as int] == (y@[i as int].0@, y@[i as int].1@));
                        assert(p[i as int] == (xs[i as int].0, level(xs[i as int].1)));
                        assert(q[i as int] == (ys[i as int].0, level(ys[i as int].1)));
                    }
                    if !same(x[i].0.as_str(), y[i].0.as_str()) || !x[i].1.reads_as(
                        &y[i].1,
                        loose,
                    ) {
                        assert(if loose { p != q } else { xs != ys });
                        return false;
                    }
                    i += 1;
                }
                assert(if loose { p =~= q } else { xs =~= ys });
                true
            },
            _ => false,
        }
    }

    pub fn to_json(&self) -> (r: Json)
        ensures
            r@ == to_json_view(self@),
        decreases self@,
    {
        match &*self.0 {
            Kind::Atom(json) => json.to_canonical(),
            Kind::Object(map) => {
                let pairs = map.iter();
                let ghost all = listing(pairs@);
                let mut fields: Vec<(String, Json)> = Vec::new();
                let mut i: usize = 0;
                while i < pairs.len()
                    invariant
                        i <= pairs.len(),
                        fields.len() == i,
                        all == listing(pairs@),
                        self@ == ValueView::Object(all),
                        forall|j: int|
                            0 <= j < i ==> (#[trigger] fields@[j]).0@ == all[j].0 && fields@[j].1@
                                == to_json_view(all[j].1),
                    decreases pairs.len() - i,
                {
                    proof {
                        assert(decreases_to!(self@ => self@->Object_0));
                        assert(decreases_to!(all => all[i as int]));
                        assert(decreases_to!(all[i as int] => all[i as int].1));
                        assert(all[i as int] == (pairs@[i as int].0@, pairs@[i as int].1@));
                    }
                    fields.push((pairs[i].0.clone(), pairs[i].1.to_json()));
                    i += 1;
                }
                let r = Json::Object(fields);
                assert(r@->Object_0 =~= to_json_view(self@)->Object_0);
                r
            },
        }
    }

    /// The value that some JSON is. It comes to that JSON again, whatever the
    /// order of its keys.
    pub fn from_json(json: &Json) -> (r: Self)
        ensures
            r@ == of_json_view(json@),
            to_json_view(r@) == canonical(json@),
            canonical(to_json_view(r@)) == canonical(json@),
        decreases json,
    {
        proof {
            json_reads_back(json@);
            canonical_is_final(json@);
        }
        match json {
            Json::Object(fields) => {
                let mut map = AvlMap::new();
                let mut i: usize = 0;
                let ghost all = json@->Object_0;
                assert(all.take(0) =~= Seq::empty());
                while i < fields.len()
                    invariant
                        i <= fields.len(),
                        *json == Json::Object(*fields),
                        all == json@->Object_0,
                        all.len() == fields@.len(),
                        map.entries() == of_fields(all.take(i as int)),
                    decreases fields.len() - i,
                {
                    proof {
                        assert(decreases_to!(*json => json->Object_0));
                        assert(decreases_to!(*fields => fields@));
                        assert(decreases_to!(fields@ => fields@[i as int]));
                        assert(decreases_to!(fields@[i as int] => fields@[i as int].1));
                        assert(all.take(i + 1).drop_last() =~= all.take(i as int));
                        assert(all.take(i + 1).last() == (
                            fields@[i as int].0@,
                            fields@[i as int].1@,
                        ));
                    }
                    let child = Value::from_json(&fields[i].1);
                    map = map.insert(fields[i].0.clone(), child);
                    i += 1;
                }
                assert(all.take(i as int) =~= all);
                Value::object(map)
            },
            _ => Value(Arc::new(Kind::Atom(json.copy()))),
        }
    }
}

impl From<Json> for Value {
    fn from(json: Json) -> (r: Self)
        ensures
            r@ == of_json_view(json@),
            to_json_view(r@) == canonical(json@),
            alike(to_json_view(r@), json@),
            r@ is Object <==> json@ is Object,
            r@ is Atom ==> r@ == ValueView::Atom(canonical(json@)),
    {
        Value::from_json(&json)
    }
}

/// A value is more than what it says, so what is made of JSON is told by its
/// view.
impl vstd::std_specs::convert::FromSpecImpl<Json> for Value {
    open spec fn obeys_from_spec() -> bool {
        false
    }

    open spec fn from_spec(json: Json) -> Value {
        arbitrary()
    }
}

/// What becomes JSON again is what was read, whatever the order of its keys.
pub proof fn json_reads_back(json: JsonView)
    ensures
        to_json_view(of_json_view(json)) == canonical(json),
    decreases json, 0int,
{
    match json {
        JsonView::Object(fields) => {
            lemma_fields_read_back(fields);
            assert(to_json_view(of_json_view(json))->Object_0 =~= by_key(fields));
        },
        _ => {},
    }
}

proof fn lemma_fields_read_back(fields: Seq<(Seq<char>, JsonView)>)
    ensures
        of_fields(fields).len() == by_key(fields).len(),
        forall|i: int|
            0 <= i < by_key(fields).len() ==> #[trigger] by_key(fields)[i] == (
                of_fields(fields)[i].0,
                to_json_view(of_fields(fields)[i].1),
            ),
    decreases fields, 1int,
{
    if fields.len() > 0 {
        assert(decreases_to!(fields => fields[fields.len() - 1]));
        lemma_fields_read_back(fields.drop_last());
        json_reads_back(fields.last().1);
        lemma_put_reads_back(
            of_fields(fields.drop_last()),
            by_key(fields.drop_last()),
            fields.last().0,
            of_json_view(fields.last().1),
        );
    }
}

proof fn lemma_put_reads_back(
    values: Seq<(Seq<char>, ValueView)>,
    fields: Seq<(Seq<char>, JsonView)>,
    key: Seq<char>,
    value: ValueView,
)
    requires
        values.len() == fields.len(),
        forall|i: int|
            0 <= i < fields.len() ==> #[trigger] fields[i] == (
                values[i].0,
                to_json_view(values[i].1),
            ),
    ensures
        put(values, key, value).len() == put(fields, key, to_json_view(value)).len(),
        forall|i: int|
            0 <= i < put(fields, key, to_json_view(value)).len() ==> #[trigger] put(
                fields,
                key,
                to_json_view(value),
            )[i] == (
                put(values, key, value)[i].0,
                to_json_view(put(values, key, value)[i].1),
            ),
    decreases values.len(),
{
    if values.len() > 0 {
        let v = values.drop_first();
        let f = fields.drop_first();
        assert forall|i: int| 0 <= i < f.len() implies #[trigger] f[i] == (
            v[i].0,
            to_json_view(v[i].1),
        ) by {
            assert(f[i] == fields[i + 1]);
        }
        lemma_put_reads_back(v, f, key, value);
        let p = put(fields, key, to_json_view(value));
        let q = put(values, key, value);
        assert(fields[0] == (values[0].0, to_json_view(values[0].1)));
        assert forall|i: int| 0 <= i < p.len() implies #[trigger] p[i] == (
            q[i].0,
            to_json_view(q[i].1),
        ) by {
            if i > 0 {
                if fields[0].0 == key {
                    assert(p[i] == f[i - 1] && q[i] == v[i - 1]);
                } else if crate::text::less(fields[0].0, key) {
                    assert(p[i] == put(f, key, to_json_view(value))[i - 1]);
                    assert(q[i] == put(v, key, value)[i - 1]);
                } else {
                    assert(p[i] == fields[i - 1] && q[i] == values[i - 1]);
                }
            }
        }
    }
}

/// No atom is an object.
pub open spec fn plain(value: ValueView) -> bool
    decreases value,
{
    match value {
        ValueView::Atom(json) => !(json is Object),
        ValueView::Object(entries) => forall|i: int|
            #![trigger entries[i]]
            0 <= i < entries.len() ==> plain(entries[i].1),
    }
}

proof fn lemma_plain(json: JsonView)
    ensures
        plain(of_json_view(json)),
    decreases json, 0int,
{
    match json {
        JsonView::Object(fields) => {
            lemma_plain_fields(fields);
            let e = of_fields(fields);
            assert(of_json_view(json) == ValueView::Object(e));
            assert forall|i: int| #![trigger e[i]] 0 <= i < e.len() implies plain(e[i].1) by {
                assert(e[i] == of_fields(fields)[i]);
            }
        },
        _ => {
            assert(of_json_view(json) == ValueView::Atom(canonical(json)));
            assert(!(canonical(json) is Object));
        },
    }
}

proof fn lemma_plain_fields(fields: Seq<(Seq<char>, JsonView)>)
    ensures
        forall|i: int|
            #![trigger of_fields(fields)[i]]
            0 <= i < of_fields(fields).len() ==> plain(of_fields(fields)[i].1),
    decreases fields, 1int,
{
    if fields.len() > 0 {
        assert(decreases_to!(fields => fields[fields.len() - 1]));
        lemma_plain_fields(fields.drop_last());
        lemma_plain(fields.last().1);
        lemma_plain_put(
            of_fields(fields.drop_last()),
            fields.last().0,
            of_json_view(fields.last().1),
        );
    }
}

proof fn lemma_plain_put(e: Seq<(Seq<char>, ValueView)>, key: Seq<char>, value: ValueView)
    requires
        forall|i: int| #![trigger e[i]] 0 <= i < e.len() ==> plain(e[i].1),
        plain(value),
    ensures
        forall|i: int|
            #![trigger put(e, key, value)[i]]
            0 <= i < put(e, key, value).len() ==> plain(put(e, key, value)[i].1),
    decreases e.len(),
{
    if e.len() > 0 {
        let t = e.drop_first();
        assert forall|i: int| #![trigger t[i]] 0 <= i < t.len() implies plain(t[i].1) by {
            assert(t[i] == e[i + 1]);
        }
        lemma_plain_put(t, key, value);
        let p = put(e, key, value);
        assert(plain(e[0].1));
        assert forall|i: int| #![trigger p[i]] 0 <= i < p.len() implies plain(p[i].1) by {
            if i > 0 {
                if e[0].0 == key {
                    assert(p[i] == t[i - 1]);
                } else if crate::text::less(e[0].0, key) {
                    assert(p[i] == put(t, key, value)[i - 1]);
                } else {
                    assert(p[i] == e[i - 1]);
                }
            }
        }
    }
}

/// Values that come to the same JSON are the same.
proof fn lemma_same_json(a: ValueView, b: ValueView)
    requires
        plain(a),
        plain(b),
        to_json_view(a) == to_json_view(b),
    ensures
        a == b,
    decreases a,
{
    match (a, b) {
        (ValueView::Object(x), ValueView::Object(y)) => {
            let p = to_json_view(a)->Object_0;
            let q = to_json_view(b)->Object_0;
            assert(p.len() == x.len() && q.len() == y.len());
            assert forall|i: int| 0 <= i < x.len() implies #[trigger] x[i] == y[i] by {
                assert(p[i] == (x[i].0, to_json_view(x[i].1)));
                assert(q[i] == (y[i].0, to_json_view(y[i].1)));
                assert(decreases_to!(a => a->Object_0));
                assert(decreases_to!(x => x[i]));
                assert(decreases_to!(x[i] => x[i].1));
                lemma_same_json(x[i].1, y[i].1);
            }
            assert(x =~= y);
        },
        _ => {},
    }
}

proof fn lemma_level_json(value: ValueView)
    ensures
        to_json_view(level(value)) == levelled(to_json_view(value)),
        plain(value) ==> plain(level(value)),
    decreases value,
{
    match value {
        ValueView::Object(entries) => {
            let e = level(value)->Object_0;
            let fields = to_json_view(value)->Object_0;
            assert(fields.len() == entries.len() && e.len() == entries.len());
            assert forall|i: int| 0 <= i < entries.len() implies to_json_view(
                (#[trigger] e[i]).1,
            ) == levelled(fields[i].1) && (plain(entries[i].1) ==> plain(e[i].1)) by {
                assert(decreases_to!(value => value->Object_0));
                assert(decreases_to!(entries => entries[i]));
                assert(decreases_to!(entries[i] => entries[i].1));
                lemma_level_json(entries[i].1);
            }
            assert(to_json_view(level(value))->Object_0 =~= levelled(
                to_json_view(value),
            )->Object_0);
        },
        _ => {},
    }
}

/// Two values are equal exactly where the JSON they were read from is, whatever
/// the order of its keys.
pub proof fn values_are_equal_as_json_is(a: JsonView, b: JsonView)
    ensures
        alike_values(of_json_view(a), of_json_view(b)) <==> alike(a, b),
        of_json_view(a) == of_json_view(b) <==> canonical(a) == canonical(b),
{
    json_reads_back(a);
    json_reads_back(b);
    lemma_plain(a);
    lemma_plain(b);
    let (x, y) = (of_json_view(a), of_json_view(b));
    lemma_level_json(x);
    lemma_level_json(y);
    if canonical(a) == canonical(b) {
        lemma_same_json(x, y);
    }
    if alike(a, b) {
        lemma_same_json(level(x), level(y));
    }
}

/// JSON becomes a value and comes back as it was: objects become objects and
/// everything else an atom, arrays too, and what is equal before is equal after
/// and the other way round.
pub proof fn values_are_what_json_was(a: JsonView, b: JsonView)
    ensures
        to_json_view(of_json_view(a)) == canonical(a),
        alike(to_json_view(of_json_view(a)), a),
        of_json_view(a) is Object <==> a is Object,
        !(a is Object) ==> of_json_view(a) == ValueView::Atom(canonical(a)),
        alike_values(of_json_view(a), of_json_view(b)) <==> alike(a, b),
{
    json_reads_back(a);
    canonical_is_final(a);
    values_are_equal_as_json_is(a, b);
}

/// Values are equal part by part: atoms as JSON is, objects where they have the
/// same keys with equal values. An object is never equal to an atom.
pub proof fn values_are_equal_part_by_part(a: ValueView, b: ValueView)
    ensures
        match (a, b) {
            (ValueView::Atom(x), ValueView::Atom(y)) => canonical(x) == x && canonical(y) == y ==> (
            alike_values(a, b) <==> alike(x, y)),
            (ValueView::Object(x), ValueView::Object(y)) => alike_values(a, b) <==> x.len()
                == y.len() && forall|i: int|
                #![trigger x[i], y[i]]
                0 <= i < x.len() ==> x[i].0 == y[i].0 && alike_values(x[i].1, y[i].1),
            _ => !alike_values(a, b),
        },
{
    if let (ValueView::Object(x), ValueView::Object(y)) = (a, b) {
        let (p, q) = (level(a)->Object_0, level(b)->Object_0);
        assert(p.len() == x.len() && q.len() == y.len());
        assert forall|i: int| 0 <= i < x.len() implies #[trigger] p[i] == (
            x[i].0,
            level(x[i].1),
        ) by {}
        assert forall|i: int| 0 <= i < y.len() implies #[trigger] q[i] == (
            y[i].0,
            level(y[i].1),
        ) by {}
        if alike_values(a, b) {
            assert forall|i: int|
                #![trigger x[i], y[i]]
                0 <= i < x.len() implies x[i].0 == y[i].0 && alike_values(x[i].1, y[i].1) by {
                assert(p[i] == q[i]);
            }
        } else if x.len() == y.len() && forall|i: int|
            #![trigger x[i], y[i]]
            0 <= i < x.len() ==> x[i].0 == y[i].0 && alike_values(x[i].1, y[i].1) {
            assert forall|i: int| 0 <= i < p.len() implies #[trigger] p[i] == q[i] by {
                assert(x[i].0 == y[i].0);
            }
            assert(p =~= q);
        }
    }
}

proof fn lemma_of_fields_found(fields: Seq<(Seq<char>, JsonView)>, key: Seq<char>)
    ensures
        sorted(of_fields(fields)),
        match lookup(of_fields(fields), key) {
            Some(value) => exists|i: int|
                counts(fields, i) && (#[trigger] fields[i]).0 == key && value == of_json_view(
                    fields[i].1,
                ),
            None => forall|i: int| 0 <= i < fields.len() ==> (#[trigger] fields[i]).0 != key,
        },
    decreases fields.len(),
{
    if fields.len() > 0 {
        let less = fields.drop_last();
        let last = fields.len() - 1;
        let (k, v) = fields.last();
        lemma_of_fields_found(less, key);
        lemma_put_sorted(of_fields(less), k, of_json_view(v));
        lemma_put_lookup(of_fields(less), k, of_json_view(v), key);
        if k == key {
            assert(counts(fields, last) && fields[last].0 == key);
        } else if lookup(of_fields(fields), key) is Some {
            let i = choose|i: int|
                counts(less, i) && (#[trigger] less[i]).0 == key && lookup(
                    of_fields(less),
                    key,
                )->0 == of_json_view(less[i].1);
            assert(fields[i] == less[i]);
            assert forall|j: int| i < j < fields.len() implies (#[trigger] fields[j]).0
                != fields[i].0 by {
                if j < last {
                    assert(fields[j] == less[j]);
                }
            }
            assert(counts(fields, i));
        } else {
            assert forall|i: int| 0 <= i < fields.len() implies (#[trigger] fields[i]).0
                != key by {
                if i < last {
                    assert(fields[i] == less[i]);
                }
            }
        }
    }
}

/// What an object holds as JSON it holds as a value: under each key the value
/// of the field that counts for it, and nothing under any other.
pub proof fn values_hold_what_json_held(fields: Seq<(Seq<char>, JsonView)>, key: Seq<char>)
    ensures
        of_json_view(JsonView::Object(fields)) matches ValueView::Object(entries) && {
            &&& sorted(entries)
            &&& forall|i: int|
                counts(fields, i) && (#[trigger] fields[i]).0 == key ==> lookup(entries, key)
                    == Some(of_json_view(fields[i].1))
            &&& (forall|i: int| 0 <= i < fields.len() ==> (#[trigger] fields[i]).0 != key)
                ==> lookup(entries, key) is None
        },
{
    lemma_of_fields_found(fields, key);
    let entries = of_fields(fields);
    assert forall|i: int| counts(fields, i) && (#[trigger] fields[i]).0 == key implies lookup(
        entries,
        key,
    ) == Some(of_json_view(fields[i].1)) by {
        let j = choose|j: int|
            counts(fields, j) && (#[trigger] fields[j]).0 == key && lookup(entries, key)->0
                == of_json_view(fields[j].1);
        if i < j {
            assert(fields[j].0 != fields[i].0);
        }
        if j < i {
            assert(fields[i].0 != fields[j].0);
        }
    }
    if forall|i: int| 0 <= i < fields.len() ==> (#[trigger] fields[i]).0 != key {
        if lookup(entries, key) is Some {
            let j = choose|j: int|
                counts(fields, j) && (#[trigger] fields[j]).0 == key && lookup(entries, key)->0
                    == of_json_view(fields[j].1);
            assert(fields[j].0 != key);
        }
    }
}

/// A path leads on from where its beginning leads: an empty one nowhere else, a
/// key of an object to what is found there, and nothing leads out of an atom.
pub proof fn paths_lead_key_by_key(
    value: ValueView,
    first: Seq<Seq<char>>,
    second: Seq<Seq<char>>,
    key: Seq<char>,
)
    ensures
        descend(value, Seq::empty()) == Some(value),
        descend(value, seq![key]) == match value {
            ValueView::Object(entries) => lookup(entries, key),
            ValueView::Atom(_) => None,
        },
        descend(value, first + second) == match descend(value, first) {
            Some(between) => descend(between, second),
            None => None,
        },
    decreases second.len(),
{
    assert(seq![key].drop_last() =~= Seq::empty());
    assert(seq![key].last() == key);
    if second.len() == 0 {
        assert(first + second =~= first);
    } else {
        let all = first + second;
        assert(all.drop_last() =~= first + second.drop_last());
        assert(all.last() == second.last());
        paths_lead_key_by_key(value, first, second.drop_last(), key);
    }
}

/// A path that leads nowhere leads nowhere further on.
proof fn lemma_dead_end(value: ValueView, path: Seq<Seq<char>>, n: int)
    requires
        0 <= n <= path.len(),
        descend(value, path.take(n)) is None,
    ensures
        descend(value, path) is None,
    decreases path.len() - n,
{
    if n < path.len() {
        assert(path.take(n + 1).drop_last() =~= path.take(n));
        lemma_dead_end(value, path, n + 1);
    } else {
        assert(path.take(n) =~= path);
    }
}

impl PartialEq for Value {
    fn eq(&self, other: &Value) -> (r: bool) {
        self.equal(other)
    }
}

impl vstd::std_specs::cmp::PartialEqSpecImpl for Value {
    open spec fn obeys_eq_spec() -> bool {
        true
    }

    open spec fn eq_spec(&self, other: &Value) -> bool {
        alike_values(self@, other@)
    }
}

} // verus!
