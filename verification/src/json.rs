//! JSON values.

use crate::keyed::{
    lemma_finds, lemma_found, lemma_put_after, lemma_put_lookup, lemma_put_sorted,
    lemma_same_lookups, lookup, put, sorted,
};
use crate::quote::{quote, quoted};
use crate::text::{decimal, decimal_text, place, same, Place};
use vstd::prelude::*;

verus! {

/// A JSON number: an integer of 64 bits, or a double by the shortest decimal
/// text that denotes it, such as `1.5`, `1e300` or `-0.0`.
#[derive(Clone, Debug)]
pub enum Number {
    Unsigned(u64),
    Negative(i64),
    Double(String),
}

pub enum NumberView {
    Unsigned(u64),
    Negative(i64),
    Double(Seq<char>),
}

impl Number {
    pub open spec fn view(&self) -> NumberView {
        match *self {
            Number::Unsigned(n) => NumberView::Unsigned(n),
            Number::Negative(n) => NumberView::Negative(n),
            Number::Double(text) => NumberView::Double(text@),
        }
    }

    /// The same number once more.
    pub fn copy(&self) -> (r: Number)
        ensures
            r == *self,
    {
        match self {
            Number::Unsigned(n) => Number::Unsigned(*n),
            Number::Negative(n) => Number::Negative(*n),
            Number::Double(text) => Number::Double(text.clone()),
        }
    }

    /// Whether two numbers are written the same or, where `loose`, are the
    /// same: then the two zeros among the doubles are one.
    fn reads_as(&self, other: &Number, loose: bool) -> (r: bool)
        ensures
            r == if loose {
                unsigned_zero(self@) == unsigned_zero(other@)
            } else {
                self@ == other@
            },
    {
        match (self, other) {
            (Number::Unsigned(a), Number::Unsigned(b)) => *a == *b,
            (Number::Negative(a), Number::Negative(b)) => *a == *b,
            (Number::Double(a), Number::Double(b)) => {
                let x = if loose && same(a.as_str(), "-0.0") {
                    "0.0"
                } else {
                    a.as_str()
                };
                let y = if loose && same(b.as_str(), "-0.0") {
                    "0.0"
                } else {
                    b.as_str()
                };
                same(x, y)
            },
            _ => false,
        }
    }
}

/// A number, where the two zeros among the doubles are one.
pub open spec fn unsigned_zero(n: NumberView) -> NumberView {
    if n == NumberView::Double("-0.0"@) {
        NumberView::Double("0.0"@)
    } else {
        n
    }
}

impl PartialEq for Number {
    fn eq(&self, other: &Number) -> (r: bool) {
        self.reads_as(other, true)
    }
}

impl vstd::std_specs::cmp::PartialEqSpecImpl for Number {
    open spec fn obeys_eq_spec() -> bool {
        true
    }

    open spec fn eq_spec(&self, other: &Number) -> bool {
        unsigned_zero(self@) == unsigned_zero(other@)
    }
}

/// A JSON value. Objects list their fields as they were given; what an object
/// is does not depend on their order, and of two fields with one key the last
/// counts.
#[derive(Debug)]
pub enum Json {
    Null,
    Bool(bool),
    Number(Number),
    Text(String),
    Array(Vec<Json>),
    Object(Vec<(String, Json)>),
}

pub enum JsonView {
    Null,
    Bool(bool),
    Number(NumberView),
    Text(Seq<char>),
    Array(Seq<JsonView>),
    Object(Seq<(Seq<char>, JsonView)>),
}

/// The same JSON with the keys of every object in ascending order, each once.
pub open spec fn canonical(json: JsonView) -> JsonView
    decreases json, 0int,
{
    match json {
        JsonView::Array(items) => JsonView::Array(
            Seq::new(
                items.len(),
                |i: int|
                    if 0 <= i < items.len() {
                        canonical(items[i])
                    } else {
                        JsonView::Null
                    },
            ),
        ),
        JsonView::Object(fields) => JsonView::Object(by_key(fields)),
        other => other,
    }
}

pub open spec fn by_key(fields: Seq<(Seq<char>, JsonView)>) -> Seq<(Seq<char>, JsonView)>
    decreases fields, 1int,
{
    if fields.len() == 0 {
        Seq::empty()
    } else {
        put(by_key(fields.drop_last()), fields.last().0, canonical(fields.last().1))
    }
}

/// The same JSON, where the two zeros among the doubles are one.
pub open spec fn levelled(json: JsonView) -> JsonView
    decreases json,
{
    match json {
        JsonView::Number(n) => JsonView::Number(unsigned_zero(n)),
        JsonView::Array(items) => JsonView::Array(
            Seq::new(
                items.len(),
                |i: int|
                    if 0 <= i < items.len() {
                        levelled(items[i])
                    } else {
                        JsonView::Null
                    },
            ),
        ),
        JsonView::Object(fields) => JsonView::Object(
            Seq::new(
                fields.len(),
                |i: int|
                    if 0 <= i < fields.len() {
                        (fields[i].0, levelled(fields[i].1))
                    } else {
                        (Seq::empty(), JsonView::Null)
                    },
            ),
        ),
        other => other,
    }
}

/// What is equal as JSON: neither the order of keys nor the sign of a zero
/// counts.
pub open spec fn alike(a: JsonView, b: JsonView) -> bool {
    levelled(canonical(a)) == levelled(canonical(b))
}

/// The fields of an object.
pub open spec fn fields_view(fields: Seq<(String, Json)>) -> Seq<(Seq<char>, JsonView)> {
    Seq::new(fields.len(), |i: int| (fields[i].0@, fields[i].1@))
}

pub(crate) proof fn lemma_object(json: Json)
    requires
        json is Object,
    ensures
        json@ == JsonView::Object(fields_view(json->Object_0@)),
{
    assert(json@->Object_0 =~= fields_view(json->Object_0@));
}

fn put_field(fields: &mut Vec<(String, Json)>, key: String, value: Json)
    ensures
        fields_view(final(fields)@) == put(fields_view(old(fields)@), key@, value@),
{
    let ghost all = fields_view(fields@);
    let mut i: usize = 0;
    assert(all.take(0) + put(all.skip(0), key@, value@) =~= put(all, key@, value@)) by {
        assert(all.skip(0) =~= all);
    }
    while i < fields.len()
        invariant
            i <= fields@.len(),
            all == fields_view(fields@),
            fields@ == old(fields)@,
            put(all, key@, value@) == all.take(i as int) + put(all.skip(i as int), key@, value@),
        decreases fields@.len() - i,
    {
        let ghost rest = all.skip(i as int);
        assert(rest[0] == all[i as int]);
        assert(rest.drop_first() =~= all.skip(i + 1));
        match place(fields[i].0.as_str(), key.as_str()) {
            Place::Before => {
                assert(fields@[i as int].0@ != key@) by {
                    crate::text::lemma_less_irreflexive(key@);
                }
                assert(all.take(i as int) + (seq![rest[0]] + put(
                    rest.drop_first(),
                    key@,
                    value@,
                )) =~= all.take(i + 1) + put(all.skip(i + 1), key@, value@));
                i += 1;
            },
            Place::Same => {
                fields.set(i, (key, value));
                assert(fields_view(fields@) =~= all.take(i as int) + (seq![(key@, value@)]
                    + rest.drop_first()));
                return;
            },
            Place::After => {
                assert(fields@[i as int].0@ != key@) by {
                    crate::text::lemma_less_irreflexive(key@);
                }
                assert(!crate::text::less(fields@[i as int].0@, key@)) by {
                    if crate::text::less(fields@[i as int].0@, key@) {
                        crate::text::lemma_less_transitive(
                            key@,
                            fields@[i as int].0@,
                            key@,
                        );
                        crate::text::lemma_less_irreflexive(key@);
                    }
                }
                fields.insert(i, (key, value));
                assert(fields_view(fields@) =~= all.take(i as int) + (seq![(key@, value@)] + rest));
                return;
            },
        }
    }
    assert(all.skip(i as int) =~= Seq::empty());
    fields.push((key, value));
    assert(fields_view(fields@) =~= all.take(i as int) + seq![(key@, value@)]);
}

impl Json {
    pub open spec fn view(&self) -> JsonView
        decreases self,
    {
        match *self {
            Json::Null => JsonView::Null,
            Json::Bool(b) => JsonView::Bool(b),
            Json::Number(n) => JsonView::Number(n@),
            Json::Text(s) => JsonView::Text(s@),
            Json::Array(items) => JsonView::Array(
                Seq::new(
                    items@.len(),
                    |i: int|
                        if 0 <= i < items@.len() {
                            items@[i].view()
                        } else {
                            JsonView::Null
                        },
                ),
            ),
            Json::Object(fields) => JsonView::Object(
                Seq::new(
                    fields@.len(),
                    |i: int|
                        if 0 <= i < fields@.len() {
                            (fields@[i].0@, fields@[i].1.view())
                        } else {
                            (Seq::empty(), JsonView::Null)
                        },
                ),
            ),
        }
    }

    /// Neither the order of the keys nor the sign of a zero counts.
    pub fn equal(&self, other: &Json) -> (r: bool)
        ensures
            r == alike(self@, other@),
    {
        self.to_canonical().reads_as(&other.to_canonical(), true)
    }

    /// Whether the two are the same but for the order of their keys.
    pub fn identical(&self, other: &Json) -> (r: bool)
        ensures
            r == (canonical(self@) == canonical(other@)),
    {
        self.to_canonical().reads_as(&other.to_canonical(), false)
    }

    /// The same value, with the keys of every object in order.
    pub fn to_canonical(&self) -> (r: Json)
        ensures
            r@ == canonical(self@),
        decreases self,
    {
        match self {
            Json::Array(a) => {
                let mut out: Vec<Json> = Vec::new();
                let mut i: usize = 0;
                while i < a.len()
                    invariant
                        i <= a.len(),
                        out.len() == i,
                        *self == Json::Array(*a),
                        forall|j: int| 0 <= j < i ==> (#[trigger] out@[j])@ == canonical(a@[j]@),
                    decreases a.len() - i,
                {
                    proof {
                        assert(decreases_to!(*self => self->Array_0));
                        assert(decreases_to!(*a => a@));
                        assert(decreases_to!(a@ => a@[i as int]));
                    }
                    out.push(a[i].to_canonical());
                    i += 1;
                }
                let r = Json::Array(out);
                assert(r@->Array_0 =~= canonical(self@)->Array_0);
                r
            },
            Json::Object(a) => {
                let mut out: Vec<(String, Json)> = Vec::new();
                let ghost all = fields_view(a@);
                proof {
                    lemma_object(*self);
                    assert(all.take(0) =~= Seq::empty());
                    assert(fields_view(out@) =~= Seq::empty());
                }
                let mut i: usize = 0;
                while i < a.len()
                    invariant
                        i <= a.len(),
                        *self == Json::Object(*a),
                        all == fields_view(a@),
                        self@ == JsonView::Object(all),
                        fields_view(out@) == by_key(all.take(i as int)),
                    decreases a.len() - i,
                {
                    proof {
                        assert(decreases_to!(*self => self->Object_0));
                        assert(decreases_to!(*a => a@));
                        assert(decreases_to!(a@ => a@[i as int]));
                        assert(decreases_to!(a@[i as int] => a@[i as int].1));
                        assert(all.take(i + 1).drop_last() =~= all.take(i as int));
                        assert(all.take(i + 1).last() == all[i as int]);
                    }
                    put_field(&mut out, a[i].0.clone(), a[i].1.to_canonical());
                    i += 1;
                }
                assert(all.take(i as int) =~= all);
                let r = Json::Object(out);
                proof {
                    lemma_object(r);
                }
                r
            },
            _ => self.copy(),
        }
    }

    /// Whether the two read the same, field by field; where `loose`, but for
    /// the sign of zeros.
    fn reads_as(&self, other: &Json, loose: bool) -> (r: bool)
        ensures
            r == if loose {
                levelled(self@) == levelled(other@)
            } else {
                self@ == other@
            },
        decreases self,
    {
        match (self, other) {
            (Json::Null, Json::Null) => true,
            (Json::Bool(a), Json::Bool(b)) => *a == *b,
            (Json::Number(a), Json::Number(b)) => a.reads_as(b, loose),
            (Json::Text(a), Json::Text(b)) => same(a.as_str(), b.as_str()),
            (Json::Array(a), Json::Array(b)) => {
                let ghost (x, y) = (self@->Array_0, other@->Array_0);
                let ghost (p, q) = (levelled(self@)->Array_0, levelled(other@)->Array_0);
                if a.len() != b.len() {
                    assert(x.len() != y.len() && p.len() != q.len());
                    return false;
                }
                let mut i: usize = 0;
                while i < a.len()
                    invariant
                        i <= a.len(),
                        a.len() == b.len(),
                        *self == Json::Array(*a),
                        *other == Json::Array(*b),
                        x == self@->Array_0,
                        y == other@->Array_0,
                        p == levelled(self@)->Array_0,
                        q == levelled(other@)->Array_0,
                        loose ==> forall|j: int| 0 <= j < i ==> #[trigger] p[j] == q[j],
                        !loose ==> forall|j: int| 0 <= j < i ==> #[trigger] x[j] == y[j],
                    decreases a.len() - i,
                {
                    proof {
                        assert(decreases_to!(*a => a@));
                        assert(x[i as int] == a@[i as int]@ && y[i as int] == b@[i as int]@);
                        assert(p[i as int] == levelled(x[i as int]));
                        assert(q[i as int] == levelled(y[i as int]));
                    }
                    if !a[i].reads_as(&b[i], loose) {
                        assert(if loose { p != q } else { x != y });
                        return false;
                    }
                    i += 1;
                }
                assert(if loose { p =~= q } else { x =~= y });
                true
            },
            (Json::Object(a), Json::Object(b)) => {
                let ghost (x, y) = (self@->Object_0, other@->Object_0);
                let ghost (p, q) = (levelled(self@)->Object_0, levelled(other@)->Object_0);
                if a.len() != b.len() {
                    assert(x.len() != y.len() && p.len() != q.len());
                    return false;
                }
                let mut i: usize = 0;
                while i < a.len()
                    invariant
                        i <= a.len(),
                        a.len() == b.len(),
                        *self == Json::Object(*a),
                        *other == Json::Object(*b),
                        x == self@->Object_0,
                        y == other@->Object_0,
                        p == levelled(self@)->Object_0,
                        q == levelled(other@)->Object_0,
                        loose ==> forall|j: int| 0 <= j < i ==> #[trigger] p[j] == q[j],
                        !loose ==> forall|j: int| 0 <= j < i ==> #[trigger] x[j] == y[j],
                    decreases a.len() - i,
                {
                    proof {
                        assert(decreases_to!(*a => a@));
                        assert(decreases_to!(a@[i as int] => a@[i as int].1));
                        assert(x[i as int] == (a@[i as int].0@, a@[i as int].1@));
                        assert(y[i as int] == (b@[i as int].0@, b@[i as int].1@));
                        assert(p[i as int] == (x[i as int].0, levelled(x[i as int].1)));
                        assert(q[i as int] == (y[i as int].0, levelled(y[i as int].1)));
                    }
                    if !same(a[i].0.as_str(), b[i].0.as_str()) || !a[i].1.reads_as(
                        &b[i].1,
                        loose,
                    ) {
                        assert(if loose { p != q } else { x != y });
                        return false;
                    }
                    i += 1;
                }
                assert(if loose { p =~= q } else { x =~= y });
                true
            },
            _ => false,
        }
    }

    /// The same value once more.
    pub fn copy(&self) -> (r: Json)
        ensures
            r@ == self@,
        decreases self,
    {
        match self {
            Json::Null => Json::Null,
            Json::Bool(b) => Json::Bool(*b),
            Json::Number(n) => Json::Number(n.copy()),
            Json::Text(s) => Json::Text(s.clone()),
            Json::Array(a) => {
                let mut out: Vec<Json> = Vec::new();
                let mut i: usize = 0;
                while i < a.len()
                    invariant
                        i <= a.len(),
                        out.len() == i,
                        *self == Json::Array(*a),
                        forall|j: int| 0 <= j < i ==> (#[trigger] out@[j])@ == a@[j]@,
                    decreases a.len() - i,
                {
                    proof {
                        assert(decreases_to!(*self => self->Array_0));
                        assert(decreases_to!(*a => a@));
                        assert(decreases_to!(a@ => a@[i as int]));
                    }
                    out.push(a[i].copy());
                    i += 1;
                }
                let r = Json::Array(out);
                assert(r@->Array_0 =~= self@->Array_0);
                r
            },
            Json::Object(a) => {
                let mut out: Vec<(String, Json)> = Vec::new();
                let mut i: usize = 0;
                while i < a.len()
                    invariant
                        i <= a.len(),
                        out.len() == i,
                        *self == Json::Object(*a),
                        forall|j: int|
                            0 <= j < i ==> (#[trigger] out@[j]).0@ == a@[j].0@ && out@[j].1@
                                == a@[j].1@,
                    decreases a.len() - i,
                {
                    proof {
                        assert(decreases_to!(*self => self->Object_0));
                        assert(decreases_to!(*a => a@));
                        assert(decreases_to!(a@ => a@[i as int]));
                        assert(decreases_to!(a@[i as int] => a@[i as int].1));
                    }
                    out.push((a[i].0.clone(), a[i].1.copy()));
                    i += 1;
                }
                let r = Json::Object(out);
                assert(r@->Object_0 =~= self@->Object_0);
                r
            },
        }
    }
}

impl Clone for Json {
    fn clone(&self) -> (r: Json)
        ensures
            r@ == self@,
    {
        self.copy()
    }
}

impl PartialEq for Json {
    fn eq(&self, other: &Json) -> (r: bool) {
        self.equal(other)
    }
}

impl vstd::std_specs::cmp::PartialEqSpecImpl for Json {
    open spec fn obeys_eq_spec() -> bool {
        true
    }

    open spec fn eq_spec(&self, other: &Json) -> bool {
        alike(self@, other@)
    }
}

/// Ordering the keys a second time changes nothing.
pub proof fn canonical_is_final(json: JsonView)
    ensures
        canonical(canonical(json)) == canonical(json),
    decreases json, 0int,
{
    match json {
        JsonView::Array(items) => {
            let once = canonical(json)->Array_0;
            assert forall|i: int| 0 <= i < items.len() implies canonical(#[trigger] once[i])
                == once[i] by {
                canonical_is_final(items[i]);
            }
            assert(canonical(canonical(json))->Array_0 =~= once);
        },
        JsonView::Object(fields) => {
            lemma_by_key(fields);
            let once = by_key(fields);
            lemma_by_key_again(once, once.len() as int);
            assert(once.take(once.len() as int) =~= once);
        },
        _ => {},
    }
}

/// Fields in order stand in order, and their values are final.
proof fn lemma_by_key(fields: Seq<(Seq<char>, JsonView)>)
    ensures
        sorted(by_key(fields)),
        forall|i: int|
            0 <= i < by_key(fields).len() ==> canonical((#[trigger] by_key(fields)[i]).1)
                == by_key(fields)[i].1,
    decreases fields, 1int,
{
    if fields.len() > 0 {
        let before = by_key(fields.drop_last());
        let (key, value) = fields.last();
        assert(decreases_to!(fields => fields[fields.len() - 1]));
        lemma_by_key(fields.drop_last());
        canonical_is_final(value);
        lemma_put_sorted(before, key, canonical(value));
        lemma_put_members(before, key, canonical(value));
    }
}

/// What is there after one key was set was there before, or was set.
proof fn lemma_put_members(e: Seq<(Seq<char>, JsonView)>, key: Seq<char>, value: JsonView)
    ensures
        forall|i: int|
            0 <= i < put(e, key, value).len() ==> (#[trigger] put(e, key, value)[i]).1 == value
                || exists|j: int| 0 <= j < e.len() && put(e, key, value)[i] == #[trigger] e[j],
    decreases e.len(),
{
    let p = put(e, key, value);
    if e.len() > 0 {
        let t = e.drop_first();
        lemma_put_members(t, key, value);
        assert forall|i: int| 0 <= i < p.len() implies (#[trigger] p[i]).1 == value || exists|
            j: int,
        |
            0 <= j < e.len() && p[i] == #[trigger] e[j] by {
            if i == 0 {
                if e[0].0 != key && crate::text::less(e[0].0, key) {
                    assert(p[0] == e[0]);
                }
            } else if e[0].0 == key {
                assert(p[i] == t[i - 1]);
                assert(p[i] == e[i]);
            } else if crate::text::less(e[0].0, key) {
                assert(p[i] == put(t, key, value)[i - 1]);
                if p[i].1 != value {
                    let j = choose|j: int|
                        0 <= j < t.len() && put(t, key, value)[i - 1] == #[trigger] t[j];
                    assert(p[i] == e[j + 1]);
                }
            } else {
                assert(p[i] == e[i - 1]);
            }
        }
    }
}

/// Fields that stand in order, with values that are final, are what they are.
proof fn lemma_by_key_again(fields: Seq<(Seq<char>, JsonView)>, n: int)
    requires
        0 <= n <= fields.len(),
        sorted(fields),
        forall|i: int|
            0 <= i < fields.len() ==> canonical((#[trigger] fields[i]).1) == fields[i].1,
    ensures
        by_key(fields.take(n)) == fields.take(n),
    decreases n,
{
    if n > 0 {
        let less = fields.take(n).drop_last();
        lemma_by_key_again(fields, n - 1);
        assert(less =~= fields.take(n - 1));
        assert(fields.take(n).last() == fields[n - 1]);
        lemma_put_after(less, fields[n - 1].0, fields[n - 1].1);
        assert(less.push(fields[n - 1]) =~= fields.take(n));
    } else {
        assert(fields.take(0) =~= Seq::empty());
    }
}

/// The order in which the fields of an object are given does not count: two
/// that stand next to each other and have different keys can change places.
pub proof fn key_order_does_not_count(
    before: Seq<(Seq<char>, JsonView)>,
    a: (Seq<char>, JsonView),
    b: (Seq<char>, JsonView),
    after: Seq<(Seq<char>, JsonView)>,
)
    requires
        a.0 != b.0,
    ensures
        canonical(JsonView::Object(before + seq![a, b] + after)) == canonical(
            JsonView::Object(before + seq![b, a] + after),
        ),
    decreases after.len(),
{
    let x = before + seq![a, b] + after;
    let y = before + seq![b, a] + after;
    if after.len() == 0 {
        assert(x.drop_last() =~= before.push(a));
        assert(before.push(a).drop_last() =~= before);
        assert(y.drop_last() =~= before.push(b));
        assert(before.push(b).drop_last() =~= before);
        assert(by_key(before.push(a)) == put(by_key(before), a.0, canonical(a.1)));
        assert(by_key(before.push(b)) == put(by_key(before), b.0, canonical(b.1)));
        assert(x.last() == b && y.last() == a);
        assert(by_key(x) == put(by_key(before.push(a)), b.0, canonical(b.1)));
        assert(by_key(y) == put(by_key(before.push(b)), a.0, canonical(a.1)));
        lemma_by_key(before);
        crate::keyed::lemma_puts_commute(
            by_key(before),
            a.0,
            canonical(a.1),
            b.0,
            canonical(b.1),
        );
    } else {
        let less = after.drop_last();
        key_order_does_not_count(before, a, b, less);
        assert(x.drop_last() =~= before + seq![a, b] + less);
        assert(y.drop_last() =~= before + seq![b, a] + less);
        assert(x.last() == after.last() && y.last() == after.last());
        let (p, q) = (x.drop_last(), y.drop_last());
        assert(canonical(JsonView::Object(p)) == JsonView::Object(by_key(p)));
        assert(canonical(JsonView::Object(q)) == JsonView::Object(by_key(q)));
        assert(by_key(x.drop_last()) == by_key(y.drop_last()));
    }
    assert(by_key(x) == by_key(y));
    assert(canonical(JsonView::Object(x)) == JsonView::Object(by_key(x)));
    assert(canonical(JsonView::Object(y)) == JsonView::Object(by_key(y)));
}

// ---------------------------------------------------------------------
// What is equal.

/// Field `i` is the one that counts for its key: no later one has it.
pub open spec fn counts(fields: Seq<(Seq<char>, JsonView)>, i: int) -> bool {
    &&& 0 <= i < fields.len()
    &&& forall|j: int| i < j < fields.len() ==> (#[trigger] fields[j]).0 != fields[i].0
}

/// The objects have the same keys.
pub open spec fn same_keys(
    a: Seq<(Seq<char>, JsonView)>,
    b: Seq<(Seq<char>, JsonView)>,
) -> bool {
    &&& forall|i: int|
        0 <= i < a.len() ==> exists|j: int|
            0 <= j < b.len() && (#[trigger] b[j]).0 == (#[trigger] a[i]).0
    &&& forall|j: int|
        0 <= j < b.len() ==> exists|i: int|
            0 <= i < a.len() && (#[trigger] a[i]).0 == (#[trigger] b[j]).0
}

proof fn lemma_by_key_found(fields: Seq<(Seq<char>, JsonView)>, key: Seq<char>)
    ensures
        match lookup(by_key(fields), key) {
            Some(value) => exists|i: int|
                counts(fields, i) && (#[trigger] fields[i]).0 == key && value == canonical(
                    fields[i].1,
                ),
            None => forall|i: int| 0 <= i < fields.len() ==> (#[trigger] fields[i]).0 != key,
        },
    decreases fields.len(),
{
    if fields.len() > 0 {
        let less = fields.drop_last();
        let last = fields.len() - 1;
        let (k, v) = fields.last();
        lemma_by_key_found(less, key);
        lemma_put_lookup(by_key(less), k, canonical(v), key);
        if k == key {
            assert(counts(fields, last) && fields[last].0 == key);
        } else if lookup(by_key(fields), key) is Some {
            let i = choose|i: int|
                counts(less, i) && (#[trigger] less[i]).0 == key && lookup(by_key(less), key)->0
                    == canonical(less[i].1);
            assert(fields[i] == less[i]);
            assert forall|j: int| i < j < fields.len() implies (#[trigger] fields[j]).0
                != fields[i].0 by {
                if j < last {
                    assert(fields[j] == less[j]);
                }
            }
            assert(counts(fields, i));
        } else {
            assert forall|i: int| 0 <= i < fields.len() implies (#[trigger] fields[i]).0
                != key by {
                if i < last {
                    assert(fields[i] == less[i]);
                }
            }
        }
    } else {
        assert(by_key(fields) =~= Seq::empty());
    }
}

proof fn lemma_by_key_counts(fields: Seq<(Seq<char>, JsonView)>, i: int)
    requires
        counts(fields, i),
    ensures
        lookup(by_key(fields), fields[i].0) == Some(canonical(fields[i].1)),
{
    lemma_by_key_found(fields, fields[i].0);
    let j = choose|j: int|
        counts(fields, j) && (#[trigger] fields[j]).0 == fields[i].0 && lookup(
            by_key(fields),
            fields[i].0,
        )->0 == canonical(fields[j].1);
    if i < j {
        assert(fields[j].0 != fields[i].0);
    }
    if j < i {
        assert(fields[i].0 != fields[j].0);
    }
}

proof fn lemma_levelled_fields(e: Seq<(Seq<char>, JsonView)>, key: Seq<char>)
    requires
        sorted(e),
    ensures
        sorted(levelled(JsonView::Object(e))->Object_0),
        lookup(levelled(JsonView::Object(e))->Object_0, key) == match lookup(e, key) {
            Some(value) => Some(levelled(value)),
            None => None,
        },
{
    let l = levelled(JsonView::Object(e))->Object_0;
    assert forall|i: int| 0 <= i < e.len() implies #[trigger] l[i] == (
        e[i].0,
        levelled(e[i].1),
    ) by {}
    assert(sorted(l)) by {
        assert forall|i: int, j: int|
            #![trigger l[i], l[j]]
            0 <= i < j < l.len() implies crate::text::less(l[i].0, l[j].0) by {
            assert(crate::text::less(e[i].0, e[j].0));
        }
    }
    lemma_found(e, key);
    lemma_found(l, key);
    match lookup(e, key) {
        Some(value) => {
            let i = choose|i: int| 0 <= i < e.len() && #[trigger] e[i] == (key, value);
            lemma_finds(l, i);
        },
        None => {
            if lookup(l, key) is Some {
                let i = choose|i: int|
                    0 <= i < l.len() && #[trigger] l[i] == (key, lookup(l, key)->0);
                assert(e[i].0 == key);
            }
        },
    }
}

proof fn lemma_objects_alike(a: Seq<(Seq<char>, JsonView)>, b: Seq<(Seq<char>, JsonView)>)
    requires
        alike(JsonView::Object(a), JsonView::Object(b)),
    ensures
        same_keys(a, b),
        forall|i: int, j: int|
            #![trigger a[i], b[j]]
            counts(a, i) && counts(b, j) && a[i].0 == b[j].0 ==> alike(a[i].1, b[j].1),
{
    let (x, y) = (by_key(a), by_key(b));
    lemma_by_key(a);
    lemma_by_key(b);
    let p = levelled(JsonView::Object(x))->Object_0;
    let q = levelled(JsonView::Object(y))->Object_0;
    assert(canonical(JsonView::Object(a)) == JsonView::Object(x));
    assert(canonical(JsonView::Object(b)) == JsonView::Object(y));
    assert(p == q);
    assert forall|i: int| 0 <= i < a.len() implies exists|j: int|
        0 <= j < b.len() && (#[trigger] b[j]).0 == (#[trigger] a[i]).0 by {
        lemma_by_key_found(a, a[i].0);
        lemma_by_key_found(b, a[i].0);
        lemma_levelled_fields(x, a[i].0);
        lemma_levelled_fields(y, a[i].0);
    }
    assert forall|j: int| 0 <= j < b.len() implies exists|i: int|
        0 <= i < a.len() && (#[trigger] a[i]).0 == (#[trigger] b[j]).0 by {
        lemma_by_key_found(a, b[j].0);
        lemma_by_key_found(b, b[j].0);
        lemma_levelled_fields(x, b[j].0);
        lemma_levelled_fields(y, b[j].0);
    }
    assert forall|i: int, j: int|
        #![trigger a[i], b[j]]
        counts(a, i) && counts(b, j) && a[i].0 == b[j].0 implies alike(a[i].1, b[j].1) by {
        lemma_by_key_counts(a, i);
        lemma_by_key_counts(b, j);
        lemma_levelled_fields(x, a[i].0);
        lemma_levelled_fields(y, a[i].0);
    }
}

proof fn lemma_alike_objects(a: Seq<(Seq<char>, JsonView)>, b: Seq<(Seq<char>, JsonView)>)
    requires
        same_keys(a, b),
        forall|i: int, j: int|
            #![trigger a[i], b[j]]
            counts(a, i) && counts(b, j) && a[i].0 == b[j].0 ==> alike(a[i].1, b[j].1),
    ensures
        alike(JsonView::Object(a), JsonView::Object(b)),
{
    let (x, y) = (by_key(a), by_key(b));
    lemma_by_key(a);
    lemma_by_key(b);
    let p = levelled(JsonView::Object(x))->Object_0;
    let q = levelled(JsonView::Object(y))->Object_0;
    assert(canonical(JsonView::Object(a)) == JsonView::Object(x));
    assert(canonical(JsonView::Object(b)) == JsonView::Object(y));
    assert forall|key: Seq<char>| #[trigger] lookup(p, key) == lookup(q, key) by {
        lemma_by_key_found(a, key);
        lemma_by_key_found(b, key);
        lemma_levelled_fields(x, key);
        lemma_levelled_fields(y, key);
        if lookup(x, key) is Some {
            let i = choose|i: int|
                counts(a, i) && (#[trigger] a[i]).0 == key && lookup(x, key)->0 == canonical(
                    a[i].1,
                );
            assert(a[i].0 == key);
            assert(lookup(y, key) is Some);
            let j = choose|j: int|
                counts(b, j) && (#[trigger] b[j]).0 == key && lookup(y, key)->0 == canonical(
                    b[j].1,
                );
            assert(a[i].0 == b[j].0);
        } else if lookup(y, key) is Some {
            let j = choose|j: int|
                counts(b, j) && (#[trigger] b[j]).0 == key && lookup(y, key)->0 == canonical(
                    b[j].1,
                );
            assert(b[j].0 == key);
        }
    }
    lemma_levelled_fields(x, Seq::empty());
    lemma_levelled_fields(y, Seq::empty());
    lemma_same_lookups(p, q);
}

proof fn lemma_objects_identical(a: Seq<(Seq<char>, JsonView)>, b: Seq<(Seq<char>, JsonView)>)
    requires
        canonical(JsonView::Object(a)) == canonical(JsonView::Object(b)),
    ensures
        same_keys(a, b),
        forall|i: int, j: int|
            #![trigger a[i], b[j]]
            counts(a, i) && counts(b, j) && a[i].0 == b[j].0 ==> canonical(a[i].1) == canonical(
                b[j].1,
            ),
{
    let (x, y) = (by_key(a), by_key(b));
    lemma_by_key(a);
    lemma_by_key(b);
    assert(x == y);
    assert forall|i: int| 0 <= i < a.len() implies exists|j: int|
        0 <= j < b.len() && (#[trigger] b[j]).0 == (#[trigger] a[i]).0 by {
        lemma_by_key_found(a, a[i].0);
        lemma_by_key_found(b, a[i].0);
    }
    assert forall|j: int| 0 <= j < b.len() implies exists|i: int|
        0 <= i < a.len() && (#[trigger] a[i]).0 == (#[trigger] b[j]).0 by {
        lemma_by_key_found(a, b[j].0);
        lemma_by_key_found(b, b[j].0);
    }
    assert forall|i: int, j: int|
        #![trigger a[i], b[j]]
        counts(a, i) && counts(b, j) && a[i].0 == b[j].0 implies canonical(a[i].1) == canonical(
        b[j].1,
    ) by {
        lemma_by_key_counts(a, i);
        lemma_by_key_counts(b, j);
    }
}

proof fn lemma_identical_objects(a: Seq<(Seq<char>, JsonView)>, b: Seq<(Seq<char>, JsonView)>)
    requires
        same_keys(a, b),
        forall|i: int, j: int|
            #![trigger a[i], b[j]]
            counts(a, i) && counts(b, j) && a[i].0 == b[j].0 ==> canonical(a[i].1) == canonical(
                b[j].1,
            ),
    ensures
        canonical(JsonView::Object(a)) == canonical(JsonView::Object(b)),
{
    let (x, y) = (by_key(a), by_key(b));
    lemma_by_key(a);
    lemma_by_key(b);
    assert forall|key: Seq<char>| #[trigger] lookup(x, key) == lookup(y, key) by {
        lemma_by_key_found(a, key);
        lemma_by_key_found(b, key);
        if lookup(x, key) is Some {
            let i = choose|i: int|
                counts(a, i) && (#[trigger] a[i]).0 == key && lookup(x, key)->0 == canonical(
                    a[i].1,
                );
            assert(a[i].0 == key);
            assert(lookup(y, key) is Some);
            let j = choose|j: int|
                counts(b, j) && (#[trigger] b[j]).0 == key && lookup(y, key)->0 == canonical(
                    b[j].1,
                );
            assert(a[i].0 == b[j].0);
        } else if lookup(y, key) is Some {
            let j = choose|j: int|
                counts(b, j) && (#[trigger] b[j]).0 == key && lookup(y, key)->0 == canonical(
                    b[j].1,
                );
            assert(b[j].0 == key);
        }
    }
    lemma_same_lookups(x, y);
}

proof fn lemma_arrays_alike(a: Seq<JsonView>, b: Seq<JsonView>)
    ensures
        alike(JsonView::Array(a), JsonView::Array(b)) <==> a.len() == b.len() && forall|i: int|
            #![trigger a[i], b[i]]
            0 <= i < a.len() ==> alike(a[i], b[i]),
        canonical(JsonView::Array(a)) == canonical(JsonView::Array(b)) <==> a.len() == b.len()
            && forall|i: int|
            #![trigger a[i], b[i]]
            0 <= i < a.len() ==> canonical(a[i]) == canonical(b[i]),
{
    let (x, y) = (canonical(JsonView::Array(a)), canonical(JsonView::Array(b)));
    let (p, q) = (levelled(x), levelled(y));
    assert(x->Array_0.len() == a.len() && y->Array_0.len() == b.len());
    assert(p->Array_0.len() == a.len() && q->Array_0.len() == b.len());
    assert forall|i: int| 0 <= i < a.len() implies #[trigger] x->Array_0[i] == canonical(a[i])
        && p->Array_0[i] == levelled(canonical(a[i])) by {}
    assert forall|i: int| 0 <= i < b.len() implies #[trigger] y->Array_0[i] == canonical(b[i])
        && q->Array_0[i] == levelled(canonical(b[i])) by {}
    if p == q || x == y {
        assert forall|i: int|
            #![trigger a[i], b[i]]
            0 <= i < a.len() implies (p == q ==> alike(a[i], b[i])) && (x == y ==> canonical(a[i])
            == canonical(b[i])) by {
            assert(x->Array_0[i] == canonical(a[i]) && y->Array_0[i] == canonical(b[i]));
        }
    }
    if a.len() == b.len() {
        if forall|i: int| #![trigger a[i], b[i]] 0 <= i < a.len() ==> alike(a[i], b[i]) {
            assert forall|i: int| 0 <= i < a.len() implies #[trigger] p->Array_0[i]
                == q->Array_0[i] by {
                assert(x->Array_0[i] == canonical(a[i]) && y->Array_0[i] == canonical(b[i]));
                assert(alike(a[i], b[i]));
            }
            assert(p->Array_0 =~= q->Array_0);
        }
        if forall|i: int|
            #![trigger a[i], b[i]]
            0 <= i < a.len() ==> canonical(a[i]) == canonical(b[i]) {
            assert forall|i: int| 0 <= i < a.len() implies #[trigger] x->Array_0[i]
                == y->Array_0[i] by {
                assert(canonical(a[i]) == canonical(b[i]));
            }
            assert(x->Array_0 =~= y->Array_0);
        }
    }
}

/// Equality goes by what there is. Two booleans are equal where they are the
/// same one, and so are two texts; two numbers where they are the same number
/// or are both a zero among the doubles; two arrays item by item; two objects
/// where they have the same keys and, for each key, what counts is equal. What
/// is of different kinds never is.
pub proof fn json_is_equal_part_by_part(a: JsonView, b: JsonView)
    ensures
        alike(a, b) <==> match (a, b) {
            (JsonView::Null, JsonView::Null) => true,
            (JsonView::Bool(x), JsonView::Bool(y)) => x == y,
            (JsonView::Number(x), JsonView::Number(y)) => x == y || ((x == NumberView::Double(
                "0.0"@,
            ) || x == NumberView::Double("-0.0"@)) && (y == NumberView::Double("0.0"@) || y
                == NumberView::Double("-0.0"@))),
            (JsonView::Text(x), JsonView::Text(y)) => x == y,
            (JsonView::Array(x), JsonView::Array(y)) => x.len() == y.len() && forall|i: int|
                #![trigger x[i], y[i]]
                0 <= i < x.len() ==> alike(x[i], y[i]),
            (JsonView::Object(x), JsonView::Object(y)) => {
                &&& same_keys(x, y)
                &&& forall|i: int, j: int|
                    #![trigger x[i], y[j]]
                    counts(x, i) && counts(y, j) && x[i].0 == y[j].0 ==> alike(x[i].1, y[j].1)
            },
            _ => false,
        },
{
    match (a, b) {
        (JsonView::Array(x), JsonView::Array(y)) => lemma_arrays_alike(x, y),
        (JsonView::Object(x), JsonView::Object(y)) => {
            if alike(a, b) {
                lemma_objects_alike(x, y);
            } else if same_keys(x, y) && forall|i: int, j: int|
                #![trigger x[i], y[j]]
                counts(x, i) && counts(y, j) && x[i].0 == y[j].0 ==> alike(x[i].1, y[j].1) {
                lemma_alike_objects(x, y);
            }
        },
        _ => {},
    }
}

/// JSON is identical part by part as it is equal part by part, but for numbers:
/// those are identical only where they are the same, to the sign of a zero.
pub proof fn json_is_identical_part_by_part(a: JsonView, b: JsonView)
    ensures
        canonical(a) == canonical(b) <==> match (a, b) {
            (JsonView::Null, JsonView::Null) => true,
            (JsonView::Bool(x), JsonView::Bool(y)) => x == y,
            (JsonView::Number(x), JsonView::Number(y)) => x == y,
            (JsonView::Text(x), JsonView::Text(y)) => x == y,
            (JsonView::Array(x), JsonView::Array(y)) => x.len() == y.len() && forall|i: int|
                #![trigger x[i], y[i]]
                0 <= i < x.len() ==> canonical(x[i]) == canonical(y[i]),
            (JsonView::Object(x), JsonView::Object(y)) => {
                &&& same_keys(x, y)
                &&& forall|i: int, j: int|
                    #![trigger x[i], y[j]]
                    counts(x, i) && counts(y, j) && x[i].0 == y[j].0 ==> canonical(x[i].1)
                        == canonical(y[j].1)
            },
            _ => false,
        },
{
    match (a, b) {
        (JsonView::Array(x), JsonView::Array(y)) => lemma_arrays_alike(x, y),
        (JsonView::Object(x), JsonView::Object(y)) => {
            if canonical(a) == canonical(b) {
                lemma_objects_identical(x, y);
            } else if same_keys(x, y) && forall|i: int, j: int|
                #![trigger x[i], y[j]]
                counts(x, i) && counts(y, j) && x[i].0 == y[j].0 ==> canonical(x[i].1) == canonical(
                    y[j].1,
                ) {
                lemma_identical_objects(x, y);
            }
        },
        _ => {},
    }
}

// ---------------------------------------------------------------------
// Values in words, for messages.

pub open spec fn bool_text(b: bool) -> Seq<char> {
    if b {
        "true"@
    } else {
        "false"@
    }
}

pub fn bool_name(b: bool) -> (r: &'static str)
    ensures
        r@ == bool_text(b),
{
    if b {
        "true"
    } else {
        "false"
    }
}

/// A number in decimal.
pub open spec fn number_text(n: NumberView) -> Seq<char> {
    match n {
        NumberView::Unsigned(n) => decimal(n as nat),
        NumberView::Negative(n) => if n < 0 {
            "-"@ + decimal(-n as nat)
        } else {
            decimal(n as nat)
        },
        NumberView::Double(text) => text,
    }
}

pub fn number_words(n: &Number) -> (r: String)
    ensures
        r@ == number_text(n@),
{
    match n {
        Number::Unsigned(n) => decimal_text(*n),
        Number::Negative(n) => {
            let n: i64 = *n;
            if n < 0 {
                let mut out = String::from_str("-");
                let size: i128 = 0 - n as i128;
                out.append(decimal_text(size as u64).as_str());
                out
            } else {
                decimal_text(n as u64)
            }
        },
        Number::Double(text) => text.clone(),
    }
}

/// What some JSON is, in words.
pub open spec fn kind_text(json: JsonView) -> Seq<char> {
    match json {
        JsonView::Null => "null"@,
        JsonView::Bool(b) => "boolean `"@ + bool_text(b) + "`"@,
        JsonView::Number(NumberView::Double(text)) => "floating point `"@ + text + "`"@,
        JsonView::Number(n) => "integer `"@ + number_text(n) + "`"@,
        JsonView::Text(s) => "string "@ + quoted(s),
        JsonView::Array(_) => "sequence"@,
        JsonView::Object(_) => "map"@,
    }
}

/// The complaint about some JSON where something else was expected.
pub open spec fn mistyped(json: JsonView, expected: Seq<char>) -> Seq<char> {
    "invalid type: "@ + kind_text(json) + ", expected "@ + expected
}

impl Json {
    /// The complaint about this where something else was expected.
    pub fn complain(&self, expected: &str) -> (r: String)
        ensures
            r@ == mistyped(self@, expected@),
    {
        let mut out = String::from_str("invalid type: ");
        match self {
            Json::Null => out.append("null"),
            Json::Bool(b) => {
                out.append("boolean `");
                out.append(bool_name(*b));
                out.append("`");
            },
            Json::Number(n) => {
                if let Number::Double(_) = n {
                    out.append("floating point `");
                } else {
                    out.append("integer `");
                }
                out.append(number_words(n).as_str());
                out.append("`");
            },
            Json::Text(s) => {
                out.append("string ");
                out.append(quote(s.as_str()).as_str());
            },
            Json::Array(_) => out.append("sequence"),
            Json::Object(_) => out.append("map"),
        }
        out.append(", expected ");
        out.append(expected);
        assert(out@ =~= mistyped(self@, expected@));
        out
    }
}

} // verus!
