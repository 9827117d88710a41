//! Keys with values, in the order of the keys.

use crate::text::{lemma_less_irreflexive, lemma_less_total, lemma_less_transitive, less};
use vstd::prelude::*;

verus! {

/// Keys stand in strictly ascending order.
pub open spec fn sorted<V>(entries: Seq<(Seq<char>, V)>) -> bool {
    forall|i: int, j: int|
        #![trigger entries[i], entries[j]]
        0 <= i < j < entries.len() ==> less(entries[i].0, entries[j].0)
}

pub open spec fn lookup<V>(entries: Seq<(Seq<char>, V)>, key: Seq<char>) -> Option<V>
    decreases entries.len(),
{
    if entries.len() == 0 {
        None
    } else if entries[0].0 == key {
        Some(entries[0].1)
    } else {
        lookup(entries.drop_first(), key)
    }
}

/// `entries` with `key` set to `value`.
pub open spec fn put<V>(
    entries: Seq<(Seq<char>, V)>,
    key: Seq<char>,
    value: V,
) -> Seq<(Seq<char>, V)>
    decreases entries.len(),
{
    if entries.len() == 0 {
        seq![(key, value)]
    } else if entries[0].0 == key {
        seq![(key, value)] + entries.drop_first()
    } else if less(entries[0].0, key) {
        seq![entries[0]] + put(entries.drop_first(), key, value)
    } else {
        seq![(key, value)] + entries
    }
}

pub(crate) proof fn lemma_put_above<V>(
    e: Seq<(Seq<char>, V)>,
    key: Seq<char>,
    value: V,
    bound: Seq<char>,
)
    requires
        forall|i: int| 0 <= i < e.len() ==> less(bound, (#[trigger] e[i]).0),
        less(bound, key),
    ensures
        forall|i: int|
            0 <= i < put(e, key, value).len() ==> less(
                bound,
                (#[trigger] put(e, key, value)[i]).0,
            ),
    decreases e.len(),
{
    if e.len() > 0 {
        let t = e.drop_first();
        assert forall|i: int| 0 <= i < t.len() implies less(bound, (#[trigger] t[i]).0) by {
            assert(t[i] == e[i + 1]);
        }
        lemma_put_above(t, key, value, bound);
        assert(less(bound, e[0].0));
        let p = put(e, key, value);
        assert forall|i: int| 0 <= i < p.len() implies less(bound, (#[trigger] p[i]).0) by {
            if i > 0 {
                if e[0].0 == key {
                    assert(p[i] == t[i - 1]);
                } else if less(e[0].0, key) {
                    assert(p[i] == put(t, key, value)[i - 1]);
                } else {
                    assert(p[i] == e[i - 1]);
                }
            }
        }
    }
}

pub(crate) proof fn lemma_sorted_cons<V>(head: (Seq<char>, V), tail: Seq<(Seq<char>, V)>)
    requires
        sorted(tail),
        forall|i: int| 0 <= i < tail.len() ==> less(head.0, (#[trigger] tail[i]).0),
    ensures
        sorted(seq![head] + tail),
{
    let all = seq![head] + tail;
    assert forall|i: int, j: int|
        #![trigger all[i], all[j]]
        0 <= i < j < all.len() implies less(all[i].0, all[j].0) by {
        assert(all[j] == tail[j - 1]);
        if i > 0 {
            assert(all[i] == tail[i - 1]);
        }
    }
}

pub(crate) proof fn lemma_sorted_tail<V>(e: Seq<(Seq<char>, V)>)
    requires
        sorted(e),
        e.len() > 0,
    ensures
        sorted(e.drop_first()),
        forall|i: int|
            0 <= i < e.drop_first().len() ==> less(e[0].0, (#[trigger] e.drop_first()[i]).0),
{
    let t = e.drop_first();
    assert forall|i: int, j: int|
        #![trigger t[i], t[j]]
        0 <= i < j < t.len() implies less(t[i].0, t[j].0) by {
        assert(t[i] == e[i + 1] && t[j] == e[j + 1]);
    }
    assert forall|i: int| 0 <= i < t.len() implies less(e[0].0, (#[trigger] t[i]).0) by {
        assert(t[i] == e[i + 1]);
    }
}

pub(crate) proof fn lemma_put_sorted<V>(e: Seq<(Seq<char>, V)>, key: Seq<char>, value: V)
    requires
        sorted(e),
    ensures
        sorted(put(e, key, value)),
    decreases e.len(),
{
    if e.len() > 0 {
        let t = e.drop_first();
        lemma_sorted_tail(e);
        lemma_less_total(e[0].0, key);
        if e[0].0 == key {
            lemma_sorted_cons((key, value), t);
        } else if less(e[0].0, key) {
            lemma_put_sorted(t, key, value);
            lemma_put_above(t, key, value, e[0].0);
            lemma_sorted_cons(e[0], put(t, key, value));
        } else {
            assert forall|i: int| 0 <= i < e.len() implies less(key, (#[trigger] e[i]).0) by {
                if i > 0 {
                    assert(e[i] == t[i - 1]);
                    lemma_less_transitive(key, e[0].0, e[i].0);
                }
            }
            lemma_sorted_cons((key, value), e);
        }
    }
}

/// A key above all others comes last.
pub(crate) proof fn lemma_put_after<V>(e: Seq<(Seq<char>, V)>, key: Seq<char>, value: V)
    requires
        forall|i: int| 0 <= i < e.len() ==> less((#[trigger] e[i]).0, key),
    ensures
        put(e, key, value) == e.push((key, value)),
    decreases e.len(),
{
    if e.len() > 0 {
        let t = e.drop_first();
        assert forall|i: int| 0 <= i < t.len() implies less((#[trigger] t[i]).0, key) by {
            assert(t[i] == e[i + 1]);
        }
        lemma_put_after(t, key, value);
        assert(less(e[0].0, key));
        assert(e[0].0 != key) by {
            lemma_less_irreflexive(key);
        }
        assert(seq![e[0]] + t.push((key, value)) =~= e.push((key, value)));
    } else {
        assert(seq![(key, value)] =~= e.push((key, value)));
    }
}

/// It does not matter which of two keys is set first.
pub(crate) proof fn lemma_puts_commute<V>(
    e: Seq<(Seq<char>, V)>,
    a: Seq<char>,
    x: V,
    b: Seq<char>,
    y: V,
)
    requires
        a != b,
        sorted(e),
    ensures
        put(put(e, a, x), b, y) == put(put(e, b, y), a, x),
    decreases e.len(),
{
    lemma_less_total(a, b);
    if less(a, b) && less(b, a) {
        lemma_less_transitive(a, b, a);
        lemma_less_irreflexive(a);
    }
    let p = put(e, a, x);
    let q = put(e, b, y);
    if e.len() == 0 {
        assert(seq![(a, x)].drop_first() =~= Seq::empty());
        assert(seq![(b, y)].drop_first() =~= Seq::empty());
        reveal_with_fuel(put, 2);
        assert(put(p, b, y) =~= put(q, a, x));
    } else {
        let h = e[0];
        let t = e.drop_first();
        lemma_sorted_tail(e);
        lemma_less_total(h.0, a);
        lemma_less_total(h.0, b);
        lemma_puts_commute(t, a, x, b, y);
        assert(seq![h] + t =~= e);
        assert((seq![h] + put(t, a, x)).drop_first() =~= put(t, a, x));
        assert((seq![h] + put(t, b, y)).drop_first() =~= put(t, b, y));
        assert((seq![(a, x)] + t).drop_first() =~= t);
        assert((seq![(b, y)] + t).drop_first() =~= t);
        assert((seq![(a, x)] + e).drop_first() =~= e);
        assert((seq![(b, y)] + e).drop_first() =~= e);
        if less(h.0, a) && less(a, h.0) {
            lemma_less_transitive(h.0, a, h.0);
            lemma_less_irreflexive(h.0);
        }
        if less(h.0, b) && less(b, h.0) {
            lemma_less_transitive(h.0, b, h.0);
            lemma_less_irreflexive(h.0);
        }
        if less(a, h.0) && less(h.0, b) {
            lemma_less_transitive(a, h.0, b);
        }
        if less(b, h.0) && less(h.0, a) {
            lemma_less_transitive(b, h.0, a);
        }
        lemma_less_irreflexive(h.0);
        assert(put(p, b, y) =~= put(q, a, x));
    }
}

/// What is found stands among the entries.
pub(crate) proof fn lemma_found<V>(e: Seq<(Seq<char>, V)>, key: Seq<char>)
    ensures
        lookup(e, key) matches Some(value) ==> exists|i: int|
            0 <= i < e.len() && #[trigger] e[i] == (key, value),
        lookup(e, key) is None ==> forall|i: int| 0 <= i < e.len() ==> (#[trigger] e[i]).0 != key,
    decreases e.len(),
{
    if e.len() > 0 {
        let t = e.drop_first();
        lemma_found(t, key);
        if e[0].0 == key {
            assert(e[0] == (key, e[0].1));
        } else if lookup(e, key) is Some {
            let i = choose|i: int| 0 <= i < t.len() && #[trigger] t[i] == (key, lookup(e, key)->0);
            assert(e[i + 1] == t[i]);
        } else {
            assert forall|i: int| 0 <= i < e.len() implies (#[trigger] e[i]).0 != key by {
                if i > 0 {
                    assert(e[i] == t[i - 1]);
                }
            }
        }
    }
}

/// What stands among sorted entries is found.
pub(crate) proof fn lemma_finds<V>(e: Seq<(Seq<char>, V)>, i: int)
    requires
        sorted(e),
        0 <= i < e.len(),
    ensures
        lookup(e, e[i].0) == Some(e[i].1),
    decreases e.len(),
{
    if i > 0 {
        let t = e.drop_first();
        lemma_sorted_tail(e);
        assert(t[i - 1] == e[i]);
        lemma_less_irreflexive(e[0].0);
        assert(less(e[0].0, e[i].0));
        lemma_finds(t, i - 1);
    }
}

/// What is put is found, and nothing else moves.
pub(crate) proof fn lemma_put_lookup<V>(
    e: Seq<(Seq<char>, V)>,
    key: Seq<char>,
    value: V,
    other: Seq<char>,
)
    ensures
        lookup(put(e, key, value), key) == Some(value),
        other != key ==> lookup(put(e, key, value), other) == lookup(e, other),
    decreases e.len(),
{
    let p = put(e, key, value);
    if e.len() > 0 {
        let t = e.drop_first();
        if e[0].0 == key {
            assert(p.drop_first() =~= t);
        } else if less(e[0].0, key) {
            assert(p.drop_first() =~= put(t, key, value));
            lemma_put_lookup(t, key, value, other);
        } else {
            assert(p.drop_first() =~= e);
        }
    } else {
        assert(p.drop_first() =~= e);
    }
}

/// Entries in which the same is found under every key are the same.
pub(crate) proof fn lemma_same_lookups<V>(a: Seq<(Seq<char>, V)>, b: Seq<(Seq<char>, V)>)
    requires
        sorted(a),
        sorted(b),
        forall|key: Seq<char>| #[trigger] lookup(a, key) == lookup(b, key),
    ensures
        a == b,
    decreases a.len(),
{
    if a.len() == 0 {
        if b.len() > 0 {
            lemma_finds(b, 0);
            assert(lookup(a, b[0].0) is None);
        }
        assert(a =~= b);
    } else {
        let (h, k) = (a[0].0, if b.len() > 0 { b[0].0 } else { a[0].0 });
        lemma_finds(a, 0);
        lemma_found(b, h);
        assert(lookup(a, h) == lookup(b, h));
        let i = choose|i: int| 0 <= i < b.len() && #[trigger] b[i] == (h, a[0].1);
        lemma_finds(b, 0);
        lemma_found(a, k);
        assert(lookup(a, k) == lookup(b, k));
        let j = choose|j: int| 0 <= j < a.len() && #[trigger] a[j] == (k, b[0].1);
        if i > 0 {
            assert(less(b[0].0, b[i].0));
            if j > 0 {
                assert(less(a[0].0, a[j].0));
                lemma_less_transitive(h, k, h);
            }
            lemma_less_irreflexive(h);
        }
        assert(h == k && a[0] == b[0]);
        let (s, t) = (a.drop_first(), b.drop_first());
        lemma_sorted_tail(a);
        lemma_sorted_tail(b);
        assert forall|key: Seq<char>| #[trigger] lookup(s, key) == lookup(t, key) by {
            assert(lookup(a, key) == lookup(b, key));
            if key == h {
                lemma_less_irreflexive(h);
                lemma_found(s, h);
                lemma_found(t, h);
            }
        }
        lemma_same_lookups(s, t);
        assert(a =~= seq![a[0]] + s);
        assert(b =~= seq![b[0]] + t);
    }
}

} // verus!
