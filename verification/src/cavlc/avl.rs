//! Persistent AVL maps from strings to values.
//!
//! An edit copies the path from the root to the edited node and shares every
//! other node with the map it started from.

use super::value::{value_view, Value, ValueView};
use crate::keyed::{lemma_put_sorted, lemma_sorted_cons, lemma_sorted_tail, lookup, put, sorted};
use crate::text::{lemma_less_irreflexive, lemma_less_transitive, less, place, Place};
use std::sync::Arc;
use vstd::prelude::*;

verus! {

/// Which side of a node is the higher one.
#[derive(Clone, Copy, Debug, PartialEq, Eq, Structural)]
pub enum Lean {
    Left,
    Even,
    Right,
}

#[derive(Debug)]
pub struct Node {
    key: String,
    value: Value,
    lean: Lean,
    left: Option<Arc<Node>>,
    right: Option<Arc<Node>>,
}

/// A map's entries, in the order of their keys.
pub type Entries = Seq<(Seq<char>, ValueView)>;

pub closed spec fn in_order(tree: Option<Arc<Node>>) -> Seq<(Seq<char>, ValueView)>
    decreases tree,
{
    match tree {
        None => Seq::empty(),
        Some(node) => in_order(node.left) + seq![(node.key@, value_view(node.value))] + in_order(
            node.right,
        ),
    }
}

spec fn height(tree: Option<Arc<Node>>) -> nat
    decreases tree,
{
    match tree {
        None => 0,
        Some(node) => {
            let l = height(node.left);
            let r = height(node.right);
            (if l < r {
                r
            } else {
                l
            }) + 1
        },
    }
}

spec fn leans(lean: Lean, left: nat, right: nat) -> bool {
    match lean {
        Lean::Left => left == right + 1,
        Lean::Even => left == right,
        Lean::Right => right == left + 1,
    }
}

/// No side of any node is higher than the other by more than one.
spec fn balanced(tree: Option<Arc<Node>>) -> bool
    decreases tree,
{
    match tree {
        None => true,
        Some(node) => {
            &&& balanced(node.left)
            &&& balanced(node.right)
            &&& leans(node.lean, height(node.left), height(node.right))
        },
    }
}

/// `entries` without `key`.
pub open spec fn without(entries: Seq<(Seq<char>, ValueView)>, key: Seq<char>) -> Seq<
    (Seq<char>, ValueView),
>
    decreases entries.len(),
{
    if entries.len() == 0 {
        entries
    } else if entries[0].0 == key {
        entries.drop_first()
    } else {
        seq![entries[0]] + without(entries.drop_first(), key)
    }
}

// ---------------------------------------------------------------------
// Sorted sequences.

proof fn lemma_lookup_add(
    a: Seq<(Seq<char>, ValueView)>,
    b: Seq<(Seq<char>, ValueView)>,
    key: Seq<char>,
)
    ensures
        lookup(a + b, key) == match lookup(a, key) {
            Some(v) => Some(v),
            None => lookup(b, key),
        },
    decreases a.len(),
{
    if a.len() == 0 {
        assert(a + b =~= b);
    } else {
        assert((a + b).drop_first() =~= a.drop_first() + b);
        lemma_lookup_add(a.drop_first(), b, key);
    }
}

proof fn lemma_lookup_absent(a: Seq<(Seq<char>, ValueView)>, key: Seq<char>)
    requires
        forall|i: int| 0 <= i < a.len() ==> (#[trigger] a[i]).0 != key,
    ensures
        lookup(a, key) is None,
    decreases a.len(),
{
    if a.len() > 0 {
        assert forall|i: int| 0 <= i < a.drop_first().len() implies (#[trigger] a.drop_first()[i]).0
            != key by {
            assert(a.drop_first()[i] == a[i + 1]);
        }
        assert(a[0].0 != key);
        lemma_lookup_absent(a.drop_first(), key);
    }
}

proof fn lemma_put_left(
    a: Seq<(Seq<char>, ValueView)>,
    b: Seq<(Seq<char>, ValueView)>,
    key: Seq<char>,
    value: ValueView,
)
    requires
        b.len() > 0,
        less(key, b[0].0),
    ensures
        put(a + b, key, value) == put(a, key, value) + b,
    decreases a.len(),
{
    if a.len() == 0 {
        assert(a + b =~= b);
        lemma_less_irreflexive(key);
        if less(b[0].0, key) {
            lemma_less_transitive(key, b[0].0, key);
        }
        assert(put(a, key, value) =~= seq![(key, value)]);
    } else {
        assert((a + b).drop_first() =~= a.drop_first() + b);
        assert((a + b)[0] == a[0]);
        lemma_put_left(a.drop_first(), b, key, value);
        assert(put(a + b, key, value) =~= put(a, key, value) + b);
    }
}

proof fn lemma_put_right(
    a: Seq<(Seq<char>, ValueView)>,
    b: Seq<(Seq<char>, ValueView)>,
    key: Seq<char>,
    value: ValueView,
)
    requires
        forall|i: int| 0 <= i < a.len() ==> less((#[trigger] a[i]).0, key),
    ensures
        put(a + b, key, value) == a + put(b, key, value),
    decreases a.len(),
{
    if a.len() == 0 {
        assert(a + b =~= b);
        assert(a + put(b, key, value) =~= put(b, key, value));
    } else {
        assert((a + b).drop_first() =~= a.drop_first() + b);
        assert((a + b)[0] == a[0]);
        assert(less(a[0].0, key));
        lemma_less_irreflexive(key);
        assert forall|i: int| 0 <= i < a.drop_first().len() implies less(
            (#[trigger] a.drop_first()[i]).0,
            key,
        ) by {
            assert(a.drop_first()[i] == a[i + 1]);
        }
        lemma_put_right(a.drop_first(), b, key, value);
        assert(put(a + b, key, value) =~= a + put(b, key, value));
    }
}

proof fn lemma_without_left(
    a: Seq<(Seq<char>, ValueView)>,
    b: Seq<(Seq<char>, ValueView)>,
    key: Seq<char>,
)
    requires
        forall|i: int| 0 <= i < b.len() ==> (#[trigger] b[i]).0 != key,
    ensures
        without(a + b, key) == without(a, key) + b,
    decreases a.len() + b.len(),
{
    if a.len() == 0 {
        assert(a + b =~= b);
        if b.len() > 0 {
            assert(b[0].0 != key);
            assert forall|i: int| 0 <= i < b.drop_first().len() implies (
            #[trigger] b.drop_first()[i]).0 != key by {
                assert(b.drop_first()[i] == b[i + 1]);
            }
            lemma_without_left(a, b.drop_first(), key);
            assert(a + b.drop_first() =~= b.drop_first());
            assert(without(a, key) + b.drop_first() =~= b.drop_first());
            assert(seq![b[0]] + b.drop_first() =~= b);
        }
        assert(without(a, key) + b =~= b);
    } else {
        assert((a + b).drop_first() =~= a.drop_first() + b);
        assert((a + b)[0] == a[0]);
        lemma_without_left(a.drop_first(), b, key);
        assert(without(a + b, key) =~= without(a, key) + b);
    }
}

proof fn lemma_without_right(
    a: Seq<(Seq<char>, ValueView)>,
    b: Seq<(Seq<char>, ValueView)>,
    key: Seq<char>,
)
    requires
        forall|i: int| 0 <= i < a.len() ==> (#[trigger] a[i]).0 != key,
    ensures
        without(a + b, key) == a + without(b, key),
    decreases a.len(),
{
    if a.len() == 0 {
        assert(a + b =~= b);
        assert(a + without(b, key) =~= without(b, key));
    } else {
        assert((a + b).drop_first() =~= a.drop_first() + b);
        assert((a + b)[0] == a[0]);
        assert(a[0].0 != key);
        assert forall|i: int| 0 <= i < a.drop_first().len() implies (#[trigger] a.drop_first()[i]).0
            != key by {
            assert(a.drop_first()[i] == a[i + 1]);
        }
        lemma_without_right(a.drop_first(), b, key);
        assert(without(a + b, key) =~= a + without(b, key));
    }
}

// ---------------------------------------------------------------------
// Trees.

fn node(
    left: Option<Arc<Node>>,
    key: String,
    value: Value,
    right: Option<Arc<Node>>,
    lean: Lean,
) -> (r: Option<Arc<Node>>)
    requires
        balanced(left),
        balanced(right),
        leans(lean, height(left), height(right)),
    ensures
        balanced(r),
        in_order(r) == in_order(left) + seq![(key@, value_view(value))] + in_order(right),
        height(r) == 1 + if height(left) < height(right) {
            height(right)
        } else {
            height(left)
        },
{
    let r = Some(Arc::new(Node { key, value, lean, left, right }));
    assert(in_order(r) == in_order(left) + seq![(key@, value_view(value))] + in_order(right));
    r
}

fn share(tree: &Option<Arc<Node>>) -> (r: Option<Arc<Node>>)
    ensures
        r == *tree,
{
    match tree {
        Some(node) => Some(node.clone()),
        None => None,
    }
}

/// A node whose left side is too high by one: a rotation to the right. The
/// flag says whether the result is higher than the left side was.
#[verifier::spinoff_prover]
#[verifier::rlimit(60)]
fn rotate_right(
    left: Option<Arc<Node>>,
    key: String,
    value: Value,
    right: Option<Arc<Node>>,
) -> (r: (Option<Arc<Node>>, bool))
    requires
        balanced(left),
        balanced(right),
        height(left) == height(right) + 2,
    ensures
        balanced(r.0),
        in_order(r.0) == in_order(left) + seq![(key@, value_view(value))] + in_order(right),
        height(r.0) == height(left) + if r.1 {
            1int
        } else {
            0
        },
{
    let ghost whole = in_order(left) + seq![(key@, value_view(value))] + in_order(right);
    match left {
        None => (None, false),
        Some(l) => {
            proof {
                assert(in_order(Some(l)) == in_order(l.left) + seq![
                    (l.key@, value_view(l.value)),
                ] + in_order(l.right));
            }
            match l.lean {
                Lean::Left => {
                    let low = node(share(&l.right), key, value, right, Lean::Even);
                    let r = node(share(&l.left), l.key.clone(), l.value.clone(), low, Lean::Even);
                    assert(in_order(r) =~= whole);
                    (r, false)
                },
                Lean::Even => {
                    let low = node(share(&l.right), key, value, right, Lean::Left);
                    let r = node(share(&l.left), l.key.clone(), l.value.clone(), low, Lean::Right);
                    assert(in_order(r) =~= whole);
                    (r, true)
                },
                Lean::Right => match &l.right {
                    None => (None, false),
                    Some(m) => {
                        proof {
                            assert(balanced(Some(*m)));
                            assert(height(Some(*m)) == stood(
                                height(m.left) as int,
                                height(m.right) as int,
                            ));
                            assert(in_order(Some(*m)) == in_order(m.left) + seq![
                                (m.key@, value_view(m.value)),
                            ] + in_order(m.right));
                        }
                        let (a, b) = match m.lean {
                            Lean::Left => (Lean::Even, Lean::Right),
                            Lean::Even => (Lean::Even, Lean::Even),
                            Lean::Right => (Lean::Left, Lean::Even),
                        };
                        let x = node(
                            share(&l.left),
                            l.key.clone(),
                            l.value.clone(),
                            share(&m.left),
                            a,
                        );
                        let y = node(share(&m.right), key, value, right, b);
                        let r = node(x, m.key.clone(), m.value.clone(), y, Lean::Even);
                        assert(in_order(r) =~= whole);
                        (r, false)
                    },
                },
            }
        },
    }
}

/// A node whose right side is too high by one: a rotation to the left.
#[verifier::spinoff_prover]
#[verifier::rlimit(60)]
fn rotate_left(
    left: Option<Arc<Node>>,
    key: String,
    value: Value,
    right: Option<Arc<Node>>,
) -> (r: (Option<Arc<Node>>, bool))
    requires
        balanced(left),
        balanced(right),
        height(right) == height(left) + 2,
    ensures
        balanced(r.0),
        in_order(r.0) == in_order(left) + seq![(key@, value_view(value))] + in_order(right),
        height(r.0) == height(right) + if r.1 {
            1int
        } else {
            0
        },
{
    let ghost whole = in_order(left) + seq![(key@, value_view(value))] + in_order(right);
    match right {
        None => (None, false),
        Some(h) => {
            proof {
                assert(in_order(Some(h)) == in_order(h.left) + seq![
                    (h.key@, value_view(h.value)),
                ] + in_order(h.right));
            }
            match h.lean {
                Lean::Right => {
                    let low = node(left, key, value, share(&h.left), Lean::Even);
                    let r = node(low, h.key.clone(), h.value.clone(), share(&h.right), Lean::Even);
                    assert(in_order(r) =~= whole);
                    (r, false)
                },
                Lean::Even => {
                    let low = node(left, key, value, share(&h.left), Lean::Right);
                    let r = node(low, h.key.clone(), h.value.clone(), share(&h.right), Lean::Left);
                    assert(in_order(r) =~= whole);
                    (r, true)
                },
                Lean::Left => match &h.left {
                    None => (None, false),
                    Some(m) => {
                        proof {
                            assert(balanced(Some(*m)));
                            assert(height(Some(*m)) == stood(
                                height(m.left) as int,
                                height(m.right) as int,
                            ));
                            assert(in_order(Some(*m)) == in_order(m.left) + seq![
                                (m.key@, value_view(m.value)),
                            ] + in_order(m.right));
                        }
                        let (a, b) = match m.lean {
                            Lean::Left => (Lean::Even, Lean::Right),
                            Lean::Even => (Lean::Even, Lean::Even),
                            Lean::Right => (Lean::Left, Lean::Even),
                        };
                        let x = node(left, key, value, share(&m.left), a);
                        let y = node(
                            share(&m.right),
                            h.key.clone(),
                            h.value.clone(),
                            share(&h.right),
                            b,
                        );
                        let r = node(x, m.key.clone(), m.value.clone(), y, Lean::Even);
                        assert(in_order(r) =~= whole);
                        (r, false)
                    },
                },
            }
        },
    }
}

/// What a node of this lean stood at, given what its sides are now.
spec fn stood(left: int, right: int) -> int {
    1 + if left < right {
        right
    } else {
        left
    }
}

/// A node whose left side grew by one. The flag says whether the node did.
fn left_grew(
    left: Option<Arc<Node>>,
    key: String,
    value: Value,
    right: Option<Arc<Node>>,
    lean: Lean,
) -> (r: (Option<Arc<Node>>, bool))
    requires
        balanced(left),
        balanced(right),
        height(left) >= 1,
        leans(lean, (height(left) - 1) as nat, height(right)),
    ensures
        balanced(r.0),
        in_order(r.0) == in_order(left) + seq![(key@, value_view(value))] + in_order(right),
        height(r.0) == stood(height(left) - 1, height(right) as int) + if r.1 {
            1int
        } else {
            0
        },
{
    match lean {
        Lean::Right => (node(left, key, value, right, Lean::Even), false),
        Lean::Even => (node(left, key, value, right, Lean::Left), true),
        Lean::Left => rotate_right(left, key, value, right),
    }
}

fn right_grew(
    left: Option<Arc<Node>>,
    key: String,
    value: Value,
    right: Option<Arc<Node>>,
    lean: Lean,
) -> (r: (Option<Arc<Node>>, bool))
    requires
        balanced(left),
        balanced(right),
        height(right) >= 1,
        leans(lean, height(left), (height(right) - 1) as nat),
    ensures
        balanced(r.0),
        in_order(r.0) == in_order(left) + seq![(key@, value_view(value))] + in_order(right),
        height(r.0) == stood(height(left) as int, height(right) - 1) + if r.1 {
            1int
        } else {
            0
        },
{
    match lean {
        Lean::Left => (node(left, key, value, right, Lean::Even), false),
        Lean::Even => (node(left, key, value, right, Lean::Right), true),
        Lean::Right => rotate_left(left, key, value, right),
    }
}

/// A node whose left side shrank by one. The flag says whether the node did.
fn left_shrank(
    left: Option<Arc<Node>>,
    key: String,
    value: Value,
    right: Option<Arc<Node>>,
    lean: Lean,
) -> (r: (Option<Arc<Node>>, bool))
    requires
        balanced(left),
        balanced(right),
        leans(lean, height(left) + 1, height(right)),
    ensures
        balanced(r.0),
        in_order(r.0) == in_order(left) + seq![(key@, value_view(value))] + in_order(right),
        height(r.0) == stood(height(left) + 1int, height(right) as int) - if r.1 {
            1int
        } else {
            0
        },
{
    match lean {
        Lean::Left => (node(left, key, value, right, Lean::Even), true),
        Lean::Even => (node(left, key, value, right, Lean::Right), false),
        Lean::Right => {
            let (tree, higher) = rotate_left(left, key, value, right);
            (tree, !higher)
        },
    }
}

fn right_shrank(
    left: Option<Arc<Node>>,
    key: String,
    value: Value,
    right: Option<Arc<Node>>,
    lean: Lean,
) -> (r: (Option<Arc<Node>>, bool))
    requires
        balanced(left),
        balanced(right),
        leans(lean, height(left), height(right) + 1),
    ensures
        balanced(r.0),
        in_order(r.0) == in_order(left) + seq![(key@, value_view(value))] + in_order(right),
        height(r.0) == stood(height(left) as int, height(right) + 1int) - if r.1 {
            1int
        } else {
            0
        },
{
    match lean {
        Lean::Right => (node(left, key, value, right, Lean::Even), true),
        Lean::Even => (node(left, key, value, right, Lean::Left), false),
        Lean::Left => {
            let (tree, higher) = rotate_right(left, key, value, right);
            (tree, !higher)
        },
    }
}

spec fn left_entries(n: &Arc<Node>) -> Seq<(Seq<char>, ValueView)> {
    in_order(n.left)
}

spec fn own_entry(n: &Arc<Node>) -> (Seq<char>, ValueView) {
    (n.key@, value_view(n.value))
}

spec fn right_entries(n: &Arc<Node>) -> Seq<(Seq<char>, ValueView)> {
    in_order(n.right)
}

/// Where the keys of a sorted sequence stand to one of them.
proof fn lemma_sides(
    l: Seq<(Seq<char>, ValueView)>,
    m: (Seq<char>, ValueView),
    r: Seq<(Seq<char>, ValueView)>,
)
    requires
        sorted(l + seq![m] + r),
    ensures
        sorted(l),
        sorted(r),
        forall|i: int| 0 <= i < l.len() ==> less((#[trigger] l[i]).0, m.0),
        forall|i: int| 0 <= i < r.len() ==> less(m.0, (#[trigger] r[i]).0),
{
    let all = l + seq![m] + r;
    assert(all[l.len() as int] == m);
    assert forall|i: int, j: int|
        #![trigger l[i], l[j]]
        0 <= i < j < l.len() implies less(l[i].0, l[j].0) by {
        assert(all[i] == l[i] && all[j] == l[j]);
    }
    assert forall|i: int, j: int|
        #![trigger r[i], r[j]]
        0 <= i < j < r.len() implies less(r[i].0, r[j].0) by {
        assert(all[i + l.len() + 1] == r[i] && all[j + l.len() + 1] == r[j]);
    }
    assert forall|i: int| 0 <= i < l.len() implies less((#[trigger] l[i]).0, m.0) by {
        assert(all[i] == l[i]);
    }
    assert forall|i: int| 0 <= i < r.len() implies less(m.0, (#[trigger] r[i]).0) by {
        assert(all[i + l.len() + 1] == r[i]);
    }
}

/// A key below `m` occurs neither at `m` nor to its right.
proof fn lemma_below(
    m: (Seq<char>, ValueView),
    r: Seq<(Seq<char>, ValueView)>,
    key: Seq<char>,
)
    requires
        less(key, m.0),
        forall|i: int| 0 <= i < r.len() ==> less(m.0, (#[trigger] r[i]).0),
    ensures
        forall|i: int| 0 <= i < (seq![m] + r).len() ==> (#[trigger] (seq![m] + r)[i]).0 != key,
{
    assert forall|i: int| 0 <= i < (seq![m] + r).len() implies (#[trigger] (seq![m] + r)[i]).0
        != key by {
        lemma_less_irreflexive(key);
        if i > 0 {
            assert((seq![m] + r)[i] == r[i - 1]);
            lemma_less_transitive(key, m.0, r[i - 1].0);
        }
    }
}

/// A key above `m` occurs neither at `m` nor to its left.
proof fn lemma_over(
    l: Seq<(Seq<char>, ValueView)>,
    m: (Seq<char>, ValueView),
    key: Seq<char>,
)
    requires
        less(m.0, key),
        forall|i: int| 0 <= i < l.len() ==> less((#[trigger] l[i]).0, m.0),
    ensures
        forall|i: int|
            0 <= i < (l + seq![m]).len() ==> less((#[trigger] (l + seq![m])[i]).0, key)
                && (l + seq![m])[i].0 != key,
{
    assert forall|i: int| 0 <= i < (l + seq![m]).len() implies less(
        (#[trigger] (l + seq![m])[i]).0,
        key,
    ) && (l + seq![m])[i].0 != key by {
        lemma_less_irreflexive(key);
        if i < l.len() {
            assert((l + seq![m])[i] == l[i]);
            lemma_less_transitive(l[i].0, m.0, key);
        }
    }
}

fn find<'a>(tree: &'a Option<Arc<Node>>, key: &str) -> (r: Option<&'a Value>)
    requires
        sorted(in_order(*tree)),
    ensures
        match r {
            Some(value) => lookup(in_order(*tree), key@) == Some(value_view(*value)),
            None => lookup(in_order(*tree), key@) is None,
        },
    decreases tree,
{
    match tree {
        None => None,
        Some(n) => {
            let ghost l = left_entries(n);
            let ghost m = own_entry(n);
            let ghost r = right_entries(n);
            proof {
                assert(in_order(*tree) == l + seq![m] + r);
                lemma_sides(l, m, r);
                lemma_lookup_add(l + seq![m], r, key@);
                lemma_lookup_add(l, seq![m], key@);
                assert(seq![m].drop_first() =~= Seq::empty());
                lemma_less_irreflexive(key@);
            }
            match place(key, n.key.as_str()) {
                Place::Same => {
                    proof {
                        assert forall|i: int| 0 <= i < l.len() implies (#[trigger] l[i]).0
                            != key@ by {}
                        lemma_lookup_absent(l, key@);
                    }
                    Some(&n.value)
                },
                Place::Before => {
                    proof {
                        lemma_below(m, r, key@);
                        lemma_lookup_absent(seq![m] + r, key@);
                        lemma_lookup_add(seq![m], r, key@);
                    }
                    find(&n.left, key)
                },
                Place::After => {
                    proof {
                        lemma_over(l, m, key@);
                        lemma_lookup_absent(l + seq![m], key@);
                    }
                    find(&n.right, key)
                },
            }
        },
    }
}

/// `tree` with `key` set to `value`. The flag says whether it grew.
fn insert_at(tree: &Option<Arc<Node>>, key: String, value: Value) -> (r: (
    Option<Arc<Node>>,
    bool,
))
    requires
        balanced(*tree),
        sorted(in_order(*tree)),
    ensures
        balanced(r.0),
        in_order(r.0) == put(in_order(*tree), key@, value_view(value)),
        height(r.0) == height(*tree) + if r.1 {
            1int
        } else {
            0
        },
    decreases tree,
{
    let ghost v = value_view(value);
    match tree {
        None => {
            let r = node(None, key, value, None, Lean::Even);
            assert(in_order(r) =~= seq![(key@, v)]);
            (r, true)
        },
        Some(n) => {
            let ghost l = left_entries(n);
            let ghost m = own_entry(n);
            let ghost r = right_entries(n);
            proof {
                assert(in_order(*tree) == l + seq![m] + r);
                assert(l + seq![m] + r =~= l + (seq![m] + r));
                lemma_sides(l, m, r);
                lemma_less_irreflexive(key@);
            }
            match place(key.as_str(), n.key.as_str()) {
                Place::Same => {
                    proof {
                        assert forall|i: int| 0 <= i < l.len() implies less(
                            (#[trigger] l[i]).0,
                            key@,
                        ) by {}
                        lemma_put_right(l, seq![m] + r, key@, v);
                        assert((seq![m] + r).drop_first() =~= r);
                    }
                    let out = node(share(&n.left), key, value, share(&n.right), n.lean);
                    assert(in_order(out) =~= l + put(seq![m] + r, key@, v));
                    (out, false)
                },
                Place::Before => {
                    proof {
                        lemma_put_left(l, seq![m] + r, key@, v);
                    }
                    let (left, grew) = insert_at(&n.left, key, value);
                    let (out, taller) = if grew {
                        left_grew(left, n.key.clone(), n.value.clone(), share(&n.right), n.lean)
                    } else {
                        (
                            node(left, n.key.clone(), n.value.clone(), share(&n.right), n.lean),
                            false,
                        )
                    };
                    assert(in_order(out) =~= put(l, key@, v) + (seq![m] + r));
                    (out, taller)
                },
                Place::After => {
                    proof {
                        lemma_over(l, m, key@);
                        lemma_put_right(l + seq![m], r, key@, v);
                    }
                    let (right, grew) = insert_at(&n.right, key, value);
                    let (out, taller) = if grew {
                        right_grew(share(&n.left), n.key.clone(), n.value.clone(), right, n.lean)
                    } else {
                        (
                            node(share(&n.left), n.key.clone(), n.value.clone(), right, n.lean),
                            false,
                        )
                    };
                    assert(in_order(out) =~= (l + seq![m]) + put(r, key@, v));
                    (out, taller)
                },
            }
        },
    }
}

/// The first entry of a tree and the rest of it.
fn pop_first(n: &Arc<Node>) -> (r: (String, Value, Option<Arc<Node>>, bool))
    requires
        balanced(Some(*n)),
    ensures
        balanced(r.2),
        in_order(Some(*n)) == seq![(r.0@, value_view(r.1))] + in_order(r.2),
        height(r.2) == height(Some(*n)) - if r.3 {
            1int
        } else {
            0
        },
    decreases n,
{
    let ghost l = left_entries(n);
    let ghost m = own_entry(n);
    let ghost right = right_entries(n);
    assert(in_order(Some(*n)) == l + seq![m] + right);
    match &n.left {
        None => {
            assert(l =~= Seq::empty());
            assert(l + seq![m] + right =~= seq![m] + right);
            (n.key.clone(), n.value.clone(), share(&n.right), true)
        },
        Some(first) => {
            let (key, value, rest, shrank) = pop_first(first);
            let (out, lower) = if shrank {
                left_shrank(rest, n.key.clone(), n.value.clone(), share(&n.right), n.lean)
            } else {
                (node(rest, n.key.clone(), n.value.clone(), share(&n.right), n.lean), false)
            };
            assert(l + seq![m] + right =~= seq![(key@, value_view(value))] + in_order(out));
            (key, value, out, lower)
        },
    }
}

/// `tree` without `key`. The flag says whether it shrank.
#[verifier::spinoff_prover]
#[verifier::rlimit(60)]
fn remove_at(tree: &Option<Arc<Node>>, key: &str) -> (r: (Option<Arc<Node>>, bool))
    requires
        balanced(*tree),
        sorted(in_order(*tree)),
    ensures
        balanced(r.0),
        in_order(r.0) == without(in_order(*tree), key@),
        height(r.0) == height(*tree) - if r.1 {
            1int
        } else {
            0
        },
    decreases tree,
{
    match tree {
        None => (None, false),
        Some(n) => {
            let ghost l = left_entries(n);
            let ghost m = own_entry(n);
            let ghost r = right_entries(n);
            proof {
                assert(in_order(*tree) == l + seq![m] + r);
                assert(l + seq![m] + r =~= l + (seq![m] + r));
                lemma_sides(l, m, r);
                lemma_less_irreflexive(key@);
            }
            match place(key, n.key.as_str()) {
                Place::Same => {
                    proof {
                        assert forall|i: int| 0 <= i < l.len() implies (#[trigger] l[i]).0
                            != key@ by {}
                        lemma_without_right(l, seq![m] + r, key@);
                        assert((seq![m] + r).drop_first() =~= r);
                        assert(without(in_order(*tree), key@) == l + r);
                    }
                    match &n.right {
                        None => {
                            assert(l + r =~= l);
                            (share(&n.left), true)
                        },
                        Some(right) => {
                            let (next, value, rest, shrank) = pop_first(right);
                            let (out, lower) = if shrank {
                                right_shrank(share(&n.left), next, value, rest, n.lean)
                            } else {
                                (node(share(&n.left), next, value, rest, n.lean), false)
                            };
                            assert(in_order(out) =~= l + r);
                            (out, lower)
                        },
                    }
                },
                Place::Before => {
                    proof {
                        lemma_below(m, r, key@);
                        lemma_without_left(l, seq![m] + r, key@);
                    }
                    let (left, shrank) = remove_at(&n.left, key);
                    let (out, lower) = if shrank {
                        left_shrank(left, n.key.clone(), n.value.clone(), share(&n.right), n.lean)
                    } else {
                        (
                            node(left, n.key.clone(), n.value.clone(), share(&n.right), n.lean),
                            false,
                        )
                    };
                    assert(in_order(out) =~= without(l, key@) + (seq![m] + r));
                    (out, lower)
                },
                Place::After => {
                    proof {
                        lemma_over(l, m, key@);
                        lemma_without_right(l + seq![m], r, key@);
                    }
                    let (right, shrank) = remove_at(&n.right, key);
                    let (out, lower) = if shrank {
                        right_shrank(share(&n.left), n.key.clone(), n.value.clone(), right, n.lean)
                    } else {
                        (
                            node(share(&n.left), n.key.clone(), n.value.clone(), right, n.lean),
                            false,
                        )
                    };
                    assert(in_order(out) =~= (l + seq![m]) + without(r, key@));
                    (out, lower)
                },
            }
        },
    }
}

pub(crate) proof fn lemma_without_sorted(
    e: Seq<(Seq<char>, ValueView)>,
    key: Seq<char>,
    bound: Seq<char>,
)
    requires
        sorted(e),
    ensures
        sorted(without(e, key)),
        (forall|i: int| 0 <= i < e.len() ==> less(bound, (#[trigger] e[i]).0)) ==> (forall|i: int|
            0 <= i < without(e, key).len() ==> less(bound, (#[trigger] without(e, key)[i]).0)),
    decreases e.len(),
{
    if e.len() > 0 {
        let t = e.drop_first();
        lemma_sorted_tail(e);
        lemma_without_sorted(t, key, bound);
        lemma_without_sorted(t, key, e[0].0);
        assert forall|i: int| 0 <= i < t.len() implies (#[trigger] t[i]) == e[i + 1] by {}
        if e[0].0 != key {
            lemma_sorted_cons(e[0], without(t, key));
            let w = without(e, key);
            if forall|i: int| 0 <= i < e.len() ==> less(bound, (#[trigger] e[i]).0) {
                assert forall|i: int| 0 <= i < t.len() implies less(
                    bound,
                    (#[trigger] t[i]).0,
                ) by {
                    assert(t[i] == e[i + 1]);
                }
                assert forall|i: int| 0 <= i < w.len() implies less(
                    bound,
                    (#[trigger] w[i]).0,
                ) by {
                    if i > 0 {
                        assert(w[i] == without(t, key)[i - 1]);
                    } else {
                        assert(less(bound, e[0].0));
                    }
                }
            }
        } else {
            if forall|i: int| 0 <= i < e.len() ==> less(bound, (#[trigger] e[i]).0) {
                assert forall|i: int| 0 <= i < t.len() implies less(
                    bound,
                    (#[trigger] t[i]).0,
                ) by {
                    assert(t[i] == e[i + 1]);
                }
            }
        }
    }
}

/// `pairs` are `entries`, one for one.
pub open spec fn listing(pairs: Seq<(String, Value)>) -> Seq<(Seq<char>, ValueView)> {
    Seq::new(pairs.len(), |i: int| (pairs[i].0@, value_view(pairs[i].1)))
}

fn collect(tree: &Option<Arc<Node>>, out: &mut Vec<(String, Value)>)
    ensures
        listing(final(out)@) == listing(old(out)@) + in_order(*tree),
    decreases tree,
{
    match tree {
        None => {
            assert(listing(out@) + in_order(*tree) =~= listing(out@));
        },
        Some(n) => {
            let ghost l = left_entries(n);
            let ghost m = own_entry(n);
            let ghost r = right_entries(n);
            let ghost start = listing(out@);
            assert(in_order(*tree) == l + seq![m] + r);
            collect(&n.left, out);
            let ghost mid = out@;
            out.push((n.key.clone(), n.value.clone()));
            assert(listing(out@) =~= listing(mid) + seq![m]);
            collect(&n.right, out);
            assert(listing(out@) =~= start + (l + seq![m] + r));
        },
    }
}

/// A persistent map from strings to values.
#[derive(Debug)]
pub struct AvlMap {
    root: Option<Arc<Node>>,
}

impl AvlMap {
    pub closed spec fn entries(&self) -> Seq<(Seq<char>, ValueView)>
        decreases self,
    {
        in_order(self.root)
    }

    #[verifier::type_invariant]
    spec fn inv(self) -> bool {
        &&& balanced(self.root)
        &&& sorted(self.entries())
    }

    pub fn new() -> (r: Self)
        ensures
            r.entries() == Seq::<(Seq<char>, ValueView)>::empty(),
    {
        AvlMap { root: None }
    }

    pub fn get(&self, key: &str) -> (r: Option<&Value>)
        ensures
            match r {
                Some(value) => lookup(self.entries(), key@) == Some(value_view(*value)),
                None => lookup(self.entries(), key@) is None,
            },
    {
        proof {
            use_type_invariant(self);
        }
        find(&self.root, key)
    }

    /// The map with `key` set to `value`; this one stays as it is.
    pub fn insert(&self, key: String, value: Value) -> (r: Self)
        ensures
            r.entries() == put(self.entries(), key@, value_view(value)),
    {
        proof {
            use_type_invariant(self);
            lemma_put_sorted(self.entries(), key@, value_view(value));
        }
        let (root, grew) = insert_at(&self.root, key, value);
        AvlMap { root }
    }

    /// The map without `key`; this one stays as it is.
    pub fn remove(&self, key: &str) -> (r: Self)
        ensures
            r.entries() == without(self.entries(), key@),
    {
        proof {
            use_type_invariant(self);
            lemma_without_sorted(self.entries(), key@, Seq::empty());
        }
        let (root, shrank) = remove_at(&self.root, key);
        AvlMap { root }
    }

    /// The same map once more.
    pub fn share(&self) -> (r: Self)
        ensures
            r.entries() == self.entries(),
    {
        proof {
            use_type_invariant(self);
        }
        AvlMap { root: share(&self.root) }
    }

    /// The entries in the order of their keys.
    pub fn iter(&self) -> (r: Vec<(String, Value)>)
        ensures
            listing(r@) == self.entries(),
            sorted(self.entries()),
    {
        proof {
            use_type_invariant(self);
        }
        let mut out: Vec<(String, Value)> = Vec::new();
        assert(listing(out@) =~= Seq::empty());
        collect(&self.root, &mut out);
        assert(listing(out@) =~= self.entries());
        out
    }

    pub fn len(&self) -> (r: usize)
        ensures
            r == self.entries().len(),
    {
        let all = self.iter();
        assert(listing(all@).len() == all@.len());
        all.len()
    }
}

/// What is put is found, and nothing else moves.
pub proof fn maps_hold_what_was_put(
    entries: Seq<(Seq<char>, ValueView)>,
    key: Seq<char>,
    value: ValueView,
    other: Seq<char>,
)
    requires
        sorted(entries),
    ensures
        lookup(put(entries, key, value), key) == Some(value),
        other != key ==> lookup(put(entries, key, value), other) == lookup(entries, other),
    decreases entries.len(),
{
    let p = put(entries, key, value);
    if entries.len() > 0 {
        let t = entries.drop_first();
        lemma_sorted_tail(entries);
        if entries[0].0 == key {
            assert(p.drop_first() =~= t);
        } else if less(entries[0].0, key) {
            assert(p.drop_first() =~= put(t, key, value));
            maps_hold_what_was_put(t, key, value, other);
        } else {
            assert(p.drop_first() =~= entries);
        }
    } else {
        assert(p.drop_first() =~= entries);
    }
}

/// What is removed is gone, and nothing else moves.
pub proof fn maps_lose_what_was_removed(
    entries: Seq<(Seq<char>, ValueView)>,
    key: Seq<char>,
    other: Seq<char>,
)
    requires
        sorted(entries),
    ensures
        lookup(without(entries, key), key) is None,
        other != key ==> lookup(without(entries, key), other) == lookup(entries, other),
    decreases entries.len(),
{
    if entries.len() > 0 {
        let t = entries.drop_first();
        lemma_sorted_tail(entries);
        maps_lose_what_was_removed(t, key, other);
        if entries[0].0 == key {
            lemma_less_irreflexive(key);
            lemma_lookup_absent(t, key);
        } else {
            assert(without(entries, key).drop_first() =~= without(t, key));
        }
    }
}

} // verus!
