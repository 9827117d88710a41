//! Vectors.

use vstd::prelude::*;

verus! {

/// The same items, the last one first: to take them out of the other end.
pub(crate) fn backwards<T>(items: Vec<T>) -> (r: Vec<T>)
    ensures
        r@ == items@.reverse(),
{
    let ghost all = items@;
    let mut rest = items;
    let mut out: Vec<T> = Vec::new();
    while rest.len() > 0
        invariant
            rest@.len() + out@.len() == all.len(),
            rest@ == all.take(rest@.len() as int),
            forall|i: int|
                0 <= i < out@.len() ==> #[trigger] out@[i] == all[all.len() - 1 - i],
        decreases rest@.len(),
    {
        match rest.pop() {
            Some(item) => out.push(item),
            None => {},
        }
    }
    assert(out@ =~= all.reverse());
    out
}

} // verus!
