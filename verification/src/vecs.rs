//! Vectors.

use vstd::prelude::*;

verus! {

/// The elements of `v` in the opposite order.
pub fn reverse<T>(v: Vec<T>) -> (r: Vec<T>)
    ensures
        r@.len() == v@.len(),
        forall|k: int| 0 <= k < r@.len() ==> r@[k] == v@[v@.len() - 1 - k],
{
    let mut v = v;
    let ghost all = v@;
    let mut out: Vec<T> = Vec::new();
    while v.len() > 0
        invariant
            v@ == all.subrange(0, v@.len() as int),
            v@.len() + out@.len() == all.len(),
            forall|k: int| 0 <= k < out@.len() ==> out@[k] == all[all.len() - 1 - k],
        decreases v.len(),
    {
        let e = v.pop().unwrap();
        assert(v@ =~= all.subrange(0, v@.len() as int));
        out.push(e);
    }
    out
}

} // verus!
