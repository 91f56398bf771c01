//! Small helpers on vectors.

use vstd::prelude::*;

verus! {

/// Cuts `vec` at `i`: `vec` keeps the elements before `i`, and the
/// elements from `i` on are returned in their order.
pub fn split_at<T>(vec: &mut Vec<T>, i: usize) -> (r: Vec<T>)
    requires
        i <= old(vec)@.len(),
    ensures
        final(vec)@ == old(vec)@.subrange(0, i as int),
        r@ == old(vec)@.subrange(i as int, old(vec)@.len() as int),
        old(vec)@ == final(vec)@ + r@,
{
    let r = vec.split_off(i);
    proof {
        assert(old(vec)@ =~= vec@ + r@);
    }
    r
}

} // verus!
