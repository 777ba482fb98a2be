//! Lists of wakers, which are named by numbers of the caller's choosing.

use vstd::prelude::*;

verus! {

/// A list of wakers with `waker` in it.
pub open spec fn with_waker(list: Seq<u64>, waker: u64) -> Seq<u64> {
    if list.contains(waker) {
        list
    } else {
        list.push(waker)
    }
}

/// Whether a waker is in a list.
pub fn holds_waker(list: &Vec<u64>, waker: u64) -> (r: bool)
    ensures
        r == list@.contains(waker),
{
    let mut i: usize = 0;
    while i < list.len()
        invariant
            i <= list@.len(),
            forall|j: int| 0 <= j < i ==> list@[j] != waker,
        decreases list@.len() - i,
    {
        if list[i] == waker {
            return true;
        }
        i += 1;
    }
    false
}

} // verus!
