//! Bulk removal from a vector.

use vstd::prelude::*;

verus! {

/// Removes the `n` elements that start at `index`, shifting the tail down
/// once.
pub fn remove_n_at<T: Clone>(v: &mut Vec<T>, index: usize, n: usize)
    requires
        n == 0 || index + n <= old(v)@.len(),
    ensures
        n == 0 ==> final(v)@ == old(v)@,
        n > 0 ==> final(v)@ == old(v)@.subrange(0, index as int) + old(v)@.subrange(
            index + n,
            old(v)@.len() as int,
        ),
{
    if n == 1 {
        v.remove(index);
    } else if n > 1 {
        let len = v.len();
        assert(index + n <= len);
        let mut tail = v.split_off(index + n);
        v.truncate(index);
        v.append(&mut tail);
    }
}

} // verus!
