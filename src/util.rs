//! Small slice helpers.

use vstd::prelude::*;

verus! {

/// Copies as many leading elements of `src` into `dst` as both hold, and
/// returns that number.
pub fn clone_from_slice<T: Copy>(dst: &mut [T], src: &[T]) -> (r: usize)
    ensures
        r == if old(dst)@.len() < src@.len() {
            old(dst)@.len()
        } else {
            src@.len()
        },
        final(dst)@ == src@.take(r as int) + old(dst)@.skip(r as int),
{
    let min = if dst.len() < src.len() {
        dst.len()
    } else {
        src.len()
    };
    let mut i: usize = 0;
    while i < min
        invariant
            i <= min,
            min <= dst@.len(),
            min <= src@.len(),
            dst@.len() == old(dst)@.len(),
            dst@ == src@.take(i as int) + old(dst)@.skip(i as int),
        decreases min - i,
    {
        dst[i] = src[i];
        i = i + 1;
        assert(dst@ =~= src@.take(i as int) + old(dst)@.skip(i as int));
    }
    min
}

} // verus!
