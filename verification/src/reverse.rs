//! Reversal of the tail of a sequence, in place.

use vstd::prelude::*;

verus! {

/// `s` with its last `n` elements in the opposite order.
pub open spec fn tail_reversed<T>(s: Seq<T>, n: nat) -> Seq<T>
    recommends
        n <= s.len(),
{
    s.take(s.len() - n) + s.skip(s.len() - n).reverse()
}

/// Reverses the last `n` elements of `array` in place and leaves the elements
/// before them where they are.
pub fn reverse<T: Copy>(array: &mut Vec<T>, n: usize)
    requires
        n <= old(array).len(),
    ensures
        final(array)@ == tail_reversed(old(array)@, n as nat),
{
    let len: usize = array.len();
    let base: usize = len - n;
    let mut i: usize = base;
    let mut j: usize = len;
    while j - i > 1
        invariant
            len == array.len(),
            len == old(array).len(),
            base == len - n,
            base <= i <= j <= len,
            i - base == len - j,
            forall|k: int| 0 <= k < base ==> array[k] == old(array)[k],
            forall|k: int| i <= k < j ==> array[k] == old(array)[k],
            forall|k: int| base <= k < i ==> array[k] == old(array)[base + len - 1 - k],
            forall|k: int| j <= k < len ==> array[k] == old(array)[base + len - 1 - k],
        decreases j - i,
    {
        j -= 1;
        let t: T = array[i];
        let u: T = array[j];
        array.set(i, u);
        array.set(j, t);
        i += 1;
    }
    assert(array@ =~= tail_reversed(old(array)@, n as nat));
}

} // verus!
