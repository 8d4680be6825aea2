//! Binary search over arc indexes.

use vstd::prelude::*;

verus! {

/// Where the search ends when it is run on `a[lo..hi]` with threshold `x`.
///
/// The search halves the range at `(lo + hi) / 2`; it keeps the upper half
/// when the element at the midpoint is below `x` and the lower half otherwise.
pub open spec fn bisect_range(a: Seq<i32>, x: i32, lo: int, hi: int) -> int
    decreases hi - lo,
{
    if 0 <= lo < hi {
        let mid = (lo + hi) / 2;
        if a[mid] < x {
            bisect_range(a, x, mid + 1, hi)
        } else {
            bisect_range(a, x, lo, mid)
        }
    } else {
        lo
    }
}

/// Whether `a` is in non-decreasing order.
pub open spec fn ascending(a: Seq<i32>) -> bool {
    forall|i: int, j: int| 0 <= i <= j < a.len() ==> a[i] <= a[j]
}

/// Whether `at` splits `a` into the elements below `x` and the rest.
pub open spec fn is_insertion_point(a: Seq<i32>, x: i32, at: int) -> bool {
    &&& 0 <= at <= a.len()
    &&& forall|i: int| 0 <= i < at ==> a[i] < x
    &&& forall|i: int| at <= i < a.len() ==> a[i] >= x
}

/// On any part of any sequence the search ends inside the part, just after an
/// element below `x` (if it moved at all from `lo`) and just before an element
/// not below `x` (if it stopped short of `hi`).
pub proof fn lemma_bisect_range_bounds(a: Seq<i32>, x: i32, lo: int, hi: int)
    requires
        0 <= lo <= hi <= a.len(),
    ensures
        lo <= bisect_range(a, x, lo, hi) <= hi,
        bisect_range(a, x, lo, hi) > lo ==> a[bisect_range(a, x, lo, hi) - 1] < x,
        bisect_range(a, x, lo, hi) < hi ==> a[bisect_range(a, x, lo, hi)] >= x,
    decreases hi - lo,
{
    if lo < hi {
        let mid = (lo + hi) / 2;
        if a[mid] < x {
            lemma_bisect_range_bounds(a, x, mid + 1, hi);
        } else {
            lemma_bisect_range_bounds(a, x, lo, mid);
        }
    }
}

/// Any two insertion points of one sequence and threshold coincide.
pub proof fn lemma_insertion_point_unique(a: Seq<i32>, x: i32, p: int, q: int)
    requires
        is_insertion_point(a, x, p),
        is_insertion_point(a, x, q),
    ensures
        p == q,
{
    if p < q {
        assert(a[p] < x);
    } else if q < p {
        assert(a[q] < x);
    }
}

/// On a sequence in ascending order the search finds the insertion point
/// that keeps the order, and there is no other.
pub proof fn lemma_bisect_sorted(a: Seq<i32>, x: i32)
    requires
        ascending(a),
    ensures
        is_insertion_point(a, x, bisect_range(a, x, 0, a.len() as int)),
        forall|p: int| is_insertion_point(a, x, p) ==> p == bisect_range(a, x, 0, a.len() as int),
{
    let at = bisect_range(a, x, 0, a.len() as int);
    lemma_bisect_range_bounds(a, x, 0, a.len() as int);
    assert forall|i: int| 0 <= i < at implies a[i] < x by {
        assert(a[i] <= a[at - 1]);
    }
    assert forall|i: int| at <= i < a.len() implies a[i] >= x by {
        assert(a[at] <= a[i]);
    }
    assert forall|p: int| is_insertion_point(a, x, p) implies p == at by {
        lemma_insertion_point_unique(a, x, p, at);
    }
}

/// Returns the index at which a binary search for `x` in `a` ends.
///
/// When `a` is in ascending order this is the leftmost position at which `x`
/// can be inserted without breaking the order.
pub fn bisect(a: &[i32], x: i32) -> (at: usize)
    ensures
        at == bisect_range(a@, x, 0, a@.len() as int),
        at <= a@.len(),
        ascending(a@) ==> is_insertion_point(a@, x, at as int),
{
    let mut lo: usize = 0;
    let mut hi: usize = a.len();
    while lo < hi
        invariant
            0 <= lo <= hi <= a@.len(),
            bisect_range(a@, x, lo as int, hi as int) == bisect_range(a@, x, 0, a@.len() as int),
        decreases hi - lo,
    {
        let mid: usize = lo + (hi - lo) / 2;
        if a[mid] < x {
            lo = mid + 1;
        } else {
            hi = mid;
        }
    }
    proof {
        if ascending(a@) {
            lemma_bisect_sorted(a@, x);
        }
    }
    lo
}

} // verus!
