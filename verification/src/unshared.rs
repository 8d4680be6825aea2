//! Arcs that do not meet: stitching them gives back each arc alone.

use vstd::prelude::*;
use crate::arc_index;
use crate::chains::{
    lemma_fresh_all, lemma_fresh_none, lemma_no_leftovers, lemma_sifted_keeps, lemma_sifted_places,
    places,
};
use crate::keys::{in_order, lemma_in_order_lists, lemma_rising_distinct};
use crate::stitch::{
    empties_first, end_of, flushed, fresh, handles_in_order, is_stitched, known, start_of,
    stitched, Stitching, taken, taken_all,
};
use crate::topology::Ends;

verus! {

/// Whether no two arcs of `arcs` meet: no end of one has the key of an end of
/// another.
pub open spec fn unshared(ends: Seq<Ends>, arcs: Seq<i32>) -> bool {
    forall|i: int, j: int|
        0 <= i < arcs.len() && 0 <= j < arcs.len() && i != j ==> {
            &&& start_of(ends, arcs[i]) != start_of(ends, arcs[j])
            &&& start_of(ends, arcs[i]) != end_of(ends, arcs[j])
            &&& end_of(ends, arcs[i]) != end_of(ends, arcs[j])
        }
}

/// Arcs that do not meet do not meet in whatever order they stand.
pub proof fn lemma_unshared_places(ends: Seq<Ends>, a: Seq<i32>, b: Seq<i32>, to: Seq<int>)
    requires
        places(a, b, to),
        unshared(ends, b),
    ensures
        unshared(ends, a),
{
    assert forall|i: int, j: int| 0 <= i < a.len() && 0 <= j < a.len() && i != j implies {
        &&& start_of(ends, a[i]) != start_of(ends, a[j])
        &&& start_of(ends, a[i]) != end_of(ends, a[j])
        &&& end_of(ends, a[i]) != end_of(ends, a[j])
    } by {
        if i < j {
            assert(to[i] != to[j]);
        } else {
            assert(to[j] != to[i]);
        }
        assert(b[to[i]] == a[i]);
        assert(b[to[j]] == a[j]);
    }
}

/// Whether `s` is what taking the first `n` arcs of `order` gives when none
/// of them meets another: one fragment for each, known by both its keys.
pub open spec fn all_alone(ends: Seq<Ends>, order: Seq<i32>, n: int, s: Stitching) -> bool {
    &&& s.fragments.len() == n
    &&& forall|k: int| 0 <= k < n ==> (#[trigger] s.fragments[k]).items == seq![order[k]]
    &&& forall|key: (i32, i32)| #[trigger]
        s.by_start.contains_key(key) ==> 0 <= s.by_start[key] < n && start_of(
            ends,
            order[s.by_start[key]],
        ) == key
    &&& forall|key: (i32, i32)| #[trigger]
        s.by_end.contains_key(key) ==> 0 <= s.by_end[key] < n && end_of(ends, order[s.by_end[key]])
            == key
    &&& forall|k: int| 0 <= k < n ==> s.by_start.contains_key(#[trigger] start_of(ends, order[k]))
    &&& forall|k: int| 0 <= k < n ==> s.by_end.contains_key(#[trigger] end_of(ends, order[k]))
    &&& s.by_start.dom().finite()
    &&& s.by_end.dom().finite()
    &&& s.by_end.dom().len() == n
}

/// Arcs that do not meet each start a fragment of their own.
pub proof fn lemma_taken_alone(ends: Seq<Ends>, order: Seq<i32>, n: int)
    requires
        unshared(ends, order),
        0 <= n <= order.len(),
    ensures
        all_alone(ends, order, n, taken_all(ends, order.take(n))),
    decreases n,
{
    if n == 0 {
        assert(order.take(0).len() == 0);
    } else {
        lemma_taken_alone(ends, order, n - 1);
        assert(order.take(n).drop_last() == order.take(n - 1));
        assert(order.take(n).last() == order[n - 1]);
        let before = taken_all(ends, order.take(n - 1));
        let arc = order[n - 1];
        let after = taken(ends, before, arc);
        assert(taken_all(ends, order.take(n)) == after);
        if before.by_end.contains_key(start_of(ends, arc)) {
            let k = before.by_end[start_of(ends, arc)];
            assert(end_of(ends, order[k]) == start_of(ends, order[n - 1]));
        }
        if before.by_start.contains_key(end_of(ends, arc)) {
            let k = before.by_start[end_of(ends, arc)];
            assert(start_of(ends, order[k]) == end_of(ends, order[n - 1]));
        }
        assert(!before.by_end.contains_key(end_of(ends, arc))) by {
            if before.by_end.contains_key(end_of(ends, arc)) {
                let k = before.by_end[end_of(ends, arc)];
                assert(end_of(ends, order[k]) == end_of(ends, order[n - 1]));
            }
        }
        assert(after.by_end.dom() =~= before.by_end.dom().insert(end_of(ends, arc)));
        assert(after.by_start.dom() =~= before.by_start.dom().insert(start_of(ends, arc)));
        assert forall|k: int| 0 <= k < n implies after.by_start.contains_key(
            #[trigger] start_of(ends, order[k]),
        ) by {
            if k < n - 1 {
                assert(before.by_start.contains_key(start_of(ends, order[k])));
            }
        }
        assert forall|k: int| 0 <= k < n implies after.by_end.contains_key(
            #[trigger] end_of(ends, order[k]),
        ) by {
            if k < n - 1 {
                assert(before.by_end.contains_key(end_of(ends, order[k])));
            }
        }
    }
}

/// Stitching arcs of which no two meet gives one fragment for each arc, made
/// of that arc alone, whatever the order in which the arcs are given.
pub proof fn lemma_unshared_arcs_stay_alone(ends: Seq<Ends>, arcs: Seq<i32>)
    requires
        known(ends, arcs),
        unshared(ends, arcs),
    ensures
        stitched(ends, arcs).len() == arcs.len(),
        forall|i: int|
            0 <= i < arcs.len() ==> stitched(ends, arcs).contains(seq![#[trigger] arcs[i]]),
        forall|t: int|
            0 <= t < stitched(ends, arcs).len() ==> {
                let fragment = #[trigger] stitched(ends, arcs)[t];
                fragment.len() == 1 && arcs.contains(fragment[0])
            },
{
    let n = arcs.len() as int;
    let order = empties_first(ends, arcs);
    let to = lemma_sifted_places(ends, arcs, arcs.len());
    lemma_unshared_places(ends, order, arcs, to);
    lemma_sifted_keeps(ends, arcs, arcs.len());
    assert(order.take(n) == order);
    lemma_taken_alone(ends, order, n);
    let s = taken_all(ends, order);
    assert(all_alone(ends, order, n, s));

    let keys = in_order(s.by_end.dom());
    lemma_in_order_lists(s.by_end.dom());
    lemma_rising_distinct(keys);
    keys.unique_seq_to_set();
    assert(keys.len() == n);
    let by_end = handles_in_order(s.by_end);
    assert(by_end.len() == n);
    assert forall|t: int| 0 <= t < n implies s.by_end.contains_key(#[trigger] keys[t]) by {
        assert(keys.to_set().contains(keys[t]));
    }
    assert forall|t: int, u: int| 0 <= t < n && 0 <= u < n && t != u implies by_end[t]
        != by_end[u] by {
        assert(s.by_end.contains_key(keys[t]));
        assert(s.by_end.contains_key(keys[u]));
    }
    lemma_fresh_all(by_end);
    let first = fresh(by_end, Seq::empty());
    assert(first == by_end);

    // Every handle is among those that the first pass hands out.
    assert forall|h: int| 0 <= h < n implies first.contains(h) by {
        let key = end_of(ends, order[h]);
        assert(s.by_end.contains_key(key));
        assert(keys.to_set().contains(key));
        let t = choose|t: int| 0 <= t < keys.len() && keys[t] == key;
        let found = s.by_end[key];
        assert(by_end[t] == found);
        if found != h {
            assert(end_of(ends, order[found]) == end_of(ends, order[h]));
        }
    }
    let starts = in_order(s.by_start.dom());
    lemma_in_order_lists(s.by_start.dom());
    let by_start = handles_in_order(s.by_start);
    assert forall|t: int| 0 <= t < by_start.len() implies first.contains(
        #[trigger] by_start[t],
    ) by {
        assert(starts.to_set().contains(starts[t]));
        assert(s.by_start.contains_key(starts[t]));
    }
    lemma_fresh_none(by_start, first);
    assert(flushed(s) =~= by_end);

    assert forall|j: int| 0 <= j < order.len() implies is_stitched(
        s,
        arc_index(#[trigger] order[j]),
    ) by {
        assert(first.contains(j));
        let t = choose|t: int| 0 <= t < by_end.len() && by_end[t] == j;
        assert(s.fragments[flushed(s)[t]].items[0] == order[j]);
    }
    lemma_no_leftovers(s, order);
    let out = stitched(ends, arcs);
    assert(out =~= by_end.map_values(|h: int| s.fragments[h].items));

    assert forall|i: int| 0 <= i < arcs.len() implies out.contains(seq![#[trigger] arcs[i]]) by {
        assert(order.contains(arcs[i]));
        let j = choose|j: int| 0 <= j < order.len() && order[j] == arcs[i];
        assert(first.contains(j));
        let t = choose|t: int| 0 <= t < by_end.len() && by_end[t] == j;
        assert(out[t] == seq![arcs[i]]);
    }
    assert forall|t: int| 0 <= t < out.len() implies {
        let fragment = #[trigger] out[t];
        fragment.len() == 1 && arcs.contains(fragment[0])
    } by {
        let h = by_end[t];
        assert(s.by_end.contains_key(keys[t]));
        assert(out[t] == seq![order[h]]);
        assert(arcs[to[h]] == order[h]);
    }
}

} // verus!
