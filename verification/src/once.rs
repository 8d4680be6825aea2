//! No arc twice: where no arc is given twice, no arc comes back twice.

use vstd::prelude::*;
use crate::arc_index;
use crate::chains::{
    consistent, lemma_flushed, lemma_leftovers, lemma_live_valid, lemma_sifted_places,
    lemma_taken_all_consistent, live, places,
};
use crate::stitch::{
    empties_first, end_of, flushed, Fragment, held, is_stitched, known, leftovers, start_of,
    stitched, Stitching, taken, taken_all,
};
use crate::topology::Ends;

verus! {

/// Whether no two of `arcs` refer to one arc.
pub open spec fn distinct(arcs: Seq<i32>) -> bool {
    forall|i: int, j: int|
        0 <= i < arcs.len() && 0 <= j < arcs.len() && i != j ==> arc_index(#[trigger] arcs[i])
            != arc_index(#[trigger] arcs[j])
}

/// Whether no arc is twice in `items`, by its index.
pub open spec fn once(items: Seq<i32>) -> bool {
    forall|i: int, j: int|
        0 <= i < items.len() && 0 <= j < items.len() && i != j ==> arc_index(#[trigger] items[i])
            != arc_index(#[trigger] items[j])
}

/// Whether no arc of `a` is an arc of `b`, by its index.
pub open spec fn disjoint(a: Seq<i32>, b: Seq<i32>) -> bool {
    forall|i: int, j: int|
        0 <= i < a.len() && 0 <= j < b.len() ==> arc_index(#[trigger] a[i]) != arc_index(
            #[trigger] b[j],
        )
}

/// Whether the fragments of `s` are made of the arcs `taken`, and those that
/// an index knows hold each arc once and share none.
pub open spec fn separate(s: Stitching, taken: Seq<i32>) -> bool {
    &&& forall|h: int, i: int|
        0 <= h < s.fragments.len() && 0 <= i < s.fragments[h].items.len() ==> taken.contains(
            #[trigger] s.fragments[h].items[i],
        )
    &&& forall|h: int| 0 <= h < s.fragments.len() && live(s, h) ==> once(#[trigger] s.fragments[h].items)
    &&& forall|g: int, h: int|
        0 <= g < s.fragments.len() && 0 <= h < s.fragments.len() && g != h && live(s, g) && live(
            s,
            h,
        ) ==> disjoint(#[trigger] s.fragments[g].items, #[trigger] s.fragments[h].items)
}

/// Taking in an arc that was not taken before keeps the fragments separate.
pub proof fn lemma_taken_separate(
    ends: Seq<Ends>,
    arcs: Seq<i32>,
    s: Stitching,
    taken_so_far: Seq<i32>,
    arc: i32,
)
    requires
        consistent(ends, arcs, s),
        separate(s, taken_so_far),
        forall|i: int|
            0 <= i < taken_so_far.len() ==> arc_index(#[trigger] taken_so_far[i]) != arc_index(arc),
    ensures
        separate(taken(ends, s, arc), taken_so_far.push(arc)),
{
    let start = start_of(ends, arc);
    let end = end_of(ends, arc);
    let after = taken(ends, s, arc);
    let more = taken_so_far.push(arc);
    let one = seq![arc];
    assert(more[taken_so_far.len() as int] == arc);
    assert forall|x: i32| taken_so_far.contains(x) implies more.contains(x) by {
        let i = choose|i: int| 0 <= i < taken_so_far.len() && taken_so_far[i] == x;
        assert(more[i] == x);
    }
    // The arc is new to every fragment.
    assert forall|h: int, i: int|
        0 <= h < s.fragments.len() && 0 <= i < s.fragments[h].items.len() implies arc_index(
        #[trigger] s.fragments[h].items[i],
    ) != arc_index(arc) by {
        let x = s.fragments[h].items[i];
        assert(taken_so_far.contains(x));
        let k = choose|k: int| 0 <= k < taken_so_far.len() && taken_so_far[k] == x;
    }
    if s.by_end.contains_key(start) {
        let f = s.by_end[start];
        let old_f = s.fragments[f];
        assert(live(s, f));
        let longer = old_f.items.push(arc);
        assert(once(longer)) by {
            assert forall|i: int, j: int|
                0 <= i < longer.len() && 0 <= j < longer.len() && i != j implies arc_index(
                #[trigger] longer[i],
            ) != arc_index(#[trigger] longer[j]) by {
                if i < old_f.items.len() {
                    assert(longer[i] == old_f.items[i]);
                }
                if j < old_f.items.len() {
                    assert(longer[j] == old_f.items[j]);
                }
            }
        }
        if s.by_start.contains_key(end) && s.by_start[end] != f {
            let g = s.by_start[end];
            let old_g = s.fragments[g];
            assert(live(s, g));
            let fresh = s.fragments.len() as int;
            let both = longer + old_g.items;
            assert(after.fragments[fresh].items == both);
            assert(disjoint(old_f.items, old_g.items));
            assert(once(both)) by {
                assert forall|i: int, j: int|
                    0 <= i < both.len() && 0 <= j < both.len() && i != j implies arc_index(
                    #[trigger] both[i],
                ) != arc_index(#[trigger] both[j]) by {
                    if i < longer.len() && j < longer.len() {
                        assert(both[i] == longer[i] && both[j] == longer[j]);
                    } else if i >= longer.len() && j >= longer.len() {
                        assert(both[i] == old_g.items[i - longer.len()]);
                        assert(both[j] == old_g.items[j - longer.len()]);
                    } else if i < longer.len() {
                        assert(both[j] == old_g.items[j - longer.len()]);
                        assert(both[i] == longer[i]);
                        if i < old_f.items.len() {
                            assert(longer[i] == old_f.items[i]);
                        }
                    } else {
                        assert(both[i] == old_g.items[i - longer.len()]);
                        assert(both[j] == longer[j]);
                        if j < old_f.items.len() {
                            assert(longer[j] == old_f.items[j]);
                        }
                    }
                }
            }
            // The two fragments that became one are known to no index now.
            assert forall|h: int| 0 <= h < after.fragments.len() && live(after, h) implies h
                == fresh || (h != f && h != g && live(s, h)) by {
                if exists|k: (i32, i32)| #[trigger]
                    after.by_start.contains_key(k) && after.by_start[k] == h {
                    let k = choose|k: (i32, i32)| #[trigger]
                        after.by_start.contains_key(k) && after.by_start[k] == h;
                    if h != fresh {
                        assert(s.by_start.contains_key(k) && s.by_start[k] == h);
                    }
                } else {
                    let k = choose|k: (i32, i32)| #[trigger]
                        after.by_end.contains_key(k) && after.by_end[k] == h;
                    if h != fresh {
                        assert(s.by_end.contains_key(k) && s.by_end[k] == h);
                    }
                }
            }
            assert forall|h: int, i: int|
                0 <= h < after.fragments.len() && 0 <= i < after.fragments[h].items.len() implies more.contains(
                #[trigger] after.fragments[h].items[i],
            ) by {
                if h == fresh {
                    if i < longer.len() {
                        assert(both[i] == longer[i]);
                        if i < old_f.items.len() {
                            assert(longer[i] == old_f.items[i]);
                        }
                    } else {
                        assert(both[i] == old_g.items[i - longer.len()]);
                    }
                } else if h == f {
                    if i < old_f.items.len() {
                        assert(longer[i] == old_f.items[i]);
                    }
                } else {
                    assert(after.fragments[h] == s.fragments[h]);
                }
            }
            assert forall|h: int| 0 <= h < after.fragments.len() && live(after, h) implies once(
                #[trigger] after.fragments[h].items,
            ) by {
                if h != fresh {
                    assert(after.fragments[h] == s.fragments[h]);
                }
            }
            assert forall|a: int, b: int|
                0 <= a < after.fragments.len() && 0 <= b < after.fragments.len() && a != b && live(
                    after,
                    a,
                ) && live(after, b) implies disjoint(
                #[trigger] after.fragments[a].items,
                #[trigger] after.fragments[b].items,
            ) by {
                let left = after.fragments[a].items;
                let right = after.fragments[b].items;
                if a != fresh {
                    assert(after.fragments[a] == s.fragments[a]);
                }
                if b != fresh {
                    assert(after.fragments[b] == s.fragments[b]);
                }
                assert forall|i: int, j: int| 0 <= i < left.len() && 0 <= j < right.len() implies arc_index(
                    #[trigger] left[i],
                ) != arc_index(#[trigger] right[j]) by {
                    if a == fresh {
                        assert(disjoint(old_f.items, right));
                        assert(disjoint(old_g.items, right));
                        if i < old_f.items.len() {
                            assert(left[i] == old_f.items[i]);
                        } else if i == old_f.items.len() {
                            assert(left[i] == arc);
                        } else {
                            assert(left[i] == old_g.items[i - longer.len()]);
                        }
                    } else if b == fresh {
                        assert(disjoint(left, old_f.items));
                        assert(disjoint(left, old_g.items));
                        if j < old_f.items.len() {
                            assert(right[j] == old_f.items[j]);
                        } else if j == old_f.items.len() {
                            assert(right[j] == arc);
                        } else {
                            assert(right[j] == old_g.items[j - longer.len()]);
                        }
                    } else {
                        assert(disjoint(left, right));
                    }
                }
            }
        } else {
            assert(after.fragments == s.fragments.update(f, Fragment {
                items: longer,
                start: old_f.start,
                end,
            }));
            assert forall|h: int| 0 <= h < after.fragments.len() && live(after, h) implies live(s, h) by {
                if exists|k: (i32, i32)| #[trigger]
                    after.by_start.contains_key(k) && after.by_start[k] == h {
                    let k = choose|k: (i32, i32)| #[trigger]
                        after.by_start.contains_key(k) && after.by_start[k] == h;
                    if h != f {
                        assert(s.by_start.contains_key(k) && s.by_start[k] == h);
                    }
                } else {
                    let k = choose|k: (i32, i32)| #[trigger]
                        after.by_end.contains_key(k) && after.by_end[k] == h;
                    if h != f {
                        assert(s.by_end.contains_key(k) && s.by_end[k] == h);
                    }
                }
            }
            lemma_separate_grown(s, taken_so_far, f, longer, arc, after);
        }
    } else if s.by_start.contains_key(end) {
        let f = s.by_start[end];
        let old_f = s.fragments[f];
        assert(live(s, f));
        let longer = one + old_f.items;
        assert(after.fragments == s.fragments.update(f, Fragment {
            items: longer,
            start,
            end: old_f.end,
        }));
        assert forall|h: int| 0 <= h < after.fragments.len() && live(after, h) implies live(s, h) by {
            if exists|k: (i32, i32)| #[trigger]
                after.by_start.contains_key(k) && after.by_start[k] == h {
                let k = choose|k: (i32, i32)| #[trigger]
                    after.by_start.contains_key(k) && after.by_start[k] == h;
                if h != f {
                    assert(s.by_start.contains_key(k) && s.by_start[k] == h);
                }
            } else {
                let k = choose|k: (i32, i32)| #[trigger]
                    after.by_end.contains_key(k) && after.by_end[k] == h;
                if h != f {
                    assert(s.by_end.contains_key(k) && s.by_end[k] == h);
                }
            }
        }
        lemma_separate_grown(s, taken_so_far, f, longer, arc, after);
    } else {
        let fresh = s.fragments.len() as int;
        assert(after.fragments == s.fragments.push(Fragment { items: one, start, end }));
        assert forall|h: int| 0 <= h < after.fragments.len() && live(after, h) implies h == fresh
            || live(s, h) by {
            if exists|k: (i32, i32)| #[trigger]
                after.by_start.contains_key(k) && after.by_start[k] == h {
                let k = choose|k: (i32, i32)| #[trigger]
                    after.by_start.contains_key(k) && after.by_start[k] == h;
                if h != fresh {
                    assert(s.by_start.contains_key(k) && s.by_start[k] == h);
                }
            } else {
                let k = choose|k: (i32, i32)| #[trigger]
                    after.by_end.contains_key(k) && after.by_end[k] == h;
                if h != fresh {
                    assert(s.by_end.contains_key(k) && s.by_end[k] == h);
                }
            }
        }
        assert forall|h: int, i: int|
            0 <= h < after.fragments.len() && 0 <= i < after.fragments[h].items.len() implies more.contains(
            #[trigger] after.fragments[h].items[i],
        ) by {
            if h < fresh {
                assert(after.fragments[h] == s.fragments[h]);
            }
        }
        assert forall|h: int| 0 <= h < after.fragments.len() && live(after, h) implies once(
            #[trigger] after.fragments[h].items,
        ) by {
            if h < fresh {
                assert(after.fragments[h] == s.fragments[h]);
            }
        }
        assert forall|a: int, b: int|
            0 <= a < after.fragments.len() && 0 <= b < after.fragments.len() && a != b && live(
                after,
                a,
            ) && live(after, b) implies disjoint(
            #[trigger] after.fragments[a].items,
            #[trigger] after.fragments[b].items,
        ) by {
            if a < fresh {
                assert(after.fragments[a] == s.fragments[a]);
            }
            if b < fresh {
                assert(after.fragments[b] == s.fragments[b]);
            }
        }
    }
}

/// A fragment that takes an arc in, at its front or at its back, stays
/// separate from the others when the arc is new to all.
pub proof fn lemma_separate_grown(
    s: Stitching,
    taken_so_far: Seq<i32>,
    f: int,
    longer: Seq<i32>,
    arc: i32,
    after: Stitching,
)
    requires
        separate(s, taken_so_far),
        0 <= f < s.fragments.len(),
        live(s, f),
        after.fragments.len() == s.fragments.len(),
        after.fragments[f].items == longer,
        forall|h: int| 0 <= h < s.fragments.len() && h != f ==> after.fragments[h] == s.fragments[h],
        longer == s.fragments[f].items.push(arc) || longer == seq![arc] + s.fragments[f].items,
        forall|h: int, i: int|
            0 <= h < s.fragments.len() && 0 <= i < s.fragments[h].items.len() ==> arc_index(
                #[trigger] s.fragments[h].items[i],
            ) != arc_index(arc),
        forall|h: int| 0 <= h < after.fragments.len() && live(after, h) ==> live(s, h),
    ensures
        separate(after, taken_so_far.push(arc)),
{
    let more = taken_so_far.push(arc);
    let old = s.fragments[f].items;
    let back = longer == old.push(arc);
    assert(more[taken_so_far.len() as int] == arc);
    assert forall|x: i32| taken_so_far.contains(x) implies more.contains(x) by {
        let i = choose|i: int| 0 <= i < taken_so_far.len() && taken_so_far[i] == x;
        assert(more[i] == x);
    }
    // Each place of the longer fragment holds the arc or what the fragment
    // held before.
    assert forall|i: int| 0 <= i < longer.len() implies #[trigger] longer[i] == arc || exists|j: int|
        0 <= j < old.len() && old[j] == longer[i] by {
        if back {
            if i < old.len() {
                assert(old[i] == longer[i]);
            }
        } else {
            if i > 0 {
                assert(old[i - 1] == longer[i]);
            }
        }
    }
    assert forall|h: int, i: int|
        0 <= h < after.fragments.len() && 0 <= i < after.fragments[h].items.len() implies more.contains(
        #[trigger] after.fragments[h].items[i],
    ) by {
        if h == f {
            if longer[i] != arc {
                let j = choose|j: int| 0 <= j < old.len() && old[j] == longer[i];
                assert(taken_so_far.contains(s.fragments[f].items[j]));
            }
        } else {
            assert(after.fragments[h] == s.fragments[h]);
        }
    }
    assert(once(old));
    assert(once(longer)) by {
        assert forall|i: int, j: int|
            0 <= i < longer.len() && 0 <= j < longer.len() && i != j implies arc_index(
            #[trigger] longer[i],
        ) != arc_index(#[trigger] longer[j]) by {
            if back {
                if i < old.len() {
                    assert(longer[i] == s.fragments[f].items[i]);
                }
                if j < old.len() {
                    assert(longer[j] == s.fragments[f].items[j]);
                }
            } else {
                if i > 0 {
                    assert(longer[i] == s.fragments[f].items[i - 1]);
                }
                if j > 0 {
                    assert(longer[j] == s.fragments[f].items[j - 1]);
                }
            }
        }
    }
    assert forall|h: int| 0 <= h < after.fragments.len() && live(after, h) implies once(
        #[trigger] after.fragments[h].items,
    ) by {
        if h != f {
            assert(after.fragments[h] == s.fragments[h]);
        }
    }
    assert forall|a: int, b: int|
        0 <= a < after.fragments.len() && 0 <= b < after.fragments.len() && a != b && live(after, a)
            && live(after, b) implies disjoint(
        #[trigger] after.fragments[a].items,
        #[trigger] after.fragments[b].items,
    ) by {
        let left = after.fragments[a].items;
        let right = after.fragments[b].items;
        if a != f {
            assert(after.fragments[a] == s.fragments[a]);
        }
        if b != f {
            assert(after.fragments[b] == s.fragments[b]);
        }
        assert forall|i: int, j: int| 0 <= i < left.len() && 0 <= j < right.len() implies arc_index(
            #[trigger] left[i],
        ) != arc_index(#[trigger] right[j]) by {
            if a == f {
                assert(disjoint(old, right));
                if left[i] != arc {
                    let k = choose|k: int| 0 <= k < old.len() && old[k] == longer[i];
                }
            } else if b == f {
                assert(disjoint(left, old));
                if right[j] != arc {
                    let k = choose|k: int| 0 <= k < old.len() && old[k] == longer[j];
                }
            } else {
                assert(disjoint(left, right));
            }
        }
    }
}

/// However many arcs are taken in, the fragments stay separate when no arc
/// is given twice.
pub proof fn lemma_taken_all_separate(ends: Seq<Ends>, arcs: Seq<i32>, n: int)
    requires
        distinct(arcs),
        0 <= n <= arcs.len(),
    ensures
        separate(taken_all(ends, arcs.take(n)), arcs.take(n)),
    decreases n,
{
    if n == 0 {
        assert(arcs.take(0).len() == 0);
        let s = taken_all(ends, arcs.take(0));
        assert forall|h: int| !live(s, h) by {}
    } else {
        lemma_taken_all_separate(ends, arcs, n - 1);
        lemma_taken_all_consistent(ends, arcs, n - 1);
        assert(arcs.take(n).drop_last() == arcs.take(n - 1));
        assert(arcs.take(n).last() == arcs[n - 1]);
        assert(arcs.take(n - 1).push(arcs[n - 1]) =~= arcs.take(n));
        assert forall|i: int| 0 <= i < arcs.take(n - 1).len() implies arc_index(
            #[trigger] arcs.take(n - 1)[i],
        ) != arc_index(arcs[n - 1]) by {
            assert(arcs.take(n - 1)[i] == arcs[i]);
        }
        lemma_taken_separate(
            ends,
            arcs,
            taken_all(ends, arcs.take(n - 1)),
            arcs.take(n - 1),
            arcs[n - 1],
        );
    }
}

/// Arcs of which none is given twice are not given twice in whatever order
/// they stand.
pub proof fn lemma_distinct_places(a: Seq<i32>, b: Seq<i32>, to: Seq<int>)
    requires
        places(a, b, to),
        distinct(b),
    ensures
        distinct(a),
{
    assert forall|i: int, j: int| 0 <= i < a.len() && 0 <= j < a.len() && i != j implies arc_index(
        #[trigger] a[i],
    ) != arc_index(#[trigger] a[j]) by {
        if i < j {
            assert(to[i] != to[j]);
        } else {
            assert(to[j] != to[i]);
        }
        assert(b[to[i]] == a[i]);
        assert(b[to[j]] == a[j]);
    }
}

/// Of arcs of which none is given twice, none is left over twice.
pub proof fn lemma_leftovers_once(s: Stitching, arcs: Seq<i32>)
    requires
        distinct(arcs),
    ensures
        forall|t: int, u: int|
            0 <= t < leftovers(s, arcs).len() && 0 <= u < leftovers(s, arcs).len() && t != u
                ==> arc_index(#[trigger] leftovers(s, arcs)[t][0]) != arc_index(
                #[trigger] leftovers(s, arcs)[u][0],
            ),
        forall|t: int|
            0 <= t < leftovers(s, arcs).len() ==> !is_stitched(
                s,
                arc_index(#[trigger] leftovers(s, arcs)[t][0]),
            ),
    decreases arcs.len(),
{
    if arcs.len() > 0 {
        let front = arcs.drop_last();
        let top = arcs.last();
        assert(distinct(front)) by {
            assert forall|i: int, j: int|
                0 <= i < front.len() && 0 <= j < front.len() && i != j implies arc_index(
                #[trigger] front[i],
            ) != arc_index(#[trigger] front[j]) by {
                assert(front[i] == arcs[i] && front[j] == arcs[j]);
            }
        }
        lemma_leftovers_once(s, front);
        lemma_leftovers(s, front);
        let before = leftovers(s, front);
        let now = leftovers(s, arcs);
        assert forall|t: int, u: int| 0 <= t < now.len() && 0 <= u < now.len() && t != u implies arc_index(
            #[trigger] now[t][0],
        ) != arc_index(#[trigger] now[u][0]) by {
            if t < before.len() && u < before.len() {
                assert(now[t] == before[t] && now[u] == before[u]);
            } else if t < before.len() {
                assert(now[t] == before[t]);
                assert(front.contains(before[t][0]));
                let i = choose|i: int| 0 <= i < front.len() && front[i] == before[t][0];
                assert(arcs[i] == front[i]);
                assert(arcs[arcs.len() - 1] == top);
            } else {
                assert(now[u] == before[u]);
                assert(front.contains(before[u][0]));
                let i = choose|i: int| 0 <= i < front.len() && front[i] == before[u][0];
                assert(arcs[i] == front[i]);
                assert(arcs[arcs.len() - 1] == top);
            }
        }
        assert forall|t: int| 0 <= t < now.len() implies !is_stitched(
            s,
            arc_index(#[trigger] now[t][0]),
        ) by {
            if t < before.len() {
                assert(now[t] == before[t]);
            }
        }
    }
}

/// Whatever is stitched, no arc comes back twice when none is given twice:
/// no two places of the fragments hold one arc.
pub proof fn lemma_every_arc_once(ends: Seq<Ends>, arcs: Seq<i32>)
    requires
        known(ends, arcs),
        distinct(arcs),
    ensures
        forall|t: int, i: int, u: int, j: int|
            0 <= t < stitched(ends, arcs).len() && 0 <= i < stitched(ends, arcs)[t].len() && 0 <= u
                < stitched(ends, arcs).len() && 0 <= j < stitched(ends, arcs)[u].len() && (t != u
                || i != j) ==> arc_index(#[trigger] stitched(ends, arcs)[t][i]) != arc_index(
                #[trigger] stitched(ends, arcs)[u][j],
            ),
{
    let order = empties_first(ends, arcs);
    let to = lemma_sifted_places(ends, arcs, arcs.len());
    lemma_distinct_places(order, arcs, to);
    let n = order.len() as int;
    assert(order.take(n) == order);
    lemma_taken_all_consistent(ends, order, n);
    lemma_taken_all_separate(ends, order, n);
    let s = taken_all(ends, order);
    lemma_flushed(s);
    let out_handles = flushed(s);
    assert forall|t: int| 0 <= t < out_handles.len() implies 0 <= #[trigger] out_handles[t]
        < s.fragments.len() by {
        lemma_live_valid(ends, order, s, out_handles[t]);
    }
    let joined = out_handles.map_values(|h: int| s.fragments[h].items);
    let alone = leftovers(s, order);
    lemma_leftovers(s, order);
    lemma_leftovers_once(s, order);
    let out = stitched(ends, arcs);
    assert(out == joined + alone);
    assert forall|t: int, i: int, u: int, j: int|
        0 <= t < out.len() && 0 <= i < out[t].len() && 0 <= u < out.len() && 0 <= j < out[u].len()
            && (t != u || i != j) implies arc_index(#[trigger] out[t][i]) != arc_index(
        #[trigger] out[u][j],
    ) by {
        if t < joined.len() && u < joined.len() {
            let g = out_handles[t];
            let h = out_handles[u];
            assert(out[t] == s.fragments[g].items);
            assert(out[u] == s.fragments[h].items);
            if t == u {
                assert(once(s.fragments[g].items));
            } else {
                assert(disjoint(s.fragments[g].items, s.fragments[h].items));
            }
        } else if t >= joined.len() && u >= joined.len() {
            assert(out[t] == alone[t - joined.len()]);
            assert(out[u] == alone[u - joined.len()]);
        } else if t < joined.len() {
            assert(out[u] == alone[u - joined.len()]);
            assert(out[t] == s.fragments[out_handles[t]].items);
            assert(held(s, out_handles, arc_index(out[t][i])));
        } else {
            assert(out[t] == alone[t - joined.len()]);
            assert(out[u] == s.fragments[out_handles[u]].items);
            assert(held(s, out_handles, arc_index(out[u][j])));
        }
    }
}

} // verus!
