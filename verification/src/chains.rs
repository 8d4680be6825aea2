//! What stitching keeps: every fragment is a chain of the arcs that were
//! given, each arc starting where the one before it ends, and no arc is lost.

use vstd::prelude::*;
use crate::arc_index;
use crate::keys::{in_order, lemma_in_order_lists};
use crate::stitch::{
    empties_first, end_of, flushed, Fragment, fresh, handles_in_order, handles_valid, is_stitched,
    known, leftovers, lemma_contains_either, lemma_contains_push, lemma_sifted_known, nothing,
    sifted, start_of, stitched, Stitching, swapped, taken, taken_all,
};
use crate::topology::Ends;

verus! {

/// Whether `to` tells, for each place of `a`, a place of `b` that holds the
/// same reference, no place of `b` twice.
pub open spec fn places(a: Seq<i32>, b: Seq<i32>, to: Seq<int>) -> bool {
    &&& to.len() == a.len()
    &&& a.len() == b.len()
    &&& forall|i: int| 0 <= i < a.len() ==> 0 <= #[trigger] to[i] < b.len() && b[to[i]] == a[i]
    &&& forall|i: int, j: int| 0 <= i < j < a.len() ==> to[i] != to[j]
}

/// Sifting only moves references about: each place of the sifted sequence
/// holds what some place of the given one held, no two the same.
pub proof fn lemma_sifted_places(ends: Seq<Ends>, arcs: Seq<i32>, n: nat) -> (to: Seq<int>)
    requires
        known(ends, arcs),
        n <= arcs.len(),
    ensures
        places(sifted(ends, arcs, n).0, arcs, to),
    decreases n,
{
    if n == 0 {
        let to = Seq::new(arcs.len(), |i: int| i);
        assert(places(arcs, arcs, to));
        to
    } else {
        lemma_sifted_known(ends, arcs, (n - 1) as nat);
        let (before, found) = sifted(ends, arcs, (n - 1) as nat);
        let prior = lemma_sifted_places(ends, arcs, (n - 1) as nat);
        if ends[arc_index(before[n - 1]) as int].empty {
            let to = prior.update(found, prior[n - 1]).update(n - 1, prior[found]);
            let after = swapped(before, found, n - 1);
            assert forall|i: int, j: int| 0 <= i < j < after.len() implies to[i] != to[j] by {
                let pi = if i == found {
                    n - 1
                } else if i == n - 1 {
                    found
                } else {
                    i
                };
                let pj = if j == found {
                    n - 1
                } else if j == n - 1 {
                    found
                } else {
                    j
                };
                assert(to[i] == prior[pi]);
                assert(to[j] == prior[pj]);
                if pi < pj {
                    assert(prior[pi] != prior[pj]);
                } else {
                    assert(prior[pj] != prior[pi]);
                }
            }
            assert(places(after, arcs, to));
            to
        } else {
            prior
        }
    }
}

/// Sifting loses no reference: what the given sequence holds, the sifted one
/// holds too.
pub proof fn lemma_sifted_keeps(ends: Seq<Ends>, arcs: Seq<i32>, n: nat)
    requires
        known(ends, arcs),
        n <= arcs.len(),
    ensures
        forall|i: int| 0 <= i < arcs.len() ==> sifted(ends, arcs, n).0.contains(#[trigger] arcs[i]),
    decreases n,
{
    if n == 0 {
        assert forall|i: int| 0 <= i < arcs.len() implies arcs.contains(#[trigger] arcs[i]) by {}
    } else {
        lemma_sifted_known(ends, arcs, (n - 1) as nat);
        lemma_sifted_keeps(ends, arcs, (n - 1) as nat);
        let (before, found) = sifted(ends, arcs, (n - 1) as nat);
        let after = sifted(ends, arcs, n).0;
        assert forall|i: int| 0 <= i < arcs.len() implies after.contains(#[trigger] arcs[i]) by {
            assert(before.contains(arcs[i]));
            let p = choose|p: int| 0 <= p < before.len() && before[p] == arcs[i];
            if ends[arc_index(before[n - 1]) as int].empty {
                if p == found {
                    assert(after[n - 1] == arcs[i]);
                } else if p == n - 1 {
                    assert(after[found] == arcs[i]);
                } else {
                    assert(after[p] == arcs[i]);
                }
            }
        }
    }
}

/// A pass hands out only handles that it was given.
pub proof fn lemma_fresh_within(next: Seq<int>, done: Seq<int>)
    ensures
        forall|h: int| fresh(next, done).contains(h) ==> next.contains(h) && !done.contains(h),
        fresh(next, done).no_duplicates(),
        forall|i: int|
            0 <= i < next.len() ==> done.contains(next[i]) || fresh(next, done).contains(
                #[trigger] next[i],
            ),
    decreases next.len(),
{
    if next.len() > 0 {
        let front = next.drop_last();
        let top = next.last();
        lemma_fresh_within(front, done);
        let before = fresh(front, done);
        let now = fresh(next, done);
        assert forall|h: int| now.contains(h) implies next.contains(h) && !done.contains(h) by {
            lemma_contains_push(before, top, h);
            if before.contains(h) {
                assert(front.contains(h));
                let i = choose|i: int| 0 <= i < front.len() && front[i] == h;
                assert(next[i] == h);
            } else {
                assert(h == top);
                assert(next[next.len() - 1] == h);
            }
        }
        assert(now.no_duplicates()) by {
            if now != before {
                assert(now == before.push(top));
                assert(!before.contains(top));
                assert forall|i: int, j: int|
                    0 <= i < now.len() && 0 <= j < now.len() && i != j implies now[i] != now[j] by {
                    if i < before.len() && j < before.len() {
                    } else if i < before.len() {
                        assert(before[i] == now[i]);
                    } else {
                        assert(before[j] == now[j]);
                    }
                }
            }
        }
        assert forall|i: int| 0 <= i < next.len() implies done.contains(next[i]) || now.contains(
            #[trigger] next[i],
        ) by {
            lemma_contains_push(before, top, next[i]);
            if i < front.len() {
                assert(front[i] == next[i]);
            }
        }
    }
}

/// A pass over handles that differ, with nothing done before, hands out all
/// of them, in order.
pub proof fn lemma_fresh_all(next: Seq<int>)
    requires
        next.no_duplicates(),
    ensures
        fresh(next, Seq::empty()) == next,
    decreases next.len(),
{
    if next.len() > 0 {
        let front = next.drop_last();
        lemma_fresh_all(front);
        assert(!front.contains(next.last())) by {
            if front.contains(next.last()) {
                let i = choose|i: int| 0 <= i < front.len() && front[i] == next.last();
                assert(next[i] == next[next.len() - 1]);
            }
        }
        assert(next =~= front.push(next.last()));
    } else {
        assert(next =~= Seq::<int>::empty());
    }
}

/// A pass over handles that are all done hands out nothing.
pub proof fn lemma_fresh_none(next: Seq<int>, done: Seq<int>)
    requires
        forall|i: int| 0 <= i < next.len() ==> done.contains(#[trigger] next[i]),
    ensures
        fresh(next, done) == Seq::<int>::empty(),
    decreases next.len(),
{
    if next.len() > 0 {
        let front = next.drop_last();
        assert forall|i: int| 0 <= i < front.len() implies done.contains(#[trigger] front[i]) by {
            assert(front[i] == next[i]);
        }
        lemma_fresh_none(front, done);
        assert(done.contains(next[next.len() - 1]));
    }
}

/// No arc is left over when the fragments that come out hold every arc.
pub proof fn lemma_no_leftovers(s: Stitching, arcs: Seq<i32>)
    requires
        forall|i: int| 0 <= i < arcs.len() ==> is_stitched(s, arc_index(#[trigger] arcs[i])),
    ensures
        leftovers(s, arcs) == Seq::<Seq<i32>>::empty(),
    decreases arcs.len(),
{
    if arcs.len() > 0 {
        let front = arcs.drop_last();
        assert forall|i: int| 0 <= i < front.len() implies is_stitched(
            s,
            arc_index(#[trigger] front[i]),
        ) by {
            assert(front[i] == arcs[i]);
        }
        lemma_no_leftovers(s, front);
        assert(is_stitched(s, arc_index(arcs[arcs.len() - 1])));
    }
}

/// Whether each arc of `items` starts where the one before it ends.
pub open spec fn linked(ends: Seq<Ends>, items: Seq<i32>) -> bool {
    forall|i: int|
        0 <= i < items.len() - 1 ==> end_of(ends, #[trigger] items[i]) == start_of(
            ends,
            items[i + 1],
        )
}

/// Whether `f` is a chain of arcs of `arcs` that carries the keys of its own
/// two ends.
pub open spec fn sound(ends: Seq<Ends>, arcs: Seq<i32>, f: Fragment) -> bool {
    &&& f.items.len() > 0
    &&& linked(ends, f.items)
    &&& f.start == start_of(ends, f.items.first())
    &&& f.end == end_of(ends, f.items.last())
    &&& forall|i: int| 0 <= i < f.items.len() ==> arcs.contains(#[trigger] f.items[i])
}

/// Whether the fragments of `s` are chains of arcs of `arcs`, and each index
/// of `s` knows a fragment by a key that the fragment carries.
pub open spec fn consistent(ends: Seq<Ends>, arcs: Seq<i32>, s: Stitching) -> bool {
    &&& handles_valid(s)
    &&& forall|h: int| 0 <= h < s.fragments.len() ==> sound(ends, arcs, #[trigger] s.fragments[h])
    &&& forall|k: (i32, i32)| #[trigger]
        s.by_start.contains_key(k) ==> s.fragments[s.by_start[k]].start == k
    &&& forall|k: (i32, i32)| #[trigger] s.by_end.contains_key(k) ==> s.fragments[s.by_end[k]].end == k
    &&& s.by_start.dom().finite()
    &&& s.by_end.dom().finite()
}

/// A chain that ends where another starts makes a chain with it.
pub proof fn lemma_linked_join(ends: Seq<Ends>, a: Seq<i32>, b: Seq<i32>)
    requires
        linked(ends, a),
        linked(ends, b),
        a.len() > 0 && b.len() > 0 ==> end_of(ends, a.last()) == start_of(ends, b.first()),
    ensures
        linked(ends, a + b),
{
    let both = a + b;
    assert forall|i: int| 0 <= i < both.len() - 1 implies end_of(ends, #[trigger] both[i])
        == start_of(ends, both[i + 1]) by {
        if i + 1 < a.len() {
            assert(both[i] == a[i] && both[i + 1] == a[i + 1]);
        } else if i < a.len() {
            assert(both[i] == a.last() && both[i + 1] == b.first());
        } else {
            assert(both[i] == b[i - a.len()] && both[i + 1] == b[i - a.len() + 1]);
        }
    }
}

/// Fragments that are chains of some arcs are chains of more arcs.
pub proof fn lemma_consistent_more(ends: Seq<Ends>, arcs: Seq<i32>, s: Stitching, arc: i32)
    requires
        consistent(ends, arcs, s),
    ensures
        consistent(ends, arcs.push(arc), s),
{
    let more = arcs.push(arc);
    assert forall|x: i32| arcs.contains(x) implies more.contains(x) by {
        let i = choose|i: int| 0 <= i < arcs.len() && arcs[i] == x;
        assert(more[i] == x);
    }
    assert forall|h: int| 0 <= h < s.fragments.len() implies sound(
        ends,
        more,
        #[trigger] s.fragments[h],
    ) by {
        assert(sound(ends, arcs, s.fragments[h]));
    }
}

/// Taking an arc in keeps the fragments chains and the indexes true.
pub proof fn lemma_taken_consistent(ends: Seq<Ends>, arcs: Seq<i32>, s: Stitching, arc: i32)
    requires
        consistent(ends, arcs, s),
        arcs.contains(arc),
    ensures
        consistent(ends, arcs, taken(ends, s, arc)),
{
    let start = start_of(ends, arc);
    let end = end_of(ends, arc);
    let after = taken(ends, s, arc);
    let one = seq![arc];
    assert(linked(ends, one));
    if s.by_end.contains_key(start) {
        let f = s.by_end[start];
        let old_f = s.fragments[f];
        assert(sound(ends, arcs, old_f));
        let longer = Fragment { items: old_f.items.push(arc), start: old_f.start, end };
        assert(old_f.items.push(arc) =~= old_f.items + one);
        lemma_linked_join(ends, old_f.items, one);
        assert(sound(ends, arcs, longer)) by {
            assert forall|i: int| 0 <= i < longer.items.len() implies arcs.contains(
                #[trigger] longer.items[i],
            ) by {
                if i < old_f.items.len() {
                    assert(longer.items[i] == old_f.items[i]);
                }
            }
        }
        if s.by_start.contains_key(end) {
            let g = s.by_start[end];
            if g == f {
                assert(after.by_start.dom() =~= s.by_start.dom().remove(end).insert(longer.start));
                assert(after.by_end.dom() =~= s.by_end.dom().remove(start).insert(end));
                assert forall|h: int| 0 <= h < after.fragments.len() implies sound(
                    ends,
                    arcs,
                    #[trigger] after.fragments[h],
                ) by {
                    if h != f {
                        assert(after.fragments[h] == s.fragments[h]);
                    }
                }
                assert(consistent(ends, arcs, after));
            } else {
                let old_g = s.fragments[g];
                assert(sound(ends, arcs, old_g));
                let both = Fragment {
                    items: longer.items + old_g.items,
                    start: longer.start,
                    end: old_g.end,
                };
                lemma_linked_join(ends, longer.items, old_g.items);
                assert(sound(ends, arcs, both)) by {
                    assert forall|i: int| 0 <= i < both.items.len() implies arcs.contains(
                        #[trigger] both.items[i],
                    ) by {
                        if i < longer.items.len() {
                            assert(both.items[i] == longer.items[i]);
                        } else {
                            assert(both.items[i] == old_g.items[i - longer.items.len()]);
                        }
                    }
                }
                assert(after.by_start.dom() =~= s.by_start.dom().remove(end).insert(both.start));
                assert(after.by_end.dom() =~= s.by_end.dom().remove(start).insert(both.end));
                assert forall|h: int| 0 <= h < after.fragments.len() implies sound(
                    ends,
                    arcs,
                    #[trigger] after.fragments[h],
                ) by {
                    if h != f && h < s.fragments.len() {
                        assert(after.fragments[h] == s.fragments[h]);
                    }
                }
                assert(consistent(ends, arcs, after));
            }
        } else {
            assert(after.by_start.dom() =~= s.by_start.dom().insert(longer.start));
            assert(after.by_end.dom() =~= s.by_end.dom().remove(start).insert(end));
            assert forall|h: int| 0 <= h < after.fragments.len() implies sound(
                ends,
                arcs,
                #[trigger] after.fragments[h],
            ) by {
                if h != f {
                    assert(after.fragments[h] == s.fragments[h]);
                }
            }
            assert(consistent(ends, arcs, after));
        }
    } else if s.by_start.contains_key(end) {
        let f = s.by_start[end];
        let old_f = s.fragments[f];
        assert(sound(ends, arcs, old_f));
        let longer = Fragment { items: one + old_f.items, start, end: old_f.end };
        lemma_linked_join(ends, one, old_f.items);
        assert(sound(ends, arcs, longer)) by {
            assert forall|i: int| 0 <= i < longer.items.len() implies arcs.contains(
                #[trigger] longer.items[i],
            ) by {
                if i > 0 {
                    assert(longer.items[i] == old_f.items[i - 1]);
                }
            }
        }
        assert(after.by_start.dom() =~= s.by_start.dom().remove(end).insert(start));
        assert(after.by_end.dom() =~= s.by_end.dom().insert(longer.end));
        assert forall|h: int| 0 <= h < after.fragments.len() implies sound(
            ends,
            arcs,
            #[trigger] after.fragments[h],
        ) by {
            if h != f {
                assert(after.fragments[h] == s.fragments[h]);
            }
        }
        assert(consistent(ends, arcs, after));
    } else {
        let alone = Fragment { items: one, start, end };
        assert(sound(ends, arcs, alone));
        assert(after.by_start.dom() =~= s.by_start.dom().insert(start));
        assert(after.by_end.dom() =~= s.by_end.dom().insert(end));
        assert forall|h: int| 0 <= h < after.fragments.len() implies sound(
            ends,
            arcs,
            #[trigger] after.fragments[h],
        ) by {
            if h < s.fragments.len() {
                assert(after.fragments[h] == s.fragments[h]);
            }
        }
        assert(consistent(ends, arcs, after));
    }
}

/// However many arcs are taken in, the fragments stay chains and the indexes
/// true.
pub proof fn lemma_taken_all_consistent(ends: Seq<Ends>, arcs: Seq<i32>, n: int)
    requires
        0 <= n <= arcs.len(),
    ensures
        consistent(ends, arcs, taken_all(ends, arcs.take(n))),
    decreases n,
{
    if n == 0 {
        assert(arcs.take(0).len() == 0);
        assert(nothing().by_start.dom() =~= Set::<(i32, i32)>::empty());
        assert(nothing().by_end.dom() =~= Set::<(i32, i32)>::empty());
    } else {
        lemma_taken_all_consistent(ends, arcs, n - 1);
        assert(arcs.take(n).drop_last() == arcs.take(n - 1));
        assert(arcs.take(n).last() == arcs[n - 1]);
        lemma_taken_consistent(ends, arcs, taken_all(ends, arcs.take(n - 1)), arcs[n - 1]);
    }
}

/// Every arc that is left over makes a fragment of its own, and every such
/// fragment is made of one arc of those given.
pub proof fn lemma_leftovers(s: Stitching, arcs: Seq<i32>)
    ensures
        forall|i: int|
            0 <= i < arcs.len() && !is_stitched(s, arc_index(arcs[i])) ==> leftovers(
                s,
                arcs,
            ).contains(seq![#[trigger] arcs[i]]),
        forall|t: int|
            0 <= t < leftovers(s, arcs).len() ==> {
                let fragment = #[trigger] leftovers(s, arcs)[t];
                fragment.len() == 1 && arcs.contains(fragment[0])
            },
    decreases arcs.len(),
{
    if arcs.len() > 0 {
        let front = arcs.drop_last();
        let top = arcs.last();
        lemma_leftovers(s, front);
        let before = leftovers(s, front);
        let now = leftovers(s, arcs);
        assert forall|i: int|
            0 <= i < arcs.len() && !is_stitched(s, arc_index(arcs[i])) implies now.contains(
            seq![#[trigger] arcs[i]],
        ) by {
            if i < front.len() {
                assert(front[i] == arcs[i]);
                assert(before.contains(seq![front[i]]));
                let t = choose|t: int| 0 <= t < before.len() && before[t] == seq![front[i]];
                assert(now[t] == seq![arcs[i]]);
            } else {
                assert(now[before.len() as int] == seq![arcs[i]]);
            }
        }
        assert forall|t: int| 0 <= t < now.len() implies {
            let fragment = #[trigger] now[t];
            fragment.len() == 1 && arcs.contains(fragment[0])
        } by {
            if t < before.len() {
                assert(now[t] == before[t]);
                let fragment = before[t];
                assert(front.contains(fragment[0]));
                let i = choose|i: int| 0 <= i < front.len() && front[i] == fragment[0];
                assert(arcs[i] == fragment[0]);
            } else {
                assert(now[t] == seq![top]);
                assert(arcs[arcs.len() - 1] == top);
            }
        }
    }
}

/// Whether one of the indexes of `s` knows the fragment of handle `h`.
pub open spec fn live(s: Stitching, h: int) -> bool {
    ||| exists|k: (i32, i32)| #[trigger] s.by_start.contains_key(k) && s.by_start[k] == h
    ||| exists|k: (i32, i32)| #[trigger] s.by_end.contains_key(k) && s.by_end[k] == h
}

/// The fragments that come out of a stitching are those that its indexes
/// know, each once.
pub proof fn lemma_flushed(s: Stitching)
    requires
        s.by_start.dom().finite(),
        s.by_end.dom().finite(),
    ensures
        flushed(s).no_duplicates(),
        forall|k: (i32, i32)| s.by_end.contains_key(k) ==> flushed(s).contains(#[trigger] s.by_end[k]),
        forall|k: (i32, i32)|
            s.by_start.contains_key(k) ==> flushed(s).contains(#[trigger] s.by_start[k]),
        forall|t: int| 0 <= t < flushed(s).len() ==> live(s, #[trigger] flushed(s)[t]),
{
    let by_end = in_order(s.by_end.dom());
    let by_start = in_order(s.by_start.dom());
    let ends_first = handles_in_order(s.by_end);
    let starts_next = handles_in_order(s.by_start);
    lemma_in_order_lists(s.by_end.dom());
    lemma_in_order_lists(s.by_start.dom());
    let none = Seq::<int>::empty();
    let first = fresh(ends_first, none);
    let second = fresh(starts_next, first);
    lemma_fresh_within(ends_first, none);
    lemma_fresh_within(starts_next, first);
    let out = flushed(s);
    assert(out == first + second);
    assert forall|t: int, u: int| 0 <= t < out.len() && 0 <= u < out.len() && t != u implies out[t]
        != out[u] by {
        if t < first.len() && u < first.len() {
        } else if t >= first.len() && u >= first.len() {
            assert(out[t] == second[t - first.len()]);
            assert(out[u] == second[u - first.len()]);
        } else if t < first.len() {
            assert(out[u] == second[u - first.len()]);
            assert(second.contains(second[u - first.len()]));
            assert(first.contains(first[t]));
        } else {
            assert(out[t] == second[t - first.len()]);
            assert(second.contains(second[t - first.len()]));
            assert(first.contains(first[u]));
        }
    }
    assert forall|k: (i32, i32)| s.by_end.contains_key(k) implies out.contains(
        #[trigger] s.by_end[k],
    ) by {
        assert(by_end.to_set().contains(k));
        let at = choose|at: int| 0 <= at < by_end.len() && by_end[at] == k;
        assert(ends_first[at] == s.by_end[k]);
        assert(!none.contains(s.by_end[k]));
        assert(first.contains(ends_first[at]));
        lemma_contains_either(first, second, s.by_end[k]);
    }
    assert forall|k: (i32, i32)| s.by_start.contains_key(k) implies out.contains(
        #[trigger] s.by_start[k],
    ) by {
        assert(by_start.to_set().contains(k));
        let at = choose|at: int| 0 <= at < by_start.len() && by_start[at] == k;
        assert(starts_next[at] == s.by_start[k]);
        assert(first.contains(starts_next[at]) || second.contains(starts_next[at]));
        lemma_contains_either(first, second, s.by_start[k]);
    }
    assert forall|t: int| 0 <= t < out.len() implies live(s, #[trigger] out[t]) by {
        let h = out[t];
        lemma_contains_either(first, second, h);
        assert(out.contains(h));
        if first.contains(h) {
            assert(ends_first.contains(h));
            let at = choose|at: int| 0 <= at < ends_first.len() && ends_first[at] == h;
            let k = by_end[at];
            assert(by_end.to_set().contains(k));
            assert(s.by_end.contains_key(k) && s.by_end[k] == h);
        } else {
            assert(starts_next.contains(h));
            let at = choose|at: int| 0 <= at < starts_next.len() && starts_next[at] == h;
            let k = by_start[at];
            assert(by_start.to_set().contains(k));
            assert(s.by_start.contains_key(k) && s.by_start[k] == h);
        }
    }
}

/// Whatever is stitched, every fragment that comes back is a chain: it holds
/// at least one arc, all its arcs are among those given, and each of them
/// starts where the one before it ends.
pub proof fn lemma_fragments_are_chains(ends: Seq<Ends>, arcs: Seq<i32>)
    requires
        known(ends, arcs),
    ensures
        forall|t: int|
            0 <= t < stitched(ends, arcs).len() ==> {
                let fragment = #[trigger] stitched(ends, arcs)[t];
                &&& fragment.len() > 0
                &&& linked(ends, fragment)
                &&& forall|i: int| 0 <= i < fragment.len() ==> arcs.contains(#[trigger] fragment[i])
            },
{
    let order = empties_first(ends, arcs);
    let to = lemma_sifted_places(ends, arcs, arcs.len());
    lemma_taken_all_consistent(ends, order, order.len() as int);
    assert(order.take(order.len() as int) == order);
    let s = taken_all(ends, order);
    lemma_flushed(s);
    let joined = flushed(s).map_values(|h: int| s.fragments[h].items);
    let alone = leftovers(s, order);
    lemma_leftovers(s, order);
    let out = stitched(ends, arcs);
    assert(out == joined + alone);
    assert forall|t: int| 0 <= t < out.len() implies {
        let fragment = #[trigger] out[t];
        &&& fragment.len() > 0
        &&& linked(ends, fragment)
        &&& forall|i: int| 0 <= i < fragment.len() ==> arcs.contains(#[trigger] fragment[i])
    } by {
        let fragment = out[t];
        if t < joined.len() {
            let h = flushed(s)[t];
            assert(fragment == s.fragments[h].items);
            lemma_live_valid(ends, order, s, h);
            assert forall|i: int| 0 <= i < fragment.len() implies arcs.contains(
                #[trigger] fragment[i],
            ) by {
                assert(order.contains(fragment[i]));
                let j = choose|j: int| 0 <= j < order.len() && order[j] == fragment[i];
                assert(arcs[to[j]] == order[j]);
            }
        } else {
            let single = alone[t - joined.len()];
            assert(fragment == single);
            assert(linked(ends, single));
            assert(order.contains(single[0]));
            let j = choose|j: int| 0 <= j < order.len() && order[j] == single[0];
            assert(arcs[to[j]] == order[j]);
        }
    }
}

/// Whatever is stitched, no arc is lost: for each arc that is given, some
/// fragment that comes back holds an arc of the same index.
pub proof fn lemma_every_arc_is_stitched(ends: Seq<Ends>, arcs: Seq<i32>, at: int)
    requires
        known(ends, arcs),
        0 <= at < arcs.len(),
    ensures
        exists|t: int, i: int|
            0 <= t < stitched(ends, arcs).len() && 0 <= i < stitched(ends, arcs)[t].len()
                && arc_index(#[trigger] stitched(ends, arcs)[t][i]) == arc_index(arcs[at]),
{
    let order = empties_first(ends, arcs);
    lemma_sifted_keeps(ends, arcs, arcs.len());
    assert(order.contains(arcs[at]));
    let j = choose|j: int| 0 <= j < order.len() && order[j] == arcs[at];
    let s = taken_all(ends, order);
    let joined = flushed(s).map_values(|h: int| s.fragments[h].items);
    let alone = leftovers(s, order);
    let out = stitched(ends, arcs);
    assert(out == joined + alone);
    if is_stitched(s, arc_index(arcs[at])) {
        let (t, i) = choose|t: int, i: int|
            0 <= t < flushed(s).len() && 0 <= i < s.fragments[flushed(s)[t]].items.len()
                && arc_index(#[trigger] s.fragments[flushed(s)[t]].items[i]) == arc_index(arcs[at]);
        assert(out[t] == joined[t]);
        assert(arc_index(out[t][i]) == arc_index(arcs[at]));
    } else {
        lemma_leftovers(s, order);
        assert(alone.contains(seq![order[j]]));
        let u = choose|u: int| 0 <= u < alone.len() && alone[u] == seq![order[j]];
        let t = joined.len() + u;
        assert(out[t] == alone[u]);
        assert(arc_index(out[t][0]) == arc_index(arcs[at]));
    }
}

/// A fragment that an index knows is there, and is a chain that carries the
/// keys of its ends.
pub proof fn lemma_live_valid(ends: Seq<Ends>, arcs: Seq<i32>, s: Stitching, h: int)
    requires
        consistent(ends, arcs, s),
        live(s, h),
    ensures
        0 <= h < s.fragments.len(),
        sound(ends, arcs, s.fragments[h]),
{
    if exists|k: (i32, i32)| #[trigger] s.by_start.contains_key(k) && s.by_start[k] == h {
        let k = choose|k: (i32, i32)| #[trigger] s.by_start.contains_key(k) && s.by_start[k] == h;
    } else {
        let k = choose|k: (i32, i32)| #[trigger] s.by_end.contains_key(k) && s.by_end[k] == h;
    }
}

} // verus!
