//! Fragments that cannot be joined any further: where no two arcs start at
//! one key nor end at one key, stitching leaves no two fragments of which one
//! ends where the other starts.

use vstd::prelude::*;
use crate::chains::{
    consistent, lemma_consistent_more, lemma_flushed, lemma_live_valid, lemma_no_leftovers,
    lemma_sifted_places, lemma_taken_all_consistent, lemma_taken_consistent, live, places, sound,
};
use crate::stitch::{
    empties_first, end_of, flushed, Fragment, handles_valid, is_stitched, known, start_of,
    stitched, Stitching, taken, taken_all,
};
use crate::topology::Ends;

verus! {

/// Whether no key is the start of two of `arcs`, nor the end of two.
pub open spec fn simple(ends: Seq<Ends>, arcs: Seq<i32>) -> bool {
    forall|i: int, j: int|
        0 <= i < arcs.len() && 0 <= j < arcs.len() && i != j ==> {
            &&& start_of(ends, #[trigger] arcs[i]) != start_of(ends, #[trigger] arcs[j])
            &&& end_of(ends, arcs[i]) != end_of(ends, arcs[j])
        }
}

/// Whether a fragment that the index of ends knows holds `arc`.
#[verifier::opaque]
pub open spec fn housed(s: Stitching, arc: i32) -> bool {
    exists|k: (i32, i32), i: int|
        s.by_end.contains_key(k) && 0 <= i < s.fragments[s.by_end[k]].items.len()
            && #[trigger] s.fragments[s.by_end[k]].items[i] == arc
}

/// Whether each index of `s` knows the fragments that the other knows, and
/// no fragment ends at a key at which another starts.
#[verifier::opaque]
pub open spec fn tidy(s: Stitching) -> bool {
    &&& forall|k: (i32, i32)| #[trigger]
        s.by_start.contains_key(k) ==> {
            let f = s.fragments[s.by_start[k]];
            s.by_end.contains_key(f.end) && s.by_end[f.end] == s.by_start[k]
        }
    &&& forall|k: (i32, i32)| #[trigger]
        s.by_end.contains_key(k) ==> {
            let f = s.fragments[s.by_end[k]];
            s.by_start.contains_key(f.start) && s.by_start[f.start] == s.by_end[k]
        }
    &&& forall|k: (i32, i32)|
        #[trigger] s.by_end.contains_key(k) && s.by_start.contains_key(k) ==> s.by_start[k]
            == s.by_end[k]
}

/// Whether each index of `s` knows its fragments by a key that they carry.
#[verifier::opaque]
pub open spec fn keyed(s: Stitching) -> bool {
    &&& handles_valid(s)
    &&& forall|k: (i32, i32)| #[trigger]
        s.by_start.contains_key(k) ==> s.fragments[s.by_start[k]].start == k
    &&& forall|k: (i32, i32)| #[trigger] s.by_end.contains_key(k) ==> s.fragments[s.by_end[k]].end == k
}

/// The case in which the arc starts a fragment of its own.
pub proof fn lemma_fresh_tidy(s: Stitching, after: Stitching, arc: i32, start: (i32, i32), end: (
    i32,
    i32,
))
    requires
        keyed(s),
        tidy(s),
        !s.by_start.contains_key(start),
        !s.by_end.contains_key(end),
        !s.by_end.contains_key(start),
        !s.by_start.contains_key(end),
        after.fragments == s.fragments.push(Fragment { items: seq![arc], start, end }),
        after.by_start == s.by_start.insert(start, s.fragments.len() as int),
        after.by_end == s.by_end.insert(end, s.fragments.len() as int),
    ensures
        tidy(after),
        housed(after, arc),
        forall|x: i32| housed(s, x) ==> housed(after, x),
{
    reveal(tidy);
    reveal(keyed);
    reveal(housed);
    let fresh = s.fragments.len() as int;
    assert forall|k: (i32, i32)| #[trigger] after.by_start.contains_key(k) implies {
        let f = after.fragments[after.by_start[k]];
        after.by_end.contains_key(f.end) && after.by_end[f.end] == after.by_start[k]
    } by {
        if k != start {
            assert(s.by_start.contains_key(k));
            let h = s.by_start[k];
            assert(after.fragments[h] == s.fragments[h]);
            assert(s.by_end.contains_key(s.fragments[h].end));
        }
    }
    assert forall|k: (i32, i32)| #[trigger] after.by_end.contains_key(k) implies {
        let f = after.fragments[after.by_end[k]];
        after.by_start.contains_key(f.start) && after.by_start[f.start] == after.by_end[k]
    } by {
        if k != end {
            assert(s.by_end.contains_key(k));
            let h = s.by_end[k];
            assert(after.fragments[h] == s.fragments[h]);
            assert(s.by_start.contains_key(s.fragments[h].start));
        }
    }
    assert forall|k: (i32, i32)|
        #[trigger] after.by_end.contains_key(k) && after.by_start.contains_key(
            k,
        ) implies after.by_start[k] == after.by_end[k] by {
        if k == end {
            assert(k == start || s.by_start.contains_key(k));
        } else if k == start {
            assert(s.by_end.contains_key(k));
        } else {
            assert(s.by_end.contains_key(k) && s.by_start.contains_key(k));
        }
    }
    assert(after.by_end.contains_key(end));
    assert(after.fragments[after.by_end[end]].items[0] == arc);
    assert forall|x: i32| housed(s, x) implies housed(after, x) by {
        let (k, i) = choose|k: (i32, i32), i: int|
            s.by_end.contains_key(k) && 0 <= i < s.fragments[s.by_end[k]].items.len()
                && #[trigger] s.fragments[s.by_end[k]].items[i] == x;
        assert(after.by_end.contains_key(k));
        assert(after.fragments[after.by_end[k]] == s.fragments[s.by_end[k]]);
        assert(after.fragments[after.by_end[k]].items[i] == x);
    }
}

/// The case in which a fragment takes the arc in at its end, as a chain or
/// into a ring.
pub proof fn lemma_back_tidy(s: Stitching, after: Stitching, arc: i32, start: (i32, i32), end: (
    i32,
    i32,
))
    requires
        keyed(s),
        tidy(s),
        !s.by_end.contains_key(end),
        s.by_end.contains_key(start),
        s.by_start.contains_key(end) ==> s.by_start[end] == s.by_end[start],
        after.fragments == s.fragments.update(
            s.by_end[start],
            Fragment {
                items: s.fragments[s.by_end[start]].items.push(arc),
                start: s.fragments[s.by_end[start]].start,
                end,
            },
        ),
        after.by_start == s.by_start,
        after.by_end == s.by_end.remove(start).insert(end, s.by_end[start]),
    ensures
        tidy(after),
        housed(after, arc),
        forall|x: i32| housed(s, x) ==> housed(after, x),
{
    reveal(tidy);
    reveal(keyed);
    reveal(housed);
    let f = s.by_end[start];
    let old_f = s.fragments[f];
    assert(s.by_start.contains_key(old_f.start) && s.by_start[old_f.start] == f);
    assert forall|k: (i32, i32)| #[trigger] after.by_start.contains_key(k) implies {
        let x = after.fragments[after.by_start[k]];
        after.by_end.contains_key(x.end) && after.by_end[x.end] == after.by_start[k]
    } by {
        let h = s.by_start[k];
        if h != f {
            assert(after.fragments[h] == s.fragments[h]);
            assert(s.by_end.contains_key(s.fragments[h].end));
        }
    }
    assert forall|k: (i32, i32)| #[trigger] after.by_end.contains_key(k) implies {
        let x = after.fragments[after.by_end[k]];
        after.by_start.contains_key(x.start) && after.by_start[x.start] == after.by_end[k]
    } by {
        if k != end {
            assert(s.by_end.contains_key(k));
            let h = s.by_end[k];
            assert(h != f);
            assert(after.fragments[h] == s.fragments[h]);
            assert(s.by_start.contains_key(s.fragments[h].start));
        }
    }
    assert forall|k: (i32, i32)|
        #[trigger] after.by_end.contains_key(k) && after.by_start.contains_key(
            k,
        ) implies after.by_start[k] == after.by_end[k] by {
        if k != end {
            assert(s.by_end.contains_key(k) && s.by_start.contains_key(k));
        }
    }
    assert(after.by_end.contains_key(end));
    assert(after.fragments[after.by_end[end]].items[old_f.items.len() as int] == arc);
    assert forall|x: i32| housed(s, x) implies housed(after, x) by {
        let (k, i) = choose|k: (i32, i32), i: int|
            s.by_end.contains_key(k) && 0 <= i < s.fragments[s.by_end[k]].items.len()
                && #[trigger] s.fragments[s.by_end[k]].items[i] == x;
        if k == start {
            assert(after.fragments[after.by_end[end]].items[i] == x);
        } else {
            assert(after.by_end.contains_key(k));
            assert(s.by_end[k] != f);
            assert(after.fragments[after.by_end[k]].items[i] == x);
        }
    }
}

/// The case in which a fragment takes the arc in at its start.
pub proof fn lemma_front_tidy(s: Stitching, after: Stitching, arc: i32, start: (i32, i32), end: (
    i32,
    i32,
))
    requires
        keyed(s),
        tidy(s),
        !s.by_start.contains_key(start),
        !s.by_end.contains_key(start),
        s.by_start.contains_key(end),
        after.fragments == s.fragments.update(
            s.by_start[end],
            Fragment {
                items: seq![arc] + s.fragments[s.by_start[end]].items,
                start,
                end: s.fragments[s.by_start[end]].end,
            },
        ),
        after.by_start == s.by_start.remove(end).insert(start, s.by_start[end]),
        after.by_end == s.by_end,
    ensures
        tidy(after),
        housed(after, arc),
        forall|x: i32| housed(s, x) ==> housed(after, x),
{
    reveal(tidy);
    reveal(keyed);
    reveal(housed);
    let f = s.by_start[end];
    let old_f = s.fragments[f];
    assert(s.by_end.contains_key(old_f.end) && s.by_end[old_f.end] == f);
    assert forall|k: (i32, i32)| #[trigger] after.by_start.contains_key(k) implies {
        let x = after.fragments[after.by_start[k]];
        after.by_end.contains_key(x.end) && after.by_end[x.end] == after.by_start[k]
    } by {
        if k != start {
            assert(s.by_start.contains_key(k));
            let h = s.by_start[k];
            assert(h != f);
            assert(after.fragments[h] == s.fragments[h]);
            assert(s.by_end.contains_key(s.fragments[h].end));
        }
    }
    assert forall|k: (i32, i32)| #[trigger] after.by_end.contains_key(k) implies {
        let x = after.fragments[after.by_end[k]];
        after.by_start.contains_key(x.start) && after.by_start[x.start] == after.by_end[k]
    } by {
        let h = s.by_end[k];
        if h != f {
            assert(after.fragments[h] == s.fragments[h]);
            assert(s.by_start.contains_key(s.fragments[h].start));
        }
    }
    assert forall|k: (i32, i32)|
        #[trigger] after.by_end.contains_key(k) && after.by_start.contains_key(
            k,
        ) implies after.by_start[k] == after.by_end[k] by {
        if k != start {
            assert(s.by_end.contains_key(k) && s.by_start.contains_key(k));
        }
    }
    assert(after.by_end.contains_key(old_f.end));
    assert(after.fragments[after.by_end[old_f.end]].items[0] == arc);
    assert forall|x: i32| housed(s, x) implies housed(after, x) by {
        let (k, i) = choose|k: (i32, i32), i: int|
            s.by_end.contains_key(k) && 0 <= i < s.fragments[s.by_end[k]].items.len()
                && #[trigger] s.fragments[s.by_end[k]].items[i] == x;
        assert(after.by_end.contains_key(k));
        if s.by_end[k] == f {
            assert(after.fragments[after.by_end[k]].items[i + 1] == x);
        } else {
            assert(after.fragments[after.by_end[k]].items[i] == x);
        }
    }
}

/// The case in which the arc bridges two fragments, which become one.
pub proof fn lemma_bridge_tidy(s: Stitching, after: Stitching, arc: i32, start: (i32, i32), end: (
    i32,
    i32,
))
    requires
        keyed(s),
        tidy(s),
        s.by_end.contains_key(start),
        s.by_start.contains_key(end),
        s.by_start[end] != s.by_end[start],
        after.fragments == s.fragments.update(
            s.by_end[start],
            Fragment {
                items: s.fragments[s.by_end[start]].items.push(arc),
                start: s.fragments[s.by_end[start]].start,
                end,
            },
        ).push(
            Fragment {
                items: s.fragments[s.by_end[start]].items.push(arc) + s.fragments[s.by_start[end]].items,
                start: s.fragments[s.by_end[start]].start,
                end: s.fragments[s.by_start[end]].end,
            },
        ),
        after.by_start == s.by_start.remove(end).insert(
            s.fragments[s.by_end[start]].start,
            s.fragments.len() as int,
        ),
        after.by_end == s.by_end.remove(start).insert(
            s.fragments[s.by_start[end]].end,
            s.fragments.len() as int,
        ),
    ensures
        tidy(after),
        housed(after, arc),
        forall|x: i32| housed(s, x) ==> housed(after, x),
{
    reveal(tidy);
    reveal(keyed);
    reveal(housed);
    let f = s.by_end[start];
    let g = s.by_start[end];
    let old_f = s.fragments[f];
    let old_g = s.fragments[g];
    let fresh = s.fragments.len() as int;
    let both = after.fragments[fresh];
    assert(s.by_start.contains_key(old_f.start) && s.by_start[old_f.start] == f);
    assert(s.by_end.contains_key(old_g.end) && s.by_end[old_g.end] == g);
    assert(old_f.start != end);
    assert(old_g.end != start);
    assert forall|k: (i32, i32)| #[trigger] after.by_start.contains_key(k) implies {
        let x = after.fragments[after.by_start[k]];
        after.by_end.contains_key(x.end) && after.by_end[x.end] == after.by_start[k]
    } by {
        if k != old_f.start {
            assert(s.by_start.contains_key(k));
            let h = s.by_start[k];
            assert(h != f && h != g);
            assert(after.fragments[h] == s.fragments[h]);
            assert(s.by_end.contains_key(s.fragments[h].end));
        }
    }
    assert forall|k: (i32, i32)| #[trigger] after.by_end.contains_key(k) implies {
        let x = after.fragments[after.by_end[k]];
        after.by_start.contains_key(x.start) && after.by_start[x.start] == after.by_end[k]
    } by {
        if k != old_g.end {
            assert(s.by_end.contains_key(k));
            let h = s.by_end[k];
            assert(h != f && h != g);
            assert(after.fragments[h] == s.fragments[h]);
            assert(s.by_start.contains_key(s.fragments[h].start));
        }
    }
    assert forall|k: (i32, i32)|
        #[trigger] after.by_end.contains_key(k) && after.by_start.contains_key(
            k,
        ) implies after.by_start[k] == after.by_end[k] by {
        if k == old_g.end {
            if k != old_f.start {
                assert(s.by_start.contains_key(k) && s.by_end.contains_key(k));
            }
        } else if k == old_f.start {
            assert(s.by_start.contains_key(k) && s.by_end.contains_key(k));
        } else {
            assert(s.by_end.contains_key(k) && s.by_start.contains_key(k));
        }
    }
    assert(after.by_end.contains_key(old_g.end));
    assert(both.items[old_f.items.len() as int] == arc);
    assert(after.fragments[after.by_end[old_g.end]].items[old_f.items.len() as int] == arc);
    assert forall|x: i32| housed(s, x) implies housed(after, x) by {
        let (k, i) = choose|k: (i32, i32), i: int|
            s.by_end.contains_key(k) && 0 <= i < s.fragments[s.by_end[k]].items.len()
                && #[trigger] s.fragments[s.by_end[k]].items[i] == x;
        let h = s.by_end[k];
        if h == f {
            assert(both.items[i] == x);
            assert(after.fragments[after.by_end[old_g.end]].items[i] == x);
        } else if h == g {
            assert(both.items[old_f.items.len() + 1 + i] == x);
            assert(after.fragments[after.by_end[old_g.end]].items[old_f.items.len() + 1 + i] == x);
        } else {
            assert(k != start && k != old_g.end);
            assert(after.by_end.contains_key(k));
            assert(after.fragments[after.by_end[k]].items[i] == x);
        }
    }
}

/// Where no fragment starts where the arc starts nor ends where it ends,
/// taking the arc in keeps the fragments tidy, and keeps every arc in a
/// fragment that the index of ends knows.
pub proof fn lemma_taken_tidy(ends: Seq<Ends>, s: Stitching, arc: i32)
    requires
        keyed(s),
        tidy(s),
        !s.by_start.contains_key(start_of(ends, arc)),
        !s.by_end.contains_key(end_of(ends, arc)),
    ensures
        tidy(taken(ends, s, arc)),
        housed(taken(ends, s, arc), arc),
        forall|x: i32| housed(s, x) ==> housed(taken(ends, s, arc), x),
{
    let start = start_of(ends, arc);
    let end = end_of(ends, arc);
    let after = taken(ends, s, arc);
    if s.by_end.contains_key(start) {
        let f = s.by_end[start];
        assert(s.by_start.contains_key(s.fragments[f].start) && s.by_start[s.fragments[f].start]
            == f) by {
            reveal(tidy);
        }
        if s.by_start.contains_key(end) && s.by_start[end] != f {
            lemma_bridge_tidy(s, after, arc, start, end);
        } else {
            if s.by_start.contains_key(end) {
                assert(s.fragments[f].start == end) by {
                    reveal(keyed);
                }
                assert(s.by_start.remove(end).insert(end, f) =~= s.by_start);
            } else {
                assert(s.by_start.insert(s.fragments[f].start, f) =~= s.by_start);
            }
            lemma_back_tidy(s, after, arc, start, end);
        }
    } else if s.by_start.contains_key(end) {
        let f = s.by_start[end];
        assert(s.by_end.contains_key(s.fragments[f].end) && s.by_end[s.fragments[f].end] == f) by {
            reveal(tidy);
        }
        assert(s.by_end.insert(s.fragments[f].end, f) =~= s.by_end);
        lemma_front_tidy(s, after, arc, start, end);
    } else {
        lemma_fresh_tidy(s, after, arc, start, end);
    }
}

/// Fragments that are chains and known by their keys are keyed.
pub proof fn lemma_consistent_keyed(ends: Seq<Ends>, arcs: Seq<i32>, s: Stitching)
    requires
        consistent(ends, arcs, s),
    ensures
        keyed(s),
        s.by_start.dom().finite(),
        s.by_end.dom().finite(),
{
    reveal(keyed);
}

/// Where an arc starts and ends as none of the arcs taken so far, no
/// fragment starts where it starts nor ends where it ends.
pub proof fn lemma_new_keys(ends: Seq<Ends>, done: Seq<i32>, s: Stitching, arc: i32)
    requires
        consistent(ends, done, s),
        forall|j: int|
            0 <= j < done.len() ==> start_of(ends, #[trigger] done[j]) != start_of(ends, arc)
                && end_of(ends, done[j]) != end_of(ends, arc),
    ensures
        !s.by_start.contains_key(start_of(ends, arc)),
        !s.by_end.contains_key(end_of(ends, arc)),
{
    if s.by_start.contains_key(start_of(ends, arc)) {
        let f = s.fragments[s.by_start[start_of(ends, arc)]];
        assert(sound(ends, done, f));
        assert(done.contains(f.items[0]));
        let j = choose|j: int| 0 <= j < done.len() && done[j] == f.items[0];
    }
    if s.by_end.contains_key(end_of(ends, arc)) {
        let f = s.fragments[s.by_end[end_of(ends, arc)]];
        assert(sound(ends, done, f));
        assert(done.contains(f.items[f.items.len() - 1]));
        let j = choose|j: int| 0 <= j < done.len() && done[j] == f.items[f.items.len() - 1];
    }
}

/// Nothing stitched yet is tidy.
pub proof fn lemma_nothing_tidy()
    ensures
        tidy(crate::stitch::nothing()),
{
    reveal(tidy);
}

/// Where no two arcs start at one key nor end at one key, the fragments stay
/// tidy however many arcs are taken in, and every arc taken in is in a
/// fragment that the index of ends knows.
pub proof fn lemma_taken_all_tidy(ends: Seq<Ends>, arcs: Seq<i32>, n: int)
    requires
        simple(ends, arcs),
        0 <= n <= arcs.len(),
    ensures
        consistent(ends, arcs.take(n), taken_all(ends, arcs.take(n))),
        tidy(taken_all(ends, arcs.take(n))),
        forall|j: int| 0 <= j < n ==> housed(taken_all(ends, arcs.take(n)), #[trigger] arcs[j]),
    decreases n,
{
    if n == 0 {
        assert(arcs.take(0).len() == 0);
        assert(taken_all(ends, arcs.take(0)) == crate::stitch::nothing());
        lemma_nothing_tidy();
        lemma_taken_all_consistent(ends, arcs.take(0), 0);
        assert(arcs.take(0).take(0) == arcs.take(0));
    } else {
        lemma_taken_all_tidy(ends, arcs, n - 1);
        let done = arcs.take(n - 1);
        let arc = arcs[n - 1];
        let s = taken_all(ends, done);
        let after = taken(ends, s, arc);
        assert(arcs.take(n).drop_last() == done);
        assert(arcs.take(n).last() == arc);
        assert(taken_all(ends, arcs.take(n)) == after);
        assert(done.push(arc) =~= arcs.take(n));
        assert forall|j: int| 0 <= j < done.len() implies start_of(ends, #[trigger] done[j])
            != start_of(ends, arc) && end_of(ends, done[j]) != end_of(ends, arc) by {
            assert(done[j] == arcs[j]);
        }
        lemma_new_keys(ends, done, s, arc);
        lemma_consistent_keyed(ends, done, s);
        lemma_taken_tidy(ends, s, arc);
        lemma_consistent_more(ends, done, s, arc);
        assert(arcs.take(n)[n - 1] == arc);
        lemma_taken_consistent(ends, arcs.take(n), s, arc);
        assert forall|j: int| 0 <= j < n implies housed(after, #[trigger] arcs[j]) by {
            if j < n - 1 {
                assert(housed(s, arcs[j]));
            }
        }
    }
}

/// Arcs of which no two start at one key nor end at one key keep that in
/// whatever order they stand.
pub proof fn lemma_simple_places(ends: Seq<Ends>, a: Seq<i32>, b: Seq<i32>, to: Seq<int>)
    requires
        places(a, b, to),
        simple(ends, b),
    ensures
        simple(ends, a),
{
    assert forall|i: int, j: int| 0 <= i < a.len() && 0 <= j < a.len() && i != j implies {
        &&& start_of(ends, #[trigger] a[i]) != start_of(ends, #[trigger] a[j])
        &&& end_of(ends, a[i]) != end_of(ends, a[j])
    } by {
        if i < j {
            assert(to[i] != to[j]);
        } else {
            assert(to[j] != to[i]);
        }
        assert(b[to[i]] == a[i]);
        assert(b[to[j]] == a[j]);
    }
}

/// Among tidy fragments that the indexes know, none ends where another
/// starts, and each is known to both indexes.
pub proof fn lemma_tidy_apart(s: Stitching, g: int, h: int)
    requires
        keyed(s),
        tidy(s),
        live(s, g),
        live(s, h),
        g != h,
    ensures
        s.fragments[g].end != s.fragments[h].start,
        0 <= g < s.fragments.len(),
        0 <= h < s.fragments.len(),
{
    reveal(tidy);
    reveal(keyed);
    let a = s.fragments[g];
    let b = s.fragments[h];
    assert(s.by_end.contains_key(a.end) && s.by_end[a.end] == g) by {
        if exists|k: (i32, i32)| #[trigger] s.by_start.contains_key(k) && s.by_start[k] == g {
            let k = choose|k: (i32, i32)| #[trigger] s.by_start.contains_key(k) && s.by_start[k] == g;
        } else {
            let k = choose|k: (i32, i32)| #[trigger] s.by_end.contains_key(k) && s.by_end[k] == g;
        }
    }
    assert(s.by_start.contains_key(b.start) && s.by_start[b.start] == h) by {
        if exists|k: (i32, i32)| #[trigger] s.by_start.contains_key(k) && s.by_start[k] == h {
            let k = choose|k: (i32, i32)| #[trigger] s.by_start.contains_key(k) && s.by_start[k] == h;
        } else {
            let k = choose|k: (i32, i32)| #[trigger] s.by_end.contains_key(k) && s.by_end[k] == h;
        }
    }
}

/// An arc in a fragment that the index of ends knows is stitched.
pub proof fn lemma_housed_stitched(s: Stitching, arc: i32)
    requires
        housed(s, arc),
        s.by_start.dom().finite(),
        s.by_end.dom().finite(),
    ensures
        is_stitched(s, crate::arc_index(arc)),
{
    reveal(housed);
    lemma_flushed(s);
    let out = flushed(s);
    let (k, i) = choose|k: (i32, i32), i: int|
        s.by_end.contains_key(k) && 0 <= i < s.fragments[s.by_end[k]].items.len()
            && #[trigger] s.fragments[s.by_end[k]].items[i] == arc;
    assert(out.contains(s.by_end[k]));
    let at = choose|at: int| 0 <= at < out.len() && out[at] == s.by_end[k];
    assert(crate::arc_index(s.fragments[out[at]].items[i]) == crate::arc_index(arc));
}

/// Stitching arcs of which no two start at one key nor end at one key leaves
/// nothing to join: every fragment holds an arc, and no fragment ends where
/// another starts.
pub proof fn lemma_fragments_are_maximal(ends: Seq<Ends>, arcs: Seq<i32>)
    requires
        known(ends, arcs),
        simple(ends, arcs),
    ensures
        forall|t: int|
            0 <= t < stitched(ends, arcs).len() ==> (#[trigger] stitched(ends, arcs)[t]).len() > 0,
        forall|t: int, u: int|
            0 <= t < stitched(ends, arcs).len() && 0 <= u < stitched(ends, arcs).len() && t != u
                ==> end_of(ends, (#[trigger] stitched(ends, arcs)[t]).last()) != start_of(
                ends,
                (#[trigger] stitched(ends, arcs)[u]).first(),
            ),
{
    let order = empties_first(ends, arcs);
    let to = lemma_sifted_places(ends, arcs, arcs.len());
    lemma_simple_places(ends, order, arcs, to);
    let n = order.len() as int;
    assert(order.take(n) == order);
    lemma_taken_all_tidy(ends, order, n);
    let s = taken_all(ends, order);
    lemma_consistent_keyed(ends, order, s);
    lemma_flushed(s);
    let out_handles = flushed(s);
    assert forall|j: int| 0 <= j < order.len() implies is_stitched(
        s,
        crate::arc_index(#[trigger] order[j]),
    ) by {
        lemma_housed_stitched(s, order[j]);
    }
    lemma_no_leftovers(s, order);
    let out = stitched(ends, arcs);
    assert(out =~= out_handles.map_values(|h: int| s.fragments[h].items));
    assert forall|t: int| 0 <= t < out.len() implies (#[trigger] out[t]).len() > 0 by {
        let h = out_handles[t];
        lemma_live_valid(ends, order, s, h);
    }
    assert forall|t: int, u: int| 0 <= t < out.len() && 0 <= u < out.len() && t != u implies end_of(
        ends,
        (#[trigger] out[t]).last(),
    ) != start_of(ends, (#[trigger] out[u]).first()) by {
        let g = out_handles[t];
        let h = out_handles[u];
        lemma_tidy_apart(s, g, h);
        lemma_live_valid(ends, order, s, g);
        lemma_live_valid(ends, order, s, h);
    }
}

} // verus!
