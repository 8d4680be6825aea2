//! Groups of members that share arcs, found by flooding: from a member to
//! the members that use its arcs, and on from those.

use vstd::prelude::*;
use crate::arc_index;
use crate::sharing::{goes_along, lemma_uses_contains, touch, uses};

verus! {

/// The members that are met along `arcs`: for each arc in turn, the members
/// that use it.
pub open spec fn met(all: Seq<Seq<i32>>, arcs: Seq<i32>) -> Seq<int>
    decreases arcs.len(),
{
    if arcs.len() == 0 {
        Seq::empty()
    } else {
        met(all, arcs.drop_last()) + uses(all, arc_index(arcs.last()))
    }
}

/// How many marks are set.
pub open spec fn marked_count(marks: Seq<bool>) -> nat
    decreases marks.len(),
{
    if marks.len() == 0 {
        0
    } else {
        marked_count(marks.drop_last()) + if marks.last() {
            1nat
        } else {
            0nat
        }
    }
}

/// The marks and the members waiting to be visited, after the members
/// `found` have been looked at: each that had no mark gets one and waits.
pub open spec fn scanned(marks: Seq<bool>, pending: Seq<int>, found: Seq<int>) -> (
    Seq<bool>,
    Seq<int>,
)
    decreases found.len(),
{
    if found.len() == 0 {
        (marks, pending)
    } else {
        let (m, w) = scanned(marks, pending, found.drop_last());
        let q = found.last();
        if 0 <= q < m.len() && !m[q] {
            (m.update(q, true), w.push(q))
        } else {
            (m, w)
        }
    }
}

/// No more marks are set than there are marks.
pub proof fn lemma_marked_count_bound(marks: Seq<bool>)
    ensures
        marked_count(marks) <= marks.len(),
    decreases marks.len(),
{
    if marks.len() > 0 {
        lemma_marked_count_bound(marks.drop_last());
    }
}

/// Setting a mark that was not set makes one more.
pub proof fn lemma_marked_count_update(marks: Seq<bool>, q: int)
    requires
        0 <= q < marks.len(),
        !marks[q],
    ensures
        marked_count(marks.update(q, true)) == marked_count(marks) + 1,
    decreases marks.len(),
{
    let after = marks.update(q, true);
    if q == marks.len() - 1 {
        assert(after.drop_last() =~= marks.drop_last());
    } else {
        lemma_marked_count_update(marks.drop_last(), q);
        assert(after.drop_last() =~= marks.drop_last().update(q, true));
    }
}

/// Looking at members sets as many marks as it makes members wait.
pub proof fn lemma_scanned_counts(marks: Seq<bool>, pending: Seq<int>, found: Seq<int>)
    ensures
        scanned(marks, pending, found).0.len() == marks.len(),
        scanned(marks, pending, found).1.len() - pending.len() == marked_count(
            scanned(marks, pending, found).0,
        ) - marked_count(marks),
        scanned(marks, pending, found).1.len() >= pending.len(),
    decreases found.len(),
{
    if found.len() > 0 {
        lemma_scanned_counts(marks, pending, found.drop_last());
        let (m, w) = scanned(marks, pending, found.drop_last());
        let q = found.last();
        if 0 <= q < m.len() && !m[q] {
            lemma_marked_count_update(m, q);
        }
    }
}

/// The group that grows from the members waiting in `pending`, and the marks
/// when it is complete. The member that waited last is visited first: it
/// joins the group, and the members met along its arcs that have no mark yet
/// get one and wait.
pub open spec fn filled(all: Seq<Seq<i32>>, marks: Seq<bool>, pending: Seq<int>, group: Seq<int>) -> (
    Seq<bool>,
    Seq<int>,
)
    decreases marks.len() - marked_count(marks) + pending.len(),
{
    if pending.len() == 0 {
        (marks, group)
    } else {
        let p = pending.last();
        let (m, w) = scanned(marks, pending.drop_last(), met(all, all[p]));
        proof {
            lemma_scanned_counts(marks, pending.drop_last(), met(all, all[p]));
            lemma_marked_count_bound(m);
        }
        filled(all, m, w, group.push(p))
    }
}

/// The marks and the groups after the first `n` members have been tried as
/// the start of a group. A member without a mark starts one.
pub open spec fn grouped(all: Seq<Seq<i32>>, n: nat) -> (Seq<bool>, Seq<Seq<int>>)
    decreases n,
{
    if n == 0 {
        (Seq::new(all.len(), |i: int| false), Seq::empty())
    } else {
        let (marks, groups) = grouped(all, (n - 1) as nat);
        if n - 1 < marks.len() && !marks[n - 1] {
            let (m, group) = filled(all, marks.update(n - 1, true), seq![n - 1], Seq::empty());
            (m, groups.push(group))
        } else {
            (marks, groups)
        }
    }
}

/// The groups of members that share arcs, each as the handles of its
/// members in the order in which they were visited.
pub open spec fn groups(all: Seq<Seq<i32>>) -> Seq<Seq<int>> {
    grouped(all, all.len()).1
}

/// Looking at members makes only members wait that there are.
pub proof fn lemma_scanned_within(marks: Seq<bool>, pending: Seq<int>, found: Seq<int>)
    requires
        forall|i: int| 0 <= i < pending.len() ==> 0 <= #[trigger] pending[i] < marks.len(),
    ensures
        forall|i: int|
            0 <= i < scanned(marks, pending, found).1.len() ==> 0 <= #[trigger] scanned(
                marks,
                pending,
                found,
            ).1[i] < marks.len(),
        scanned(marks, pending, found).0.len() == marks.len(),
    decreases found.len(),
{
    if found.len() > 0 {
        lemma_scanned_within(marks, pending, found.drop_last());
    }
}

/// A group grows by members that there are, and grows from nothing else.
pub proof fn lemma_filled_within(
    all: Seq<Seq<i32>>,
    marks: Seq<bool>,
    pending: Seq<int>,
    group: Seq<int>,
)
    requires
        forall|i: int| 0 <= i < pending.len() ==> 0 <= #[trigger] pending[i] < marks.len(),
        forall|i: int| 0 <= i < group.len() ==> 0 <= #[trigger] group[i] < marks.len(),
    ensures
        filled(all, marks, pending, group).0.len() == marks.len(),
        forall|i: int|
            0 <= i < filled(all, marks, pending, group).1.len() ==> 0 <= #[trigger] filled(
                all,
                marks,
                pending,
                group,
            ).1[i] < marks.len(),
    decreases marks.len() - marked_count(marks) + pending.len(),
{
    if pending.len() > 0 {
        let p = pending.last();
        let rest = pending.drop_last();
        let (m, w) = scanned(marks, rest, met(all, all[p]));
        lemma_scanned_counts(marks, rest, met(all, all[p]));
        lemma_marked_count_bound(m);
        assert forall|i: int| 0 <= i < rest.len() implies 0 <= #[trigger] rest[i] < marks.len() by {
            assert(rest[i] == pending[i]);
        }
        lemma_scanned_within(marks, rest, met(all, all[p]));
        let more = group.push(p);
        assert forall|i: int| 0 <= i < more.len() implies 0 <= #[trigger] more[i] < m.len() by {
            if i < group.len() {
                assert(more[i] == group[i]);
            } else {
                assert(more[i] == pending[pending.len() - 1]);
            }
        }
        lemma_filled_within(all, m, w, more);
    }
}

/// Every group is made of members that there are.
pub proof fn lemma_grouped_within(all: Seq<Seq<i32>>, n: nat)
    requires
        n <= all.len(),
    ensures
        grouped(all, n).0.len() == all.len(),
        forall|g: int, i: int|
            0 <= g < grouped(all, n).1.len() && 0 <= i < grouped(all, n).1[g].len() ==> 0
                <= #[trigger] grouped(all, n).1[g][i] < all.len(),
    decreases n,
{
    if n > 0 {
        lemma_grouped_within(all, (n - 1) as nat);
        let (marks, groups) = grouped(all, (n - 1) as nat);
        if !marks[n - 1] {
            let start = marks.update(n - 1, true);
            let first = seq![n - 1];
            lemma_filled_within(all, start, first, Seq::empty());
            let (m, group) = filled(all, start, first, Seq::empty());
            let after = groups.push(group);
            assert forall|g: int, i: int|
                0 <= g < after.len() && 0 <= i < after[g].len() implies 0 <= #[trigger] after[g][i]
                < all.len() by {
                if g < groups.len() {
                    assert(after[g] == groups[g]);
                }
            }
        }
    }
}

/// Along the arcs of a member, the members met are those that share an arc
/// with it.
pub proof fn lemma_met_contains(all: Seq<Seq<i32>>, arcs: Seq<i32>, q: int)
    ensures
        met(all, arcs).contains(q) <==> (0 <= q < all.len() && exists|index: nat|
            #[trigger] goes_along(arcs, index) && goes_along(all[q], index)),
    decreases arcs.len(),
{
    if arcs.len() > 0 {
        let front = arcs.drop_last();
        let index = arc_index(arcs.last());
        let before = met(all, front);
        let own = uses(all, index);
        let both = before + own;
        lemma_met_contains(all, front, q);
        lemma_uses_contains(all, index, q);
        if before.contains(q) {
            let i = choose|i: int| 0 <= i < before.len() && before[i] == q;
            assert(both[i] == q);
            let shared = choose|shared: nat|
                #[trigger] goes_along(front, shared) && goes_along(all[q], shared);
            let at = choose|at: int| 0 <= at < front.len() && arc_index(#[trigger] front[at]) == shared;
            assert(arc_index(arcs[at]) == shared);
            assert(goes_along(arcs, shared));
        }
        if own.contains(q) {
            let i = choose|i: int| 0 <= i < own.len() && own[i] == q;
            assert(both[before.len() + i] == q);
            assert(arc_index(arcs[arcs.len() - 1]) == index);
            assert(goes_along(arcs, index));
        }
        if both.contains(q) {
            let i = choose|i: int| 0 <= i < both.len() && both[i] == q;
            if i < before.len() {
                assert(before[i] == q);
            } else {
                assert(own[i - before.len()] == q);
            }
        }
        if 0 <= q < all.len() && exists|shared: nat|
            #[trigger] goes_along(arcs, shared) && goes_along(all[q], shared) {
            let shared = choose|shared: nat|
                #[trigger] goes_along(arcs, shared) && goes_along(all[q], shared);
            let at = choose|at: int| 0 <= at < arcs.len() && arc_index(#[trigger] arcs[at]) == shared;
            if at < front.len() {
                assert(arc_index(front[at]) == shared);
                assert(goes_along(front, shared));
                assert(before.contains(q));
            } else {
                assert(shared == index);
                assert(own.contains(q));
            }
        }
    } else {
        if exists|shared: nat| #[trigger] goes_along(arcs, shared) && goes_along(all[q], shared) {
            let shared = choose|shared: nat|
                #[trigger] goes_along(arcs, shared) && goes_along(all[q], shared);
        }
    }
}

/// What looking at members does to the marks and to those that wait: the
/// members that wait are those that waited and those of `found` that had no
/// mark, each once, and the marks are those of before and those of the
/// members that wait.
pub proof fn lemma_scanned_marks(marks: Seq<bool>, pending: Seq<int>, found: Seq<int>)
    requires
        pending.no_duplicates(),
        forall|i: int|
            0 <= i < pending.len() ==> 0 <= #[trigger] pending[i] < marks.len() && marks[pending[i]],
    ensures
        ({
            let (m, w) = scanned(marks, pending, found);
            &&& m.len() == marks.len()
            &&& w.no_duplicates()
            &&& forall|i: int| 0 <= i < w.len() ==> 0 <= #[trigger] w[i] < m.len() && m[w[i]]
            &&& forall|x: int| 0 <= x < m.len() ==> (#[trigger] m[x] <==> (marks[x] || w.contains(x)))
            &&& forall|x: int|
                #[trigger] w.contains(x) ==> (pending.contains(x) || (0 <= x < marks.len()
                    && !marks[x] && found.contains(x)))
            &&& forall|x: int| pending.contains(x) ==> #[trigger] w.contains(x)
            &&& forall|i: int|
                0 <= i < found.len() && 0 <= found[i] < m.len() ==> m[#[trigger] found[i]]
        }),
    decreases found.len(),
{
    let (m, w) = scanned(marks, pending, found);
    if found.len() > 0 {
        let front = found.drop_last();
        let q = found.last();
        lemma_scanned_marks(marks, pending, front);
        let (m0, w0) = scanned(marks, pending, front);
        assert forall|x: int| front.contains(x) implies found.contains(x) by {
            let i = choose|i: int| 0 <= i < front.len() && front[i] == x;
            assert(found[i] == x);
        }
        assert(found[found.len() - 1] == q);
        assert(found.contains(q));
        if 0 <= q < m0.len() && !m0[q] {
            assert(!w0.contains(q)) by {
                if w0.contains(q) {
                    let i = choose|i: int| 0 <= i < w0.len() && w0[i] == q;
                    assert(m0[w0[i]]);
                }
            }
            assert(w == w0.push(q));
            assert(m == m0.update(q, true));
            assert forall|i: int, j: int| 0 <= i < w.len() && 0 <= j < w.len() && i != j implies w[i]
                != w[j] by {
                if i < w0.len() && j < w0.len() {
                } else if i < w0.len() {
                    assert(w0.contains(w0[i]));
                } else {
                    assert(w0.contains(w0[j]));
                }
            }
            assert forall|x: int| w0.contains(x) || x == q implies #[trigger] w.contains(x) by {
                if w0.contains(x) {
                    let i = choose|i: int| 0 <= i < w0.len() && w0[i] == x;
                    assert(w[i] == x);
                } else {
                    assert(w[w0.len() as int] == x);
                }
            }
            assert forall|x: int| #[trigger] w.contains(x) implies w0.contains(x) || x == q by {
                let i = choose|i: int| 0 <= i < w.len() && w[i] == x;
                if i < w0.len() {
                    assert(w0[i] == x);
                }
            }
            assert forall|i: int| 0 <= i < w.len() implies 0 <= #[trigger] w[i] < m.len() && m[w[i]] by {
                if i < w0.len() {
                    assert(w[i] == w0[i]);
                }
            }
            assert forall|i: int| 0 <= i < found.len() && 0 <= found[i] < m.len() implies m[
            #[trigger] found[i]] by {
                if i < front.len() {
                    assert(front[i] == found[i]);
                }
            }
        } else {
            assert forall|i: int| 0 <= i < found.len() && 0 <= found[i] < m.len() implies m[
            #[trigger] found[i]] by {
                if i < front.len() {
                    assert(front[i] == found[i]);
                }
            }
        }
    }
}

/// Whether `p` is in one of `groups`.
pub open spec fn within(groups: Seq<Seq<int>>, p: int) -> bool {
    exists|g: int| 0 <= g < groups.len() && (#[trigger] groups[g]).contains(p)
}

/// Whether the groups `done`, the group `group` that is growing and the
/// members `pending` that wait to join it are in order: whether the marked
/// members are exactly those in them, no member is in them twice, and a
/// member that shares an arc with a member of a group is in that group, or on
/// its way into it.
pub open spec fn in_order(
    all: Seq<Seq<i32>>,
    marks: Seq<bool>,
    pending: Seq<int>,
    group: Seq<int>,
    done: Seq<Seq<int>>,
) -> bool {
    &&& marks.len() == all.len()
    &&& forall|p: int|
        0 <= p < all.len() ==> (#[trigger] marks[p] <==> (within(done, p) || group.contains(p)
            || pending.contains(p)))
    &&& forall|i: int| 0 <= i < pending.len() ==> 0 <= #[trigger] pending[i] < all.len()
    &&& forall|i: int| 0 <= i < group.len() ==> 0 <= #[trigger] group[i] < all.len()
    &&& forall|g: int, i: int|
        0 <= g < done.len() && 0 <= i < done[g].len() ==> 0 <= #[trigger] done[g][i] < all.len()
    &&& pending.no_duplicates()
    &&& group.no_duplicates()
    &&& forall|g: int| 0 <= g < done.len() ==> (#[trigger] done[g]).no_duplicates()
    &&& forall|p: int| !(#[trigger] group.contains(p) && pending.contains(p))
    &&& forall|p: int| #[trigger] within(done, p) ==> !group.contains(p) && !pending.contains(p)
    &&& forall|g: int, h: int, p: int|
        #![trigger done[g].contains(p), done[h].contains(p)]
        0 <= g < h < done.len() ==> !(done[g].contains(p) && done[h].contains(p))
    &&& forall|g: int, p: int, q: int|
        0 <= g < done.len() && (#[trigger] done[g]).contains(p) && 0 <= q < all.len()
            && #[trigger] touch(all, p, q) ==> done[g].contains(q)
    &&& forall|p: int, q: int|
        group.contains(p) && 0 <= q < all.len() && #[trigger] touch(all, p, q) ==> group.contains(q)
            || pending.contains(q)
}

/// Sharing an arc goes both ways.
pub proof fn lemma_touch_symmetric(all: Seq<Seq<i32>>, p: int, q: int)
    ensures
        touch(all, p, q) == touch(all, q, p),
{
    if touch(all, p, q) {
        let index = choose|index: nat| #[trigger] goes_along(all[p], index) && goes_along(all[q], index);
        assert(goes_along(all[q], index) && goes_along(all[p], index));
    }
    if touch(all, q, p) {
        let index = choose|index: nat| #[trigger] goes_along(all[q], index) && goes_along(all[p], index);
        assert(goes_along(all[p], index) && goes_along(all[q], index));
    }
}

/// Visiting the member that waited last keeps all in order.
pub proof fn lemma_visit_in_order(
    all: Seq<Seq<i32>>,
    marks: Seq<bool>,
    pending: Seq<int>,
    group: Seq<int>,
    done: Seq<Seq<int>>,
)
    requires
        in_order(all, marks, pending, group, done),
        pending.len() > 0,
    ensures
        ({
            let p = pending.last();
            let (m, w) = scanned(marks, pending.drop_last(), met(all, all[p]));
            in_order(all, m, w, group.push(p), done)
        }),
{
    let n = all.len();
    let p = pending.last();
    let rest = pending.drop_last();
    let found = met(all, all[p]);
    let (m, w) = scanned(marks, rest, found);
    let more = group.push(p);
    assert(pending[pending.len() - 1] == p);
    assert(pending.contains(p));
    assert(0 <= p < n);
    assert forall|i: int| 0 <= i < rest.len() implies 0 <= #[trigger] rest[i] < marks.len()
        && marks[rest[i]] by {
        assert(rest[i] == pending[i]);
        assert(pending.contains(pending[i]));
    }
    assert forall|x: int| rest.contains(x) implies pending.contains(x) && x != p by {
        let i = choose|i: int| 0 <= i < rest.len() && rest[i] == x;
        assert(pending[i] == x);
    }
    assert forall|x: int| pending.contains(x) implies rest.contains(x) || x == p by {
        let i = choose|i: int| 0 <= i < pending.len() && pending[i] == x;
        if i < rest.len() {
            assert(rest[i] == x);
        }
    }
    lemma_scanned_marks(marks, rest, found);
    assert forall|x: int| more.contains(x) <==> (group.contains(x) || x == p) by {
        if more.contains(x) {
            let i = choose|i: int| 0 <= i < more.len() && more[i] == x;
            if i < group.len() {
                assert(group[i] == x);
            }
        }
        if group.contains(x) {
            let i = choose|i: int| 0 <= i < group.len() && group[i] == x;
            assert(more[i] == x);
        }
        if x == p {
            assert(more[group.len() as int] == x);
        }
    }
    assert(more.no_duplicates()) by {
        assert forall|i: int, j: int|
            0 <= i < more.len() && 0 <= j < more.len() && i != j implies more[i] != more[j] by {
            if i < group.len() && j < group.len() {
            } else if i < group.len() {
                assert(group.contains(group[i]));
            } else {
                assert(group.contains(group[j]));
            }
        }
    }
    assert forall|i: int| 0 <= i < more.len() implies 0 <= #[trigger] more[i] < n by {
        if i < group.len() {
            assert(more[i] == group[i]);
        }
    }
    // A member that waits now waited before, or had no mark.
    assert forall|x: int| !(#[trigger] more.contains(x) && w.contains(x)) by {
        if more.contains(x) && w.contains(x) {
            if rest.contains(x) {
            } else {
                assert(!marks[x]);
            }
        }
    }
    assert forall|x: int| #[trigger] within(done, x) implies !more.contains(x) && !w.contains(x) by {
        let g = choose|g: int| 0 <= g < done.len() && (#[trigger] done[g]).contains(x);
        let i = choose|i: int| 0 <= i < done[g].len() && done[g][i] == x;
        assert(0 <= done[g][i] < n);
        assert(marks[x]);
        if w.contains(x) {
            assert(rest.contains(x));
        }
    }
    assert forall|x: int| 0 <= x < n implies (#[trigger] m[x] <==> (within(done, x) || more.contains(
        x,
    ) || w.contains(x))) by {
        if w.contains(x) {
        }
    }
    assert forall|a: int, q: int|
        more.contains(a) && 0 <= q < n && #[trigger] touch(all, a, q) implies more.contains(q)
        || w.contains(q) by {
        if a == p {
            lemma_met_is_touch(all, p, q);
            assert(found.contains(q));
            let i = choose|i: int| 0 <= i < found.len() && found[i] == q;
            assert(m[found[i]]);
            if within(done, q) {
                let g = choose|g: int| 0 <= g < done.len() && (#[trigger] done[g]).contains(q);
                lemma_touch_symmetric(all, p, q);
                assert(done[g].contains(p));
                assert(within(done, p));
            }
        } else {
            assert(group.contains(a));
            assert(group.contains(q) || pending.contains(q));
        }
    }
}

/// A group that grows stays in order until it is complete.
pub proof fn lemma_filled_in_order(
    all: Seq<Seq<i32>>,
    marks: Seq<bool>,
    pending: Seq<int>,
    group: Seq<int>,
    done: Seq<Seq<int>>,
)
    requires
        in_order(all, marks, pending, group, done),
    ensures
        in_order(
            all,
            filled(all, marks, pending, group).0,
            Seq::empty(),
            filled(all, marks, pending, group).1,
            done,
        ),
    decreases marks.len() - marked_count(marks) + pending.len(),
{
    if pending.len() > 0 {
        let p = pending.last();
        let rest = pending.drop_last();
        let (m, w) = scanned(marks, rest, met(all, all[p]));
        lemma_scanned_counts(marks, rest, met(all, all[p]));
        lemma_marked_count_bound(m);
        lemma_visit_in_order(all, marks, pending, group, done);
        lemma_filled_in_order(all, m, w, group.push(p), done);
    } else {
        assert(pending =~= Seq::<int>::empty());
    }
}

/// A complete group in order is one more group in order.
pub proof fn lemma_group_done(
    all: Seq<Seq<i32>>,
    marks: Seq<bool>,
    group: Seq<int>,
    done: Seq<Seq<int>>,
)
    requires
        in_order(all, marks, Seq::empty(), group, done),
    ensures
        in_order(all, marks, Seq::empty(), Seq::empty(), done.push(group)),
{
    let none = Seq::<int>::empty();
    let more = done.push(group);
    assert forall|x: int| within(more, x) <==> (within(done, x) || group.contains(x)) by {
        if within(more, x) {
            let g = choose|g: int| 0 <= g < more.len() && (#[trigger] more[g]).contains(x);
            if g < done.len() {
                assert(done[g].contains(x));
            }
        }
        if within(done, x) {
            let g = choose|g: int| 0 <= g < done.len() && (#[trigger] done[g]).contains(x);
            assert(more[g].contains(x));
        }
        if group.contains(x) {
            assert(more[done.len() as int].contains(x));
        }
    }
    assert forall|g: int, i: int| 0 <= g < more.len() && 0 <= i < more[g].len() implies 0
        <= #[trigger] more[g][i] < all.len() by {
        if g < done.len() {
            assert(more[g][i] == done[g][i]);
        }
    }
    assert forall|g: int| 0 <= g < more.len() implies (#[trigger] more[g]).no_duplicates() by {
        if g < done.len() {
            assert(more[g] == done[g]);
        }
    }
    assert forall|g: int, h: int, x: int|
        #![trigger more[g].contains(x), more[h].contains(x)]
        0 <= g < h < more.len() implies !(more[g].contains(x) && more[h].contains(x)) by {
        assert(more[g] == done[g]);
        if h < done.len() {
            assert(more[h] == done[h]);
        } else {
            if done[g].contains(x) {
                assert(within(done, x));
            }
        }
    }
    assert forall|g: int, a: int, q: int|
        0 <= g < more.len() && (#[trigger] more[g]).contains(a) && 0 <= q < all.len()
            && #[trigger] touch(all, a, q) implies more[g].contains(q) by {
        if g < done.len() {
            assert(more[g] == done[g]);
        } else {
            assert(group.contains(q) || none.contains(q));
        }
    }
    assert forall|x: int| 0 <= x < all.len() implies (#[trigger] marks[x] <==> (within(more, x)
        || none.contains(x) || none.contains(x))) by {}
}

/// However many members have been tried as the start of a group, the groups
/// are in order, and the members tried are in them.
pub proof fn lemma_grouped_in_order(all: Seq<Seq<i32>>, n: nat)
    requires
        n <= all.len(),
    ensures
        in_order(all, grouped(all, n).0, Seq::empty(), Seq::empty(), grouped(all, n).1),
        forall|p: int| 0 <= p < n ==> within(grouped(all, n).1, p),
    decreases n,
{
    let none = Seq::<int>::empty();
    if n == 0 {
        let (marks, done) = grouped(all, 0);
        assert forall|p: int| !within(done, p) by {}
    } else {
        lemma_grouped_in_order(all, (n - 1) as nat);
        let (marks, done) = grouped(all, (n - 1) as nat);
        let s = n - 1;
        if !marks[s] {
            let start = marks.update(s, true);
            let first = seq![s];
            assert(first[0] == s);
            assert forall|x: int| first.contains(x) <==> x == s by {
                if first.contains(x) {
                    let i = choose|i: int| 0 <= i < first.len() && first[i] == x;
                }
            }
            assert(!within(done, s));
            assert(in_order(all, start, first, none, done));
            lemma_filled_in_order(all, start, first, none, done);
            let (m, group) = filled(all, start, first, none);
            lemma_group_done(all, m, group, done);
            let more = done.push(group);
            // Marks once set stay set.
            lemma_filled_marks(all, start, first, none);
            assert(m[s]);
            assert forall|p: int| 0 <= p < n implies within(more, p) by {
                if p < s {
                    assert(within(done, p));
                    let g = choose|g: int| 0 <= g < done.len() && (#[trigger] done[g]).contains(p);
                    assert(more[g] == done[g]);
                    assert(more[g].contains(p));
                } else {
                    assert(m[p]);
                }
            }
        } else {
            assert(marks[s]);
            assert(within(done, s));
            assert forall|p: int| 0 <= p < n implies within(done, p) by {
                if p < s {
                    assert(within(done, p));
                }
            }
        }
    }
}

/// While a group grows, marks that are set stay set.
pub proof fn lemma_filled_marks(
    all: Seq<Seq<i32>>,
    marks: Seq<bool>,
    pending: Seq<int>,
    group: Seq<int>,
)
    ensures
        filled(all, marks, pending, group).0.len() == marks.len(),
        forall|x: int|
            0 <= x < marks.len() && marks[x] ==> #[trigger] filled(all, marks, pending, group).0[x],
    decreases marks.len() - marked_count(marks) + pending.len(),
{
    if pending.len() > 0 {
        let p = pending.last();
        let rest = pending.drop_last();
        let found = met(all, all[p]);
        let (m, w) = scanned(marks, rest, found);
        lemma_scanned_counts(marks, rest, found);
        lemma_marked_count_bound(m);
        lemma_scanned_keeps_marks(marks, rest, found);
        lemma_filled_marks(all, m, w, group.push(p));
    }
}

/// Looking at members takes no mark away.
pub proof fn lemma_scanned_keeps_marks(marks: Seq<bool>, pending: Seq<int>, found: Seq<int>)
    ensures
        scanned(marks, pending, found).0.len() == marks.len(),
        forall|x: int|
            0 <= x < marks.len() && marks[x] ==> #[trigger] scanned(marks, pending, found).0[x],
    decreases found.len(),
{
    if found.len() > 0 {
        lemma_scanned_keeps_marks(marks, pending, found.drop_last());
    }
}

/// Whether no member is at two places of `groups`.
pub open spec fn apart(groups: Seq<Seq<int>>) -> bool {
    forall|g: int, i: int, h: int, j: int|
        0 <= g < groups.len() && 0 <= i < groups[g].len() && 0 <= h < groups.len() && 0 <= j
            < groups[h].len() && (g != h || i != j) ==> #[trigger] groups[g][i]
            != #[trigger] groups[h][j]
}

/// The groups sort the members out: every member is in a group, and no
/// member is at two places of the groups.
pub proof fn lemma_groups_partition(all: Seq<Seq<i32>>)
    ensures
        forall|p: int| 0 <= p < all.len() ==> within(groups(all), p),
        forall|g: int, i: int|
            0 <= g < groups(all).len() && 0 <= i < groups(all)[g].len() ==> 0
                <= #[trigger] groups(all)[g][i] < all.len(),
        apart(groups(all)),
{
    lemma_grouped_in_order(all, all.len());
    let found = groups(all);
    assert forall|g: int, i: int, h: int, j: int|
        0 <= g < found.len() && 0 <= i < found[g].len() && 0 <= h < found.len() && 0 <= j
            < found[h].len() && (g != h || i != j) implies #[trigger] found[g][i]
        != #[trigger] found[h][j] by {
        assert(found[g].contains(found[g][i]));
        assert(found[h].contains(found[h][j]));
        if g < h {
            assert(!(found[g].contains(found[g][i]) && found[h].contains(found[g][i])));
        } else if h < g {
            assert(!(found[h].contains(found[g][i]) && found[g].contains(found[g][i])));
        } else {
            assert(found[g].no_duplicates());
        }
    }
}

/// Members that share an arc are in one group.
pub proof fn lemma_groups_closed(all: Seq<Seq<i32>>, p: int, q: int)
    requires
        0 <= p < all.len(),
        0 <= q < all.len(),
        touch(all, p, q),
    ensures
        exists|g: int|
            0 <= g < groups(all).len() && (#[trigger] groups(all)[g]).contains(p) && groups(
                all,
            )[g].contains(q),
{
    lemma_grouped_in_order(all, all.len());
    let found = groups(all);
    assert(within(found, p));
    let g = choose|g: int| 0 <= g < found.len() && (#[trigger] found[g]).contains(p);
    assert(found[g].contains(q));
}

/// Whether `path` leads from member to member, each sharing an arc with the
/// next.
pub open spec fn is_path(all: Seq<Seq<i32>>, path: Seq<int>) -> bool {
    &&& path.len() > 0
    &&& forall|i: int| 0 <= i < path.len() ==> 0 <= #[trigger] path[i] < all.len()
    &&& forall|i: int| 0 <= i < path.len() - 1 ==> touch(all, #[trigger] path[i], path[i + 1])
}

/// Whether `p` and `q` are joined: whether a path leads from the one to the
/// other.
pub open spec fn joined(all: Seq<Seq<i32>>, p: int, q: int) -> bool {
    exists|path: Seq<int>| #[trigger] is_path(all, path) && path.first() == p && path.last() == q
}

/// A member is joined to itself.
pub proof fn lemma_joined_self(all: Seq<Seq<i32>>, p: int)
    requires
        0 <= p < all.len(),
    ensures
        joined(all, p, p),
{
    let path = seq![p];
    assert(is_path(all, path) && path.first() == p && path.last() == p);
}

/// A member that is joined to another is joined to those that share an arc
/// with that one.
pub proof fn lemma_joined_step(all: Seq<Seq<i32>>, p: int, q: int, r: int)
    requires
        joined(all, p, q),
        0 <= r < all.len(),
        touch(all, q, r),
    ensures
        joined(all, p, r),
{
    let path = choose|path: Seq<int>|
        #[trigger] is_path(all, path) && path.first() == p && path.last() == q;
    let more = path.push(r);
    assert forall|i: int| 0 <= i < more.len() - 1 implies touch(all, #[trigger] more[i], more[i + 1]) by {
        if i < path.len() - 1 {
            assert(touch(all, path[i], path[i + 1]));
        }
    }
    assert(is_path(all, more) && more.first() == p && more.last() == r);
}

/// Being joined goes both ways.
pub proof fn lemma_joined_symmetric(all: Seq<Seq<i32>>, p: int, q: int)
    requires
        joined(all, p, q),
    ensures
        joined(all, q, p),
{
    let path = choose|path: Seq<int>|
        #[trigger] is_path(all, path) && path.first() == p && path.last() == q;
    let back = path.reverse();
    assert forall|i: int| 0 <= i < back.len() - 1 implies touch(all, #[trigger] back[i], back[i + 1]) by {
        let j = path.len() - 2 - i;
        assert(touch(all, path[j], path[j + 1]));
        lemma_touch_symmetric(all, path[j], path[j + 1]);
    }
    assert(is_path(all, back) && back.first() == q && back.last() == p);
}

/// Members that are joined to one member are joined to each other.
pub proof fn lemma_joined_transitive(all: Seq<Seq<i32>>, p: int, q: int, r: int)
    requires
        joined(all, p, q),
        joined(all, q, r),
    ensures
        joined(all, p, r),
{
    let one = choose|path: Seq<int>|
        #[trigger] is_path(all, path) && path.first() == p && path.last() == q;
    let two = choose|path: Seq<int>|
        #[trigger] is_path(all, path) && path.first() == q && path.last() == r;
    let rest = two.drop_first();
    let both = one + rest;
    assert forall|i: int| 0 <= i < both.len() implies 0 <= #[trigger] both[i] < all.len() by {
        if i < one.len() {
            assert(both[i] == one[i]);
        } else {
            assert(both[i] == two[i - one.len() + 1]);
        }
    }
    assert forall|i: int| 0 <= i < both.len() - 1 implies touch(all, #[trigger] both[i], both[i + 1]) by {
        if i < one.len() - 1 {
            assert(touch(all, one[i], one[i + 1]));
        } else if i == one.len() - 1 {
            assert(both[i] == two[0]);
            assert(both[i + 1] == two[1]);
            assert(touch(all, two[0], two[1]));
        } else {
            let j = i - one.len() + 1;
            assert(both[i] == two[j]);
            assert(both[i + 1] == two[j + 1]);
            assert(touch(all, two[j], two[j + 1]));
        }
    }
    if rest.len() == 0 {
        assert(both =~= one);
        assert(two.last() == two[0]);
    } else {
        assert(both.last() == two[two.len() - 1]);
    }
    assert(is_path(all, both) && both.first() == p && both.last() == r);
}

/// While a group grows from a member, every member in it or on its way into
/// it is joined to that member.
pub proof fn lemma_filled_joined(
    all: Seq<Seq<i32>>,
    marks: Seq<bool>,
    pending: Seq<int>,
    group: Seq<int>,
    done: Seq<Seq<int>>,
    s: int,
)
    requires
        in_order(all, marks, pending, group, done),
        forall|x: int| pending.contains(x) || group.contains(x) ==> #[trigger] joined(all, s, x),
    ensures
        forall|x: int|
            filled(all, marks, pending, group).1.contains(x) ==> #[trigger] joined(all, s, x),
    decreases marks.len() - marked_count(marks) + pending.len(),
{
    if pending.len() > 0 {
        let p = pending.last();
        let rest = pending.drop_last();
        let found = met(all, all[p]);
        let (m, w) = scanned(marks, rest, found);
        let more = group.push(p);
        lemma_scanned_counts(marks, rest, found);
        lemma_marked_count_bound(m);
        lemma_visit_in_order(all, marks, pending, group, done);
        assert(pending[pending.len() - 1] == p);
        assert(pending.contains(p));
        assert forall|i: int| 0 <= i < rest.len() implies 0 <= #[trigger] rest[i] < marks.len()
            && marks[rest[i]] by {
            assert(rest[i] == pending[i]);
            assert(pending.contains(pending[i]));
        }
        lemma_scanned_marks(marks, rest, found);
        assert forall|x: int| w.contains(x) || more.contains(x) implies #[trigger] joined(
            all,
            s,
            x,
        ) by {
            if more.contains(x) {
                let i = choose|i: int| 0 <= i < more.len() && more[i] == x;
                if i < group.len() {
                    assert(group[i] == x);
                    assert(group.contains(x));
                }
            } else {
                if rest.contains(x) {
                    let i = choose|i: int| 0 <= i < rest.len() && rest[i] == x;
                    assert(pending[i] == x);
                    assert(pending.contains(x));
                } else {
                    assert(found.contains(x));
                    lemma_met_is_touch(all, p, x);
                    lemma_joined_step(all, s, p, x);
                }
            }
        }
        lemma_filled_joined(all, m, w, more, done, s);
    }
}

/// The members of each group are joined to the member that the group grew
/// from.
pub proof fn lemma_grouped_joined(all: Seq<Seq<i32>>, n: nat, g: int) -> (s: int)
    requires
        n <= all.len(),
        0 <= g < grouped(all, n).1.len(),
    ensures
        forall|x: int| grouped(all, n).1[g].contains(x) ==> #[trigger] joined(all, s, x),
    decreases n,
{
    let none = Seq::<int>::empty();
    lemma_grouped_in_order(all, (n - 1) as nat);
    let (marks, done) = grouped(all, (n - 1) as nat);
    let at = n - 1;
    if n > 0 && !marks[at] {
        if g < done.len() {
            lemma_grouped_joined(all, (n - 1) as nat, g)
        } else {
            let start = marks.update(at, true);
            let first = seq![at];
            assert(first[0] == at);
            assert forall|x: int| first.contains(x) <==> x == at by {
                if first.contains(x) {
                    let i = choose|i: int| 0 <= i < first.len() && first[i] == x;
                }
            }
            assert(!within(done, at));
            assert(in_order(all, start, first, none, done));
            lemma_joined_self(all, at);
            lemma_filled_joined(all, start, first, none, done, at);
            at
        }
    } else {
        lemma_grouped_joined(all, (n - 1) as nat, g)
    }
}

/// The members of a group are joined to each other: from each a path leads
/// to each other, from member to member that share an arc.
pub proof fn lemma_groups_joined(all: Seq<Seq<i32>>, g: int, p: int, q: int)
    requires
        0 <= g < groups(all).len(),
        groups(all)[g].contains(p),
        groups(all)[g].contains(q),
    ensures
        joined(all, p, q),
{
    let s = lemma_grouped_joined(all, all.len(), g);
    assert(joined(all, s, p));
    assert(joined(all, s, q));
    lemma_joined_symmetric(all, s, p);
    lemma_joined_transitive(all, p, s, q);
}

/// The members met along the arcs of a member are those that it shares an
/// arc with.
pub proof fn lemma_met_is_touch(all: Seq<Seq<i32>>, p: int, q: int)
    ensures
        met(all, all[p]).contains(q) <==> (0 <= q < all.len() && touch(all, p, q)),
{
    lemma_met_contains(all, all[p], q);
}

} // verus!
