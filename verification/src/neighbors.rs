//! Neighbors: for each of a list of objects, the objects that share an arc
//! with it.

use vstd::prelude::*;
use crate::bisect::{ascending, bisect, is_insertion_point};
use crate::merge::{flat, flatten};
use crate::sharing::{Sharing, handles, lemma_uses_within, uses};
use crate::topology::{NamedGeometry, Value, rows};

verus! {

/// Whether `o` is of a kind whose arcs can be listed: a line string, a
/// multi-line-string, a polygon, or a collection without members.
pub open spec fn has_arcs<P>(o: Value<P>) -> bool {
    match o {
        Value::LineString(_) => true,
        Value::MultiLineString(_) => true,
        Value::Polygon(_) => true,
        Value::GeometryCollection(gs) => gs.len() == 0,
        _ => false,
    }
}

/// The arcs that `o` goes along, in order.
pub open spec fn arcs_along<P>(o: Value<P>) -> Seq<i32> {
    match o {
        Value::LineString(l) => l@,
        Value::MultiLineString(ls) => flat(rows(ls)),
        Value::Polygon(rings) => flat(rows(rings)),
        _ => Seq::empty(),
    }
}

/// The arcs that each of `objects` goes along.
pub open spec fn arcs_of_each<P>(objects: Seq<NamedGeometry<P>>) -> Seq<Seq<i32>> {
    Seq::new(objects.len(), |i: int| arcs_along(objects[i].geometry))
}

/// Whether `i` and `x` stand at two places of `row`.
pub open spec fn paired(row: Seq<int>, i: int, x: int) -> bool {
    exists|j: int, k: int|
        #![trigger row[j], row[k]]
        0 <= j < k < row.len() && ((row[j] == i && row[k] == x) || (row[j] == x && row[k] == i))
}

/// Whether `i` and `x` stand at two places of `row` that come before the pair
/// of places `(jj, kk)`, pairs taken by their first place and then by their
/// second.
pub open spec fn paired_before(row: Seq<int>, i: int, x: int, jj: int, kk: int) -> bool {
    exists|j: int, k: int|
        #![trigger row[j], row[k]]
        0 <= j < k < row.len() && (j < jj || (j == jj && k < kk)) && ((row[j] == i && row[k] == x)
            || (row[j] == x && row[k] == i))
}

/// Whether the objects `i` and `x` share an arc: whether some arc is used at
/// two places, once by each. An object is related to itself when it goes
/// along an arc twice. `all` holds the arcs of each object.
pub open spec fn related(all: Seq<Seq<i32>>, i: int, x: int) -> bool {
    exists|index: nat| paired(#[trigger] uses(all, index), i, x)
}

/// Whether `i` and `x` share one of the first `r` of `arcs`.
pub open spec fn related_within(all: Seq<Seq<i32>>, arcs: Seq<nat>, r: int, i: int, x: int) -> bool {
    exists|q: int| 0 <= q < r && paired(uses(all, #[trigger] arcs[q]), i, x)
}

/// Whether `s` goes strictly upwards.
pub open spec fn strictly_ascending(s: Seq<i32>) -> bool {
    forall|i: int, j: int| 0 <= i < j < s.len() ==> s[i] < s[j]
}

/// Puts `x` into `list` at its place, unless it is there.
pub fn insert_sorted(list: &mut Vec<i32>, x: i32)
    requires
        strictly_ascending(old(list)@),
    ensures
        strictly_ascending(final(list)@),
        forall|y: i32| final(list)@.contains(y) <==> (old(list)@.contains(y) || y == x),
{
    let ghost before = list@;
    assert(ascending(before));
    let b = bisect(list.as_slice(), x);
    assert(is_insertion_point(before, x, b as int));
    if b < list.len() && list[b] == x {
        assert forall|y: i32| before.contains(y) <==> (before.contains(y) || y == x) by {
            if y == x {
                assert(before[b as int] == y);
            }
        }
    } else {
        list.insert(b, x);
        let ghost after = list@;
        assert(after == before.insert(b as int, x));
        assert forall|i: int, j: int| 0 <= i < j < after.len() implies after[i] < after[j] by {
            let pi = if i < b {
                i
            } else {
                i - 1
            };
            let pj = if j < b {
                j
            } else {
                j - 1
            };
            if i == b {
                assert(after[j] == before[pj]);
                assert(before[pj] >= x);
                if pj == b {
                    assert(before[b as int] != x);
                } else {
                    assert(before[b as int] < before[pj]);
                }
            } else if j == b {
                assert(after[i] == before[pi]);
            } else {
                assert(after[i] == before[pi]);
                assert(after[j] == before[pj]);
            }
        }
        assert forall|y: i32| after.contains(y) <==> (before.contains(y) || y == x) by {
            if after.contains(y) {
                let i = choose|i: int| 0 <= i < after.len() && after[i] == y;
                if i < b {
                    assert(before[i] == y);
                } else if i > b {
                    assert(before[i - 1] == y);
                }
            }
            if before.contains(y) {
                let i = choose|i: int| 0 <= i < before.len() && before[i] == y;
                if i < b {
                    assert(after[i] == y);
                } else {
                    assert(after[i + 1] == y);
                }
            }
            if y == x {
                assert(after[b as int] == y);
            }
        }
    }
}

/// Tells whether `o` is of a kind whose arcs can be listed.
pub fn lists_arcs<P>(o: &Value<P>) -> (yes: bool)
    ensures
        yes == has_arcs(*o),
{
    match o {
        Value::LineString(_) => true,
        Value::MultiLineString(_) => true,
        Value::Polygon(_) => true,
        Value::GeometryCollection(gs) => gs.len() == 0,
        _ => false,
    }
}

/// The arcs that `o` goes along, in order.
pub fn arcs_of<P>(o: &Value<P>) -> (arcs: Vec<i32>)
    ensures
        arcs@ == arcs_along(*o),
{
    match o {
        Value::LineString(l) => {
            let mut arcs: Vec<i32> = Vec::new();
            let mut k: usize = 0;
            while k < l.len()
                invariant
                    k <= l.len(),
                    arcs@ == l@.take(k as int),
                decreases l.len() - k,
            {
                arcs.push(l[k]);
                k += 1;
            }
            assert(l@.take(k as int) == l@);
            arcs
        },
        Value::MultiLineString(ls) => flatten(ls),
        Value::Polygon(rings) => flatten(rings),
        _ => Vec::new(),
    }
}

/// Looking at one more pair of places adds the two that stand there.
pub proof fn lemma_paired_before_step(row: Seq<int>, i: int, x: int, j: int, k: int)
    requires
        0 <= j < k < row.len(),
    ensures
        paired_before(row, i, x, j, k + 1) <==> (paired_before(row, i, x, j, k) || (row[j] == i
            && row[k] == x) || (row[j] == x && row[k] == i)),
{
    if paired_before(row, i, x, j, k + 1) {
        let (a, b) = choose|a: int, b: int|
            #![trigger row[a], row[b]]
            0 <= a < b < row.len() && (a < j || (a == j && b < k + 1)) && ((row[a] == i && row[b]
                == x) || (row[a] == x && row[b] == i));
        if !(a == j && b == k) {
            assert(0 <= a < b < row.len() && (a < j || (a == j && b < k)) && ((row[a] == i
                && row[b] == x) || (row[a] == x && row[b] == i)));
        }
    }
    if paired_before(row, i, x, j, k) {
        let (a, b) = choose|a: int, b: int|
            #![trigger row[a], row[b]]
            0 <= a < b < row.len() && (a < j || (a == j && b < k)) && ((row[a] == i && row[b] == x)
                || (row[a] == x && row[b] == i));
        assert(0 <= a < b < row.len() && (a < j || (a == j && b < k + 1)) && ((row[a] == i
            && row[b] == x) || (row[a] == x && row[b] == i)));
    }
    if (row[j] == i && row[k] == x) || (row[j] == x && row[k] == i) {
        assert(0 <= j < k < row.len() && (j < j || (j == j && k < k + 1)) && ((row[j] == i
            && row[k] == x) || (row[j] == x && row[k] == i)));
    }
}

/// The pairs that start before a place, with all that start at it, are the
/// pairs that start before the next place.
pub proof fn lemma_paired_before_next(row: Seq<int>, i: int, x: int, j: int)
    requires
        0 <= j < row.len(),
    ensures
        paired_before(row, i, x, j + 1, j + 2) <==> paired_before(row, i, x, j, row.len() as int),
{
    if paired_before(row, i, x, j + 1, j + 2) {
        let (a, b) = choose|a: int, b: int|
            #![trigger row[a], row[b]]
            0 <= a < b < row.len() && (a < j + 1 || (a == j + 1 && b < j + 2)) && ((row[a] == i
                && row[b] == x) || (row[a] == x && row[b] == i));
        assert(0 <= a < b < row.len() && (a < j || (a == j && b < row.len())) && ((row[a] == i
            && row[b] == x) || (row[a] == x && row[b] == i)));
    }
    if paired_before(row, i, x, j, row.len() as int) {
        let (a, b) = choose|a: int, b: int|
            #![trigger row[a], row[b]]
            0 <= a < b < row.len() && (a < j || (a == j && b < row.len())) && ((row[a] == i
                && row[b] == x) || (row[a] == x && row[b] == i));
        assert(0 <= a < b < row.len() && (a < j + 1 || (a == j + 1 && b < j + 2)) && ((row[a]
            == i && row[b] == x) || (row[a] == x && row[b] == i)));
    }
}

/// No pair comes before the first, and all come before the end.
pub proof fn lemma_paired_before_ends(row: Seq<int>, i: int, x: int)
    ensures
        !paired_before(row, i, x, 0, 1),
        paired_before(row, i, x, row.len() as int, row.len() as int + 1) <==> paired(row, i, x),
{
    if paired(row, i, x) {
        let (a, b) = choose|a: int, b: int|
            #![trigger row[a], row[b]]
            0 <= a < b < row.len() && ((row[a] == i && row[b] == x) || (row[a] == x && row[b] == i));
        assert(0 <= a < b < row.len() && (a < row.len() || (a == row.len() && b < row.len() + 1))
            && ((row[a] == i && row[b] == x) || (row[a] == x && row[b] == i)));
    }
    if paired_before(row, i, x, row.len() as int, row.len() as int + 1) {
        let (a, b) = choose|a: int, b: int|
            #![trigger row[a], row[b]]
            0 <= a < b < row.len() && (a < row.len() || (a == row.len() && b < row.len() + 1)) && ((
            row[a] == i && row[b] == x) || (row[a] == x && row[b] == i));
        assert(0 <= a < b < row.len() && ((row[a] == i && row[b] == x) || (row[a] == x && row[b]
            == i)));
    }
}

/// Looking at one more arc adds the pairs of its users.
pub proof fn lemma_related_within_step(all: Seq<Seq<i32>>, arcs: Seq<nat>, r: int, i: int, x: int)
    requires
        0 <= r < arcs.len(),
    ensures
        related_within(all, arcs, r + 1, i, x) <==> (related_within(all, arcs, r, i, x) || paired(
            uses(all, arcs[r]),
            i,
            x,
        )),
{
    if related_within(all, arcs, r + 1, i, x) {
        let q = choose|q: int| 0 <= q < r + 1 && paired(uses(all, #[trigger] arcs[q]), i, x);
        if q < r {
            assert(related_within(all, arcs, r, i, x));
        }
    }
    if related_within(all, arcs, r, i, x) {
        let q = choose|q: int| 0 <= q < r && paired(uses(all, #[trigger] arcs[q]), i, x);
        assert(0 <= q < r + 1 && paired(uses(all, arcs[q]), i, x));
    }
    if paired(uses(all, arcs[r]), i, x) {
        assert(0 <= r < r + 1 && paired(uses(all, arcs[r]), i, x));
    }
}

/// For each of `objects`, the objects that share an arc with it: their
/// places in `objects`, upwards and each once.
///
/// Two objects share an arc when some arc is used by both, in whatever
/// direction. An object that goes along one arc twice is its own neighbor.
pub fn neighbors<P>(objects: &[NamedGeometry<P>]) -> (lists: Vec<Vec<i32>>)
    requires
        objects@.len() <= i32::MAX,
        forall|i: int| 0 <= i < objects@.len() ==> has_arcs((#[trigger] objects@[i]).geometry),
    ensures
        lists.len() == objects@.len(),
        forall|i: int| 0 <= i < lists.len() ==> strictly_ascending((#[trigger] lists[i])@),
        forall|i: int, x: i32|
            0 <= i < lists.len() ==> (#[trigger] lists[i]@.contains(x) <==> related(
                arcs_of_each(objects@),
                i,
                x as int,
            )),
{
    let n = objects.len();
    let mut sharing = Sharing::new();
    let mut lists: Vec<Vec<i32>> = Vec::new();
    let ghost whole = arcs_of_each(objects@);
    let mut i: usize = 0;
    assert(whole.take(0) =~= Seq::<Seq<i32>>::empty());
    while i < n
        invariant
            i <= n,
            n == objects@.len(),
            whole == arcs_of_each(objects@),
            sharing.wf(),
            sharing.all() == whole.take(i as int),
            lists.len() == i,
            forall|p: int| 0 <= p < i ==> (#[trigger] lists[p])@.len() == 0,
        decreases n - i,
    {
        sharing.add(arcs_of(&objects[i].geometry));
        lists.push(Vec::new());
        assert(whole.take(i + 1) =~= whole.take(i as int).push(whole[i as int]));
        i += 1;
    }
    assert(whole.take(n as int) == whole);
    let ghost all = sharing.all();
    let ghost arcs = sharing.arcs();
    proof {
        sharing.lemma_arcs();
    }
    let count = sharing.arcs_len();
    assert forall|p: int, x: i32| 0 <= p < n implies (#[trigger] lists[p]@.contains(x)
        <==> related_within(all, arcs, 0, p, x as int)) by {
        assert(lists[p]@.len() == 0);
    }
    let mut r: usize = 0;
    while r < count
        invariant
            r <= count,
            count == arcs.len(),
            n == all.len(),
            n <= i32::MAX,
            sharing.wf(),
            sharing.all() == all,
            sharing.arcs() == arcs,
            lists.len() == n,
            forall|p: int| 0 <= p < n ==> strictly_ascending((#[trigger] lists[p])@),
            forall|p: int, x: i32|
                0 <= p < n ==> (#[trigger] lists[p]@.contains(x) <==> related_within(
                    all,
                    arcs,
                    r as int,
                    p,
                    x as int,
                )),
        decreases count - r,
    {
        let row = sharing.users_at(r);
        let ghost users = uses(all, arcs[r as int]);
        proof {
            lemma_uses_within(all, arcs[r as int]);
        }
        let m = row.len();
        let mut j: usize = 0;
        assert forall|p: int, x: i32| 0 <= p < n implies (#[trigger] lists[p]@.contains(x) <==> (
        related_within(all, arcs, r as int, p, x as int) || paired_before(
            users,
            p,
            x as int,
            0,
            1,
        ))) by {
            lemma_paired_before_ends(users, p, x as int);
        }
        while j < m
            invariant
                j <= m,
                m == users.len(),
                users == handles(row@),
                n <= i32::MAX,
                forall|t: int| 0 <= t < users.len() ==> 0 <= #[trigger] users[t] < n,
                lists.len() == n,
                forall|p: int| 0 <= p < n ==> strictly_ascending((#[trigger] lists[p])@),
                forall|p: int, x: i32|
                    0 <= p < n ==> (#[trigger] lists[p]@.contains(x) <==> (related_within(
                        all,
                        arcs,
                        r as int,
                        p,
                        x as int,
                    ) || paired_before(users, p, x as int, j as int, j + 1))),
            decreases m - j,
        {
            let mut k: usize = j + 1;
            while k < m
                invariant
                    j < k <= m,
                    m == users.len(),
                    users == handles(row@),
                    n <= i32::MAX,
                    forall|t: int| 0 <= t < users.len() ==> 0 <= #[trigger] users[t] < n,
                    lists.len() == n,
                    forall|p: int| 0 <= p < n ==> strictly_ascending((#[trigger] lists[p])@),
                    forall|p: int, x: i32|
                        0 <= p < n ==> (#[trigger] lists[p]@.contains(x) <==> (related_within(
                            all,
                            arcs,
                            r as int,
                            p,
                            x as int,
                        ) || paired_before(users, p, x as int, j as int, k as int))),
                decreases m - k,
            {
                let ij = row[j];
                let ik = row[k];
                assert(users[j as int] == ij);
                assert(users[k as int] == ik);
                let ghost before = lists@;
                insert_sorted(&mut lists[ij], ik as i32);
                let ghost between = lists@;
                insert_sorted(&mut lists[ik], ij as i32);
                assert forall|p: int| 0 <= p < n implies strictly_ascending(
                    (#[trigger] lists[p])@,
                ) by {
                    if p != ik {
                        assert(lists[p] == between[p]);
                        if p != ij {
                            assert(between[p] == before[p]);
                        }
                    }
                }
                assert forall|p: int, x: i32| 0 <= p < n implies (#[trigger] lists[p]@.contains(x)
                    <==> (related_within(all, arcs, r as int, p, x as int) || paired_before(
                    users,
                    p,
                    x as int,
                    j as int,
                    k + 1,
                ))) by {
                    lemma_paired_before_step(users, p, x as int, j as int, k as int);
                    assert(before[p]@.contains(x) <==> (related_within(
                        all,
                        arcs,
                        r as int,
                        p,
                        x as int,
                    ) || paired_before(users, p, x as int, j as int, k as int)));
                    if p != ij {
                        assert(between[p] == before[p]);
                    } else {
                        assert(between[p]@.contains(x) <==> (before[p]@.contains(x) || x == ik as i32));
                    }
                    if p != ik {
                        assert(lists[p] == between[p]);
                    } else {
                        assert(lists[p]@.contains(x) <==> (between[p]@.contains(x) || x == ij as i32));
                    }
                }
                k += 1;
            }
            assert forall|p: int, x: i32| 0 <= p < n implies (#[trigger] lists[p]@.contains(x) <==> (
            related_within(all, arcs, r as int, p, x as int) || paired_before(
                users,
                p,
                x as int,
                j + 1,
                j + 2,
            ))) by {
                lemma_paired_before_next(users, p, x as int, j as int);
            }
            j += 1;
        }
        assert forall|p: int, x: i32| 0 <= p < n implies (#[trigger] lists[p]@.contains(x)
            <==> related_within(all, arcs, r + 1, p, x as int)) by {
            lemma_paired_before_ends(users, p, x as int);
            lemma_related_within_step(all, arcs, r as int, p, x as int);
        }
        r += 1;
    }
    assert forall|p: int, x: i32| 0 <= p < lists.len() implies (#[trigger] lists[p]@.contains(x)
        <==> related(whole, p, x as int)) by {
        if related_within(all, arcs, count as int, p, x as int) {
            let q = choose|q: int|
                0 <= q < count && paired(uses(all, #[trigger] arcs[q]), p, x as int);
            assert(paired(uses(all, arcs[q]), p, x as int));
        }
        if related(whole, p, x as int) {
            let index = choose|index: nat| paired(#[trigger] uses(all, index), p, x as int);
            assert(uses(all, index).len() > 0);
            let q = choose|q: int| 0 <= q < arcs.len() && #[trigger] arcs[q] == index;
            assert(paired(uses(all, arcs[q]), p, x as int));
        }
    }
    lists
}

} // verus!
