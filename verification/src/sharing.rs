//! Who uses which arc: for members that are each a list of arc references,
//! the members that go along each arc.

use vstd::prelude::*;
use std::collections::BTreeMap;
use crate::{arc_index, translate};
use crate::topology::rows;

verus! {

/// The handle `p`, once for each arc of `arcs` that has the index `index`.
pub open spec fn hits(arcs: Seq<i32>, index: nat, p: int) -> Seq<int>
    decreases arcs.len(),
{
    if arcs.len() == 0 {
        Seq::empty()
    } else if arc_index(arcs.last()) == index {
        hits(arcs.drop_last(), index, p).push(p)
    } else {
        hits(arcs.drop_last(), index, p)
    }
}

/// The members that use the arc of index `index`: the handle of a member once
/// for each time that it goes along the arc, in the order of the members.
/// `all` holds the arcs of each member.
pub open spec fn uses(all: Seq<Seq<i32>>, index: nat) -> Seq<int>
    decreases all.len(),
{
    if all.len() == 0 {
        Seq::empty()
    } else {
        uses(all.drop_last(), index) + hits(all.last(), index, all.len() - 1)
    }
}

/// Handles as integers.
pub open spec fn handles(row: Seq<usize>) -> Seq<int> {
    Seq::new(row.len(), |i: int| row[i] as int)
}

/// A member is among the users of each arc that it goes along.
pub proof fn lemma_hits_found(arcs: Seq<i32>, at: int, p: int)
    requires
        0 <= at < arcs.len(),
    ensures
        hits(arcs, arc_index(arcs[at]), p).contains(p),
    decreases arcs.len(),
{
    let index = arc_index(arcs[at]);
    let front = arcs.drop_last();
    if at == arcs.len() - 1 {
        let found = hits(arcs, index, p);
        assert(found[found.len() - 1] == p);
    } else {
        lemma_hits_found(front, at, p);
        let before = hits(front, index, p);
        let i = choose|i: int| 0 <= i < before.len() && before[i] == p;
        assert(hits(arcs, index, p)[i] == p);
    }
}

/// Nothing but the handle given is among the hits of a member, and where
/// there is a hit, the member goes along the arc.
pub proof fn lemma_hits_only(arcs: Seq<i32>, index: nat, p: int)
    ensures
        forall|i: int| 0 <= i < hits(arcs, index, p).len() ==> #[trigger] hits(arcs, index, p)[i] == p,
        hits(arcs, index, p).len() > 0 ==> exists|at: int|
            0 <= at < arcs.len() && arc_index(#[trigger] arcs[at]) == index,
        hits(arcs, index, p).len() <= arcs.len(),
    decreases arcs.len(),
{
    if arcs.len() > 0 {
        let front = arcs.drop_last();
        lemma_hits_only(front, index, p);
        if hits(front, index, p).len() > 0 {
            let at = choose|at: int| 0 <= at < front.len() && arc_index(#[trigger] front[at]) == index;
            assert(arcs[at] == front[at]);
        }
        if arc_index(arcs.last()) == index {
            assert(arc_index(arcs[arcs.len() - 1]) == index);
        }
    }
}

/// The arcs of members, and for each arc the members that use it.
pub struct Sharing {
    members: Vec<Vec<i32>>,
    by_arc: BTreeMap<usize, usize>,
    indexes: Vec<usize>,
    users: Vec<Vec<usize>>,
}

impl Sharing {
    /// The arcs of each member.
    pub closed spec fn all(&self) -> Seq<Seq<i32>> {
        rows(self.members)
    }

    /// The arcs that are used, in the order in which they were first met.
    pub closed spec fn arcs(&self) -> Seq<nat> {
        Seq::new(self.indexes@.len(), |r: int| self.indexes@[r] as nat)
    }

    /// What holds at all times: each arc that is used is on record once, with
    /// the members that use it.
    pub closed spec fn wf(&self) -> bool {
        &&& self.users@.len() == self.indexes@.len()
        &&& forall|index: usize| #[trigger]
            self.by_arc@.contains_key(index) ==> {
                &&& self.by_arc@[index] < self.users@.len()
                &&& self.indexes@[self.by_arc@[index] as int] == index
            }
        &&& forall|r: int|
            0 <= r < self.indexes@.len() ==> {
                &&& self.by_arc@.contains_key(#[trigger] self.indexes@[r])
                &&& self.by_arc@[self.indexes@[r]] == r
                &&& handles(self.users@[r]@) == uses(self.all(), self.indexes@[r] as nat)
            }
        &&& forall|index: usize|
            !(#[trigger] self.by_arc@.contains_key(index)) ==> uses(self.all(), index as nat).len()
                == 0
    }

    /// No members yet.
    pub fn new() -> (sharing: Self)
        ensures
            sharing.wf(),
            sharing.all() == Seq::<Seq<i32>>::empty(),
    {
        let sharing = Sharing {
            members: Vec::new(),
            by_arc: BTreeMap::new(),
            indexes: Vec::new(),
            users: Vec::new(),
        };
        assert(sharing.all() =~= Seq::<Seq<i32>>::empty());
        sharing
    }

    /// How many members there are.
    pub fn len(&self) -> (count: usize)
        ensures
            count == self.all().len(),
    {
        self.members.len()
    }

    /// The arcs of the member `p`.
    pub fn member(&self, p: usize) -> (arcs: &Vec<i32>)
        requires
            p < self.all().len(),
        ensures
            arcs@ == self.all()[p as int],
    {
        &self.members[p]
    }

    /// The members that use the arc of index `index`, if any does.
    pub fn users(&self, index: usize) -> (found: Option<&Vec<usize>>)
        requires
            self.wf(),
        ensures
            match found {
                Some(row) => handles(row@) == uses(self.all(), index as nat),
                None => uses(self.all(), index as nat).len() == 0,
            },
    {
        match self.by_arc.get(&index) {
            Some(r) => {
                assert(self.indexes@[*r as int] == index);
                Some(&self.users[*r])
            },
            None => None,
        }
    }

    /// How many arcs are used.
    pub fn arcs_len(&self) -> (count: usize)
        requires
            self.wf(),
        ensures
            count == self.arcs().len(),
    {
        self.users.len()
    }

    /// The members that use the arc that stands at `r` among the arcs used.
    pub fn users_at(&self, r: usize) -> (row: &Vec<usize>)
        requires
            self.wf(),
            r < self.arcs().len(),
        ensures
            handles(row@) == uses(self.all(), self.arcs()[r as int]),
    {
        &self.users[r]
    }

    /// Every arc that a member goes along is among the arcs used, once.
    pub proof fn lemma_arcs(&self)
        requires
            self.wf(),
        ensures
            forall|r: int, s: int|
                0 <= r < self.arcs().len() && 0 <= s < self.arcs().len() && r != s
                    ==> self.arcs()[r] != self.arcs()[s],
            forall|index: nat|
                uses(self.all(), index).len() > 0 ==> exists|r: int|
                    0 <= r < self.arcs().len() && #[trigger] self.arcs()[r] == index,
    {
        assert forall|r: int, s: int|
            0 <= r < self.arcs().len() && 0 <= s < self.arcs().len() && r != s implies self.arcs()[r]
            != self.arcs()[s] by {
            assert(self.by_arc@[self.indexes@[r]] == r);
            assert(self.by_arc@[self.indexes@[s]] == s);
        }
        assert forall|index: nat| uses(self.all(), index).len() > 0 implies exists|r: int|
            0 <= r < self.arcs().len() && #[trigger] self.arcs()[r] == index by {
            lemma_uses_index(self.all(), index);
            let key = index as usize;
            assert(self.by_arc@.contains_key(key));
            let r = self.by_arc@[key] as int;
            assert(self.arcs()[r] == index);
        }
    }

    /// Takes in one more member, which goes along `arcs`.
    pub fn add(&mut self, arcs: Vec<i32>)
        requires
            old(self).wf(),
        ensures
            final(self).wf(),
            final(self).all() == old(self).all().push(arcs@),
    {
        let ghost before = self.all();
        let p = self.members.len();
        let mut k: usize = 0;
        while k < arcs.len()
            invariant
                k <= arcs.len(),
                self.members == old(self).members,
                p == self.members.len(),
                before == self.all(),
                self.users@.len() == self.indexes@.len(),
                forall|index: usize| #[trigger]
                    self.by_arc@.contains_key(index) ==> {
                        &&& self.by_arc@[index] < self.users@.len()
                        &&& self.indexes@[self.by_arc@[index] as int] == index
                    },
                forall|r: int|
                    0 <= r < self.indexes@.len() ==> {
                        &&& self.by_arc@.contains_key(#[trigger] self.indexes@[r])
                        &&& self.by_arc@[self.indexes@[r]] == r
                        &&& handles(self.users@[r]@) == uses(before, self.indexes@[r] as nat) + hits(
                            arcs@.take(k as int),
                            self.indexes@[r] as nat,
                            p as int,
                        )
                    },
                forall|index: usize|
                    !(#[trigger] self.by_arc@.contains_key(index)) ==> uses(before, index as nat).len()
                        == 0 && hits(arcs@.take(k as int), index as nat, p as int).len() == 0,
            decreases arcs.len() - k,
        {
            let arc = arcs[k];
            let index = translate(arc);
            let ghost seen = arcs@.take(k as int);
            let ghost more = arcs@.take(k + 1);
            assert(more.drop_last() == seen);
            assert(more.last() == arc);
            let ghost table = self.by_arc@;
            let ghost lists = self.users@;
            let ghost keys = self.indexes@;
            let row: Option<usize> = match self.by_arc.get(&index) {
                Some(row) => Some(*row),
                None => None,
            };
            match row {
                Some(row) => {
                    assert(keys[row as int] == index);
                    self.users[row].push(p);
                    assert(handles(self.users@[row as int]@) =~= handles(lists[row as int]@).push(
                        p as int,
                    ));
                    assert forall|r: int| 0 <= r < self.indexes@.len() implies {
                        &&& self.by_arc@.contains_key(#[trigger] self.indexes@[r])
                        &&& self.by_arc@[self.indexes@[r]] == r
                        &&& handles(self.users@[r]@) == uses(before, self.indexes@[r] as nat) + hits(
                            more,
                            self.indexes@[r] as nat,
                            p as int,
                        )
                    } by {
                        if r == row {
                            assert(handles(self.users@[r]@) =~= uses(before, index as nat) + hits(
                                more,
                                index as nat,
                                p as int,
                            ));
                        } else {
                            assert(self.users@[r] == lists[r]);
                            assert(keys[r] != index);
                        }
                    }
                },
                None => {
                    let mut first: Vec<usize> = Vec::new();
                    first.push(p);
                    let row = self.users.len();
                    self.users.push(first);
                    self.indexes.push(index);
                    self.by_arc.insert(index, row);
                    assert(uses(before, index as nat) =~= Seq::<int>::empty());
                    assert(hits(seen, index as nat, p as int) =~= Seq::<int>::empty());
                    assert forall|other: usize| #[trigger]
                        self.by_arc@.contains_key(other) implies {
                        &&& self.by_arc@[other] < self.users@.len()
                        &&& self.indexes@[self.by_arc@[other] as int] == other
                    } by {
                        if other != index {
                            assert(table.contains_key(other));
                        }
                    }
                    assert forall|r: int| 0 <= r < self.indexes@.len() implies {
                        &&& self.by_arc@.contains_key(#[trigger] self.indexes@[r])
                        &&& self.by_arc@[self.indexes@[r]] == r
                        &&& handles(self.users@[r]@) == uses(before, self.indexes@[r] as nat) + hits(
                            more,
                            self.indexes@[r] as nat,
                            p as int,
                        )
                    } by {
                        if r == row {
                            assert(handles(self.users@[r]@) =~= seq![p as int]);
                            assert(handles(self.users@[r]@) =~= uses(before, index as nat) + hits(
                                more,
                                index as nat,
                                p as int,
                            ));
                        } else {
                            assert(self.indexes@[r] == keys[r]);
                            assert(table.contains_key(keys[r]));
                            assert(keys[r] != index);
                            assert(self.users@[r] == lists[r]);
                        }
                    }
                },
            }
            k += 1;
        }
        assert(arcs@.take(k as int) == arcs@);
        self.members.push(arcs);
        let ghost after = before.push(arcs@);
        assert(self.all() =~= after);
        assert(after.drop_last() == before);
    }
}

/// Whether one of `arcs` has the index `index`.
pub open spec fn goes_along(arcs: Seq<i32>, index: nat) -> bool {
    exists|at: int| 0 <= at < arcs.len() && arc_index(#[trigger] arcs[at]) == index
}

/// Whether the members `p` and `q` share an arc: whether one arc is gone
/// along by both.
pub open spec fn touch(all: Seq<Seq<i32>>, p: int, q: int) -> bool {
    exists|index: nat| #[trigger] goes_along(all[p], index) && goes_along(all[q], index)
}

/// The hits of a member hold its handle, and hold it when the member goes
/// along the arc.
pub proof fn lemma_hits_contains(arcs: Seq<i32>, index: nat, p: int, x: int)
    ensures
        hits(arcs, index, p).contains(x) <==> (x == p && goes_along(arcs, index)),
{
    lemma_hits_only(arcs, index, p);
    let found = hits(arcs, index, p);
    if found.contains(x) {
        let i = choose|i: int| 0 <= i < found.len() && found[i] == x;
        assert(found[i] == p);
    }
    if x == p && goes_along(arcs, index) {
        let at = choose|at: int| 0 <= at < arcs.len() && arc_index(#[trigger] arcs[at]) == index;
        lemma_hits_found(arcs, at, p);
    }
}

/// The users of an arc are the members that go along it.
pub proof fn lemma_uses_contains(all: Seq<Seq<i32>>, index: nat, q: int)
    ensures
        uses(all, index).contains(q) <==> (0 <= q < all.len() && goes_along(all[q], index)),
    decreases all.len(),
{
    if all.len() > 0 {
        let front = all.drop_last();
        let last = all.len() - 1;
        let before = uses(front, index);
        let own = hits(all.last(), index, last);
        lemma_uses_contains(front, index, q);
        lemma_hits_contains(all.last(), index, last, q);
        let both = before + own;
        if before.contains(q) {
            let i = choose|i: int| 0 <= i < before.len() && before[i] == q;
            assert(both[i] == q);
            assert(front[q] == all[q]);
        }
        if own.contains(q) {
            let i = choose|i: int| 0 <= i < own.len() && own[i] == q;
            assert(both[before.len() + i] == q);
        }
        if both.contains(q) {
            let i = choose|i: int| 0 <= i < both.len() && both[i] == q;
            if i < before.len() {
                assert(before[i] == q);
            } else {
                assert(own[i - before.len()] == q);
            }
        }
        if 0 <= q < last {
            assert(front[q] == all[q]);
        }
    }
}

/// The users of an arc are members that there are.
pub proof fn lemma_uses_within(all: Seq<Seq<i32>>, index: nat)
    ensures
        forall|t: int|
            0 <= t < uses(all, index).len() ==> 0 <= #[trigger] uses(all, index)[t] < all.len(),
    decreases all.len(),
{
    if all.len() > 0 {
        let front = uses(all.drop_last(), index);
        let own = hits(all.last(), index, all.len() - 1);
        lemma_uses_within(all.drop_last(), index);
        lemma_hits_only(all.last(), index, all.len() - 1);
        assert forall|t: int| 0 <= t < uses(all, index).len() implies 0 <= #[trigger] uses(
            all,
            index,
        )[t] < all.len() by {
            if t < front.len() {
                assert(uses(all, index)[t] == front[t]);
            } else {
                assert(uses(all, index)[t] == own[t - front.len()]);
            }
        }
    }
}

/// An arc that any member uses has an index that a reference can have.
pub proof fn lemma_uses_index(all: Seq<Seq<i32>>, index: nat)
    requires
        uses(all, index).len() > 0,
    ensures
        index <= 0x7fff_ffff,
    decreases all.len(),
{
    if all.len() > 0 {
        if hits(all.last(), index, all.len() - 1).len() > 0 {
            lemma_hits_only(all.last(), index, all.len() - 1);
        } else {
            lemma_uses_index(all.drop_last(), index);
        }
    }
}

} // verus!
