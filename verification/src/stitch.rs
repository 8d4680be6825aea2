//! Stitching of arcs into fragments: chains of arcs in which each arc starts
//! where the one before it ends.
//!
//! Arcs are taken one at a time. An arc that starts where a fragment ends is
//! appended to it, an arc that ends where a fragment starts is put in front of
//! it, and an arc that does neither starts a fragment of its own. When an
//! appended arc ends where another fragment starts, the two fragments become
//! one. Fragments live in an arena and are known to two indexes, by the key
//! they start at and by the key they end at, through their handle.

use vstd::prelude::*;
use std::collections::{BTreeMap, VecDeque};
use crate::{arc_index, translate};
use crate::chains::{lemma_fragments_are_chains, linked};
use crate::keys::{in_order, lemma_pairs_are_keys, ordered_keys};
use crate::topology::{Ends, Topology, rows};

verus! {

/// A chain of arcs, with the keys of the positions it starts and ends at.
pub struct Fragment {
    pub items: Seq<i32>,
    pub start: (i32, i32),
    pub end: (i32, i32),
}

/// The fragments made so far, and for each key the handle of the fragment
/// that was last seen to start, or to end, at it.
pub struct Stitching {
    pub fragments: Seq<Fragment>,
    pub by_start: Map<(i32, i32), int>,
    pub by_end: Map<(i32, i32), int>,
}

/// The key of the position that the arc `arc` starts at, in the direction the
/// reference asks for.
pub open spec fn start_of(ends: Seq<Ends>, arc: i32) -> (i32, i32) {
    if arc < 0 {
        ends[arc_index(arc) as int].end
    } else {
        ends[arc_index(arc) as int].start
    }
}

/// The key of the position that the arc `arc` ends at, in the direction the
/// reference asks for.
pub open spec fn end_of(ends: Seq<Ends>, arc: i32) -> (i32, i32) {
    if arc < 0 {
        ends[arc_index(arc) as int].start
    } else {
        ends[arc_index(arc) as int].end
    }
}

/// Whether every reference of `arcs` names an arc that `ends` knows.
pub open spec fn known(ends: Seq<Ends>, arcs: Seq<i32>) -> bool {
    forall|i: int| 0 <= i < arcs.len() ==> arc_index(#[trigger] arcs[i]) < ends.len()
}

/// `s` with the elements at `i` and `j` exchanged.
pub open spec fn swapped(s: Seq<i32>, i: int, j: int) -> Seq<i32> {
    s.update(i, s[j]).update(j, s[i])
}

/// The references after the first `n` of them have been sorted for emptiness,
/// with the number of empty arcs found among those. Each empty arc is
/// exchanged with the reference behind the empty arcs found before it.
pub open spec fn sifted(ends: Seq<Ends>, arcs: Seq<i32>, n: nat) -> (Seq<i32>, int)
    decreases n,
{
    if n == 0 {
        (arcs, 0)
    } else {
        let (before, found) = sifted(ends, arcs, (n - 1) as nat);
        if ends[arc_index(before[n - 1]) as int].empty {
            (swapped(before, found, n - 1), found + 1)
        } else {
            (before, found)
        }
    }
}

/// The references in the order in which they are stitched: the empty arcs
/// first, since an arc that comes later may take them in.
pub open spec fn empties_first(ends: Seq<Ends>, arcs: Seq<i32>) -> Seq<i32> {
    sifted(ends, arcs, arcs.len()).0
}

/// Nothing stitched yet.
pub open spec fn nothing() -> Stitching {
    Stitching { fragments: Seq::empty(), by_start: Map::empty(), by_end: Map::empty() }
}

/// The stitching after `arc` has been taken into `s`.
pub open spec fn taken(ends: Seq<Ends>, s: Stitching, arc: i32) -> Stitching {
    let start = start_of(ends, arc);
    let end = end_of(ends, arc);
    if s.by_end.contains_key(start) {
        // The arc continues the fragment that ends at its start.
        let f = s.by_end[start];
        let longer = Fragment { items: s.fragments[f].items.push(arc), start: s.fragments[f].start, end };
        if s.by_start.contains_key(end) {
            let g = s.by_start[end];
            if g == f {
                // The fragment now ends where it starts: a ring.
                Stitching {
                    fragments: s.fragments.update(f, longer),
                    by_start: s.by_start.remove(end).insert(longer.start, f),
                    by_end: s.by_end.remove(start).insert(end, f),
                }
            } else {
                // The arc bridges two fragments, which become one.
                let both = Fragment {
                    items: longer.items + s.fragments[g].items,
                    start: longer.start,
                    end: s.fragments[g].end,
                };
                Stitching {
                    fragments: s.fragments.update(f, longer).push(both),
                    by_start: s.by_start.remove(end).insert(both.start, s.fragments.len() as int),
                    by_end: s.by_end.remove(start).insert(both.end, s.fragments.len() as int),
                }
            }
        } else {
            Stitching {
                fragments: s.fragments.update(f, longer),
                by_start: s.by_start.insert(longer.start, f),
                by_end: s.by_end.remove(start).insert(end, f),
            }
        }
    } else if s.by_start.contains_key(end) {
        // The arc leads into the fragment that starts at its end. No
        // fragment ends at the arc's start, so there is nothing to bridge.
        let f = s.by_start[end];
        let longer = Fragment { items: seq![arc] + s.fragments[f].items, start, end: s.fragments[f].end };
        Stitching {
            fragments: s.fragments.update(f, longer),
            by_start: s.by_start.remove(end).insert(start, f),
            by_end: s.by_end.insert(longer.end, f),
        }
    } else {
        let alone = Fragment { items: seq![arc], start, end };
        Stitching {
            fragments: s.fragments.push(alone),
            by_start: s.by_start.insert(start, s.fragments.len() as int),
            by_end: s.by_end.insert(end, s.fragments.len() as int),
        }
    }
}

/// The stitching after the arcs of `arcs` have been taken in, in order.
pub open spec fn taken_all(ends: Seq<Ends>, arcs: Seq<i32>) -> Stitching
    decreases arcs.len(),
{
    if arcs.len() == 0 {
        nothing()
    } else {
        taken(ends, taken_all(ends, arcs.drop_last()), arcs.last())
    }
}

/// Whether every handle that the two indexes of `s` hold names a fragment of
/// `s`.
pub open spec fn handles_valid(s: Stitching) -> bool {
    &&& forall|k: (i32, i32)| #[trigger]
        s.by_start.contains_key(k) ==> 0 <= s.by_start[k] < s.fragments.len()
    &&& forall|k: (i32, i32)| #[trigger]
        s.by_end.contains_key(k) ==> 0 <= s.by_end[k] < s.fragments.len()
}

/// The handles that `index` holds, in the order of their keys.
pub open spec fn handles_in_order(index: Map<(i32, i32), int>) -> Seq<int> {
    in_order(index.dom()).map_values(|k: (i32, i32)| index[k])
}

/// The handles of `next`, in order, that are not yet among `done`: those that
/// a pass over `next` hands out, each once.
pub open spec fn fresh(next: Seq<int>, done: Seq<int>) -> Seq<int>
    decreases next.len(),
{
    if next.len() == 0 {
        Seq::empty()
    } else {
        let before = fresh(next.drop_last(), done);
        if done.contains(next.last()) || before.contains(next.last()) {
            before
        } else {
            before.push(next.last())
        }
    }
}

/// The handles of the fragments that come out of `s`, in the order in which
/// they come out: first those known by the key they end at, then the others
/// known by the key they start at.
pub open spec fn flushed(s: Stitching) -> Seq<int> {
    let first = fresh(handles_in_order(s.by_end), Seq::empty());
    first + fresh(handles_in_order(s.by_start), first)
}

/// Whether the arc of index `index` is part of one of the fragments `out` of
/// `s`.
pub open spec fn held(s: Stitching, out: Seq<int>, index: nat) -> bool {
    exists|at: int, i: int|
        0 <= at < out.len() && 0 <= i < s.fragments[out[at]].items.len() && arc_index(
            #[trigger] s.fragments[out[at]].items[i],
        ) == index
}

/// Whether the arc of index `index` is part of a fragment of `s` that comes
/// out.
pub open spec fn is_stitched(s: Stitching, index: nat) -> bool {
    held(s, flushed(s), index)
}

/// The fragments of one arc, for each arc of `arcs` that no fragment of `s`
/// that comes out holds.
pub open spec fn leftovers(s: Stitching, arcs: Seq<i32>) -> Seq<Seq<i32>>
    decreases arcs.len(),
{
    if arcs.len() == 0 {
        Seq::empty()
    } else if is_stitched(s, arc_index(arcs.last())) {
        leftovers(s, arcs.drop_last())
    } else {
        leftovers(s, arcs.drop_last()).push(seq![arcs.last()])
    }
}

/// The fragments that stitching `arcs` gives: the fragments that come out of
/// the stitching, then one fragment for each arc that is in none of them.
pub open spec fn stitched(ends: Seq<Ends>, arcs: Seq<i32>) -> Seq<Seq<i32>> {
    let order = empties_first(ends, arcs);
    let s = taken_all(ends, order);
    flushed(s).map_values(|h: int| s.fragments[h].items) + leftovers(s, order)
}

/// A fragment as the stitcher keeps it.
struct Chain {
    items: VecDeque<i32>,
    start: (i32, i32),
    end: (i32, i32),
    /// Whether the fragment has come out and takes no more arcs.
    finished: bool,
}

/// The index that a pass over the fragments goes by.
pub enum FlushDir {
    /// By the key at which a fragment ends.
    EndToStart,
    /// By the key at which a fragment starts.
    StartToEnd,
}

/// A stitcher: the fragments made of the arcs taken so far.
pub struct Stitch<'a, P> {
    topology: &'a Topology<P>,
    chains: Vec<Chain>,
    fragment_by_start: BTreeMap<(i32, i32), usize>,
    fragment_by_end: BTreeMap<(i32, i32), usize>,
    stitched_arcs: Vec<bool>,
    fragments: Vec<usize>,
}

/// An index of handles as a map to integers.
pub open spec fn as_handles(index: Map<(i32, i32), usize>) -> Map<(i32, i32), int> {
    Map::new(|k: (i32, i32)| index.contains_key(k), |k: (i32, i32)| index[k] as int)
}

impl<'a, P> Stitch<'a, P> {
    /// The fragments and the two indexes.
    pub closed spec fn view(&self) -> Stitching {
        Stitching {
            fragments: Seq::new(
                self.chains@.len(),
                |h: int|
                    Fragment {
                        items: self.chains@[h].items@,
                        start: self.chains@[h].start,
                        end: self.chains@[h].end,
                    },
            ),
            by_start: as_handles(self.fragment_by_start@),
            by_end: as_handles(self.fragment_by_end@),
        }
    }

    /// The handles of the fragments that have come out, in the order in which
    /// they came.
    pub closed spec fn out(&self) -> Seq<int> {
        Seq::new(self.fragments@.len(), |i: int| self.fragments@[i] as int)
    }

    /// The ends of the arcs that are stitched.
    pub closed spec fn junctions(&self) -> Seq<Ends> {
        self.topology.ends()
    }

    /// What holds of a stitcher at all times: its handles name fragments, its
    /// fragments are made of arcs of the topology, and it knows which
    /// fragments have come out and which arcs those hold.
    pub closed spec fn wf(&self) -> bool {
        &&& handles_valid(self@)
        &&& self.stitched_arcs@.len() == self.topology.arcs@.len()
        &&& forall|h: int, i: int|
            0 <= h < self.chains@.len() && 0 <= i < self.chains@[h].items@.len() ==> arc_index(
                #[trigger] self.chains@[h].items@[i],
            ) < self.topology.arcs@.len()
        &&& forall|at: int|
            0 <= at < self.fragments@.len() ==> (#[trigger] self.fragments@[at]) < self.chains@.len()
        &&& forall|h: int|
            0 <= h < self.chains@.len() ==> ((#[trigger] self.chains@[h]).finished
                <==> self.out().contains(h))
        &&& forall|n: int|
            0 <= n < self.stitched_arcs@.len() ==> (#[trigger] self.stitched_arcs@[n] <==> held(
                self@,
                self.out(),
                n as nat,
            ))
    }

    /// A stitcher over the arcs of `topology` that has taken no arc yet.
    pub fn new(topology: &'a Topology<P>) -> (stitch: Self)
        ensures
            stitch.wf(),
            stitch@ == nothing(),
            stitch.out() == Seq::<int>::empty(),
            stitch.junctions() == topology.ends(),
    {
        let mut stitched_arcs: Vec<bool> = Vec::new();
        let mut n: usize = 0;
        while n < topology.arcs.len()
            invariant
                n <= topology.arcs.len(),
                stitched_arcs.len() == n,
                forall|k: int| 0 <= k < n ==> !stitched_arcs[k],
            decreases topology.arcs.len() - n,
        {
            stitched_arcs.push(false);
            n += 1;
        }
        let stitch = Stitch {
            topology,
            chains: Vec::new(),
            fragment_by_start: BTreeMap::new(),
            fragment_by_end: BTreeMap::new(),
            stitched_arcs,
            fragments: Vec::new(),
        };
        assert(stitch@.fragments =~= nothing().fragments);
        assert(stitch@.by_start =~= nothing().by_start);
        assert(stitch@.by_end =~= nothing().by_end);
        assert(stitch.out() =~= Seq::<int>::empty());
        stitch
    }

    /// The keys of the two ends of the arc that `i` refers to: where it
    /// starts and where it ends, in the direction the reference asks for.
    pub fn ends(&self, i: i32) -> (e: ((i32, i32), (i32, i32)))
        requires
            arc_index(i) < self.junctions().len(),
        ensures
            e.0 == start_of(self.junctions(), i),
            e.1 == end_of(self.junctions(), i),
    {
        let arc = &self.topology.arcs[translate(i)];
        let p0 = arc.start;
        let p1 = arc.end;
        if i < 0 {
            (p1, p0)
        } else {
            (p0, p1)
        }
    }

    /// Takes the arc that `i` refers to into the fragments: appends it to the
    /// fragment that ends where it starts, or puts it in front of the one
    /// that starts where it ends, or makes a fragment of it alone.
    pub fn take(&mut self, i: i32)
        requires
            old(self).wf(),
            old(self).out().len() == 0,
            arc_index(i) < old(self).junctions().len(),
        ensures
            final(self).wf(),
            final(self)@ == taken(old(self).junctions(), old(self)@, i),
            final(self).out() == old(self).out(),
            final(self).junctions() == old(self).junctions(),
    {
        proof {
            lemma_pairs_are_keys();
        }
        let ghost before = self@;
        let ghost goal = taken(self.junctions(), before, i);
        let (start, end) = self.ends(i);
        let at_end: Option<usize> = match self.fragment_by_end.get(&start) {
            Some(f) => Some(*f),
            None => None,
        };
        let at_start: Option<usize> = match self.fragment_by_start.get(&end) {
            Some(f) => Some(*f),
            None => None,
        };
        assert(before.by_end.contains_key(start) <==> at_end is Some);
        assert(before.by_start.contains_key(end) <==> at_start is Some);
        match at_end {
            Some(f) => {
                assert(before.by_end[start] == f);
                self.fragment_by_end.remove(&start);
                self.chains[f].items.push_back(i);
                self.chains[f].end = end;
                let first = self.chains[f].start;
                match at_start {
                    Some(g) => {
                        assert(before.by_start[end] == g);
                        self.fragment_by_start.remove(&end);
                        if g == f {
                            self.fragment_by_start.insert(first, f);
                            self.fragment_by_end.insert(end, f);
                        } else {
                            let last = self.chains[g].end;
                            let mut items: VecDeque<i32> = VecDeque::new();
                            let mut k: usize = 0;
                            while k < self.chains[f].items.len()
                                invariant
                                    f < self.chains.len(),
                                    k <= self.chains[f as int].items.len(),
                                    items@ == self.chains[f as int].items@.take(k as int),
                                decreases self.chains[f as int].items.len() - k,
                            {
                                items.push_back(self.chains[f].items[k]);
                                k += 1;
                            }
                            assert(items@ == self.chains[f as int].items@);
                            let mut k: usize = 0;
                            while k < self.chains[g].items.len()
                                invariant
                                    f < self.chains.len(),
                                    g < self.chains.len(),
                                    k <= self.chains[g as int].items.len(),
                                    items@ == self.chains[f as int].items@ + self.chains[g as int].items@.take(
                                        k as int,
                                    ),
                                decreases self.chains[g as int].items.len() - k,
                            {
                                items.push_back(self.chains[g].items[k]);
                                k += 1;
                            }
                            assert(self.chains[g as int].items@.take(k as int)
                                == self.chains[g as int].items@);
                            let both = Chain { items, start: first, end: last, finished: false };
                            let h = self.chains.len();
                            self.chains.push(both);
                            self.fragment_by_start.insert(first, h);
                            self.fragment_by_end.insert(last, h);
                        }
                    },
                    None => {
                        self.fragment_by_start.insert(first, f);
                        self.fragment_by_end.insert(end, f);
                    },
                }
            },
            None => {
                match at_start {
                    Some(f) => {
                        assert(before.by_start[end] == f);
                        self.fragment_by_start.remove(&end);
                        self.chains[f].items.push_front(i);
                        self.chains[f].start = start;
                        let last = self.chains[f].end;
                        self.fragment_by_start.insert(start, f);
                        self.fragment_by_end.insert(last, f);
                    },
                    None => {
                        let mut items: VecDeque<i32> = VecDeque::new();
                        items.push_back(i);
                        let alone = Chain { items, start, end, finished: false };
                        let h = self.chains.len();
                        self.chains.push(alone);
                        self.fragment_by_start.insert(start, h);
                        self.fragment_by_end.insert(end, h);
                    },
                }
            },
        }
        assert(self@.fragments =~= goal.fragments);
        assert(self@.by_start =~= goal.by_start);
        assert(self@.by_end =~= goal.by_end);
        assert(self.out() =~= old(self).out());
        assert(forall|n: nat| !held(self@, self.out(), n));
    }

    /// Lets out the fragments that the index of `direction` knows and that
    /// have not come out yet, in the order of their keys. A fragment that
    /// comes out takes no more arcs, and its arcs count as stitched.
    pub fn flush(&mut self, direction: &FlushDir)
        requires
            old(self).wf(),
        ensures
            final(self).wf(),
            final(self)@ == old(self)@,
            final(self).junctions() == old(self).junctions(),
            final(self).out() == old(self).out() + fresh(
                handles_in_order(
                    match direction {
                        FlushDir::EndToStart => old(self)@.by_end,
                        FlushDir::StartToEnd => old(self)@.by_start,
                    },
                ),
                old(self).out(),
            ),
    {
        proof {
            lemma_pairs_are_keys();
        }
        let keys = match direction {
            FlushDir::EndToStart => ordered_keys(&self.fragment_by_end),
            FlushDir::StartToEnd => ordered_keys(&self.fragment_by_start),
        };
        let ghost index = match direction {
            FlushDir::EndToStart => self@.by_end,
            FlushDir::StartToEnd => self@.by_start,
        };
        let ghost next = handles_in_order(index);
        let ghost done = self.out();
        assert(index.dom() =~= match direction {
            FlushDir::EndToStart => self.fragment_by_end@.dom(),
            FlushDir::StartToEnd => self.fragment_by_start@.dom(),
        });
        assert(next.len() == keys.len());
        assert(self.out() =~= done + fresh(next.take(0), done));
        let mut t: usize = 0;
        while t < keys.len()
            invariant
                t <= keys.len(),
                self.wf(),
                self@ == old(self)@,
                self.topology == old(self).topology,
                self.fragment_by_start == old(self).fragment_by_start,
                self.fragment_by_end == old(self).fragment_by_end,
                index == match direction {
                    FlushDir::EndToStart => self@.by_end,
                    FlushDir::StartToEnd => self@.by_start,
                },
                keys@ == in_order(index.dom()),
                next == handles_in_order(index),
                next.len() == keys.len(),
                forall|u: int| 0 <= u < keys.len() ==> index.contains_key(#[trigger] keys[u]),
                self.out() == done + fresh(next.take(t as int), done),
            decreases keys.len() - t,
        {
            let key = keys[t];
            let found = match direction {
                FlushDir::EndToStart => self.fragment_by_end.get(&key),
                FlushDir::StartToEnd => self.fragment_by_start.get(&key),
            };
            assert(index.contains_key(keys[t as int]));
            let h: usize = match found {
                Some(h) => *h,
                None => 0,
            };
            assert(h == index[key]);
            assert(next[t as int] == h);
            assert(next.take(t + 1).drop_last() == next.take(t as int));
            assert(next.take(t + 1).last() == h);
            let ghost before = self.out();
            let ghost state = self@;
            assert(before.contains(h as int) <==> (done.contains(h as int) || fresh(
                next.take(t as int),
                done,
            ).contains(h as int))) by {
                lemma_contains_either(done, fresh(next.take(t as int), done), h as int);
            }
            if !self.chains[h].finished {
                self.chains[h].finished = true;
                let ghost marks = self.stitched_arcs@;
                mark(&mut self.stitched_arcs, &self.chains[h].items);
                self.fragments.push(h);
                assert(self@ =~= state) by {
                    assert(self@.fragments =~= state.fragments);
                }
                assert(self.out() =~= before.push(h as int));
                assert forall|n: int| 0 <= n < self.stitched_arcs@.len() implies (
                #[trigger] self.stitched_arcs@[n] <==> held(self@, self.out(), n as nat)) by {
                    lemma_held_push(state, before, h as int, n as nat);
                }
                assert forall|g: int| 0 <= g < self.chains@.len() implies ((
                #[trigger] self.chains@[g]).finished <==> self.out().contains(g)) by {
                    lemma_contains_push(before, h as int, g);
                }
                assert(self.wf());
            }
            t += 1;
        }
        assert(next.take(t as int) == next);
    }

    /// The arcs of each fragment that has come out, in the order in which the
    /// fragments came out.
    pub fn plain(&self) -> (fragments: Vec<Vec<i32>>)
        requires
            self.wf(),
        ensures
            rows(fragments) == self.out().map_values(|h: int| self@.fragments[h].items),
    {
        let mut fragments: Vec<Vec<i32>> = Vec::new();
        let mut at: usize = 0;
        while at < self.fragments.len()
            invariant
                at <= self.fragments.len(),
                self.wf(),
                fragments.len() == at,
                forall|u: int|
                    0 <= u < at ==> (#[trigger] fragments[u])@
                        == self.chains[self.fragments[u] as int].items@,
            decreases self.fragments.len() - at,
        {
            let h = self.fragments[at];
            let mut items: Vec<i32> = Vec::new();
            let mut k: usize = 0;
            while k < self.chains[h].items.len()
                invariant
                    h < self.chains.len(),
                    k <= self.chains[h as int].items.len(),
                    items@ == self.chains[h as int].items@.take(k as int),
                decreases self.chains[h as int].items.len() - k,
            {
                items.push(self.chains[h].items[k]);
                k += 1;
            }
            assert(self.chains[h as int].items@.take(k as int) == self.chains[h as int].items@);
            fragments.push(items);
            at += 1;
        }
        assert(rows(fragments) =~= self.out().map_values(|h: int| self@.fragments[h].items));
        fragments
    }

    /// Tells whether the arc that `i` refers to is part of a fragment that
    /// has come out.
    pub fn is_stitched(&self, i: i32) -> (yes: bool)
        requires
            self.wf(),
            arc_index(i) < self.junctions().len(),
        ensures
            yes == held(self@, self.out(), arc_index(i)),
    {
        self.stitched_arcs[translate(i)]
    }
}

/// Sifting exchanges references and never makes one up: what was known
/// stays known, and the count of empty arcs never passes the count of arcs
/// looked at.
pub proof fn lemma_sifted_known(ends: Seq<Ends>, arcs: Seq<i32>, n: nat)
    requires
        known(ends, arcs),
        n <= arcs.len(),
    ensures
        known(ends, sifted(ends, arcs, n).0),
        sifted(ends, arcs, n).0.len() == arcs.len(),
        0 <= sifted(ends, arcs, n).1 <= n,
        forall|i: int| n <= i < arcs.len() ==> sifted(ends, arcs, n).0[i] == arcs[i],
    decreases n,
{
    if n > 0 {
        lemma_sifted_known(ends, arcs, (n - 1) as nat);
    }
}

/// A fragment of one arc.
fn single(arc: i32) -> (fragment: Vec<i32>)
    ensures
        fragment@ == seq![arc],
{
    let mut fragment: Vec<i32> = Vec::new();
    fragment.push(arc);
    fragment
}

/// Tells whether every reference of `arcs` names an arc of `topology`:
/// whether `stitch` may be called on them.
pub fn knows<P>(topology: &Topology<P>, arcs: &Vec<i32>) -> (yes: bool)
    ensures
        yes == known(topology.ends(), arcs@),
{
    let mut j: usize = 0;
    while j < arcs.len()
        invariant
            j <= arcs.len(),
            forall|i: int| 0 <= i < j ==> arc_index(#[trigger] arcs[i]) < topology.ends().len(),
        decreases arcs.len() - j,
    {
        if translate(arcs[j]) >= topology.arcs.len() {
            return false;
        }
        j += 1;
    }
    true
}

/// Stitches the arcs that `arcs` refers to into fragments.
///
/// The result holds the fragments that were joined, in the order of the keys
/// they end at (and, for those that only the index of starts still knows, of
/// the keys they start at), and then one fragment for each arc that is part
/// of none of them. A fragment that ends where it starts is a ring.
pub fn stitch<P>(topology: &Topology<P>, arcs: Vec<i32>) -> (fragments: Vec<Vec<i32>>)
    requires
        known(topology.ends(), arcs@),
    ensures
        rows(fragments) == stitched(topology.ends(), arcs@),
        forall|t: int|
            0 <= t < fragments.len() ==> {
                let fragment = (#[trigger] fragments[t])@;
                &&& fragment.len() > 0
                &&& linked(topology.ends(), fragment)
                &&& forall|i: int| 0 <= i < fragment.len() ==> arcs@.contains(#[trigger] fragment[i])
            },
{
    let ghost ends = topology.ends();
    let ghost given = arcs@;
    let mut arcs = arcs;
    let mut stitch = Stitch::new(topology);

    // Empty arcs go first: an arc that comes later may take them in.
    let mut found: usize = 0;
    let mut j: usize = 0;
    while j < arcs.len()
        invariant
            j <= arcs.len(),
            arcs.len() == given.len(),
            ends == topology.ends(),
            known(ends, given),
            (arcs@, found as int) == sifted(ends, given, j as nat),
        decreases arcs.len() - j,
    {
        proof {
            lemma_sifted_known(ends, given, j as nat);
            lemma_sifted_known(ends, given, (j + 1) as nat);
        }
        let i = arcs[j];
        if topology.arcs[translate(i)].is_empty() {
            let other = arcs[found];
            arcs.set(found, i);
            arcs.set(j, other);
            found += 1;
        }
        j += 1;
    }
    proof {
        lemma_sifted_known(ends, given, given.len());
    }
    let ghost order = arcs@;
    assert(order == empties_first(ends, given));

    let mut j: usize = 0;
    while j < arcs.len()
        invariant
            j <= arcs.len(),
            arcs@ == order,
            known(ends, order),
            stitch.wf(),
            stitch.junctions() == ends,
            stitch.out().len() == 0,
            stitch@ == taken_all(ends, order.take(j as int)),
        decreases arcs.len() - j,
    {
        assert(order.take(j + 1).drop_last() == order.take(j as int));
        stitch.take(arcs[j]);
        j += 1;
    }
    assert(order.take(j as int) == order);
    let ghost s = stitch@;

    assert(stitch.out() =~= Seq::<int>::empty());
    stitch.flush(&FlushDir::EndToStart);
    assert(stitch.out() =~= fresh(handles_in_order(s.by_end), Seq::empty()));
    stitch.flush(&FlushDir::StartToEnd);
    assert(stitch.out() == flushed(s));

    let mut fragments = stitch.plain();
    let ghost joined = rows(fragments);
    let mut j: usize = 0;
    while j < arcs.len()
        invariant
            j <= arcs.len(),
            arcs@ == order,
            known(ends, order),
            stitch.wf(),
            stitch.junctions() == ends,
            stitch@ == s,
            stitch.out() == flushed(s),
            rows(fragments) == joined + leftovers(s, order.take(j as int)),
        decreases arcs.len() - j,
    {
        assert(order.take(j + 1).drop_last() == order.take(j as int));
        assert(order.take(j + 1).last() == arcs[j as int]);
        let ghost so_far = rows(fragments);
        if !stitch.is_stitched(arcs[j]) {
            let alone = single(arcs[j]);
            fragments.push(alone);
            assert(rows(fragments) =~= so_far.push(seq![arcs[j as int]]));
            assert(leftovers(s, order.take(j + 1)) == leftovers(s, order.take(j as int)).push(
                seq![arcs[j as int]],
            ));
            assert(rows(fragments) =~= joined + leftovers(s, order.take(j + 1)));
        } else {
            assert(leftovers(s, order.take(j + 1)) == leftovers(s, order.take(j as int)));
        }
        j += 1;
    }
    assert(order.take(j as int) == order);
    assert forall|t: int| 0 <= t < fragments.len() implies {
        let fragment = (#[trigger] fragments[t])@;
        &&& fragment.len() > 0
        &&& linked(ends, fragment)
        &&& forall|i: int| 0 <= i < fragment.len() ==> given.contains(#[trigger] fragment[i])
    } by {
        lemma_fragments_are_chains(ends, given);
        assert(stitched(ends, given)[t] == fragments[t]@);
    }
    fragments
}

/// A handle is in one of two sequences exactly when it is in the two put
/// together.
pub proof fn lemma_contains_either(a: Seq<int>, b: Seq<int>, h: int)
    ensures
        (a + b).contains(h) <==> (a.contains(h) || b.contains(h)),
{
    if a.contains(h) {
        let i = choose|i: int| 0 <= i < a.len() && a[i] == h;
        assert((a + b)[i] == h);
    }
    if b.contains(h) {
        let i = choose|i: int| 0 <= i < b.len() && b[i] == h;
        assert((a + b)[a.len() + i] == h);
    }
    if (a + b).contains(h) {
        let i = choose|i: int| 0 <= i < (a + b).len() && (a + b)[i] == h;
        if i < a.len() {
            assert(a[i] == h);
        } else {
            assert(b[i - a.len()] == h);
        }
    }
}

/// A handle is in a sequence with one more handle exactly when it is that
/// handle or was in the sequence.
pub proof fn lemma_contains_push(a: Seq<int>, h: int, g: int)
    ensures
        a.push(h).contains(g) <==> (g == h || a.contains(g)),
{
    if a.contains(g) {
        let i = choose|i: int| 0 <= i < a.len() && a[i] == g;
        assert(a.push(h)[i] == g);
    }
    if g == h {
        assert(a.push(h)[a.len() as int] == g);
    }
    if a.push(h).contains(g) {
        let i = choose|i: int| 0 <= i < a.push(h).len() && a.push(h)[i] == g;
        if i < a.len() {
            assert(a[i] == g);
        }
    }
}

/// Whether the arc of index `index` is among `items`.
pub open spec fn among(items: Seq<i32>, index: nat) -> bool {
    exists|i: int| 0 <= i < items.len() && arc_index(#[trigger] items[i]) == index
}

/// An arc is held by the fragments that have come out, with one more, exactly
/// when it was held before or is part of the one that was added.
pub proof fn lemma_held_push(s: Stitching, out: Seq<int>, h: int, index: nat)
    ensures
        held(s, out.push(h), index) <==> (held(s, out, index) || among(s.fragments[h].items, index)),
{
    let more = out.push(h);
    if held(s, out, index) {
        let (at, i) = choose|at: int, i: int|
            0 <= at < out.len() && 0 <= i < s.fragments[out[at]].items.len() && arc_index(
                #[trigger] s.fragments[out[at]].items[i],
            ) == index;
        assert(more[at] == out[at]);
        assert(arc_index(s.fragments[more[at]].items[i]) == index);
    }
    if among(s.fragments[h].items, index) {
        let i = choose|i: int|
            0 <= i < s.fragments[h].items.len() && arc_index(#[trigger] s.fragments[h].items[i])
                == index;
        assert(more[out.len() as int] == h);
        assert(arc_index(s.fragments[more[out.len() as int]].items[i]) == index);
    }
    if held(s, more, index) {
        let (at, i) = choose|at: int, i: int|
            0 <= at < more.len() && 0 <= i < s.fragments[more[at]].items.len() && arc_index(
                #[trigger] s.fragments[more[at]].items[i],
            ) == index;
        if at < out.len() {
            assert(out[at] == more[at]);
            assert(arc_index(s.fragments[out[at]].items[i]) == index);
        } else {
            assert(more[at] == h);
            assert(arc_index(s.fragments[h].items[i]) == index);
        }
    }
}

/// Sets the mark of every arc of `items`.
fn mark(marks: &mut Vec<bool>, items: &VecDeque<i32>)
    requires
        forall|i: int| 0 <= i < items@.len() ==> arc_index(#[trigger] items@[i]) < old(marks)@.len(),
    ensures
        final(marks)@.len() == old(marks)@.len(),
        forall|n: int|
            0 <= n < old(marks)@.len() ==> (#[trigger] final(marks)@[n] <==> (old(marks)@[n] || among(
                items@,
                n as nat,
            ))),
{
    let mut k: usize = 0;
    while k < items.len()
        invariant
            k <= items@.len(),
            marks@.len() == old(marks)@.len(),
            forall|i: int| 0 <= i < items@.len() ==> arc_index(#[trigger] items@[i]) < marks@.len(),
            forall|n: int|
                0 <= n < marks@.len() ==> (#[trigger] marks@[n] <==> (old(marks)@[n] || among(
                    items@.take(k as int),
                    n as nat,
                ))),
        decreases items@.len() - k,
    {
        let index = translate(items[k]);
        let ghost seen = items@.take(k as int);
        let ghost more = items@.take(k + 1);
        marks.set(index, true);
        k += 1;
        assert forall|n: int| 0 <= n < marks@.len() implies (#[trigger] marks@[n] <==> (old(
            marks,
        )@[n] || among(more, n as nat))) by {
            if among(seen, n as nat) {
                let i = choose|i: int| 0 <= i < seen.len() && arc_index(#[trigger] seen[i]) == n;
                assert(arc_index(more[i]) == n);
            }
            if n == index {
                assert(arc_index(more[k - 1]) == n);
            }
            if among(more, n as nat) {
                let i = choose|i: int| 0 <= i < more.len() && arc_index(#[trigger] more[i]) == n;
                if i < k - 1 {
                    assert(arc_index(seen[i]) == n);
                }
            }
        }
    }
    assert(items@.take(k as int) == items@);
}

} // verus!
