//! Dissolution of polygons along the arcs they share.
//!
//! Polygons that share an arc, directly or through other polygons, form a
//! group. Within a group the arcs that more than one polygon uses are inside
//! the merged shape and are dropped; the arcs that are used once are its
//! boundary and are stitched into rings. Of the rings of a group, the one of
//! greatest area is the exterior and the others are holes.

use vstd::prelude::*;
use vstd::std_specs::cmp::PartialEqSpec;
use crate::{arc_index, translate};
use crate::feature::{all_drawable, feature, polygon};
use crate::polygon_u::PolygonU;
use crate::groups::{
    filled, grouped, groups, lemma_grouped_within, lemma_marked_count_bound, lemma_scanned_counts,
    lemma_scanned_within, marked_count, met, scanned,
};
use crate::sharing::{Sharing, handles, uses};
use crate::stitch::{known, knows, stitch, stitched};
use crate::topology::{Ends, Geometry, GeometryView, NamedGeometry, Topology, Value, rows};

verus! {

/// Whether `o` is made of polygons only, at whatever depth of collections.
pub open spec fn polygonal<P>(o: Value<P>) -> bool
    decreases o,
{
    match o {
        Value::Polygon(_) => true,
        Value::MultiPolygon(_) => true,
        Value::GeometryCollection(gs) => forall|i: int|
            0 <= i < gs.len() ==> polygonal(#[trigger] gs[i]),
        _ => false,
    }
}

/// The polygons of `o`, each as its rings, in the order in which they stand
/// in `o`.
pub open spec fn polygons_of<P>(o: Value<P>) -> Seq<Seq<Seq<i32>>>
    decreases o, 0nat,
{
    match o {
        Value::Polygon(rings) => seq![rows(rings)],
        Value::MultiPolygon(ps) => Seq::new(ps.len() as nat, |i: int| rows(ps[i])),
        Value::GeometryCollection(gs) => polygons_among(gs, gs.len() as nat),
        _ => Seq::empty(),
    }
}

/// The polygons of the first `n` members of `gs`.
pub open spec fn polygons_among<P>(gs: Vec<Value<P>>, n: nat) -> Seq<Seq<Seq<i32>>>
    decreases gs, n,
{
    if n == 0 || n > gs.len() {
        Seq::empty()
    } else {
        polygons_among(gs, (n - 1) as nat) + polygons_of(gs[n - 1])
    }
}

/// The polygons of the first `n` of `objects`.
pub open spec fn polygons_in<P>(objects: Seq<NamedGeometry<P>>, n: nat) -> Seq<Seq<Seq<i32>>>
    decreases n,
{
    if n == 0 || n > objects.len() {
        Seq::empty()
    } else {
        polygons_in(objects, (n - 1) as nat) + polygons_of(objects[n - 1].geometry)
    }
}

/// The arcs of a polygon, ring after ring.
pub open spec fn flat(rings: Seq<Seq<i32>>) -> Seq<i32>
    decreases rings.len(),
{
    if rings.len() == 0 {
        Seq::empty()
    } else {
        flat(rings.drop_last()) + rings.last()
    }
}

/// The arcs of `arcs` that one polygon alone uses, and only once.
pub open spec fn lone(all: Seq<Seq<i32>>, arcs: Seq<i32>) -> Seq<i32>
    decreases arcs.len(),
{
    if arcs.len() == 0 {
        Seq::empty()
    } else if uses(all, arc_index(arcs.last())).len() < 2 {
        lone(all, arcs.drop_last()).push(arcs.last())
    } else {
        lone(all, arcs.drop_last())
    }
}

/// The boundary of a group: the arcs of its polygons, in order, that are
/// used once.
pub open spec fn exterior(all: Seq<Seq<i32>>, group: Seq<int>) -> Seq<i32>
    decreases group.len(),
{
    if group.len() == 0 {
        Seq::empty()
    } else {
        exterior(all, group.drop_last()) + lone(all, all[group.last()])
    }
}

/// Whether the boundary of each of `groups` is made of arcs that `ends`
/// knows.
pub open spec fn boundaries_known(ends: Seq<Ends>, all: Seq<Seq<i32>>, groups: Seq<Seq<int>>) -> bool {
    forall|g: int| 0 <= g < groups.len() ==> known(ends, exterior(all, #[trigger] groups[g]))
}

/// The rings of each of `groups`, stitched from its boundary. A group of
/// which no arc is left has no rings and is passed over.
pub open spec fn dissolved(ends: Seq<Ends>, all: Seq<Seq<i32>>, groups: Seq<Seq<int>>) -> Seq<
    Seq<Seq<i32>>,
>
    decreases groups.len(),
{
    if groups.len() == 0 {
        Seq::empty()
    } else {
        let rings = stitched(ends, exterior(all, groups.last()));
        if rings.len() == 0 {
            dissolved(ends, all, groups.drop_last())
        } else {
            dissolved(ends, all, groups.drop_last()).push(rings)
        }
    }
}

/// The arcs of each of `polygons`.
pub open spec fn flats(polygons: Seq<Seq<Seq<i32>>>) -> Seq<Seq<i32>> {
    Seq::new(polygons.len(), |p: int| flat(polygons[p]))
}

/// Taking one more ring adds its arcs behind those of the rings before it.
pub proof fn lemma_flat_step(rings: Seq<Seq<i32>>, n: int)
    requires
        0 <= n < rings.len(),
    ensures
        flat(rings.take(n + 1)) == flat(rings.take(n)) + rings[n],
{
    assert(rings.take(n + 1).drop_last() == rings.take(n));
}

/// The arcs of the rings `rings`, ring after ring.
pub fn flatten(rings: &Vec<Vec<i32>>) -> (arcs: Vec<i32>)
    ensures
        arcs@ == flat(rows(*rings)),
{
    let mut arcs: Vec<i32> = Vec::new();
    let ghost all = rows(*rings);
    let mut r: usize = 0;
    while r < rings.len()
        invariant
            r <= rings.len(),
            all == rows(*rings),
            arcs@ == flat(all.take(r as int)),
        decreases rings.len() - r,
    {
        let ring = &rings[r];
        let ghost before = arcs@;
        let mut k: usize = 0;
        while k < ring.len()
            invariant
                k <= ring.len(),
                arcs@ == before + ring@.take(k as int),
            decreases ring.len() - k,
        {
            arcs.push(ring[k]);
            k += 1;
        }
        assert(ring@.take(k as int) == ring@);
        proof {
            lemma_flat_step(all, r as int);
        }
        r += 1;
    }
    assert(all.take(r as int) == all);
    arcs
}

/// A copy of the rings `rings`.
pub fn copy_rings(rings: &Vec<Vec<i32>>) -> (copy: Vec<Vec<i32>>)
    ensures
        rows(copy) == rows(*rings),
{
    let mut copy: Vec<Vec<i32>> = Vec::new();
    let mut r: usize = 0;
    while r < rings.len()
        invariant
            r <= rings.len(),
            copy.len() == r,
            forall|i: int| 0 <= i < r ==> (#[trigger] copy[i])@ == rings[i]@,
        decreases rings.len() - r,
    {
        let ring = &rings[r];
        let mut arcs: Vec<i32> = Vec::new();
        let mut k: usize = 0;
        while k < ring.len()
            invariant
                k <= ring.len(),
                arcs@ == ring@.take(k as int),
            decreases ring.len() - k,
        {
            arcs.push(ring[k]);
            k += 1;
        }
        assert(ring@.take(k as int) == ring@);
        copy.push(arcs);
        r += 1;
    }
    assert(rows(copy) =~= rows(*rings));
    copy
}

/// Why polygons could not be merged.
#[derive(Debug, PartialEq, Eq)]
pub enum MergeError {
    /// One of the objects is, or holds, a geometry that is no polygon.
    NotAPolygon,
    /// An arc of the boundary of the merged polygons is not an arc of the
    /// topology.
    UnknownArc,
}

/// The polygons that are to be merged, and for each arc the polygons that
/// use it.
pub struct MergeArcs<'a, P> {
    polygons: Vec<PolygonU>,
    polygons_by_arc: Sharing,
    groups: Vec<Vec<usize>>,
    topology: &'a Topology<P>,
}

impl<'a, P> MergeArcs<'a, P> {
    /// The arcs of each polygon taken in so far.
    pub closed spec fn all(&self) -> Seq<Seq<i32>> {
        self.polygons_by_arc.all()
    }

    /// The marks of the polygons.
    pub closed spec fn marks(&self) -> Seq<bool> {
        Seq::new(self.polygons@.len(), |p: int| self.polygons@[p].marked())
    }

    /// The groups found so far.
    pub closed spec fn found(&self) -> Seq<Seq<int>> {
        Seq::new(self.groups@.len(), |g: int| handles(self.groups@[g]@))
    }

    /// The ends of the arcs of the topology.
    pub closed spec fn junctions(&self) -> Seq<Ends> {
        self.topology.ends()
    }

    /// Whether no polygon carries a mark.
    pub closed spec fn unmarked(&self) -> bool {
        forall|p: int| 0 <= p < self.polygons@.len() ==> !(#[trigger] self.polygons@[p]).marked()
    }

    /// What holds at all times: the polygons are on record with the arcs of
    /// their rings, and for each arc the polygons that use it.
    pub closed spec fn wf(&self) -> bool {
        &&& self.polygons_by_arc.wf()
        &&& self.polygons@.len() == self.polygons_by_arc.all().len()
        &&& forall|p: int|
            0 <= p < self.polygons@.len() ==> flat((#[trigger] self.polygons@[p]).rings())
                == self.polygons_by_arc.all()[p]
    }

    /// Nothing taken in yet.
    pub fn new(topology: &'a Topology<P>) -> (ma: Self)
        ensures
            ma.wf(),
            ma.unmarked(),
            ma.all() == Seq::<Seq<i32>>::empty(),
            ma.found() == Seq::<Seq<int>>::empty(),
            ma.junctions() == topology.ends(),
    {
        let ma = MergeArcs {
            polygons: Vec::new(),
            polygons_by_arc: Sharing::new(),
            groups: Vec::new(),
            topology,
        };
        assert(ma.found() =~= Seq::<Seq<int>>::empty());
        ma
    }

    /// Takes in the polygon with the rings `polygon`: puts it on record with
    /// every arc that it uses.
    pub fn extract(&mut self, polygon: &Vec<Vec<i32>>)
        requires
            old(self).wf(),
        ensures
            final(self).wf(),
            final(self).all() == old(self).all().push(flat(rows(*polygon))),
            old(self).unmarked() ==> final(self).unmarked(),
            final(self).found() == old(self).found(),
            final(self).junctions() == old(self).junctions(),
    {
        let arcs = flatten(polygon);
        self.polygons_by_arc.add(arcs);
        let rings = copy_rings(polygon);
        let record = PolygonU::from(rings);
        proof {
            PolygonU::lemma_unmarked(rings);
        }
        self.polygons.push(record);
        assert(self.found() =~= old(self).found());
        assert forall|p: int| 0 <= p < self.polygons@.len() implies flat(
            (#[trigger] self.polygons@[p]).rings(),
        ) == self.polygons_by_arc.all()[p] by {
            if p < old(self).polygons@.len() {
                assert(self.polygons@[p] == old(self).polygons@[p]);
            }
        }
    }

    /// Takes in every polygon of `o`, in order.
    #[verifier::loop_isolation(false)]
    pub fn geometry(&mut self, o: &Value<P>)
        requires
            old(self).wf(),
            polygonal(*o),
        ensures
            final(self).wf(),
            final(self).all() == old(self).all() + flats(polygons_of(*o)),
            old(self).unmarked() ==> final(self).unmarked(),
            final(self).found() == old(self).found(),
            final(self).junctions() == old(self).junctions(),
        decreases o,
    {
        let ghost before = self.all();
        match o {
            Value::GeometryCollection(gc) => {
                let mut j: usize = 0;
                assert(before + flats(polygons_among(*gc, 0)) =~= before);
                while j < gc.len()
                    invariant
                        j <= gc.len(),
                        self.wf(),
                        self.all() == before + flats(polygons_among(*gc, j as nat)),
                        old(self).unmarked() ==> self.unmarked(),
                        self.found() == old(self).found(),
                        self.junctions() == old(self).junctions(),
                    decreases gc.len() - j,
                {
                    let ghost so_far = polygons_among(*gc, j as nat);
                    self.geometry(&gc[j]);
                    assert(flats(so_far + polygons_of(gc[j as int])) =~= flats(so_far) + flats(
                        polygons_of(gc[j as int]),
                    ));
                    assert(self.all() =~= before + flats(polygons_among(*gc, (j + 1) as nat)));
                    j += 1;
                }
            },
            Value::Polygon(polygon) => {
                self.extract(polygon);
                assert(flats(polygons_of(*o)) =~= seq![flat(rows(*polygon))]);
                assert(self.all() =~= before + flats(polygons_of(*o)));
            },
            Value::MultiPolygon(mp) => {
                let mut j: usize = 0;
                let ghost whole = polygons_of(*o);
                assert(before + flats(whole.take(0)) =~= before);
                while j < mp.len()
                    invariant
                        j <= mp.len(),
                        self.wf(),
                        self.all() == before + flats(whole.take(j as int)),
                        old(self).unmarked() ==> self.unmarked(),
                        self.found() == old(self).found(),
                        self.junctions() == old(self).junctions(),
                    decreases mp.len() - j,
                {
                    self.extract(&mp[j]);
                    assert(flats(whole.take(j + 1)) =~= flats(whole.take(j as int)).push(
                        flat(rows(mp[j as int])),
                    ));
                    assert(self.all() =~= before + flats(whole.take(j + 1)));
                    j += 1;
                }
                assert(whole.take(j as int) == whole);
            },
            _ => {},
        }
    }
}

impl<'a, P> MergeArcs<'a, P> {
    /// Looks along the arcs of the polygon `p` at the polygons that use
    /// them. Each that has no mark yet gets one and is put on `neighbors`.
    pub fn visit(&mut self, p: usize, neighbors: &mut Vec<usize>)
        requires
            old(self).wf(),
            p < old(self).all().len(),
        ensures
            final(self).wf(),
            final(self).all() == old(self).all(),
            final(self).found() == old(self).found(),
            final(self).junctions() == old(self).junctions(),
            (final(self).marks(), handles(final(neighbors)@)) == scanned(
                old(self).marks(),
                handles(old(neighbors)@),
                met(old(self).all(), old(self).all()[p as int]),
            ),
    {
        let ghost all = self.all();
        let ghost marks = self.marks();
        let ghost waiting = handles(neighbors@);
        let count = self.polygons_by_arc.member(p).len();
        let ghost arcs = all[p as int];
        let mut k: usize = 0;
        while k < count
            invariant
                k <= count,
                count == arcs.len(),
                arcs == all[p as int],
                p < all.len(),
                self.wf(),
                self.all() == all,
                self.groups == old(self).groups,
                self.topology == old(self).topology,
                self.polygons_by_arc == old(self).polygons_by_arc,
                (self.marks(), handles(neighbors@)) == scanned(
                    marks,
                    waiting,
                    met(all, arcs.take(k as int)),
                ),
            decreases count - k,
        {
            let index = translate(self.polygons_by_arc.member(p)[k]);
            let ghost so_far = met(all, arcs.take(k as int));
            assert(arcs.take(k + 1).drop_last() == arcs.take(k as int));
            assert(arcs.take(k + 1).last() == arcs[k as int]);
            let ghost users = uses(all, index as nat);
            let many: usize = match self.polygons_by_arc.users(index) {
                Some(row) => row.len(),
                None => 0,
            };
            assert(many == users.len());
            let mut t: usize = 0;
            assert(so_far + users.take(0) =~= so_far);
            while t < many
                invariant
                    t <= many,
                    many == users.len(),
                    users == uses(all, index as nat),
                    self.wf(),
                    self.all() == all,
                    self.groups == old(self).groups,
                    self.topology == old(self).topology,
                    self.polygons_by_arc == old(self).polygons_by_arc,
                    (self.marks(), handles(neighbors@)) == scanned(
                        marks,
                        waiting,
                        so_far + users.take(t as int),
                    ),
                decreases many - t,
            {
                let q: usize = match self.polygons_by_arc.users(index) {
                    Some(row) => row[t],
                    None => 0,
                };
                assert(users[t as int] == q);
                let ghost seen = so_far + users.take(t as int);
                let ghost more = so_far + users.take(t + 1);
                assert(more.drop_last() =~= seen);
                assert(more.last() == q);
                let ghost m = self.marks();
                let ghost w = handles(neighbors@);
                if q < self.polygons.len() && self.polygons[q].is_not_marked() {
                    let ghost records = self.polygons@;
                    self.polygons[q].mark();
                    neighbors.push(q);
                    assert(self.marks() =~= m.update(q as int, true));
                    assert(handles(neighbors@) =~= w.push(q as int));
                    assert forall|i: int| 0 <= i < self.polygons@.len() implies flat(
                        (#[trigger] self.polygons@[i]).rings(),
                    ) == self.polygons_by_arc.all()[i] by {
                        if i != q {
                            assert(self.polygons@[i] == records[i]);
                        }
                    }
                }
                t += 1;
            }
            assert(users.take(t as int) == users);
            k += 1;
        }
        assert(arcs.take(k as int) == arcs);
    }

    /// How many groups have been found.
    pub fn groups_len(&self) -> (count: usize)
        ensures
            count == self.found().len(),
    {
        self.groups.len()
    }

    /// The polygons of the group of handle `g`, in the order in which they
    /// were visited.
    pub fn members(&self, g: usize) -> (group: &Vec<usize>)
        requires
            g < self.found().len(),
        ensures
            handles(group@) == self.found()[g as int],
    {
        &self.groups[g]
    }

    /// Sorts the polygons into groups: each polygon goes with those that it
    /// shares an arc with, and with those that they share an arc with.
    pub fn group(&mut self)
        requires
            old(self).wf(),
            old(self).unmarked(),
            old(self).found().len() == 0,
        ensures
            final(self).wf(),
            final(self).unmarked(),
            final(self).all() == old(self).all(),
            final(self).found() == groups(old(self).all()),
            final(self).junctions() == old(self).junctions(),
    {
        let ghost all = self.all();
        let n = self.polygons.len();
        assert(self.marks() =~= Seq::new(all.len(), |i: int| false));
        assert(self.found() =~= Seq::<Seq<int>>::empty());
        let mut s: usize = 0;
        while s < n
            invariant
                s <= n,
                n == all.len(),
                self.wf(),
                self.all() == all,
                self.junctions() == old(self).junctions(),
                (self.marks(), self.found()) == grouped(all, s as nat),
            decreases n - s,
        {
            let ghost marks = self.marks();
            let ghost found = self.found();
            if self.polygons[s].is_not_marked() {
                let ghost records = self.polygons@;
                self.polygons[s].mark();
                assert(self.marks() =~= marks.update(s as int, true));
                assert forall|i: int| 0 <= i < self.polygons@.len() implies flat(
                    (#[trigger] self.polygons@[i]).rings(),
                ) == self.polygons_by_arc.all()[i] by {
                    if i != s {
                        assert(self.polygons@[i] == records[i]);
                    }
                }
                let mut neighbors: Vec<usize> = Vec::new();
                neighbors.push(s);
                let mut group: Vec<usize> = Vec::new();
                assert(handles(neighbors@) =~= seq![s as int]);
                assert(handles(group@) =~= Seq::<int>::empty());
                let ghost target = filled(all, self.marks(), handles(neighbors@), handles(group@));
                while neighbors.len() > 0
                    invariant
                        n == all.len(),
                        self.wf(),
                        self.all() == all,
                        self.marks().len() == n,
                        self.junctions() == old(self).junctions(),
                        self.found() == found,
                        forall|i: int| 0 <= i < neighbors.len() ==> (#[trigger] neighbors[i]) < n,
                        filled(all, self.marks(), handles(neighbors@), handles(group@)) == target,
                    decreases n - marked_count(self.marks()) + neighbors.len(),
                {
                    let ghost m = self.marks();
                    let ghost w = handles(neighbors@);
                    let ghost g = handles(group@);
                    let p = neighbors.pop().unwrap();
                    assert(w.last() == p);
                    assert(handles(neighbors@) =~= w.drop_last());
                    group.push(p);
                    assert(handles(group@) =~= g.push(p as int));
                    proof {
                        assert forall|i: int| 0 <= i < w.drop_last().len() implies 0
                            <= #[trigger] w.drop_last()[i] < m.len() by {
                            assert(w.drop_last()[i] == neighbors[i]);
                        }
                        lemma_scanned_counts(m, w.drop_last(), met(all, all[p as int]));
                        lemma_scanned_within(m, w.drop_last(), met(all, all[p as int]));
                        lemma_marked_count_bound(scanned(m, w.drop_last(), met(all, all[p as int])).0);
                    }
                    self.visit(p, &mut neighbors);
                    assert forall|i: int| 0 <= i < neighbors.len() implies (
                    #[trigger] neighbors[i]) < n by {
                        assert(handles(neighbors@)[i] == neighbors[i]);
                    }
                }
                self.groups.push(group);
                assert(self.found() =~= found.push(handles(group@)));
            }
            s += 1;
        }
        let mut p: usize = 0;
        while p < n
            invariant
                p <= n,
                n == self.polygons.len(),
                self.wf(),
                self.all() == all,
                self.junctions() == old(self).junctions(),
                self.found() == groups(all),
                forall|i: int| 0 <= i < p ==> !(#[trigger] self.polygons@[i]).marked(),
            decreases n - p,
        {
            let ghost found = self.found();
            let ghost records = self.polygons@;
            self.polygons[p].unmark();
            assert(self.found() =~= found);
            assert forall|i: int| 0 <= i < self.polygons@.len() implies flat(
                (#[trigger] self.polygons@[i]).rings(),
            ) == self.polygons_by_arc.all()[i] by {
                if i != p {
                    assert(self.polygons@[i] == records[i]);
                }
            }
            assert forall|i: int| 0 <= i < p + 1 implies !(#[trigger] self.polygons@[i]).marked() by {
                if i != p {
                    assert(self.polygons@[i] == records[i]);
                }
            }
            p += 1;
        }
    }
}

impl<'a, P> MergeArcs<'a, P> {
    /// The boundary of the group of handle `g`: the arcs of its polygons, in
    /// order, that no other polygon uses and that its own polygon uses once.
    pub fn boundary(&self, g: usize) -> (arcs: Vec<i32>)
        requires
            self.wf(),
            g < self.found().len(),
            forall|i: int|
                0 <= i < self.found()[g as int].len() ==> 0 <= #[trigger] self.found()[g as int][i]
                    < self.all().len(),
        ensures
            arcs@ == exterior(self.all(), self.found()[g as int]),
    {
        let ghost all = self.all();
        let ghost group = self.found()[g as int];
        assert(group == handles(self.groups[g as int]@));
        let mut arcs: Vec<i32> = Vec::new();
        let mut at: usize = 0;
        while at < self.groups[g].len()
            invariant
                g < self.groups.len(),
                at <= self.groups[g as int].len(),
                self.wf(),
                all == self.all(),
                group == handles(self.groups[g as int]@),
                forall|i: int| 0 <= i < group.len() ==> 0 <= #[trigger] group[i] < all.len(),
                arcs@ == exterior(all, group.take(at as int)),
            decreases self.groups[g as int].len() - at,
        {
            let p = self.groups[g][at];
            assert(group[at as int] == p);
            assert(group.take(at + 1).drop_last() == group.take(at as int));
            assert(group.take(at + 1).last() == p);
            let own = self.polygons_by_arc.member(p);
            assert(own@ == all[p as int]);
            let ghost before = arcs@;
            let mut k: usize = 0;
            while k < own.len()
                invariant
                    k <= own.len(),
                    self.wf(),
                    all == self.all(),
                    arcs@ == before + lone(all, own@.take(k as int)),
                decreases own.len() - k,
            {
                let arc = own[k];
                let index = translate(arc);
                assert(own@.take(k + 1).drop_last() == own@.take(k as int));
                assert(own@.take(k + 1).last() == arc);
                let users: usize = match self.polygons_by_arc.users(index) {
                    Some(row) => row.len(),
                    None => 0,
                };
                assert(users == uses(all, index as nat).len());
                if users < 2 {
                    arcs.push(arc);
                    assert(arcs@ =~= before + lone(all, own@.take(k + 1)));
                }
                k += 1;
            }
            assert(own@.take(k as int) == own@);
            at += 1;
        }
        assert(group.take(at as int) == group);
        arcs
    }
}

/// The arcs that are kept of the arcs of a polygon are those that are used
/// once.
pub proof fn lemma_lone_contains(all: Seq<Seq<i32>>, arcs: Seq<i32>, a: i32)
    ensures
        lone(all, arcs).contains(a) <==> (arcs.contains(a) && uses(all, arc_index(a)).len() < 2),
    decreases arcs.len(),
{
    if arcs.len() > 0 {
        let front = arcs.drop_last();
        let top = arcs.last();
        lemma_lone_contains(all, front, a);
        let before = lone(all, front);
        let now = lone(all, arcs);
        if front.contains(a) {
            let i = choose|i: int| 0 <= i < front.len() && front[i] == a;
            assert(arcs[i] == a);
        }
        if arcs.contains(a) {
            let i = choose|i: int| 0 <= i < arcs.len() && arcs[i] == a;
            if i < front.len() {
                assert(front[i] == a);
            }
        }
        assert(arcs[arcs.len() - 1] == top);
        if before.contains(a) {
            let i = choose|i: int| 0 <= i < before.len() && before[i] == a;
            assert(now[i] == a);
        }
        if now.contains(a) {
            let i = choose|i: int| 0 <= i < now.len() && now[i] == a;
            if i < before.len() {
                assert(before[i] == a);
            }
        }
        if uses(all, arc_index(top)).len() < 2 && a == top {
            assert(now[before.len() as int] == a);
        }
    }
}

/// The boundary of a group is made of the arcs of its polygons that are used
/// once.
pub proof fn lemma_exterior_contains(all: Seq<Seq<i32>>, group: Seq<int>, a: i32)
    ensures
        exterior(all, group).contains(a) <==> (uses(all, arc_index(a)).len() < 2 && exists|i: int|
            0 <= i < group.len() && all[#[trigger] group[i]].contains(a)),
    decreases group.len(),
{
    if group.len() > 0 {
        let front = group.drop_last();
        let p = group.last();
        lemma_exterior_contains(all, front, a);
        lemma_lone_contains(all, all[p], a);
        let before = exterior(all, front);
        let own = lone(all, all[p]);
        let both = before + own;
        if before.contains(a) {
            let i = choose|i: int| 0 <= i < before.len() && before[i] == a;
            assert(both[i] == a);
            let j = choose|j: int| 0 <= j < front.len() && all[#[trigger] front[j]].contains(a);
            assert(group[j] == front[j]);
        }
        if own.contains(a) {
            let i = choose|i: int| 0 <= i < own.len() && own[i] == a;
            assert(both[before.len() + i] == a);
            assert(group[group.len() - 1] == p);
        }
        if both.contains(a) {
            let i = choose|i: int| 0 <= i < both.len() && both[i] == a;
            if i < before.len() {
                assert(before[i] == a);
            } else {
                assert(own[i - before.len()] == a);
            }
        }
        if uses(all, arc_index(a)).len() < 2 && exists|i: int|
            0 <= i < group.len() && all[#[trigger] group[i]].contains(a) {
            let j = choose|j: int| 0 <= j < group.len() && all[#[trigger] group[j]].contains(a);
            if j < front.len() {
                assert(front[j] == group[j]);
                assert(before.contains(a));
            } else {
                assert(own.contains(a));
            }
        }
    } else {
        assert(!exterior(all, group).contains(a)) by {
            if exterior(all, group).contains(a) {
                let i = choose|i: int|
                    0 <= i < exterior(all, group).len() && exterior(all, group)[i] == a;
            }
        }
    }
}

/// The merged polygons are the rings stitched around the groups, for the
/// groups around which anything is left.
pub proof fn lemma_dissolved(ends: Seq<Ends>, all: Seq<Seq<i32>>, groups: Seq<Seq<int>>)
    ensures
        forall|t: int|
            0 <= t < dissolved(ends, all, groups).len() ==> exists|g: int|
                0 <= g < groups.len() && #[trigger] dissolved(ends, all, groups)[t] == stitched(
                    ends,
                    exterior(all, #[trigger] groups[g]),
                ),
        forall|g: int|
            0 <= g < groups.len() && stitched(ends, exterior(all, #[trigger] groups[g])).len() > 0
                ==> dissolved(ends, all, groups).contains(stitched(ends, exterior(all, groups[g]))),
    decreases groups.len(),
{
    if groups.len() > 0 {
        let front = groups.drop_last();
        let rings = stitched(ends, exterior(all, groups.last()));
        lemma_dissolved(ends, all, front);
        let before = dissolved(ends, all, front);
        let now = dissolved(ends, all, groups);
        assert forall|t: int| 0 <= t < now.len() implies exists|g: int|
            0 <= g < groups.len() && #[trigger] now[t] == stitched(
                ends,
                exterior(all, #[trigger] groups[g]),
            ) by {
            if t < before.len() {
                assert(now[t] == before[t]);
                let g = choose|g: int|
                    0 <= g < front.len() && #[trigger] before[t] == stitched(
                        ends,
                        exterior(all, #[trigger] front[g]),
                    );
                assert(groups[g] == front[g]);
            } else {
                assert(now[t] == rings);
                assert(groups[groups.len() - 1] == groups.last());
            }
        }
        assert forall|g: int|
            0 <= g < groups.len() && stitched(ends, exterior(all, #[trigger] groups[g])).len()
                > 0 implies now.contains(stitched(ends, exterior(all, groups[g]))) by {
            if g < front.len() {
                assert(front[g] == groups[g]);
                let wanted = stitched(ends, exterior(all, front[g]));
                assert(before.contains(wanted));
                let t = choose|t: int| 0 <= t < before.len() && before[t] == wanted;
                assert(now[t] == wanted);
            } else {
                assert(now[before.len() as int] == rings);
            }
        }
    }
}

/// Merging drops what polygons share: every arc of the merged polygons is an
/// arc of one of the polygons given, and one that is used once.
pub proof fn lemma_merged_arcs_are_boundary(ends: Seq<Ends>, all: Seq<Seq<i32>>)
    requires
        boundaries_known(ends, all, groups(all)),
    ensures
        forall|t: int, r: int, i: int|
            0 <= t < dissolved(ends, all, groups(all)).len() && 0 <= r < dissolved(
                ends,
                all,
                groups(all),
            )[t].len() && 0 <= i < dissolved(ends, all, groups(all))[t][r].len() ==> {
                let a = #[trigger] dissolved(ends, all, groups(all))[t][r][i];
                &&& uses(all, arc_index(a)).len() < 2
                &&& exists|p: int| 0 <= p < all.len() && (#[trigger] all[p]).contains(a)
            },
{
    let found = groups(all);
    let merged = dissolved(ends, all, found);
    lemma_dissolved(ends, all, found);
    crate::groups::lemma_groups_partition(all);
    assert forall|t: int, r: int, i: int|
        0 <= t < merged.len() && 0 <= r < merged[t].len() && 0 <= i < merged[t][r].len() implies {
        let a = #[trigger] merged[t][r][i];
        &&& uses(all, arc_index(a)).len() < 2
        &&& exists|p: int| 0 <= p < all.len() && (#[trigger] all[p]).contains(a)
    } by {
        let a = merged[t][r][i];
        let g = choose|g: int|
            0 <= g < found.len() && #[trigger] merged[t] == stitched(
                ends,
                exterior(all, #[trigger] found[g]),
            );
        let around = exterior(all, found[g]);
        crate::chains::lemma_fragments_are_chains(ends, around);
        let fragment = stitched(ends, around)[r];
        assert(around.contains(fragment[i]));
        lemma_exterior_contains(all, found[g], a);
        let j = choose|j: int| 0 <= j < found[g].len() && all[#[trigger] found[g][j]].contains(a);
        assert(0 <= found[g][j] < all.len());
    }
}

/// Merging keeps what polygons do not share: every arc of a polygon that is
/// used once is, by its index, an arc of the merged polygons.
pub proof fn lemma_boundary_is_merged(ends: Seq<Ends>, all: Seq<Seq<i32>>, p: int, at: int)
    requires
        boundaries_known(ends, all, groups(all)),
        0 <= p < all.len(),
        0 <= at < all[p].len(),
        uses(all, arc_index(all[p][at])).len() < 2,
    ensures
        exists|t: int, r: int, i: int|
            0 <= t < dissolved(ends, all, groups(all)).len() && 0 <= r < dissolved(
                ends,
                all,
                groups(all),
            )[t].len() && 0 <= i < dissolved(ends, all, groups(all))[t][r].len() && arc_index(
                #[trigger] dissolved(ends, all, groups(all))[t][r][i],
            ) == arc_index(all[p][at]),
{
    let a = all[p][at];
    let found = groups(all);
    let merged = dissolved(ends, all, found);
    crate::groups::lemma_groups_partition(all);
    assert(crate::groups::within(found, p));
    let g = choose|g: int| 0 <= g < found.len() && (#[trigger] found[g]).contains(p);
    let j = choose|j: int| 0 <= j < found[g].len() && found[g][j] == p;
    let around = exterior(all, found[g]);
    assert(all[p].contains(a));
    assert(all[found[g][j]].contains(a));
    lemma_exterior_contains(all, found[g], a);
    assert(around.contains(a));
    let k = choose|k: int| 0 <= k < around.len() && around[k] == a;
    crate::chains::lemma_every_arc_is_stitched(ends, around, k);
    let rings = stitched(ends, around);
    let (r, i) = choose|r: int, i: int|
        0 <= r < rings.len() && 0 <= i < rings[r].len() && arc_index(#[trigger] rings[r][i])
            == arc_index(around[k]);
    lemma_dissolved(ends, all, found);
    assert(merged.contains(rings));
    let t = choose|t: int| 0 <= t < merged.len() && merged[t] == rings;
    assert(arc_index(merged[t][r][i]) == arc_index(a));
}

/// The arcs of the polygons of `objects`, polygon by polygon.
pub open spec fn arcs_in<P>(objects: Seq<NamedGeometry<P>>) -> Seq<Seq<i32>> {
    flats(polygons_in(objects, objects.len()))
}

/// Whether each of `objects` is made of polygons only.
pub open spec fn all_polygonal<P>(objects: Seq<NamedGeometry<P>>) -> bool {
    forall|i: int| 0 <= i < objects.len() ==> polygonal((#[trigger] objects[i]).geometry)
}

/// What a vector of vectors of vectors holds.
pub open spec fn layers(v: Vec<Vec<Vec<i32>>>) -> Seq<Seq<Seq<i32>>> {
    Seq::new(v@.len(), |i: int| rows(v@[i]))
}

/// The rings of the polygons that `objects` merge into, polygon by polygon:
/// for each group of polygons that share arcs, the rings stitched from the
/// arcs around it.
pub open spec fn merged_arcs<P>(ends: Seq<Ends>, objects: Seq<NamedGeometry<P>>) -> Seq<
    Seq<Seq<i32>>,
> {
    dissolved(ends, arcs_in(objects), groups(arcs_in(objects)))
}

/// Whether the polygons of `objects` can be merged over `ends`: whether the
/// arcs around each group of them are arcs that `ends` knows.
pub open spec fn mergeable<P>(ends: Seq<Ends>, objects: Seq<NamedGeometry<P>>) -> bool {
    boundaries_known(ends, arcs_in(objects), groups(arcs_in(objects)))
}

/// Merges the polygons of `objects` as far as arcs go: sorts them into groups
/// of polygons that share arcs, and stitches the arcs around each group into
/// rings.
///
/// The result holds the rings of one merged polygon for each group around
/// which any arc is left, in the order in which stitching gives them. Which
/// of the rings of a polygon is its exterior is for `exterior_first` to say.
pub fn merge_arcs<P>(topology: &Topology<P>, objects: &Vec<NamedGeometry<P>>) -> (merged: Result<
    Vec<Vec<Vec<i32>>>,
    MergeError,
>)
    ensures
        match merged {
            Ok(polygons) => {
                &&& all_polygonal(objects@)
                &&& mergeable(topology.ends(), objects@)
                &&& layers(polygons) == merged_arcs(topology.ends(), objects@)
            },
            Err(MergeError::NotAPolygon) => !all_polygonal(objects@),
            Err(MergeError::UnknownArc) => all_polygonal(objects@) && !mergeable(
                topology.ends(),
                objects@,
            ),
        },
{
    let ghost ends = topology.ends();
    let mut j: usize = 0;
    while j < objects.len()
        invariant
            j <= objects.len(),
            forall|i: int| 0 <= i < j ==> polygonal((#[trigger] objects[i]).geometry),
        decreases objects.len() - j,
    {
        if !is_polygonal(&objects[j].geometry) {
            return Err(MergeError::NotAPolygon);
        }
        j += 1;
    }
    let mut ma = MergeArcs::new(topology);
    let mut j: usize = 0;
    assert(flats(polygons_in(objects@, 0)) =~= Seq::<Seq<i32>>::empty());
    while j < objects.len()
        invariant
            j <= objects.len(),
            all_polygonal(objects@),
            ma.wf(),
            ma.unmarked(),
            ma.found().len() == 0,
            ma.junctions() == ends,
            ma.all() == flats(polygons_in(objects@, j as nat)),
        decreases objects.len() - j,
    {
        let ghost so_far = polygons_in(objects@, j as nat);
        ma.geometry(&objects[j].geometry);
        assert(flats(so_far + polygons_of(objects[j as int].geometry)) =~= flats(so_far) + flats(
            polygons_of(objects[j as int].geometry),
        ));
        j += 1;
    }
    let ghost all = arcs_in(objects@);
    assert(ma.all() == all);
    ma.group();
    proof {
        lemma_grouped_within(all, all.len());
    }
    let ghost found = groups(all);
    let mut polygons: Vec<Vec<Vec<i32>>> = Vec::new();
    let count = ma.groups_len();
    let mut g: usize = 0;
    assert(found.take(0) =~= Seq::<Seq<int>>::empty());
    while g < count
        invariant
            g <= count,
            count == found.len(),
            found == groups(all),
            all == arcs_in(objects@),
            all_polygonal(objects@),
            ends == topology.ends(),
            ma.wf(),
            ma.all() == all,
            ma.found() == found,
            ma.junctions() == ends,
            forall|h: int, i: int|
                0 <= h < found.len() && 0 <= i < found[h].len() ==> 0 <= #[trigger] found[h][i]
                    < all.len(),
            boundaries_known(ends, all, found.take(g as int)),
            layers(polygons) == dissolved(ends, all, found.take(g as int)),
        decreases count - g,
    {
        let arcs = ma.boundary(g);
        assert(found.take(g + 1).drop_last() == found.take(g as int));
        assert(found.take(g + 1).last() == found[g as int]);
        if !knows(topology, &arcs) {
            assert(!known(ends, exterior(all, found[g as int])));
            return Err(MergeError::UnknownArc);
        }
        let ghost before = layers(polygons);
        let rings = stitch(topology, arcs);
        if rings.len() > 0 {
            polygons.push(rings);
            assert(layers(polygons) =~= before.push(rows(rings)));
        }
        assert(boundaries_known(ends, all, found.take(g + 1))) by {
            assert forall|h: int| 0 <= h < g + 1 implies known(
                ends,
                exterior(all, #[trigger] found.take(g + 1)[h]),
            ) by {
                if h < g {
                    assert(found.take(g + 1)[h] == found.take(g as int)[h]);
                }
            }
        }
        g += 1;
    }
    assert(found.take(g as int) == found);
    Ok(polygons)
}

/// `rings` with the rings at `i` and `j` exchanged.
pub open spec fn exchanged(rings: Seq<Seq<i32>>, i: int, j: int) -> Seq<Seq<i32>> {
    rings.update(i, rings[j]).update(j, rings[i])
}

/// The rings after the first `n` of them have been looked at, with the
/// greatest area seen. A ring whose area is above the greatest seen before it
/// changes places with the ring in front.
pub open spec fn promoted(rings: Seq<Seq<i32>>, areas: Seq<u64>, n: nat) -> (Seq<Seq<i32>>, u64)
    decreases n,
{
    if n <= 1 {
        (rings, areas[0])
    } else {
        let (before, greatest) = promoted(rings, areas, (n - 1) as nat);
        if areas[n - 1] > greatest {
            (exchanged(before, 0, n - 1), areas[n - 1])
        } else {
            (before, greatest)
        }
    }
}

/// The rings of a polygon with the exterior in front: the first ring among
/// those of the greatest area.
pub open spec fn with_exterior_first(rings: Seq<Seq<i32>>, areas: Seq<u64>) -> Seq<Seq<i32>> {
    promoted(rings, areas, rings.len()).0
}

/// Whether `at` is the place of the first ring among those of the greatest
/// area.
pub open spec fn is_greatest(areas: Seq<u64>, n: int, at: int) -> bool {
    &&& 0 <= at < n
    &&& forall|j: int| 0 <= j < n ==> areas[j] <= areas[at]
    &&& forall|j: int| 0 <= j < at ==> areas[j] < areas[at]
}

/// Looking at the first `n` rings brings the first ring of the greatest area
/// among them to the front, and leaves the same rings, each as often as
/// before.
pub proof fn lemma_promoted(rings: Seq<Seq<i32>>, areas: Seq<u64>, n: nat) -> (at: int)
    requires
        areas.len() == rings.len(),
        1 <= n <= rings.len(),
    ensures
        is_greatest(areas, n as int, at),
        promoted(rings, areas, n).0[0] == rings[at],
        promoted(rings, areas, n).1 == areas[at],
        promoted(rings, areas, n).0.len() == rings.len(),
        promoted(rings, areas, n).0.to_multiset() == rings.to_multiset(),
        forall|i: int| n <= i < rings.len() ==> promoted(rings, areas, n).0[i] == rings[i],
    decreases n,
{
    if n == 1 {
        0
    } else {
        let prior = lemma_promoted(rings, areas, (n - 1) as nat);
        let (before, greatest) = promoted(rings, areas, (n - 1) as nat);
        if areas[n - 1] > greatest {
            let after = exchanged(before, 0, n - 1);
            lemma_exchanged_rearranges(before, 0, n - 1);
            n - 1
        } else {
            prior
        }
    }
}

/// Exchanging two rings leaves the same rings, each as often as before.
pub proof fn lemma_exchanged_rearranges(rings: Seq<Seq<i32>>, i: int, j: int)
    requires
        0 <= i < rings.len(),
        0 <= j < rings.len(),
    ensures
        exchanged(rings, i, j).to_multiset() == rings.to_multiset(),
{
    let half = rings.update(i, rings[j]);
    let after = half.update(j, rings[i]);
    vstd::seq_lib::to_multiset_update(rings, i, rings[j]);
    vstd::seq_lib::to_multiset_update(half, j, rings[i]);
    rings.to_multiset_ensures();
    assert(rings.contains(rings[i]));
    assert(rings.contains(rings[j]));
    if i == j {
        assert(after =~= rings);
    } else {
        assert(half[j] == rings[j]);
        assert(after.to_multiset() =~= rings.to_multiset());
    }
}

/// Puts the exterior of a polygon in front of its holes: of `rings`, the
/// first among those of the greatest area changes to the front.
///
/// `areas` holds, for each ring of `rings`, the area that the ring encloses,
/// as a number that is greater where the area is greater.
pub fn exterior_first(rings: &mut Vec<Vec<i32>>, areas: &Vec<u64>)
    requires
        areas.len() == old(rings).len(),
    ensures
        rows(*final(rings)) == with_exterior_first(rows(*old(rings)), areas@),
        rows(*final(rings)).to_multiset() == rows(*old(rings)).to_multiset(),
        old(rings).len() > 0 ==> exists|at: int|
            is_greatest(areas@, areas.len() as int, at) && #[trigger] rows(*final(rings))[0] == rows(
                *old(rings),
            )[at],
{
    let ghost given = rows(*rings);
    let n = rings.len();
    if n > 1 {
        let mut greatest: u64 = areas[0];
        let mut i: usize = 1;
        while i < n
            invariant
                1 <= i <= n,
                n == rings.len(),
                n == areas.len(),
                given.len() == n,
                (rows(*rings), greatest) == promoted(given, areas@, i as nat),
            decreases n - i,
        {
            let own = areas[i];
            if own > greatest {
                let ghost before = rows(*rings);
                let mut held: Vec<i32> = Vec::new();
                core::mem::swap(&mut rings[0], &mut held);
                core::mem::swap(&mut rings[i], &mut held);
                core::mem::swap(&mut rings[0], &mut held);
                assert(rows(*rings) =~= exchanged(before, 0, i as int));
                greatest = own;
            }
            i += 1;
        }
        proof {
            let at = lemma_promoted(given, areas@, n as nat);
            assert(rows(*rings)[0] == given[at]);
        }
    } else if n == 1 {
        proof {
            let at = lemma_promoted(given, areas@, 1);
            assert(rows(*rings)[0] == given[at]);
        }
    }
}

/// Rings that can be drawn can be drawn in whatever order they stand.
pub proof fn lemma_rearranged_drawable<P>(
    arcs: Seq<Seq<P>>,
    before: Seq<Seq<i32>>,
    after: Seq<Seq<i32>>,
)
    requires
        all_drawable(arcs, before),
        after.to_multiset() == before.to_multiset(),
    ensures
        all_drawable(arcs, after),
{
    before.to_multiset_ensures();
    after.to_multiset_ensures();
    assert forall|i: int| 0 <= i < after.len() implies crate::feature::drawable(
        arcs,
        #[trigger] after[i],
    ) by {
        assert(after.contains(after[i]));
        assert(after.to_multiset().count(after[i]) > 0);
        assert(before.to_multiset().count(after[i]) > 0);
        assert(before.contains(after[i]));
        let j = choose|j: int| 0 <= j < before.len() && before[j] == after[i];
        assert(crate::feature::drawable(arcs, before[j]));
    }
}

/// The merged polygons as coordinates: a multi-polygon that holds, for each
/// of `polygons`, the polygon with its rings, the ring of the greatest area
/// in front as its exterior.
///
/// `polygons` holds the rings of each merged polygon, as `merge_arcs` gives
/// them, and `areas` the area of each of those rings, as a number that is
/// greater where the area is greater.
pub fn merge<P: Copy + PartialEq>(
    topology: &Topology<P>,
    polygons: Vec<Vec<Vec<i32>>>,
    areas: &Vec<Vec<u64>>,
) -> (shape: Geometry<P>)
    requires
        areas.len() == polygons.len(),
        forall|g: int| 0 <= g < polygons.len() ==> (#[trigger] areas[g]).len() == polygons[g].len(),
        forall|g: int|
            0 <= g < polygons.len() ==> all_drawable(topology.coords(), rows(#[trigger] polygons[g])),
    ensures
        P::obeys_eq_spec() ==> shape@ == GeometryView::MultiPolygon(
            Seq::new(
                polygons.len() as nat,
                |g: int|
                    polygon(topology.coords(), with_exterior_first(rows(polygons[g]), areas[g]@)),
            ),
        ),
{
    let ghost given = polygons;
    let ghost coords = topology.coords();
    let mut polygons = polygons;
    let count = polygons.len();
    let mut g: usize = 0;
    while g < count
        invariant
            g <= count,
            count == polygons.len(),
            count == given.len(),
            count == areas.len(),
            coords == topology.coords(),
            forall|h: int| 0 <= h < count ==> (#[trigger] areas[h]).len() == given[h].len(),
            forall|h: int| 0 <= h < count ==> all_drawable(coords, rows(#[trigger] given[h])),
            forall|h: int| g <= h < count ==> #[trigger] polygons[h] == given[h],
            forall|h: int|
                0 <= h < g ==> rows(#[trigger] polygons[h]) == with_exterior_first(
                    rows(given[h]),
                    areas[h]@,
                ),
            forall|h: int| 0 <= h < count ==> all_drawable(coords, rows(#[trigger] polygons[h])),
        decreases count - g,
    {
        let ghost before = polygons;
        assert(areas[g as int].len() == given[g as int].len());
        exterior_first(&mut polygons[g], &areas[g]);
        proof {
            lemma_rearranged_drawable(coords, rows(given[g as int]), rows(polygons[g as int]));
            assert forall|h: int| 0 <= h < count implies all_drawable(
                coords,
                rows(#[trigger] polygons[h]),
            ) by {
                if h != g {
                    assert(polygons[h] == before[h]);
                }
            }
        }
        g += 1;
    }
    let merged = Value::MultiPolygon(polygons);
    let shape = feature(topology, &merged);
    assert(P::obeys_eq_spec() ==> shape@->MultiPolygon_0 =~= Seq::new(
        given.len() as nat,
        |g: int| polygon(coords, with_exterior_first(rows(given[g]), areas[g]@)),
    ));
    shape
}

/// Tells whether `o` is made of polygons only: whether it can be merged.
#[verifier::loop_isolation(false)]
pub fn is_polygonal<P>(o: &Value<P>) -> (yes: bool)
    ensures
        yes == polygonal(*o),
    decreases o,
{
    match o {
        Value::Polygon(_) => true,
        Value::MultiPolygon(_) => true,
        Value::GeometryCollection(gs) => {
            let mut j: usize = 0;
            while j < gs.len()
                invariant
                    j <= gs.len(),
                    forall|i: int| 0 <= i < j ==> polygonal(#[trigger] gs[i]),
                decreases gs.len() - j,
            {
                if !is_polygonal(&gs[j]) {
                    return false;
                }
                j += 1;
            }
            true
        },
        _ => false,
    }
}

} // verus!
