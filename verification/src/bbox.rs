//! The positions that the bounding box of a topology has to span.

use vstd::prelude::*;
use crate::topology::{NamedGeometry, Topology, Value};

verus! {

/// The points that `o` holds, in order: the position of a point, the
/// positions of a multi-point, and the points of the members of a collection.
/// Geometries that are drawn with arcs hold no points of their own.
pub open spec fn points_of<P>(o: Value<P>) -> Seq<P>
    decreases o, 0nat,
{
    match o {
        Value::Point(p) => seq![p],
        Value::MultiPoint(ps) => ps@,
        Value::GeometryCollection(gs) => points_among(gs, gs.len() as nat),
        _ => Seq::empty(),
    }
}

/// The points of the first `n` members of `gs`.
pub open spec fn points_among<P>(gs: Vec<Value<P>>, n: nat) -> Seq<P>
    decreases gs, n,
{
    if n == 0 || n > gs.len() {
        Seq::empty()
    } else {
        points_among(gs, (n - 1) as nat) + points_of(gs[n - 1])
    }
}

/// The points of the first `n` of `objects`.
pub open spec fn points_in<P>(objects: Seq<NamedGeometry<P>>, n: nat) -> Seq<P>
    decreases n,
{
    if n == 0 || n > objects.len() {
        Seq::empty()
    } else {
        points_in(objects, (n - 1) as nat) + points_of(objects[n - 1].geometry)
    }
}

/// The positions of the first `n` of `arcs`, arc after arc.
pub open spec fn positions_along<P>(arcs: Seq<Seq<P>>, n: nat) -> Seq<P>
    decreases n,
{
    if n == 0 || n > arcs.len() {
        Seq::empty()
    } else {
        positions_along(arcs, (n - 1) as nat) + arcs[n - 1]
    }
}

/// The positions that the bounding box of `topology` spans.
pub open spec fn spanned<P>(topology: Topology<P>) -> Seq<P> {
    positions_along(topology.coords(), topology.arcs@.len()) + points_in(
        topology.objects@,
        topology.objects@.len(),
    )
}

/// The positions seen so far of those that a bounding box has to span.
pub struct BBox<P> {
    seen: Vec<P>,
}

impl<P: Copy> BBox<P> {
    /// The positions seen so far.
    pub closed spec fn view(&self) -> Seq<P> {
        self.seen@
    }

    /// Nothing seen yet.
    pub fn new() -> (state: Self)
        ensures
            state@ == Seq::<P>::empty(),
    {
        BBox { seen: Vec::new() }
    }

    /// Takes in one position.
    pub fn bbox_point(&mut self, p: &P)
        ensures
            final(self)@ == old(self)@.push(*p),
    {
        self.seen.push(*p);
    }

    /// Takes in the points of `o`. Geometries that are drawn with arcs add
    /// nothing: their positions are those of the arcs.
    #[verifier::loop_isolation(false)]
    pub fn bbox_geometry(&mut self, o: &Value<P>)
        ensures
            final(self)@ == old(self)@ + points_of(*o),
        decreases o,
    {
        let ghost before = self@;
        match o {
            Value::GeometryCollection(gs) => {
                let mut j: usize = 0;
                assert(before + points_among(*gs, 0) =~= before);
                while j < gs.len()
                    invariant
                        j <= gs.len(),
                        self@ == before + points_among(*gs, j as nat),
                    decreases gs.len() - j,
                {
                    self.bbox_geometry(&gs[j]);
                    assert(self@ =~= before + points_among(*gs, (j + 1) as nat));
                    j += 1;
                }
            },
            Value::Point(p) => {
                self.bbox_point(p);
                assert(self@ =~= before + points_of(*o));
            },
            Value::MultiPoint(ps) => {
                let mut j: usize = 0;
                assert(before + ps@.take(0) =~= before);
                while j < ps.len()
                    invariant
                        j <= ps.len(),
                        self@ == before + ps@.take(j as int),
                    decreases ps.len() - j,
                {
                    self.bbox_point(&ps[j]);
                    assert(self@ =~= before + ps@.take(j + 1));
                    j += 1;
                }
                assert(ps@.take(j as int) == ps@);
            },
            _ => {
                assert(self@ =~= before + points_of(*o));
            },
        }
    }

    /// The positions seen.
    pub fn into_positions(self) -> (positions: Vec<P>)
        ensures
            positions@ == self@,
    {
        self.seen
    }
}

/// The positions that the bounding box of `topology` has to span: every
/// position of every arc, then every point of every object. Which box that
/// is, is for the caller to compute from the coordinates.
pub fn bbox_positions<P: Copy>(topology: &Topology<P>) -> (positions: Vec<P>)
    ensures
        positions@ == spanned(*topology),
{
    let mut state: BBox<P> = BBox::new();
    let ghost coords = topology.coords();
    let mut a: usize = 0;
    assert(state@ =~= positions_along(coords, 0));
    while a < topology.arcs.len()
        invariant
            a <= topology.arcs.len(),
            coords == topology.coords(),
            state@ == positions_along(coords, a as nat),
        decreases topology.arcs.len() - a,
    {
        let arc = &topology.arcs[a].points;
        let ghost before = state@;
        let mut i: usize = 0;
        assert(before + arc@.take(0) =~= before);
        while i < arc.len()
            invariant
                i <= arc.len(),
                state@ == before + arc@.take(i as int),
            decreases arc.len() - i,
        {
            state.bbox_point(&arc[i]);
            assert(state@ =~= before + arc@.take(i + 1));
            i += 1;
        }
        assert(arc@.take(i as int) == arc@);
        assert(coords[a as int] == arc@);
        a += 1;
    }
    let ghost along = state@;
    let mut j: usize = 0;
    assert(along + points_in(topology.objects@, 0) =~= along);
    while j < topology.objects.len()
        invariant
            j <= topology.objects.len(),
            state@ == along + points_in(topology.objects@, j as nat),
        decreases topology.objects.len() - j,
    {
        state.bbox_geometry(&topology.objects[j].geometry);
        assert(state@ =~= along + points_in(topology.objects@, (j + 1) as nat));
        j += 1;
    }
    state.into_positions()
}

} // verus!
