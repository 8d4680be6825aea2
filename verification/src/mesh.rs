//! The mesh of a topology: all its arcs, stitched.

use vstd::prelude::*;
use crate::feature::{Builder, all_drawable, line};
use crate::stitch::{known, stitch, stitched};
use crate::topology::{Geometry, GeometryView, Topology, Value, rows};

verus! {

/// A forward reference to each of `n` arcs, in order.
pub open spec fn every_arc(n: nat) -> Seq<i32> {
    Seq::new(n, |i: int| i as i32)
}

/// The arcs of `topology`, stitched into lines: a multi-line-string whose
/// lines are the fragments that stitching a forward reference to every arc
/// gives.
pub fn mesh_arcs<P>(topology: &Topology<P>) -> (mesh: Value<P>)
    requires
        topology.arcs.len() <= 0x8000_0000,
    ensures
        mesh matches Value::MultiLineString(lines) && rows(lines) == stitched(
            topology.ends(),
            every_arc(topology.arcs.len() as nat),
        ),
{
    let n = topology.arcs.len();
    let mut arcs: Vec<i32> = Vec::new();
    let mut i: usize = 0;
    while i < n
        invariant
            i <= n,
            n == topology.arcs.len(),
            n <= 0x8000_0000,
            arcs@ == every_arc(i as nat),
        decreases n - i,
    {
        arcs.push(i as i32);
        i += 1;
        assert(arcs@ =~= every_arc(i as nat));
    }
    assert(known(topology.ends(), arcs@));
    Value::MultiLineString(stitch(topology, arcs))
}

/// The mesh of `topology` as coordinates: the line through each fragment of
/// `mesh_arcs`. There is no result when one of the fragments has no position
/// to draw.
pub fn mesh<P: Copy + PartialEq>(topology: &Topology<P>) -> (shape: Option<Geometry<P>>)
    requires
        topology.arcs.len() <= 0x8000_0000,
    ensures
        ({
            let fragments = stitched(topology.ends(), every_arc(topology.arcs.len() as nat));
            match shape {
                Some(shape) => {
                    &&& all_drawable(topology.coords(), fragments)
                    &&& shape@ == GeometryView::MultiLineString(
                        Seq::new(fragments.len(), |i: int| line(topology.coords(), fragments[i])),
                    )
                },
                None => !all_drawable(topology.coords(), fragments),
            }
        }),
{
    let builder = Builder::new(topology);
    match mesh_arcs(topology) {
        Value::MultiLineString(fragments) => {
            if !builder.draws_all(&fragments) {
                return None;
            }
            let mut lines: Vec<Vec<P>> = Vec::new();
            let mut j: usize = 0;
            while j < fragments.len()
                invariant
                    j <= fragments.len(),
                    builder.coords() == topology.coords(),
                    all_drawable(topology.coords(), rows(fragments)),
                    lines.len() == j,
                    forall|i: int|
                        0 <= i < j ==> (#[trigger] lines[i])@ == line(
                            topology.coords(),
                            fragments[i]@,
                        ),
                decreases fragments.len() - j,
            {
                assert(rows(fragments)[j as int] == fragments[j as int]@);
                let drawn = builder.line(&fragments[j]);
                lines.push(drawn);
                j += 1;
            }
            let shape = Geometry::MultiLineString(lines);
            assert(shape@->MultiLineString_0 =~= Seq::new(
                rows(fragments).len(),
                |i: int| line(topology.coords(), rows(fragments)[i]),
            ));
            Some(shape)
        },
        _ => None,
    }
}

} // verus!
