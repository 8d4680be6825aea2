//! Reconstruction of plain geometry from a topology of shared arcs.
//!
//! A topology stores every boundary once, as an arc, and geometries refer to
//! arcs by signed index. This crate resolves such references into coordinate
//! sequences, stitches loose arcs into chains and rings, and dissolves sets of
//! polygons along the arcs they share.
//!
//! Positions are opaque to the library: every function is generic over the
//! position type and only copies positions and compares them for equality.
//! What the library decides from coordinates it reads from integer keys that
//! the caller derives once per arc.

use vstd::prelude::*;

pub mod bbox;
pub mod bisect;
pub mod chains;
pub mod feature;
pub mod groups;
pub mod keys;
pub mod maximal;
pub mod merge;
pub mod mesh;
pub mod neighbors;
pub mod once;
pub mod polygon_u;
pub mod reverse;
pub mod sharing;
pub mod stitch;
pub mod topology;
pub mod unshared;

verus! {

/// The array index that a signed arc reference stands for.
///
/// A non-negative reference is the index itself. A negative reference is the
/// ones' complement of the index: `-1` stands for arc 0, `-2` for arc 1.
pub open spec fn arc_index(arc: i32) -> nat {
    if arc < 0 {
        (-(arc as int) - 1) as nat
    } else {
        arc as nat
    }
}

/// Resolves a signed arc reference to the index of the arc it names.
pub fn translate(arc: i32) -> (index: usize)
    ensures
        index == arc_index(arc),
{
    if arc < 0 {
        let flipped: i32 = -(arc + 1);
        flipped as usize
    } else {
        arc as usize
    }
}

} // verus!
