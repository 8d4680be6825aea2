//! A polygon that can be marked while polygons are sorted into groups.

use vstd::prelude::*;
use vstd::std_specs::convert::FromSpecImpl;
use crate::topology::rows;

verus! {

/// The rings of a polygon, as arc references, with a mark that says whether
/// the polygon has been looked at.
#[derive(Debug)]
pub struct PolygonU {
    pub v: Vec<Vec<i32>>,
    underscore: bool,
}

impl PolygonU {
    /// Whether the polygon carries the mark.
    pub closed spec fn marked(&self) -> bool {
        self.underscore
    }

    /// The rings of the polygon.
    pub closed spec fn rings(&self) -> Seq<Seq<i32>> {
        rows(self.v)
    }

    /// A polygon with the rings `v`, not marked.
    pub fn new(v: Vec<Vec<i32>>) -> (polygon: Self)
        ensures
            polygon.rings() == rows(v),
            !polygon.marked(),
    {
        PolygonU { v, underscore: false }
    }

    /// The rings of the polygon.
    pub fn arcs(&self) -> (v: &Vec<Vec<i32>>)
        ensures
            rows(*v) == self.rings(),
    {
        &self.v
    }

    /// Tells whether the polygon is still without the mark.
    pub fn is_not_marked(&self) -> (free: bool)
        ensures
            free == !self.marked(),
    {
        !self.underscore
    }

    /// Sets the mark.
    pub fn mark(&mut self)
        ensures
            final(self).marked(),
            final(self).rings() == old(self).rings(),
    {
        self.underscore = true;
    }

    /// Takes the mark away.
    pub fn unmark(&mut self)
        ensures
            !final(self).marked(),
            final(self).rings() == old(self).rings(),
    {
        self.underscore = false;
    }
}

impl From<Vec<Vec<i32>>> for PolygonU {
    fn from(v: Vec<Vec<i32>>) -> (polygon: Self) {
        PolygonU { v, underscore: false }
    }
}

impl FromSpecImpl<Vec<Vec<i32>>> for PolygonU {
    open spec fn obeys_from_spec() -> bool {
        true
    }

    open spec fn from_spec(v: Vec<Vec<i32>>) -> Self {
        PolygonU::unmarked(v)
    }
}

impl PolygonU {
    /// The polygon with the rings `v` and no mark.
    pub closed spec fn unmarked(v: Vec<Vec<i32>>) -> Self {
        PolygonU { v, underscore: false }
    }

    /// What `unmarked` makes: the rings are those given, the mark is not set.
    pub proof fn lemma_unmarked(v: Vec<Vec<i32>>)
        ensures
            PolygonU::unmarked(v).rings() == rows(v),
            !PolygonU::unmarked(v).marked(),
    {
    }
}

} // verus!
