//! The data that the library works on: a topology of arcs and the geometries
//! that refer to them, and the plain geometries that come out.

use vstd::prelude::*;

verus! {

/// The integer key of a position, by which arc ends are matched: the two
/// coordinates of the position, cut to integers.
pub type Key = (i32, i32);

/// A shared polyline, stored once and referred to by signed index.
#[derive(Debug, PartialEq)]
pub struct Arc<P> {
    /// The positions of the arc, in forward order, as plane coordinates.
    pub points: Vec<P>,
    /// The key of the position the arc starts at.
    pub start: Key,
    /// The key of the position the arc ends at.
    pub end: Key,
    /// Whether the arc, as stored, steps from its first position by exactly
    /// zero on both axes.
    pub zero_step: bool,
}

/// A geometry that refers to arcs instead of holding coordinates.
#[derive(Debug, PartialEq)]
pub enum Value<P> {
    Point(P),
    MultiPoint(Vec<P>),
    LineString(Vec<i32>),
    MultiLineString(Vec<Vec<i32>>),
    Polygon(Vec<Vec<i32>>),
    MultiPolygon(Vec<Vec<Vec<i32>>>),
    GeometryCollection(Vec<Value<P>>),
}

/// A polygon: one exterior ring and any number of holes.
#[derive(Debug, PartialEq)]
pub struct Polygon<P> {
    pub exterior: Vec<P>,
    pub interiors: Vec<Vec<P>>,
}

/// A geometry made of coordinates.
#[derive(Debug, PartialEq)]
pub enum Geometry<P> {
    Point(P),
    MultiPoint(Vec<P>),
    LineString(Vec<P>),
    MultiLineString(Vec<Vec<P>>),
    Polygon(Polygon<P>),
    MultiPolygon(Vec<Polygon<P>>),
    GeometryCollection(Vec<Geometry<P>>),
}

/// The sequences held by a vector of vectors.
pub open spec fn rows<T>(v: Vec<Vec<T>>) -> Seq<Seq<T>> {
    Seq::new(v@.len(), |i: int| v@[i]@)
}

/// What a polygon holds, as sequences.
pub struct PolygonView<P> {
    pub exterior: Seq<P>,
    pub interiors: Seq<Seq<P>>,
}

/// What a geometry holds, as sequences.
pub enum GeometryView<P> {
    Point(P),
    MultiPoint(Seq<P>),
    LineString(Seq<P>),
    MultiLineString(Seq<Seq<P>>),
    Polygon(PolygonView<P>),
    MultiPolygon(Seq<PolygonView<P>>),
    GeometryCollection(Seq<GeometryView<P>>),
}

impl<P> View for Polygon<P> {
    type V = PolygonView<P>;

    open spec fn view(&self) -> PolygonView<P> {
        PolygonView { exterior: self.exterior@, interiors: rows(self.interiors) }
    }
}

impl<P> View for Geometry<P> {
    type V = GeometryView<P>;

    open spec fn view(&self) -> GeometryView<P>
        decreases self,
    {
        match self {
            Geometry::Point(p) => GeometryView::Point(*p),
            Geometry::MultiPoint(ps) => GeometryView::MultiPoint(ps@),
            Geometry::LineString(l) => GeometryView::LineString(l@),
            Geometry::MultiLineString(ls) => GeometryView::MultiLineString(rows(*ls)),
            Geometry::Polygon(p) => GeometryView::Polygon(p@),
            Geometry::MultiPolygon(ps) => GeometryView::MultiPolygon(
                Seq::new(ps@.len(), |i: int| ps@[i]@),
            ),
            Geometry::GeometryCollection(gs) => GeometryView::GeometryCollection(
                Seq::new(
                    gs.len() as nat,
                    |i: int|
                        if 0 <= i < gs.len() {
                            gs[i]@
                        } else {
                            arbitrary()
                        },
                ),
            ),
        }
    }
}

/// A geometry together with the name it goes by in its topology.
#[derive(Debug, PartialEq)]
pub struct NamedGeometry<P> {
    pub name: String,
    pub geometry: Value<P>,
}

/// Arcs and the named geometries that are drawn with them.
#[derive(Debug, PartialEq)]
pub struct Topology<P> {
    pub arcs: Vec<Arc<P>>,
    pub objects: Vec<NamedGeometry<P>>,
}

/// What stitching reads of an arc: the keys of its two ends, and whether the
/// arc is empty, that is, stays on one position.
pub struct Ends {
    pub start: Key,
    pub end: Key,
    pub empty: bool,
}

impl<P> Arc<P> {
    /// What stitching reads of this arc. An arc is empty when it has fewer
    /// than three positions and steps from the first by zero.
    pub open spec fn ends(&self) -> Ends {
        Ends { start: self.start, end: self.end, empty: self.points@.len() < 3 && self.zero_step }
    }
}

impl<P> Arc<P> {
    /// Tells whether the arc is empty: fewer than three positions, and a
    /// step of zero from the first.
    pub fn is_empty(&self) -> (empty: bool)
        ensures
            empty == self.ends().empty,
    {
        self.points.len() < 3 && self.zero_step
    }
}

impl<P> Topology<P> {
    /// The positions of every arc, arc by arc.
    pub open spec fn coords(&self) -> Seq<Seq<P>> {
        Seq::new(self.arcs@.len(), |i: int| self.arcs@[i].points@)
    }

    /// The ends of every arc, arc by arc.
    pub open spec fn ends(&self) -> Seq<Ends> {
        Seq::new(self.arcs@.len(), |i: int| self.arcs@[i].ends())
    }
}

} // verus!
