//! Resolution of arc references into coordinates.
//!
//! A line is the concatenation of its arcs, each walked in the direction its
//! reference asks for, with the position shared by two consecutive arcs kept
//! once. A ring is a line padded to four positions and closed.

use vstd::prelude::*;
use vstd::std_specs::cmp::PartialEqSpec;
use crate::{arc_index, translate};
use crate::reverse::reverse;
use crate::topology::{
    Geometry, GeometryView, NamedGeometry, Polygon, PolygonView, Topology, Value, rows,
};

verus! {

/// The positions of the arc that `arc` refers to, in the direction it asks for.
pub open spec fn arc_points<P>(arcs: Seq<Seq<P>>, arc: i32) -> Seq<P> {
    let points = arcs[arc_index(arc) as int];
    if arc < 0 {
        points.reverse()
    } else {
        points
    }
}

/// `points` continued by `next`: the last position of `points`, which `next`
/// starts with, is dropped before `next` is appended.
pub open spec fn join<P>(points: Seq<P>, next: Seq<P>) -> Seq<P> {
    if points.len() > 0 {
        points.drop_last() + next
    } else {
        next
    }
}

/// The arcs of `refs` joined one after the other.
pub open spec fn chain<P>(arcs: Seq<Seq<P>>, refs: Seq<i32>) -> Seq<P>
    decreases refs.len(),
{
    if refs.len() == 0 {
        Seq::empty()
    } else {
        join(chain(arcs, refs.drop_last()), arc_points(arcs, refs.last()))
    }
}

/// Whether every reference of `refs` names an arc of `arcs`.
pub open spec fn in_range<P>(arcs: Seq<Seq<P>>, refs: Seq<i32>) -> bool {
    forall|i: int| 0 <= i < refs.len() ==> arc_index(#[trigger] refs[i]) < arcs.len()
}

/// Whether `refs` can be drawn: every reference names an arc, and joining the
/// arcs leaves at least one position.
pub open spec fn drawable<P>(arcs: Seq<Seq<P>>, refs: Seq<i32>) -> bool {
    in_range(arcs, refs) && chain(arcs, refs).len() >= 1
}

/// The line through the arcs of `refs`. A single position is doubled, so that
/// a line has two positions at least.
pub open spec fn line<P>(arcs: Seq<Seq<P>>, refs: Seq<i32>) -> Seq<P> {
    let points = chain(arcs, refs);
    if points.len() == 1 {
        points.push(points[0])
    } else {
        points
    }
}

/// `points` followed by as many copies of its first position as it takes to
/// reach four positions.
pub open spec fn padded<P>(points: Seq<P>) -> Seq<P> {
    if points.len() < 4 {
        points + Seq::new((4 - points.len()) as nat, |i: int| points[0])
    } else {
        points
    }
}

/// Whether two positions count as the same place: they are the same value, or
/// the position type's own equality takes them for equal.
pub open spec fn coincide<P: PartialEq>(a: P, b: P) -> bool {
    a == b || a.eq_spec(&b)
}

/// `points` with its first position repeated at the end, unless the position
/// type's equality already takes the first and the last for equal.
pub open spec fn closed<P: PartialEq>(points: Seq<P>) -> Seq<P> {
    if points.len() == 0 || points.first().eq_spec(&points.last()) {
        points
    } else {
        points.push(points.first())
    }
}

/// The ring through the arcs of `refs`: the line, padded and closed.
pub open spec fn ring<P: PartialEq>(arcs: Seq<Seq<P>>, refs: Seq<i32>) -> Seq<P> {
    closed(padded(line(arcs, refs)))
}

/// The polygon with the rings `rings`: the first is the exterior, the others
/// are holes. Without rings the polygon has an empty exterior and no holes.
pub open spec fn polygon<P: PartialEq>(arcs: Seq<Seq<P>>, rings: Seq<Seq<i32>>) -> PolygonView<P> {
    if rings.len() == 0 {
        PolygonView { exterior: Seq::empty(), interiors: Seq::empty() }
    } else {
        PolygonView {
            exterior: ring(arcs, rings[0]),
            interiors: Seq::new((rings.len() - 1) as nat, |i: int| ring(arcs, rings[i + 1])),
        }
    }
}

/// Whether every ring of `rings` can be drawn.
pub open spec fn all_drawable<P>(arcs: Seq<Seq<P>>, rings: Seq<Seq<i32>>) -> bool {
    forall|i: int| 0 <= i < rings.len() ==> drawable(arcs, #[trigger] rings[i])
}

/// Whether `o` can be turned into coordinates over `arcs`: each of its lines
/// and rings can be drawn. Points always can.
pub open spec fn resolves<P>(arcs: Seq<Seq<P>>, o: Value<P>) -> bool
    decreases o,
{
    match o {
        Value::Point(_) => true,
        Value::MultiPoint(_) => true,
        Value::LineString(l) => drawable(arcs, l@),
        Value::MultiLineString(ls) => all_drawable(arcs, rows(ls)),
        Value::Polygon(rings) => all_drawable(arcs, rows(rings)),
        Value::MultiPolygon(ps) => forall|i: int|
            0 <= i < ps.len() ==> all_drawable(arcs, rows(#[trigger] ps[i])),
        Value::GeometryCollection(gs) => forall|i: int|
            0 <= i < gs.len() ==> resolves(arcs, #[trigger] gs[i]),
    }
}

/// Whether `o` holds no polygon, at whatever depth of collections, and so
/// no ring to close.
pub open spec fn ringless<P>(o: Value<P>) -> bool
    decreases o,
{
    match o {
        Value::Polygon(_) => false,
        Value::MultiPolygon(_) => false,
        Value::GeometryCollection(gs) => forall|i: int|
            0 <= i < gs.len() ==> ringless(#[trigger] gs[i]),
        _ => true,
    }
}

/// The geometry that `o` stands for over `arcs`. Collections keep their
/// members in order, each resolved by itself.
pub open spec fn realize<P: PartialEq>(arcs: Seq<Seq<P>>, o: Value<P>) -> GeometryView<P>
    decreases o,
{
    match o {
        Value::Point(p) => GeometryView::Point(p),
        Value::MultiPoint(ps) => GeometryView::MultiPoint(ps@),
        Value::LineString(l) => GeometryView::LineString(line(arcs, l@)),
        Value::MultiLineString(ls) => GeometryView::MultiLineString(
            Seq::new(ls.len() as nat, |i: int| line(arcs, ls[i]@)),
        ),
        Value::Polygon(rings) => GeometryView::Polygon(polygon(arcs, rows(rings))),
        Value::MultiPolygon(ps) => GeometryView::MultiPolygon(
            Seq::new(ps.len() as nat, |i: int| polygon(arcs, rows(ps[i]))),
        ),
        Value::GeometryCollection(gs) => GeometryView::GeometryCollection(
            Seq::new(
                gs.len() as nat,
                |i: int|
                    if 0 <= i < gs.len() {
                        realize(arcs, gs[i])
                    } else {
                        arbitrary()
                    },
            ),
        ),
    }
}

/// Joining only ever looks at whether the chain so far is empty.
pub proof fn lemma_join_len<P>(points: Seq<P>, next: Seq<P>)
    ensures
        join(points, next).len() == if points.len() > 0 {
            points.len() - 1 + next.len()
        } else {
            next.len() as int
        },
{
}

/// A chain over one more reference is the chain so far joined with that arc.
pub proof fn lemma_chain_step<P>(arcs: Seq<Seq<P>>, refs: Seq<i32>, n: int)
    requires
        0 <= n < refs.len(),
    ensures
        chain(arcs, refs.take(n + 1)) == join(
            chain(arcs, refs.take(n)),
            arc_points(arcs, refs[n]),
        ),
{
    assert(refs.take(n + 1).drop_last() =~= refs.take(n));
}

/// Every ring has four positions at least and ends where it starts.
pub proof fn lemma_ring_is_closed<P: PartialEq>(arcs: Seq<Seq<P>>, refs: Seq<i32>)
    requires
        drawable(arcs, refs),
    ensures
        ring(arcs, refs).len() >= 4,
        coincide(ring(arcs, refs).first(), ring(arcs, refs).last()),
{
}

/// Every ring of a polygon, the exterior and each hole, has four positions at
/// least and ends where it starts.
pub proof fn lemma_polygon_rings_are_closed<P: PartialEq>(arcs: Seq<Seq<P>>, rings: Seq<Seq<i32>>)
    requires
        all_drawable(arcs, rings),
        rings.len() > 0,
    ensures
        polygon(arcs, rings).exterior.len() >= 4,
        coincide(polygon(arcs, rings).exterior.first(), polygon(arcs, rings).exterior.last()),
        forall|i: int|
            0 <= i < polygon(arcs, rings).interiors.len() ==> {
                let hole = #[trigger] polygon(arcs, rings).interiors[i];
                hole.len() >= 4 && coincide(hole.first(), hole.last())
            },
{
    lemma_ring_is_closed(arcs, rings[0]);
    assert forall|i: int| 0 <= i < polygon(arcs, rings).interiors.len() implies {
        let hole = #[trigger] polygon(arcs, rings).interiors[i];
        hole.len() >= 4 && coincide(hole.first(), hole.last())
    } by {
        lemma_ring_is_closed(arcs, rings[i + 1]);
    }
}

/// The reference to the same arc walked the other way: the ones' complement.
pub open spec fn flipped(arc: i32) -> i32 {
    (-(arc as int) - 1) as i32
}

/// A single arc is drawn as its own positions, in the direction asked for.
pub proof fn lemma_chain_of_one<P>(arcs: Seq<Seq<P>>, arc: i32)
    ensures
        chain(arcs, seq![arc]) == arc_points(arcs, arc),
{
    assert(seq![arc].drop_last() =~= Seq::<i32>::empty());
    assert(chain(arcs, seq![arc].drop_last()) =~= Seq::<P>::empty());
}

/// Flipping a reference reverses what it draws: the line through an arc
/// walked backwards is the line through it walked forwards, in reverse.
pub proof fn lemma_flipped_line<P>(arcs: Seq<Seq<P>>, arc: i32)
    requires
        arc_index(arc) < arcs.len(),
    ensures
        arc_index(flipped(arc)) == arc_index(arc),
        arc_points(arcs, flipped(arc)) == arc_points(arcs, arc).reverse(),
        line(arcs, seq![flipped(arc)]) == line(arcs, seq![arc]).reverse(),
{
    let points = arcs[arc_index(arc) as int];
    assert(points.reverse().reverse() =~= points);
    lemma_chain_of_one(arcs, arc);
    lemma_chain_of_one(arcs, flipped(arc));
    let forward = arc_points(arcs, arc);
    if forward.len() == 1 {
        assert(forward.reverse().push(forward.reverse()[0]) =~= forward.push(
            forward[0],
        ).reverse());
    }
}

/// Flipping the reference of a polygon's only arc reverses its ring.
///
/// Where the arc already ends where it starts, the whole ring is reversed.
/// Otherwise the ring ends in one closing position, and the positions before
/// it are reversed. An arc of two distinct positions is left out: its ring is
/// padded with two copies of its first position, which differ between the
/// two directions.
pub proof fn lemma_flipped_ring<P: PartialEq>(arcs: Seq<Seq<P>>, arc: i32)
    requires
        arc_index(arc) < arcs.len(),
        arcs[arc_index(arc) as int].len() >= 1,
        arcs[arc_index(arc) as int].len() == 2 ==> arcs[arc_index(arc) as int][0]
            == arcs[arc_index(arc) as int][1],
        forall|a: P| #[trigger] a.eq_spec(&a),
        forall|a: P, b: P| #[trigger] a.eq_spec(&b) == b.eq_spec(&a),
    ensures
        polygon(arcs, seq![seq![arc]]).exterior == ring(arcs, seq![arc]),
        polygon(arcs, seq![seq![flipped(arc)]]).exterior == ring(arcs, seq![flipped(arc)]),
        ({
            let points = arcs[arc_index(arc) as int];
            let forward = ring(arcs, seq![arc]);
            let backward = ring(arcs, seq![flipped(arc)]);
            if points.len() >= 4 && points.first().eq_spec(&points.last()) {
                backward == forward.reverse()
            } else {
                backward.drop_last() == forward.drop_last().reverse()
            }
        }),
{
    lemma_flipped_line(arcs, arc);
    lemma_chain_of_one(arcs, arc);
    lemma_chain_of_one(arcs, flipped(arc));
    let points = arc_points(arcs, arc);
    let drawn = line(arcs, seq![arc]);
    let mirrored = line(arcs, seq![flipped(arc)]);
    assert(mirrored == drawn.reverse());
    assert(drawn.len() == mirrored.len());
    let forward = ring(arcs, seq![arc]);
    let backward = ring(arcs, seq![flipped(arc)]);
    if drawn.len() >= 4 {
        assert(padded(drawn) == drawn);
        assert(padded(mirrored) == mirrored);
        assert(mirrored.first() == drawn.last());
        assert(mirrored.last() == drawn.first());
        assert(arcs[arc_index(arc) as int].first().eq_spec(&arcs[arc_index(arc) as int].last())
            == drawn.first().eq_spec(&drawn.last()));
        if drawn.first().eq_spec(&drawn.last()) {
            assert(backward == forward.reverse());
        } else {
            assert(forward.drop_last() =~= drawn);
            assert(backward.drop_last() =~= mirrored);
        }
    } else {
        assert(padded(drawn).first() == padded(drawn).last());
        assert(padded(mirrored).first() == padded(mirrored).last());
        assert(forward == padded(drawn));
        assert(backward == padded(mirrored));
        assert(backward.drop_last() =~= forward.drop_last().reverse());
    }
}

/// Resolves arc references over one topology.
pub struct Builder<'a, P> {
    topology: &'a Topology<P>,
}

impl<'a, P: Copy + PartialEq> Builder<'a, P> {
    /// The positions of the arcs this builder draws with.
    pub closed spec fn coords(&self) -> Seq<Seq<P>> {
        self.topology.coords()
    }

    /// A builder over the arcs of `topology`.
    pub fn new(topology: &'a Topology<P>) -> (builder: Self)
        ensures
            builder.coords() == topology.coords(),
    {
        Builder { topology }
    }

    /// Continues `points` with the arc that `i` refers to.
    pub fn arc(&self, i: i32, points: &mut Vec<P>)
        requires
            arc_index(i) < self.coords().len(),
        ensures
            final(points)@ == join(old(points)@, arc_points(self.coords(), i)),
    {
        if points.len() > 0 {
            points.pop();
        }
        let ghost base = points@;
        let index = translate(i);
        let a = &self.topology.arcs[index].points;
        assert(a@ == self.coords()[index as int]);
        let n = a.len();
        let mut k: usize = 0;
        while k < n
            invariant
                k <= n,
                n == a.len(),
                points@ == base + a@.take(k as int),
            decreases n - k,
        {
            points.push(a[k]);
            k += 1;
            assert(a@.take(k as int) == a@.take(k - 1).push(a@[k - 1]));
        }
        assert(a@.take(n as int) == a@);
        if i < 0 {
            reverse(points, n);
            assert((base + a@).take(base.len() as int) == base);
            assert((base + a@).skip(base.len() as int) == a@);
        }
    }

    /// A position as it stands in the output. Positions come decoded, so
    /// this is the position itself.
    pub fn point(&self, p: &P) -> (q: P)
        ensures
            q == *p,
    {
        *p
    }

    /// Tells whether `refs` can be drawn with the arcs of this builder.
    pub fn draws(&self, refs: &Vec<i32>) -> (yes: bool)
        ensures
            yes == drawable(self.coords(), refs@),
    {
        let count = self.topology.arcs.len();
        let mut length: u128 = 0;
        let mut j: usize = 0;
        while j < refs.len()
            invariant
                j <= refs.len(),
                count == self.coords().len(),
                in_range(self.coords(), refs@.take(j as int)),
                length == chain(self.coords(), refs@.take(j as int)).len(),
                length <= j * 0xffff_ffff_ffff_ffff,
            decreases refs.len() - j,
        {
            let index = translate(refs[j]);
            if index >= count {
                return false;
            }
            let n = self.topology.arcs[index].points.len();
            assert(n == arc_points(self.coords(), refs[j as int]).len());
            proof {
                lemma_chain_step(self.coords(), refs@, j as int);
                lemma_join_len(
                    chain(self.coords(), refs@.take(j as int)),
                    arc_points(self.coords(), refs[j as int]),
                );
            }
            if length > 0 {
                length -= 1;
            }
            length += n as u128;
            j += 1;
            assert forall|i: int| 0 <= i < j implies arc_index(#[trigger] refs@.take(j as int)[i])
                < self.coords().len() by {
                if i < j - 1 {
                    assert(refs@.take(j as int)[i] == refs@.take(j - 1)[i]);
                }
            }
        }
        assert(refs@.take(j as int) == refs@);
        length >= 1
    }

    /// The line through the arcs of `refs`.
    pub fn line(&self, refs: &Vec<i32>) -> (points: Vec<P>)
        requires
            drawable(self.coords(), refs@),
        ensures
            points@ == line(self.coords(), refs@),
            points@.len() >= 2,
    {
        let mut points: Vec<P> = Vec::new();
        let mut j: usize = 0;
        while j < refs.len()
            invariant
                j <= refs.len(),
                in_range(self.coords(), refs@),
                points@ == chain(self.coords(), refs@.take(j as int)),
            decreases refs.len() - j,
        {
            proof {
                lemma_chain_step(self.coords(), refs@, j as int);
            }
            self.arc(refs[j], &mut points);
            j += 1;
        }
        assert(refs@.take(j as int) == refs@);
        if points.len() < 2 {
            let first = points[0];
            points.push(first);
        }
        points
    }

    /// The ring through the arcs of `refs`: four positions at least, and
    /// ending where it starts.
    pub fn ring(&self, refs: &Vec<i32>) -> (points: Vec<P>)
        requires
            drawable(self.coords(), refs@),
        ensures
            points@.len() >= 4,
            P::obeys_eq_spec() ==> points@ == ring(self.coords(), refs@),
            P::obeys_eq_spec() ==> coincide(points@.first(), points@.last()),
    {
        let mut points = self.line(refs);
        let ghost drawn = points@;
        let first = points[0];
        while points.len() < 4
            invariant
                2 <= drawn.len(),
                drawn.len() <= points.len() <= 4 || points@ == drawn,
                first == drawn[0],
                points@ == drawn + Seq::new((points.len() - drawn.len()) as nat, |i: int| first),
            decreases 4 - points.len(),
        {
            points.push(first);
        }
        assert(points@ == padded(drawn));
        let last = points[points.len() - 1];
        if !(first == last) {
            points.push(first);
        }
        points
    }

    /// Tells whether every ring of `rings` can be drawn.
    pub fn draws_all(&self, rings: &Vec<Vec<i32>>) -> (yes: bool)
        ensures
            yes == all_drawable(self.coords(), rows(*rings)),
    {
        let mut j: usize = 0;
        while j < rings.len()
            invariant
                j <= rings.len(),
                forall|i: int| 0 <= i < j ==> drawable(self.coords(), #[trigger] rows(*rings)[i]),
            decreases rings.len() - j,
        {
            if !self.draws(&rings[j]) {
                assert(rows(*rings)[j as int] == rings[j as int]@);
                return false;
            }
            assert(rows(*rings)[j as int] == rings[j as int]@);
            j += 1;
        }
        true
    }

    /// The polygon with the rings `rings`: the first is its exterior, the
    /// others are its holes.
    pub fn polygon(&self, rings: &Vec<Vec<i32>>) -> (shape: Polygon<P>)
        requires
            all_drawable(self.coords(), rows(*rings)),
        ensures
            P::obeys_eq_spec() ==> shape@ == polygon(self.coords(), rows(*rings)),
    {
        if rings.len() == 0 {
            let shape = Polygon { exterior: Vec::new(), interiors: Vec::new() };
            assert(shape@.interiors =~= Seq::<Seq<P>>::empty());
            return shape;
        }
        assert(rows(*rings)[0] == rings[0]@);
        let exterior = self.ring(&rings[0]);
        let mut interiors: Vec<Vec<P>> = Vec::new();
        let mut j: usize = 1;
        while j < rings.len()
            invariant
                1 <= j <= rings.len(),
                all_drawable(self.coords(), rows(*rings)),
                interiors.len() == j - 1,
                P::obeys_eq_spec() ==> forall|i: int|
                    0 <= i < j - 1 ==> (#[trigger] interiors[i])@ == ring(
                        self.coords(),
                        rings[i + 1]@,
                    ),
            decreases rings.len() - j,
        {
            assert(rows(*rings)[j as int] == rings[j as int]@);
            let hole = self.ring(&rings[j]);
            interiors.push(hole);
            j += 1;
        }
        let shape = Polygon { exterior, interiors };
        assert(P::obeys_eq_spec() ==> shape@.interiors =~= polygon(
            self.coords(),
            rows(*rings),
        ).interiors);
        shape
    }

    /// Tells whether `o` can be turned into coordinates by this builder.
    #[verifier::loop_isolation(false)]
    pub fn resolves(&self, o: &Value<P>) -> (yes: bool)
        ensures
            yes == resolves(self.coords(), *o),
        decreases o,
    {
        match o {
            Value::Point(_) => true,
            Value::MultiPoint(_) => true,
            Value::LineString(l) => self.draws(l),
            Value::MultiLineString(ls) => self.draws_all(ls),
            Value::Polygon(rings) => self.draws_all(rings),
            Value::MultiPolygon(ps) => {
                let mut j: usize = 0;
                while j < ps.len()
                    invariant
                        j <= ps.len(),
                        forall|i: int|
                            0 <= i < j ==> all_drawable(self.coords(), rows(#[trigger] ps[i])),
                    decreases ps.len() - j,
                {
                    if !self.draws_all(&ps[j]) {
                        return false;
                    }
                    j += 1;
                }
                true
            },
            Value::GeometryCollection(gs) => {
                let mut j: usize = 0;
                while j < gs.len()
                    invariant
                        j <= gs.len(),
                        forall|i: int| 0 <= i < j ==> resolves(self.coords(), #[trigger] gs[i]),
                    decreases gs.len() - j,
                {
                    if !self.resolves(&gs[j]) {
                        return false;
                    }
                    j += 1;
                }
                true
            },
        }
    }

    /// Turns `o` into coordinates. A collection is resolved member by
    /// member, in order and without flattening.
    #[verifier::loop_isolation(false)]
    pub fn geometry(&self, o: &Value<P>) -> (shape: Geometry<P>)
        requires
            resolves(self.coords(), *o),
        ensures
            P::obeys_eq_spec() || ringless(*o) ==> shape@ == realize(self.coords(), *o),
        decreases o,
    {
        match o {
            Value::Point(p) => Geometry::Point(self.point(p)),
            Value::MultiPoint(ps) => {
                let mut points: Vec<P> = Vec::new();
                let mut j: usize = 0;
                while j < ps.len()
                    invariant
                        j <= ps.len(),
                        points@ == ps@.take(j as int),
                    decreases ps.len() - j,
                {
                    points.push(self.point(&ps[j]));
                    j += 1;
                }
                assert(ps@.take(j as int) == ps@);
                Geometry::MultiPoint(points)
            },
            Value::LineString(l) => Geometry::LineString(self.line(l)),
            Value::MultiLineString(ls) => {
                let mut lines: Vec<Vec<P>> = Vec::new();
                let mut j: usize = 0;
                while j < ls.len()
                    invariant
                        j <= ls.len(),
                        all_drawable(self.coords(), rows(*ls)),
                        lines.len() == j,
                        forall|i: int|
                            0 <= i < j ==> (#[trigger] lines[i])@ == line(self.coords(), ls[i]@),
                    decreases ls.len() - j,
                {
                    assert(rows(*ls)[j as int] == ls[j as int]@);
                    let drawn = self.line(&ls[j]);
                    lines.push(drawn);
                    j += 1;
                }
                let shape = Geometry::MultiLineString(lines);
                assert(shape@->MultiLineString_0 =~= realize(
                    self.coords(),
                    *o,
                )->MultiLineString_0);
                shape
            },
            Value::Polygon(rings) => Geometry::Polygon(self.polygon(rings)),
            Value::MultiPolygon(ps) => {
                let mut shapes: Vec<Polygon<P>> = Vec::new();
                let mut j: usize = 0;
                while j < ps.len()
                    invariant
                        j <= ps.len(),
                        forall|i: int|
                            0 <= i < ps.len() ==> all_drawable(
                                self.coords(),
                                rows(#[trigger] ps[i]),
                            ),
                        shapes.len() == j,
                        P::obeys_eq_spec() ==> forall|i: int|
                            0 <= i < j ==> (#[trigger] shapes[i])@ == polygon(
                                self.coords(),
                                rows(ps[i]),
                            ),
                    decreases ps.len() - j,
                {
                    let shape = self.polygon(&ps[j]);
                    shapes.push(shape);
                    j += 1;
                }
                let shape = Geometry::MultiPolygon(shapes);
                assert(P::obeys_eq_spec() ==> shape@->MultiPolygon_0 =~= realize(
                    self.coords(),
                    *o,
                )->MultiPolygon_0);
                shape
            },
            Value::GeometryCollection(gs) => {
                let mut shapes: Vec<Geometry<P>> = Vec::new();
                let mut j: usize = 0;
                while j < gs.len()
                    invariant
                        j <= gs.len(),
                        forall|i: int|
                            0 <= i < gs.len() ==> resolves(self.coords(), #[trigger] gs[i]),
                        shapes.len() == j,
                        P::obeys_eq_spec() || ringless(*o) ==> forall|i: int|
                            0 <= i < j ==> (#[trigger] shapes[i])@ == realize(
                                self.coords(),
                                gs[i],
                            ),
                    decreases gs.len() - j,
                {
                    let shape = self.geometry(&gs[j]);
                    shapes.push(shape);
                    j += 1;
                }
                let shape = Geometry::GeometryCollection(shapes);
                assert(P::obeys_eq_spec() || ringless(*o) ==> shape@->GeometryCollection_0
                    =~= realize(self.coords(), *o)->GeometryCollection_0);
                shape
            },
        }
    }
}

/// The index of the first member of `objects` that goes by `name`, if there
/// is one.
pub open spec fn position_of<P>(objects: Seq<NamedGeometry<P>>, name: Seq<char>) -> Option<int>
    decreases objects.len(),
{
    if objects.len() == 0 {
        None
    } else {
        match position_of(objects.drop_last(), name) {
            Some(i) => Some(i),
            None => if objects.last().name@ == name {
                Some(objects.len() - 1)
            } else {
                None
            },
        }
    }
}

/// `position_of` finds a member of the given name, and none stands before it.
pub proof fn lemma_position_of<P>(objects: Seq<NamedGeometry<P>>, name: Seq<char>)
    ensures
        match position_of(objects, name) {
            Some(i) => {
                &&& 0 <= i < objects.len()
                &&& objects[i].name@ == name
                &&& forall|j: int| 0 <= j < i ==> objects[j].name@ != name
            },
            None => forall|j: int| 0 <= j < objects.len() ==> objects[j].name@ != name,
        },
    decreases objects.len(),
{
    if objects.len() > 0 {
        let front = objects.drop_last();
        let last = objects.len() - 1;
        lemma_position_of(front, name);
        assert(front.len() == last);
        assert forall|j: int| 0 <= j < last implies front[j] == objects[j] by {}
        match position_of(front, name) {
            Some(i) => {
                assert(position_of(objects, name) == Some(i));
                assert(front[i] == objects[i]);
                assert forall|j: int| 0 <= j < i implies objects[j].name@ != name by {
                    assert(front[j] == objects[j]);
                }
            },
            None => {
                assert forall|j: int| 0 <= j < last implies objects[j].name@ != name by {
                    assert(front[j] == objects[j]);
                }
                assert(objects.last() == objects[last]);
            },
        }
    }
}

/// Tells whether `o` can be turned into coordinates over the arcs of
/// `topology`: whether `feature` may be called on it.
pub fn can_resolve<P: Copy + PartialEq>(topology: &Topology<P>, o: &Value<P>) -> (yes: bool)
    ensures
        yes == resolves(topology.coords(), *o),
{
    Builder::new(topology).resolves(o)
}

/// Turns the geometry `o`, which refers to arcs of `topology`, into the
/// geometry of coordinates that it stands for.
pub fn feature<P: Copy + PartialEq>(topology: &Topology<P>, o: &Value<P>) -> (shape: Geometry<P>)
    requires
        resolves(topology.coords(), *o),
    ensures
        P::obeys_eq_spec() || ringless(*o) ==> shape@ == realize(topology.coords(), *o),
{
    Builder::new(topology).geometry(o)
}

/// Looks up the first geometry of `topology` that goes by `name` and turns it
/// into coordinates. There is no result when no geometry has that name.
#[verifier::loop_isolation(false)]
pub fn feature_from_name<P: Copy + PartialEq>(topology: &Topology<P>, name: &str) -> (found: Option<
    Geometry<P>,
>)
    requires
        position_of(topology.objects@, name@) matches Some(i) ==> resolves(
            topology.coords(),
            topology.objects[i].geometry,
        ),
    ensures
        match position_of(topology.objects@, name@) {
            Some(i) => found matches Some(shape) && (P::obeys_eq_spec() || ringless(
                topology.objects[i].geometry,
            ) ==> shape@ == realize(topology.coords(), topology.objects[i].geometry)),
            None => found is None,
        },
{
    let wanted = name.to_owned();
    let mut j: usize = 0;
    while j < topology.objects.len()
        invariant
            j <= topology.objects.len(),
            wanted@ == name@,
            position_of(topology.objects@.take(j as int), name@) is None,
        decreases topology.objects.len() - j,
    {
        if topology.objects[j].name == wanted {
            proof {
                let before = topology.objects@.take(j as int);
                lemma_position_of(before, name@);
                lemma_position_of(topology.objects@, name@);
                assert forall|k: int| 0 <= k < j implies topology.objects[k].name@ != name@ by {
                    assert(before[k] == topology.objects[k]);
                }
            }
            return Some(feature(topology, &topology.objects[j].geometry));
        }
        assert(topology.objects@.take(j + 1).drop_last() == topology.objects@.take(j as int));
        j += 1;
    }
    assert(topology.objects@.take(j as int) == topology.objects@);
    None
}

} // verus!
