use topojson_client::feature::Builder;
use topojson_client::merge::{
    copy_rings, exterior_first, flatten, is_polygonal, merge, merge_arcs, MergeArcs, MergeError,
};
use topojson_client::polygon_u::PolygonU;
use topojson_client::topology::{Arc, Geometry, Key, NamedGeometry, Polygon, Topology, Value};

type P = (f64, f64);

fn key(p: &[f64]) -> Key {
    (p[0] as i32, p[1] as i32)
}

/// An arc as the library takes it, from coordinates that are stored as they
/// are.
fn arc(raw: &[(f64, f64)]) -> Arc<P> {
    let first = raw[0];
    let last = raw[raw.len() - 1];
    Arc {
        points: raw.to_vec(),
        start: key(&[first.0, first.1]),
        end: key(&[last.0, last.1]),
        zero_step: raw.len() > 1 && raw[1].0 == 0_f64 && raw[1].1 == 0_f64,
    }
}

fn topology(arcs: Vec<Vec<(f64, f64)>>, objects: Vec<NamedGeometry<P>>) -> Topology<P> {
    Topology { arcs: arcs.iter().map(|a| arc(a)).collect(), objects }
}

fn named(name: &str, geometry: Value<P>) -> NamedGeometry<P> {
    NamedGeometry { name: name.to_string(), geometry }
}

/// Twice the area that a ring encloses.
fn planar_ring_area(ring: &[P]) -> f64 {
    let mut b = ring[ring.len() - 1];
    let mut area = 0_f64;
    for r in ring {
        let a = b;
        b = *r;
        area = area + a.0 * b.1 - a.1 * b.0;
    }
    area.abs()
}

/// An area as a number that is greater where the area is greater.
fn rank(area: f64) -> u64 {
    area.to_bits()
}

/// The merged polygons as coordinates: arcs first, then the areas of the
/// rings, then the geometry.
fn merged(topology: &Topology<P>, objects: &Vec<NamedGeometry<P>>) -> Geometry<P> {
    let polygons = merge_arcs(topology, objects).unwrap();
    let builder = Builder::new(topology);
    let areas: Vec<Vec<u64>> = polygons
        .iter()
        .map(|rings| rings.iter().map(|ring| rank(planar_ring_area(&builder.ring(ring)))).collect())
        .collect();
    merge(topology, polygons, &areas)
}

fn polygon(exterior: Vec<P>, interiors: Vec<Vec<P>>) -> Polygon<P> {
    Polygon { exterior, interiors }
}

#[test]
fn merge_ignores_null_geometries() {
    println!("merge ignores null geometries");
    let topology = topology(vec![], vec![]);
    let mp = Geometry::MultiPolygon(vec![]);

    assert_eq!(merged(&topology, &vec![]), mp);
}

fn side_by_side_arcs() -> Vec<Vec<(f64, f64)>> {
    vec![
        vec![(1_f64, 1_f64), (1_f64, 0_f64)],
        vec![(1_f64, 0_f64), (0_f64, 0_f64), (0_f64, 1_f64), (1_f64, 1_f64)],
        vec![(1_f64, 1_f64), (2_f64, 1_f64), (2_f64, 0_f64), (1_f64, 0_f64)],
    ]
}

///
/// +----+----+            +----+----+
/// |    |    |            |         |
/// |    |    |    ==>     |         |
/// |    |    |            |         |
/// +----+----+            +----+----+
///
#[test]
fn stitches_together_two_side_by_side_polygons() {
    println!("merge stitches together two side-by-side polygons");

    let objects = || {
        vec![
            named("a", Value::Polygon(vec![vec![0, 1]])),
            named("b", Value::Polygon(vec![vec![-1, 2]])),
        ]
    };

    let topology = topology(side_by_side_arcs(), objects());
    let coords: Vec<(f64, f64)> = vec![
        (1_f64, 0_f64),
        (0_f64, 0_f64),
        (0_f64, 1_f64),
        (1_f64, 1_f64),
        (2_f64, 1_f64),
        (2_f64, 0_f64),
        (1_f64, 0_f64),
    ];
    let mp = Geometry::MultiPolygon(vec![polygon(coords, vec![])]);

    assert_eq!(merged(&topology, &objects()), mp);
}

#[test]
fn stitches_together_geometry_collections() {
    println!("merge stitches together geometry collections");

    let objects = || {
        vec![named(
            "foo",
            Value::GeometryCollection(vec![
                Value::Polygon(vec![vec![0, 1]]),
                Value::Polygon(vec![vec![-1, 2]]),
            ]),
        )]
    };

    let topology = topology(side_by_side_arcs(), objects());
    let coords: Vec<(f64, f64)> = vec![
        (1_f64, 0_f64),
        (0_f64, 0_f64),
        (0_f64, 1_f64),
        (1_f64, 1_f64),
        (2_f64, 1_f64),
        (2_f64, 0_f64),
        (1_f64, 0_f64),
    ];
    let mp = Geometry::MultiPolygon(vec![polygon(coords, vec![])]);

    assert_eq!(merged(&topology, &objects()), mp);
}

#[test]
fn merge_does_not_stitch_together_two_separated_polygons() {
    println!("merge does not stitch together two separated polygons");

    let objects = || {
        vec![named("a", Value::Polygon(vec![vec![0]])), named("b", Value::Polygon(vec![vec![1]]))]
    };

    let topology = topology(
        vec![
            vec![(0_f64, 0_f64), (0_f64, 1_f64), (1_f64, 1_f64), (1_f64, 0_f64), (0_f64, 0_f64)],
            vec![(2_f64, 0_f64), (2_f64, 1_f64), (3_f64, 1_f64), (3_f64, 0_f64), (2_f64, 0_f64)],
        ],
        objects(),
    );
    let coords1: Vec<(f64, f64)> =
        vec![(0_f64, 0_f64), (0_f64, 1_f64), (1_f64, 1_f64), (1_f64, 0_f64), (0_f64, 0_f64)];
    let coords2: Vec<(f64, f64)> =
        vec![(2_f64, 0_f64), (2_f64, 1_f64), (3_f64, 1_f64), (3_f64, 0_f64), (2_f64, 0_f64)];
    let mp = Geometry::MultiPolygon(vec![polygon(coords1, vec![]), polygon(coords2, vec![])]);

    assert_eq!(merged(&topology, &objects()), mp);
}

fn nested_arcs() -> Vec<Vec<(f64, f64)>> {
    vec![
        vec![(0_f64, 0_f64), (0_f64, 3_f64), (3_f64, 3_f64), (3_f64, 0_f64), (0_f64, 0_f64)],
        vec![(1_f64, 1_f64), (2_f64, 1_f64), (2_f64, 2_f64), (1_f64, 2_f64), (1_f64, 1_f64)],
    ]
}

//
// +-----------+            +-----------+
// |           |            |           |
// |   +---+   |    ==>     |   +---+   |
// |   |   |   |            |   |   |   |
// |   +---+   |            |   +---+   |
// |           |            |           |
// +-----------+            +-----------+
//
#[test]
fn merge_does_not_stitch_together_a_polygon_and_its_hole() {
    println!("merge does not stitch together a polygon and its hole");

    let objects = || {
        vec![named("foo", Value::GeometryCollection(vec![Value::Polygon(vec![vec![0], vec![1]])]))]
    };

    let topology = topology(nested_arcs(), objects());

    let p1 = polygon(
        vec![(0.0_f64, 0.0_f64), (0.0_f64, 3.0_f64), (3.0_f64, 3.0_f64), (3.0_f64, 0.0_f64), (0.0_f64, 0.0_f64)],
        vec![vec![(1_f64, 1_f64), (2_f64, 1_f64), (2_f64, 2_f64), (1_f64, 2_f64), (1_f64, 1_f64)]],
    );
    let mp = Geometry::MultiPolygon(vec![p1]);

    assert_eq!(merged(&topology, &objects()), mp);
}

//
// +-----------+            +-----------+
// |           |            |           |
// |   +---+   |    ==>     |           |
// |   |   |   |            |           |
// |   +---+   |            |           |
// |           |            |           |
// +-----------+            +-----------+
//
#[test]
fn merge_stitches_together_a_polygon_surrounding_another_polygon() {
    println!("merge stitches together a polygon surrounding another polygon");

    let objects = || {
        vec![named(
            "foo",
            Value::GeometryCollection(vec![
                Value::Polygon(vec![vec![0], vec![1]]),
                Value::Polygon(vec![vec![-2]]),
            ]),
        )]
    };

    let topology = topology(nested_arcs(), objects());

    let p1 = polygon(
        vec![(0.0_f64, 0.0_f64), (0.0_f64, 3.0_f64), (3.0_f64, 3.0_f64), (3.0_f64, 0.0_f64), (0.0_f64, 0.0_f64)],
        vec![],
    );
    let mp = Geometry::MultiPolygon(vec![p1]);

    assert_eq!(merged(&topology, &objects()), mp);
}

//
// +-----------+-----------+            +-----------+-----------+
// |           |           |            |                       |
// |   +---+   |   +---+   |    ==>     |   +---+       +---+   |
// |   |   |   |   |   |   |            |   |   |       |   |   |
// |   +---+   |   +---+   |            |   +---+       +---+   |
// |           |           |            |                       |
// +-----------+-----------+            +-----------+-----------+
//
#[test]
fn stitches_together_two_side_by_side_polygons_with_holes() {
    println!("merge stitches together two side-by-side polygons with holes");

    let objects = || {
        vec![named(
            "foo",
            Value::GeometryCollection(vec![
                Value::Polygon(vec![vec![0, 1], vec![2]]),
                Value::Polygon(vec![vec![-1, 3], vec![4]]),
            ]),
        )]
    };

    let topology = topology(
        vec![
            vec![(3_f64, 3_f64), (3_f64, 0_f64)],
            vec![(3_f64, 0_f64), (0_f64, 0_f64), (0_f64, 3_f64), (3_f64, 3_f64)],
            vec![(1_f64, 1_f64), (2_f64, 1_f64), (2_f64, 2_f64), (1_f64, 2_f64), (1_f64, 1_f64)],
            vec![(3_f64, 3_f64), (6_f64, 3_f64), (6_f64, 0_f64), (3_f64, 0_f64)],
            vec![(4_f64, 1_f64), (5_f64, 1_f64), (5_f64, 2_f64), (4_f64, 2_f64), (4_f64, 1_f64)],
        ],
        objects(),
    );

    let p1 = polygon(
        vec![
            (3.0_f64, 0.0_f64),
            (0.0_f64, 0.0_f64),
            (0.0_f64, 3.0_f64),
            (3.0_f64, 3.0_f64),
            (6.0_f64, 3.0_f64),
            (6.0_f64, 0.0_f64),
            (3.0_f64, 0.0_f64),
        ],
        vec![
            vec![(1., 1.), (2., 1.), (2., 2.), (1., 2.), (1., 1.)],
            vec![(4., 1.), (5., 1.), (5., 2.), (4., 2.), (4., 1.)],
        ],
    );
    let mp = Geometry::MultiPolygon(vec![p1]);

    assert_eq!(merged(&topology, &objects()), mp);
}

fn horseshoe_arcs() -> Vec<Vec<(f64, f64)>> {
    vec![
        vec![(2_f64, 3_f64), (2_f64, 2_f64)],
        vec![(2_f64, 2_f64), (1_f64, 2_f64), (1_f64, 1_f64), (2_f64, 1_f64)],
        vec![(2_f64, 1_f64), (2_f64, 0_f64)],
        vec![(2_f64, 0_f64), (0_f64, 0_f64), (0_f64, 3_f64), (2_f64, 3_f64)],
        vec![(2_f64, 1_f64), (3_f64, 1_f64), (3_f64, 2_f64), (2_f64, 2_f64)],
        vec![(2_f64, 3_f64), (4_f64, 3_f64), (4_f64, 0_f64), (2_f64, 0_f64)],
    ]
}

//
// +-------+-------+            +-------+-------+
// |       |       |            |               |
// |   +---+---+   |    ==>     |   +---+---+   |
// |   |       |   |            |   |       |   |
// |   +---+---+   |            |   +---+---+   |
// |       |       |            |               |
// +-------+-------+            +-------+-------+
//
#[test]
fn merge_stitches_together_two_horseshoe_polygons_creating_a_hole() {
    println!("merge stitches together two horseshoe polygons, creating a hole");

    let objects = || {
        vec![named(
            "foo",
            Value::GeometryCollection(vec![
                Value::Polygon(vec![vec![0, 1, 2, 3]]),
                Value::Polygon(vec![vec![-3, 4, -1, 5]]),
            ]),
        )]
    };

    let topology = topology(horseshoe_arcs(), objects());

    let p1 = polygon(
        vec![
            (2.0_f64, 0.0_f64),
            (0.0_f64, 0.0_f64),
            (0.0_f64, 3.0_f64),
            (2.0_f64, 3.0_f64),
            (4.0_f64, 3.0_f64),
            (4.0_f64, 0.0_f64),
            (2.0_f64, 0.0_f64),
        ],
        vec![vec![(2., 2.), (1., 2.), (1., 1.), (2., 1.), (3., 1.), (3., 2.), (2., 2.)]],
    );
    let mp = Geometry::MultiPolygon(vec![p1]);

    assert_eq!(merged(&topology, &objects()), mp);
}

//
// +-------+-------+            +-------+-------+
// |       |       |            |               |
// |   +---+---+   |    ==>     |               |
// |   |   |   |   |            |               |
// |   +---+---+   |            |               |
// |       |       |            |               |
// +-------+-------+            +-------+-------+
//
#[test]
fn merge_stitches_together_two_horseshoe_polygons_surrounding_two_other_polygons() {
    println!("merge stitches together two horseshoe polygons surrounding two other polygons");

    let objects = || {
        vec![named(
            "foo",
            Value::GeometryCollection(vec![
                Value::Polygon(vec![vec![0, 1, 2, 3]]),
                Value::Polygon(vec![vec![-3, 4, -1, 5]]),
                Value::Polygon(vec![vec![6, -2]]),
                Value::Polygon(vec![vec![-7, -5]]),
            ]),
        )]
    };

    let topology = topology(horseshoe_arcs(), objects());

    let p1 = polygon(
        vec![
            (2.0_f64, 0.0_f64),
            (0.0_f64, 0.0_f64),
            (0.0_f64, 3.0_f64),
            (2.0_f64, 3.0_f64),
            (4.0_f64, 3.0_f64),
            (4.0_f64, 0.0_f64),
            (2.0_f64, 0.0_f64),
        ],
        vec![],
    );
    let mp = Geometry::MultiPolygon(vec![p1]);

    assert_eq!(merged(&topology, &objects()), mp);
}

#[test]
fn the_arcs_of_merged_polygons_come_group_by_group() {
    let objects = vec![
        named("a", Value::Polygon(vec![vec![0, 1, 2, 3]])),
        named("b", Value::MultiPolygon(vec![vec![vec![-3, 4, -1, 5]]])),
    ];
    let topology = topology(horseshoe_arcs(), vec![]);
    assert_eq!(merge_arcs(&topology, &objects), Ok(vec![vec![vec![3, 5], vec![1, 4]]]));

    let apart = vec![
        named("a", Value::Polygon(vec![vec![0]])),
        named("b", Value::Polygon(vec![vec![1]])),
    ];
    let topology = self::topology(nested_arcs(), vec![]);
    assert_eq!(merge_arcs(&topology, &apart), Ok(vec![vec![vec![0]], vec![vec![1]]]));
}

#[test]
fn a_group_of_which_no_arc_is_left_is_passed_over() {
    let objects = vec![named(
        "foo",
        Value::GeometryCollection(vec![
            Value::Polygon(vec![vec![1]]),
            Value::Polygon(vec![vec![-2]]),
            Value::Polygon(vec![vec![0]]),
        ]),
    )];
    let topology = topology(nested_arcs(), vec![]);
    assert_eq!(merge_arcs(&topology, &objects), Ok(vec![vec![vec![0]]]));
}

#[test]
fn what_is_no_polygon_cannot_be_merged() {
    let topology = topology(nested_arcs(), vec![]);
    for geometry in [
        Value::Point((0_f64, 0_f64)),
        Value::MultiPoint(vec![]),
        Value::LineString(vec![0]),
        Value::MultiLineString(vec![vec![0]]),
        Value::GeometryCollection(vec![Value::Polygon(vec![vec![0]]), Value::LineString(vec![0])]),
    ] {
        assert!(!is_polygonal(&geometry));
        let objects = vec![named("a", Value::Polygon(vec![vec![1]])), named("b", geometry)];
        assert_eq!(merge_arcs(&topology, &objects), Err(MergeError::NotAPolygon));
    }
    assert!(is_polygonal::<P>(&Value::Polygon(vec![])));
    assert!(is_polygonal::<P>(&Value::GeometryCollection(vec![])));
    assert!(is_polygonal::<P>(&Value::GeometryCollection(vec![Value::MultiPolygon(vec![])])));
}

#[test]
fn an_arc_of_the_boundary_that_the_topology_lacks_cannot_be_merged() {
    let topology = topology(nested_arcs(), vec![]);
    let objects = vec![named("a", Value::Polygon(vec![vec![0], vec![2]]))];
    assert_eq!(merge_arcs(&topology, &objects), Err(MergeError::UnknownArc));
    let objects = vec![named("a", Value::Polygon(vec![vec![0], vec![-4]]))];
    assert_eq!(merge_arcs(&topology, &objects), Err(MergeError::UnknownArc));
    // An arc that two polygons share is dropped before it is looked up.
    let objects = vec![
        named("a", Value::Polygon(vec![vec![0], vec![2]])),
        named("b", Value::Polygon(vec![vec![-3]])),
    ];
    assert_eq!(merge_arcs(&topology, &objects), Ok(vec![vec![vec![0]]]));
    // So is an arc that one polygon goes along twice.
    let objects = vec![named("a", Value::Polygon(vec![vec![0], vec![5, -6]]))];
    assert_eq!(merge_arcs(&topology, &objects), Ok(vec![vec![vec![0]]]));
}

#[test]
fn the_ring_of_the_greatest_area_goes_first() {
    let mut rings = vec![vec![1], vec![2], vec![3], vec![4]];
    exterior_first(&mut rings, &vec![2, 36, 2, 40]);
    assert_eq!(rings, vec![vec![4], vec![1], vec![3], vec![2]]);

    let mut rings = vec![vec![1], vec![2], vec![3]];
    exterior_first(&mut rings, &vec![5, 5, 5]);
    assert_eq!(rings, vec![vec![1], vec![2], vec![3]]);

    let mut rings = vec![vec![1], vec![2], vec![3]];
    exterior_first(&mut rings, &vec![1, 7, 7]);
    assert_eq!(rings, vec![vec![2], vec![1], vec![3]]);

    let mut rings = vec![vec![7, 8]];
    exterior_first(&mut rings, &vec![0]);
    assert_eq!(rings, vec![vec![7, 8]]);

    let mut rings: Vec<Vec<i32>> = vec![];
    exterior_first(&mut rings, &vec![]);
    assert_eq!(rings, Vec::<Vec<i32>>::new());
}

#[test]
fn the_exterior_is_the_ring_that_encloses_most() {
    // The hole comes out of the stitching first, by the order of the keys,
    // and the area puts the exterior in front of it.
    let objects = || vec![named("a", Value::Polygon(vec![vec![0], vec![1]]))];
    let arcs = vec![
        vec![(9_f64, 9_f64), (9_f64, 5_f64), (5_f64, 5_f64), (5_f64, 9_f64), (9_f64, 9_f64)],
        vec![(6_f64, 6_f64), (7_f64, 6_f64), (7_f64, 7_f64), (6_f64, 7_f64), (6_f64, 6_f64)],
    ];
    let topology = topology(arcs, objects());
    assert_eq!(merge_arcs(&topology, &objects()), Ok(vec![vec![vec![1], vec![0]]]));
    assert_eq!(
        merged(&topology, &objects()),
        Geometry::MultiPolygon(vec![polygon(
            vec![(9_f64, 9_f64), (9_f64, 5_f64), (5_f64, 5_f64), (5_f64, 9_f64), (9_f64, 9_f64)],
            vec![vec![(6_f64, 6_f64), (7_f64, 6_f64), (7_f64, 7_f64), (6_f64, 7_f64), (6_f64, 6_f64)]],
        )])
    );
    // Without areas that tell them apart the rings stay as they are.
    let polygons = merge_arcs(&topology, &objects()).unwrap();
    assert_eq!(
        merge(&topology, polygons, &vec![vec![0, 0]]),
        Geometry::MultiPolygon(vec![polygon(
            vec![(6_f64, 6_f64), (7_f64, 6_f64), (7_f64, 7_f64), (6_f64, 7_f64), (6_f64, 6_f64)],
            vec![vec![(9_f64, 9_f64), (9_f64, 5_f64), (5_f64, 5_f64), (5_f64, 9_f64), (9_f64, 9_f64)]],
        )])
    );
}

#[test]
fn polygons_are_sorted_into_groups_by_the_arcs_they_share() {
    let topology = topology(horseshoe_arcs(), vec![]);
    let mut ma: MergeArcs<P> = MergeArcs::new(&topology);
    ma.extract(&vec![vec![0, 1]]);
    ma.geometry(&Value::MultiPolygon(vec![vec![vec![2]], vec![vec![3], vec![-1]]]));
    ma.geometry(&Value::GeometryCollection(vec![Value::Polygon(vec![vec![4, 5]])]));
    ma.extract(&vec![vec![-3, -6]]);
    ma.group();
    assert_eq!(ma.groups_len(), 2);
    assert_eq!(ma.members(0), &vec![0, 2]);
    assert_eq!(ma.members(1), &vec![1, 4, 3]);
    assert_eq!(ma.boundary(0), vec![1, 3]);
    assert_eq!(ma.boundary(1), vec![4]);
    let mut neighbors = vec![];
    ma.visit(1, &mut neighbors);
    assert_eq!(neighbors, vec![1, 4]);
}

#[test]
fn no_polygon_is_in_two_groups() {
    let topology = topology(horseshoe_arcs(), vec![]);
    let mut ma: MergeArcs<P> = MergeArcs::new(&topology);
    let polygons: Vec<Vec<Vec<i32>>> = vec![
        vec![vec![0, 1]],
        vec![vec![7]],
        vec![vec![-1], vec![2]],
        vec![],
        vec![vec![3, 4]],
        vec![vec![-3, 8], vec![-8]],
        vec![vec![5]],
        vec![vec![-5, 9]],
    ];
    for polygon in &polygons {
        ma.extract(polygon);
    }
    ma.group();
    let mut seen: Vec<usize> = Vec::new();
    for g in 0..ma.groups_len() {
        seen.extend(ma.members(g).iter().copied());
    }
    let mut sorted = seen.clone();
    sorted.sort();
    assert_eq!(sorted, vec![0, 1, 2, 3, 4, 5, 6, 7]);
    assert_eq!(seen.len(), polygons.len());
    assert_eq!(ma.groups_len(), 4);
    assert_eq!(ma.members(0), &vec![0, 2, 5, 1]);
    assert_eq!(ma.members(1), &vec![3]);
    assert_eq!(ma.members(2), &vec![4, 7]);
    assert_eq!(ma.members(3), &vec![6]);
}

#[test]
fn rings_are_copied_and_laid_flat() {
    let rings = vec![vec![1, -2], vec![], vec![3]];
    assert_eq!(flatten(&rings), vec![1, -2, 3]);
    assert_eq!(copy_rings(&rings), rings);
    assert_eq!(flatten(&vec![]), Vec::<i32>::new());
}

#[test]
fn a_polygon_carries_its_mark() {
    let mut polygon = PolygonU::from(vec![vec![0, 1], vec![2]]);
    assert!(polygon.is_not_marked());
    assert_eq!(polygon.v, vec![vec![0, 1], vec![2]]);
    assert_eq!(polygon.arcs(), &vec![vec![0, 1], vec![2]]);
    polygon.mark();
    assert!(!polygon.is_not_marked());
    polygon.mark();
    assert!(!polygon.is_not_marked());
    polygon.unmark();
    assert!(polygon.is_not_marked());
    assert_eq!(polygon.v, vec![vec![0, 1], vec![2]]);
    assert!(PolygonU::new(vec![]).is_not_marked());
}
