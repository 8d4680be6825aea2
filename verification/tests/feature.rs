use topojson_client::feature::{can_resolve, feature, feature_from_name, Builder};
use topojson_client::topology::{Arc, Geometry, Key, NamedGeometry, Polygon, Topology, Value};

type P = (f64, f64);

/// The key of a stored position: its two leading numbers, cut to integers.
fn key(p: &[f64]) -> Key {
    (p[0] as i32, p[1] as i32)
}

/// An arc as the library takes it, from the positions as they are stored:
/// with `transform` (scale, then translate) the positions are steps that add
/// up, without it they are the coordinates themselves.
fn arc(raw: &[Vec<f64>], transform: Option<([f64; 2], [f64; 2])>) -> Arc<P> {
    let mut points = Vec::new();
    let (mut x0, mut y0) = (0_f64, 0_f64);
    for p in raw {
        match transform {
            None => points.push((p[0], p[1])),
            Some((k, d)) => {
                x0 += p[0];
                y0 += p[1];
                points.push((x0 * k[0] + d[0], y0 * k[1] + d[1]));
            }
        }
    }
    let last = if transform.is_some() { vec![x0, y0] } else { raw[raw.len() - 1].clone() };
    Arc {
        points,
        start: key(&raw[0]),
        end: key(&last),
        zero_step: raw.len() > 1 && raw[1][0] == 0_f64 && raw[1][1] == 0_f64,
    }
}

/// A position as the library takes it, from the position as it is stored.
fn point(raw: &[f64], transform: Option<([f64; 2], [f64; 2])>) -> P {
    match transform {
        None => (raw[0], raw[1]),
        Some((k, d)) => (raw[0] * k[0] + d[0], raw[1] * k[1] + d[1]),
    }
}

const UNIT: Option<([f64; 2], [f64; 2])> = Some(([1_f64, 1_f64], [0_f64, 0_f64]));

fn simple_topology(object: Value<P>) -> Topology<P> {
    let arcs: Vec<Vec<Vec<f64>>> = vec![
        vec![
            vec![0_f64, 0_f64],
            vec![1_f64, 0_f64],
            vec![0_f64, 1_f64],
            vec![-1_f64, 0_f64],
            vec![0_f64, -1_f64],
        ],
        vec![vec![0_f64, 0_f64], vec![1_f64, 0_f64], vec![0_f64, 1_f64]],
        vec![vec![1_f64, 1_f64], vec![-1_f64, 0_f64], vec![0_f64, -1_f64]],
        vec![vec![1_f64, 1_f64]],
        vec![vec![0_f64, 0_f64]],
    ];
    Topology {
        arcs: arcs.iter().map(|a| arc(a, UNIT)).collect(),
        objects: vec![NamedGeometry { name: "foo".to_string(), geometry: object }],
    }
}

fn polygon(exterior: Vec<P>, interiors: Vec<Vec<P>>) -> Polygon<P> {
    Polygon { exterior, interiors }
}

fn square() -> Vec<P> {
    vec![(0_f64, 0_f64), (1_f64, 0_f64), (1_f64, 1_f64), (0_f64, 1_f64), (0_f64, 0_f64)]
}

fn square_reversed() -> Vec<P> {
    vec![(0_f64, 0_f64), (0_f64, 1_f64), (1_f64, 1_f64), (1_f64, 0_f64), (0_f64, 0_f64)]
}

#[test]
fn feature_geometry_type_is_preserved() {
    println!("topojson.feature the geometry type is preserved");
    let t = simple_topology(Value::Polygon(vec![vec![0]]));

    match feature_from_name(&t, "foo") {
        Some(g) => match g {
            Geometry::Polygon(_) => {
                assert!(true, "Must produce polygon");
            }
            _ => {
                assert!(false, "did not decode to a polygon");
            }
        },
        None => {
            assert!(false, "should have returned with geometry");
        }
    };
}

#[test]
fn feature_point() {
    println!("topojson.feature Point is a valid geometry type");
    let t = simple_topology(Value::Point(point(&[0_f64, 0_f64], UNIT)));

    assert_eq!(feature_from_name(&t, "foo"), Some(Geometry::Point((0_f64, 0_f64))));
}

#[test]
fn feature_multipoint() {
    println!("topojson.feature MultiPoint is a valid geometry type");
    let t = simple_topology(Value::MultiPoint(vec![
        point(&[0_f64, 0_f64], UNIT),
        point(&[0xf0 as f64, 0xba as f64], UNIT),
    ]));

    assert_eq!(
        feature_from_name(&t, "foo"),
        Some(Geometry::MultiPoint(vec![(0_f64, 0_f64), (0xf0 as f64, 0xba as f64)]))
    );
}

#[test]
fn feature_linestring() {
    println!("topojson.feature LineString is a valid geometry type");
    let t = simple_topology(Value::LineString(vec![0]));

    assert_eq!(feature_from_name(&t, "foo"), Some(Geometry::LineString(square())));
}

#[test]
fn feature_multiline_string() {
    println!("topojson.feature MultiLineString is a valid geometry type");
    let t = simple_topology(Value::MultiLineString(vec![vec![0]]));

    assert_eq!(feature_from_name(&t, "foo"), Some(Geometry::MultiLineString(vec![square()])));
}

#[test]
fn feature_line_string_two_coords() {
    println!("topojson.feature line-strings have at least two coordinates");
    let t1 = simple_topology(Value::LineString(vec![3]));

    assert_eq!(
        feature_from_name(&t1, "foo"),
        Some(Geometry::LineString(vec![(1_f64, 1_f64), (1_f64, 1_f64)]))
    );

    let t2 = simple_topology(Value::MultiLineString(vec![vec![3], vec![4]]));

    assert_eq!(
        feature_from_name(&t2, "foo"),
        Some(Geometry::MultiLineString(vec![
            vec![(1_f64, 1_f64), (1_f64, 1_f64)],
            vec![(0_f64, 0_f64), (0_f64, 0_f64)],
        ]))
    );
}

#[test]
fn feature_polygon() {
    println!("topojson.feature Polygon is a valid feature type");
    let t = simple_topology(Value::Polygon(vec![vec![0]]));

    assert_eq!(feature_from_name(&t, "foo"), Some(Geometry::Polygon(polygon(square(), vec![]))));
}

#[test]
fn feature_multipolygon() {
    println!("topojson.feature MultiPolygon is a valid feature type");
    let t = simple_topology(Value::MultiPolygon(vec![vec![vec![0]]]));

    assert_eq!(
        feature_from_name(&t, "foo"),
        Some(Geometry::MultiPolygon(vec![polygon(square(), vec![])]))
    );
}

#[test]
fn feature_polygons_are_closed_with_at_least_four_coordinates() {
    println!("topojson.feature polygons are closed, with at least four coordinates");
    let arcs: Vec<Vec<Vec<f64>>> = vec![
        vec![vec![0_f64, 0_f64], vec![1_f64, 1_f64]],
        vec![vec![1_f64, 1_f64], vec![-1_f64, -1_f64]],
    ];
    let topology = Topology {
        objects: vec![
            NamedGeometry { name: "foo".to_string(), geometry: Value::Polygon(vec![vec![0]]) },
            NamedGeometry { name: "bar".to_string(), geometry: Value::Polygon(vec![vec![0, 1]]) },
        ],
        arcs: arcs.iter().map(|a| arc(a, UNIT)).collect(),
    };

    assert_eq!(
        feature_from_name(&topology, "foo"),
        Some(Geometry::Polygon(polygon(
            vec![(0_f64, 0_f64), (1_f64, 1_f64), (0_f64, 0_f64), (0_f64, 0_f64)],
            vec![]
        )))
    );

    assert_eq!(
        feature_from_name(&topology, "bar"),
        Some(Geometry::Polygon(polygon(
            vec![(0_f64, 0_f64), (1_f64, 1_f64), (0_f64, 0_f64), (0_f64, 0_f64)],
            vec![]
        )))
    );
}

#[test]
fn feature_gc_are_mapped_to_fc() {
    println!("topojson.feature top-level geometry collections are mapped to feature collections");

    let t = simple_topology(Value::GeometryCollection(vec![Value::MultiPolygon(vec![vec![
        vec![0],
    ]])]));

    assert_eq!(
        feature_from_name(&t, "foo"),
        Some(Geometry::GeometryCollection(vec![Geometry::MultiPolygon(vec![polygon(
            vec![(0.0, 0.0), (1.0, 0.0), (1.0, 1.0), (0.0, 1.0), (0.0, 0.0)],
            vec![]
        )])]))
    );
}

#[test]
fn feature_gc_nested() {
    println!("topojson.feature geometry collections can be nested",);

    let t = simple_topology(Value::GeometryCollection(vec![Value::GeometryCollection(vec![
        Value::Point(point(&[0_f64, 0_f64], UNIT)),
    ])]));

    assert_eq!(
        feature_from_name(&t, "foo"),
        Some(Geometry::GeometryCollection(vec![Geometry::GeometryCollection(vec![
            Geometry::Point((0_f64, 0_f64))
        ])]))
    );
}

#[test]
fn feature_arcs_are_converted_coordinates() {
    println!("topojson.feature arcs are converted to coordinates");
    let t = simple_topology(Value::Polygon(vec![vec![0_i32]]));
    assert_eq!(feature_from_name(&t, "foo"), Some(Geometry::Polygon(polygon(square(), vec![]))));
}

#[test]
fn feature_negative_indexes_indicates_revered_coordinates() {
    println!("topojson.feature negative arc indexes indicate reversed coordinates");
    let t = simple_topology(Value::Polygon(vec![vec![!0_i32]]));
    assert_eq!(
        feature_from_name(&t, "foo"),
        Some(Geometry::Polygon(polygon(square_reversed(), vec![])))
    );
}

#[test]
fn feature_when_multiple_arc_indexes_are_specified_coordinates_are_stitched_together() {
    println!("topojson.feature when multiple arc indexes are specified, coordinates are stitched together");
    let t1 = simple_topology(Value::Polygon(vec![vec![1_i32, 2_i32]]));
    assert_eq!(feature_from_name(&t1, "foo"), Some(Geometry::Polygon(polygon(square(), vec![]))));

    let t2 = simple_topology(Value::Polygon(vec![vec![!2_i32, !1_i32]]));
    assert_eq!(
        feature_from_name(&t2, "foo"),
        Some(Geometry::Polygon(polygon(square_reversed(), vec![])))
    );
}

#[test]
fn feature_preserves_additional_dimensions_in_point_geometries() {
    println!("topojson.feature preserves additional dimensions in Point geometries");
    let t: Topology<P> = Topology {
        arcs: vec![],
        objects: vec![NamedGeometry {
            name: "foo".to_string(),
            geometry: Value::Point(point(&[1_f64, 2_f64], None)),
        }],
    };
    assert_eq!(feature_from_name(&t, "foo"), Some(Geometry::Point((1_f64, 2_f64))));
}

#[test]
fn feature_preserves_additional_dimensions_in_multipoint_geometries() {
    println!("topojson.feature preserves additional dimensions in MultiPoint geometries");
    let t: Topology<P> = Topology {
        arcs: vec![],
        objects: vec![NamedGeometry {
            name: "foo".to_string(),
            geometry: Value::MultiPoint(vec![point(&[1_f64, 2_f64], None)]),
        }],
    };
    assert_eq!(feature_from_name(&t, "foo"), Some(Geometry::MultiPoint(vec![(1_f64, 2_f64)])));
}

#[test]
fn feature_preserves_additional_dimensions_in_linestring_geometries() {
    println!("topojson.feature preserves additional dimensions in LineString geometries");
    let arcs: Vec<Vec<Vec<f64>>> = vec![vec![
        vec![1_f64, 2_f64, 0xf00 as f64, 0xbe as f64],
        vec![3_f64, 4_f64, 0xbae as f64, 0xef as f64],
    ]];
    let t = Topology {
        arcs: arcs.iter().map(|a| arc(a, None)).collect(),
        objects: vec![NamedGeometry { name: "foo".to_string(), geometry: Value::LineString(vec![0]) }],
    };
    assert_eq!(
        feature_from_name(&t, "foo"),
        Some(Geometry::LineString(vec![(1_f64, 2_f64), (3_f64, 4_f64)]))
    );
}

#[test]
fn feature_tests_geometry_type_is_preserved() {
    println!("topojson.feature the geometry type is preserved");
    let t = simple_topology(Value::Polygon(vec![vec![0]]));

    match feature_from_name(&t, "foo") {
        Some(g) => match g {
            Geometry::Polygon(_) => {
                assert!(true, "Must produce polygon");
            }
            _ => {
                assert!(false, "did not decode to a polygon");
            }
        },
        None => {
            assert!(false, "should have returned with geometry");
        }
    };
}

#[test]
fn feature_tests_point() {
    println!("topojson.feature Point is a valid geometry type");
    let t = simple_topology(Value::Point(point(&[0_f64, 0_f64], UNIT)));

    assert_eq!(feature_from_name(&t, "foo"), Some(Geometry::Point((0_f64, 0_f64))));
}

#[test]
fn feature_tests_multipoint() {
    println!("topojson.feature MultiPoint is a valid geometry type");
    let t = simple_topology(Value::MultiPoint(vec![
        point(&[0_f64, 0_f64], UNIT),
        point(&[0xf0 as f64, 0xba as f64], UNIT),
    ]));

    assert_eq!(
        feature_from_name(&t, "foo"),
        Some(Geometry::MultiPoint(vec![(0_f64, 0_f64), (0xf0 as f64, 0xba as f64)]))
    );
}

#[test]
fn feature_tests_linestring() {
    println!("topojson.feature LineString is a valid geometry type");
    let t = simple_topology(Value::LineString(vec![0]));

    assert_eq!(feature_from_name(&t, "foo"), Some(Geometry::LineString(square())));
}

#[test]
fn feature_tests_multiline_string() {
    println!("topojson.feature MultiLineString is a valid geometry type");
    let t = simple_topology(Value::MultiLineString(vec![vec![0]]));

    assert_eq!(feature_from_name(&t, "foo"), Some(Geometry::MultiLineString(vec![square()])));
}

#[test]
fn feature_tests_line_string_two_coords() {
    println!("topojson.feature line-strings have at least two coordinates");
    let t1 = simple_topology(Value::LineString(vec![3]));

    assert_eq!(
        feature_from_name(&t1, "foo"),
        Some(Geometry::LineString(vec![(1_f64, 1_f64), (1_f64, 1_f64)]))
    );

    let t2 = simple_topology(Value::MultiLineString(vec![vec![3], vec![4]]));

    assert_eq!(
        feature_from_name(&t2, "foo"),
        Some(Geometry::MultiLineString(vec![
            vec![(1_f64, 1_f64), (1_f64, 1_f64)],
            vec![(0_f64, 0_f64), (0_f64, 0_f64)],
        ]))
    );
}

#[test]
fn feature_tests_polygon() {
    println!("topojson.feature Polygon is a valid feature type");
    let t = simple_topology(Value::Polygon(vec![vec![0]]));

    assert_eq!(feature_from_name(&t, "foo"), Some(Geometry::Polygon(polygon(square(), vec![]))));
}

#[test]
fn feature_tests_multipolygon() {
    println!("topojson.feature MultiPolygon is a valid feature type");
    let t = simple_topology(Value::MultiPolygon(vec![vec![vec![0]]]));

    assert_eq!(
        feature_from_name(&t, "foo"),
        Some(Geometry::MultiPolygon(vec![polygon(square(), vec![])]))
    );
}

#[test]
fn feature_tests_polygons_are_closed_with_at_least_four_coordinates() {
    println!("topojson.feature polygons are closed, with at least four coordinates");
    let arcs: Vec<Vec<Vec<f64>>> = vec![
        vec![vec![0_f64, 0_f64], vec![1_f64, 1_f64]],
        vec![vec![1_f64, 1_f64], vec![-1_f64, -1_f64]],
    ];
    let topology = Topology {
        objects: vec![
            NamedGeometry { name: "foo".to_string(), geometry: Value::Polygon(vec![vec![0]]) },
            NamedGeometry { name: "bar".to_string(), geometry: Value::Polygon(vec![vec![0, 1]]) },
        ],
        arcs: arcs.iter().map(|a| arc(a, UNIT)).collect(),
    };

    assert_eq!(
        feature_from_name(&topology, "foo"),
        Some(Geometry::Polygon(polygon(
            vec![(0_f64, 0_f64), (1_f64, 1_f64), (0_f64, 0_f64), (0_f64, 0_f64)],
            vec![]
        )))
    );

    assert_eq!(
        feature_from_name(&topology, "bar"),
        Some(Geometry::Polygon(polygon(
            vec![(0_f64, 0_f64), (1_f64, 1_f64), (0_f64, 0_f64), (0_f64, 0_f64)],
            vec![]
        )))
    );
}

#[test]
fn feature_tests_gc_are_mapped_to_fc() {
    println!("topojson.feature top-level geometry collections are mapped to feature collections");

    let t = simple_topology(Value::GeometryCollection(vec![Value::MultiPolygon(vec![vec![
        vec![0],
    ]])]));

    assert_eq!(
        feature_from_name(&t, "foo"),
        Some(Geometry::GeometryCollection(vec![Geometry::MultiPolygon(vec![polygon(
            vec![(0.0, 0.0), (1.0, 0.0), (1.0, 1.0), (0.0, 1.0), (0.0, 0.0)],
            vec![]
        )])]))
    );
}

#[test]
fn feature_tests_gc_nested() {
    println!("topojson.feature geometry collections can be nested",);

    let t = simple_topology(Value::GeometryCollection(vec![Value::GeometryCollection(vec![
        Value::Point(point(&[0_f64, 0_f64], UNIT)),
    ])]));

    assert_eq!(
        feature_from_name(&t, "foo"),
        Some(Geometry::GeometryCollection(vec![Geometry::GeometryCollection(vec![
            Geometry::Point((0_f64, 0_f64))
        ])]))
    );
}

#[test]
fn feature_tests_arcs_are_converted_coordinates() {
    println!("topojson.feature arcs are converted to coordinates");
    let t = simple_topology(Value::Polygon(vec![vec![0_i32]]));
    assert_eq!(feature_from_name(&t, "foo"), Some(Geometry::Polygon(polygon(square(), vec![]))));
}

#[test]
fn feature_tests_negative_indexes_indicates_revered_coordinates() {
    println!("topojson.feature negative arc indexes indicate reversed coordinates");
    let t = simple_topology(Value::Polygon(vec![vec![!0_i32]]));
    assert_eq!(
        feature_from_name(&t, "foo"),
        Some(Geometry::Polygon(polygon(square_reversed(), vec![])))
    );
}

#[test]
fn feature_tests_when_multiple_arc_indexes_are_specified_coordinates_are_stitched_together() {
    println!("topojson.feature when multiple arc indexes are specified, coordinates are stitched together");
    let t1 = simple_topology(Value::Polygon(vec![vec![1_i32, 2_i32]]));
    assert_eq!(feature_from_name(&t1, "foo"), Some(Geometry::Polygon(polygon(square(), vec![]))));

    let t2 = simple_topology(Value::Polygon(vec![vec![!2_i32, !1_i32]]));
    assert_eq!(
        feature_from_name(&t2, "foo"),
        Some(Geometry::Polygon(polygon(square_reversed(), vec![])))
    );
}

#[test]
fn feature_tests_preserves_additional_dimensions_in_point_geometries() {
    println!("topojson.feature preserves additional dimensions in Point geometries");
    let t: Topology<P> = Topology {
        arcs: vec![],
        objects: vec![NamedGeometry {
            name: "foo".to_string(),
            geometry: Value::Point(point(&[1_f64, 2_f64], None)),
        }],
    };
    assert_eq!(feature_from_name(&t, "foo"), Some(Geometry::Point((1_f64, 2_f64))));
}

#[test]
fn feature_tests_preserves_additional_dimensions_in_multipoint_geometries() {
    println!("topojson.feature preserves additional dimensions in MultiPoint geometries");
    let t: Topology<P> = Topology {
        arcs: vec![],
        objects: vec![NamedGeometry {
            name: "foo".to_string(),
            geometry: Value::MultiPoint(vec![point(&[1_f64, 2_f64], None)]),
        }],
    };
    assert_eq!(feature_from_name(&t, "foo"), Some(Geometry::MultiPoint(vec![(1_f64, 2_f64)])));
}

#[test]
fn feature_tests_preserves_additional_dimensions_in_linestring_geometries() {
    println!("topojson.feature preserves additional dimensions in LineString geometries");
    let arcs: Vec<Vec<Vec<f64>>> = vec![vec![
        vec![1_f64, 2_f64, 0xf00 as f64, 0xbe as f64],
        vec![3_f64, 4_f64, 0xbae as f64, 0xef as f64],
    ]];
    let t = Topology {
        arcs: arcs.iter().map(|a| arc(a, None)).collect(),
        objects: vec![NamedGeometry { name: "foo".to_string(), geometry: Value::LineString(vec![0]) }],
    };
    assert_eq!(
        feature_from_name(&t, "foo"),
        Some(Geometry::LineString(vec![(1_f64, 2_f64), (3_f64, 4_f64)]))
    );
}

#[test]
fn a_name_that_no_object_has_gives_nothing() {
    let t = simple_topology(Value::LineString(vec![0]));
    assert_eq!(feature_from_name(&t, "bar"), None);
    assert_eq!(feature_from_name(&t, ""), None);
}

#[test]
fn the_first_object_of_a_name_is_taken() {
    let mut t = simple_topology(Value::LineString(vec![3]));
    t.objects.push(NamedGeometry { name: "foo".to_string(), geometry: Value::LineString(vec![4]) });
    t.objects.push(NamedGeometry { name: "baz".to_string(), geometry: Value::LineString(vec![4]) });
    assert_eq!(
        feature_from_name(&t, "foo"),
        Some(Geometry::LineString(vec![(1_f64, 1_f64), (1_f64, 1_f64)]))
    );
    assert_eq!(
        feature_from_name(&t, "baz"),
        Some(Geometry::LineString(vec![(0_f64, 0_f64), (0_f64, 0_f64)]))
    );
}

#[test]
fn a_polygon_without_rings_has_an_empty_exterior() {
    let t = simple_topology(Value::Polygon(vec![]));
    assert_eq!(feature(&t, &Value::Polygon(vec![])), Geometry::Polygon(polygon(vec![], vec![])));
    assert_eq!(
        feature(&t, &Value::MultiPolygon(vec![vec![], vec![vec![0]]])),
        Geometry::MultiPolygon(vec![polygon(vec![], vec![]), polygon(square(), vec![])])
    );
}

#[test]
fn the_first_ring_is_the_exterior_and_the_others_are_holes() {
    let t = simple_topology(Value::Point((0_f64, 0_f64)));
    assert_eq!(
        feature(&t, &Value::Polygon(vec![vec![0], vec![-1], vec![1, 2]])),
        Geometry::Polygon(polygon(square(), vec![square_reversed(), square()]))
    );
}

#[test]
fn consecutive_arcs_share_one_position() {
    let t = simple_topology(Value::Point((0_f64, 0_f64)));
    let builder = Builder::new(&t);
    assert_eq!(builder.line(&vec![1]), vec![(0_f64, 0_f64), (1_f64, 0_f64), (1_f64, 1_f64)]);
    assert_eq!(builder.line(&vec![1, 2]), square());
    let mut points = vec![(9_f64, 9_f64), (0_f64, 0_f64)];
    builder.arc(1, &mut points);
    assert_eq!(points, vec![(9_f64, 9_f64), (0_f64, 0_f64), (1_f64, 0_f64), (1_f64, 1_f64)]);
    let mut points = vec![(9_f64, 9_f64), (1_f64, 1_f64)];
    builder.arc(-2, &mut points);
    assert_eq!(points, vec![(9_f64, 9_f64), (1_f64, 1_f64), (1_f64, 0_f64), (0_f64, 0_f64)]);
    assert_eq!(builder.point(&(3_f64, 4_f64)), (3_f64, 4_f64));
}

#[test]
fn every_ring_has_four_positions_and_ends_where_it_starts() {
    let t = simple_topology(Value::Point((0_f64, 0_f64)));
    let builder = Builder::new(&t);
    for refs in [vec![0], vec![1], vec![2], vec![3], vec![4], vec![1, 2], vec![-1], vec![-2], vec![3, 4]] {
        let ring = builder.ring(&refs);
        assert!(ring.len() >= 4);
        assert_eq!(ring[0], ring[ring.len() - 1]);
    }
    assert_eq!(builder.ring(&vec![3]), vec![(1_f64, 1_f64); 4]);
    assert_eq!(
        builder.ring(&vec![1]),
        vec![(0_f64, 0_f64), (1_f64, 0_f64), (1_f64, 1_f64), (0_f64, 0_f64)]
    );
}

#[test]
fn a_ring_that_is_not_closed_gets_its_first_position_again() {
    let arcs: Vec<Vec<Vec<f64>>> = vec![vec![
        vec![0_f64, 0_f64],
        vec![4_f64, 0_f64],
        vec![4_f64, 4_f64],
        vec![0_f64, 4_f64],
    ]];
    let t = Topology { arcs: arcs.iter().map(|a| arc(a, None)).collect(), objects: vec![] };
    let builder = Builder::new(&t);
    assert_eq!(
        builder.ring(&vec![0]),
        vec![(0_f64, 0_f64), (4_f64, 0_f64), (4_f64, 4_f64), (0_f64, 4_f64), (0_f64, 0_f64)]
    );
    assert_eq!(
        builder.ring(&vec![-1]),
        vec![(0_f64, 4_f64), (4_f64, 4_f64), (4_f64, 0_f64), (0_f64, 0_f64), (0_f64, 4_f64)]
    );
}

#[test]
fn the_flipped_reference_gives_the_ring_in_reverse() {
    let t = simple_topology(Value::Point((0_f64, 0_f64)));
    let builder = Builder::new(&t);
    // An arc that ends where it starts: the whole ring is reversed.
    let forward = builder.ring(&vec![0]);
    let mut backward = builder.ring(&vec![!0]);
    backward.reverse();
    assert_eq!(forward, backward);
    // An arc of three positions: all but the closing position is reversed.
    let forward = builder.ring(&vec![1]);
    let backward = builder.ring(&vec![!1]);
    let mut open: Vec<P> = backward[..backward.len() - 1].to_vec();
    open.reverse();
    assert_eq!(forward[..forward.len() - 1].to_vec(), open);
}

#[test]
fn what_cannot_be_drawn_is_told_apart() {
    let mut t = simple_topology(Value::Point((0_f64, 0_f64)));
    t.arcs.push(Arc { points: vec![], start: (0, 0), end: (0, 0), zero_step: false });
    let builder = Builder::new(&t);
    assert!(builder.draws(&vec![0, 1, -3, 4]));
    assert!(!builder.draws(&vec![6]));
    assert!(!builder.draws(&vec![-7]));
    assert!(!builder.draws(&vec![]));
    assert!(!builder.draws(&vec![5]));
    assert!(!builder.draws(&vec![3, 5]));
    assert!(builder.draws(&vec![3, 5, 4]));
    assert!(builder.draws(&vec![1, 5]));
    assert!(builder.draws_all(&vec![vec![0], vec![1, 2]]));
    assert!(!builder.draws_all(&vec![vec![0], vec![]]));
    assert!(can_resolve(&t, &Value::Point((1_f64, 1_f64))));
    assert!(can_resolve(&t, &Value::MultiPoint(vec![])));
    assert!(can_resolve(&t, &Value::Polygon(vec![])));
    assert!(can_resolve(&t, &Value::MultiPolygon(vec![vec![vec![0]], vec![]])));
    assert!(!can_resolve(&t, &Value::MultiPolygon(vec![vec![vec![0]], vec![vec![9]]])));
    assert!(!can_resolve(&t, &Value::LineString(vec![])));
    assert!(!can_resolve(&t, &Value::MultiLineString(vec![vec![0], vec![7]])));
    assert!(can_resolve(
        &t,
        &Value::GeometryCollection(vec![Value::LineString(vec![0]), Value::GeometryCollection(vec![])])
    ));
    assert!(!can_resolve(
        &t,
        &Value::GeometryCollection(vec![Value::GeometryCollection(vec![Value::LineString(vec![8])])])
    ));
    assert_eq!(
        feature(&t, &Value::LineString(vec![3, 5, 4])),
        Geometry::LineString(vec![(0_f64, 0_f64), (0_f64, 0_f64)])
    );
}
