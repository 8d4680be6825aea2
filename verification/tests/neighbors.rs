use topojson_client::neighbors::{arcs_of, insert_sorted, lists_arcs, neighbors};
use topojson_client::topology::{NamedGeometry, Value};

type P = (f64, f64);

fn named(name: &str, geometry: Value<P>) -> NamedGeometry<P> {
    NamedGeometry { name: name.to_string(), geometry }
}

#[test]
fn empty_array_empty_input() {
    println!("neighbors returns an empty array for empty input");
    assert_eq!(neighbors::<P>(&[]).len(), 0);
}

//
// A-----B
//
// C-----D
//
#[test]
fn empty_array_for_objects_with_no_neighbors() {
    println!("neighbors returns an empty array for objects with no neighbors");

    let objects = vec![
        named("ab", Value::LineString(vec![0])),
        named("cd", Value::LineString(vec![1])),
    ];

    let n = neighbors(&objects);
    let expected: Vec<Vec<i32>> = vec![vec![], vec![]];
    assert_eq!(n, expected);
}

//
// A-----B-----C
//
#[test]
fn only_share_isolated_points_are_not_considered_neighbors() {
    println!("neighbors geometries that only share isolated points are not considered neighbors");
    let objects = vec![
        named("ab", Value::LineString(vec![0])),
        named("bc", Value::LineString(vec![1])),
    ];

    let expected: Vec<Vec<i32>> = vec![vec![], vec![]];
    assert_eq!(neighbors(&objects), expected);
}

//
// A-----B-----C-----D
//
#[test]
fn neighbors_geometries_that_share_arcs_are_considered_neighbors() {
    println!("neighbors geometries that share arcs are considered neighbors");
    let objects = vec![
        named("abc", Value::LineString(vec![0, 1])),
        named("bcd", Value::LineString(vec![1, 2])),
    ];

    let expected: Vec<Vec<i32>> = vec![vec![1], vec![0]];
    assert_eq!(neighbors(&objects), expected);
}

//
// A-----B-----C-----D
//
#[test]
fn neighbors_geometries_that_share_reversed_arcs_are_considered_neighbors() {
    println!("neighbors geometries that share arcs are considered neighbors");
    let objects = vec![
        named("abc", Value::LineString(vec![0, 1])),
        named("dcb", Value::LineString(vec![2, -2])),
    ];

    let expected: Vec<Vec<i32>> = vec![vec![1], vec![0]];
    assert_eq!(neighbors(&objects), expected);
}

//
// A-----B-----C-----D-----E-----F
//
#[test]
fn neighbors_are_returned_in_sorted_order_by_index() {
    println!("neighbors neighbors are returned in sorted order by index");
    let objects = vec![
        named("abcd", Value::LineString(vec![0, 1, 2])),
        named("bcde", Value::LineString(vec![1, 2, 3])),
        named("cdef", Value::LineString(vec![2, 3, 4])),
        named("dbca", Value::LineString(vec![-3, -2, -1])),
        named("edcb", Value::LineString(vec![-4, -3, -2])),
        named("fedc", Value::LineString(vec![-5, -4, -3])),
    ];

    let expected: Vec<Vec<i32>> = vec![
        vec![1, 2, 3, 4, 5],
        vec![0, 2, 3, 4, 5],
        vec![0, 1, 3, 4, 5],
        vec![0, 1, 2, 4, 5],
        vec![0, 1, 2, 3, 5],
        vec![0, 1, 2, 3, 4],
    ];
    assert_eq!(neighbors(&objects), expected);
}

//
// A-----B-----E     G
// |     |     |     |\
// |     |     |     | \
// |     |     |     |  \
// |     |     |     |   \
// |     |     |     |    \
// D-----C-----F     I-----H
//
#[test]
fn abcda_and_befcb_are_neighbors_but_ghig_is_not() {
    println!("neighbors the polygons ABCDA and BEFCB are neighbors, but GHIG is not");
    let objects = vec![
        named("abcda", Value::LineString(vec![0, 1])),
        named("befcb", Value::LineString(vec![2, -1])),
        named("ghig", Value::LineString(vec![3])),
    ];
    let expected: Vec<Vec<i32>> = vec![vec![1], vec![0], vec![]];
    assert_eq!(neighbors(&objects), expected);
}

//
// A-----------B-----------C
// |           |           |
// |           |           |
// |     D-----E-----F     |
// |     |           |     |
// |     |           |     |
// |     G-----H-----I     |
// |           |           |
// |           |           |
// J-----------K-----------L
//
#[test]
fn the_polygons_abedghkja_and_bclkhifeb_are_neighbors_and_not_listed_twice() {
    println!("neighbors the polygons ABEDGHKJA and BCLKHIFEB are neighbors, and not listed twice");
    let objects = vec![
        named("abdeghkja", Value::LineString(vec![0, 1, 2, 3])),
        named("bclkhifeb", Value::LineString(vec![4, -3, 5, -1])),
    ];
    let expected: Vec<Vec<i32>> = vec![vec![1], vec![0]];
    assert_eq!(neighbors(&objects), expected);
}

#[test]
fn polygons_and_multi_line_strings_are_neighbors_by_their_arcs() {
    let objects = vec![
        named("a", Value::Polygon(vec![vec![0, 1], vec![7]])),
        named("b", Value::MultiLineString(vec![vec![5], vec![-8, 6]])),
        named("c", Value::GeometryCollection(vec![])),
        named("d", Value::LineString(vec![-2])),
    ];
    let expected: Vec<Vec<i32>> = vec![vec![1, 3], vec![0], vec![], vec![0]];
    assert_eq!(neighbors(&objects), expected);
}

#[test]
fn an_object_that_goes_along_an_arc_twice_is_its_own_neighbor() {
    let objects = vec![
        named("a", Value::LineString(vec![0, -1])),
        named("b", Value::LineString(vec![0])),
        named("c", Value::LineString(vec![1])),
    ];
    let expected: Vec<Vec<i32>> = vec![vec![0, 1], vec![0], vec![]];
    assert_eq!(neighbors(&objects), expected);
}

#[test]
fn the_arcs_of_an_object_are_listed_in_order() {
    assert_eq!(arcs_of::<P>(&Value::LineString(vec![3, -1])), vec![3, -1]);
    assert_eq!(arcs_of::<P>(&Value::Polygon(vec![vec![0, 1], vec![], vec![7]])), vec![0, 1, 7]);
    assert_eq!(arcs_of::<P>(&Value::MultiLineString(vec![vec![2], vec![-3]])), vec![2, -3]);
    assert_eq!(arcs_of::<P>(&Value::GeometryCollection(vec![])), Vec::<i32>::new());
    assert!(lists_arcs::<P>(&Value::LineString(vec![])));
    assert!(lists_arcs::<P>(&Value::Polygon(vec![])));
    assert!(lists_arcs::<P>(&Value::MultiLineString(vec![])));
    assert!(lists_arcs::<P>(&Value::GeometryCollection(vec![])));
    assert!(!lists_arcs::<P>(&Value::GeometryCollection(vec![Value::LineString(vec![0])])));
    assert!(!lists_arcs::<P>(&Value::MultiPolygon(vec![])));
    assert!(!lists_arcs(&Value::Point((0_f64, 0_f64))));
    assert!(!lists_arcs::<P>(&Value::MultiPoint(vec![])));
}

#[test]
fn a_number_goes_to_its_place_unless_it_is_there() {
    let mut list = vec![];
    insert_sorted(&mut list, 4);
    assert_eq!(list, vec![4]);
    insert_sorted(&mut list, 1);
    insert_sorted(&mut list, 9);
    insert_sorted(&mut list, 4);
    insert_sorted(&mut list, 5);
    insert_sorted(&mut list, 1);
    insert_sorted(&mut list, 9);
    assert_eq!(list, vec![1, 4, 5, 9]);
    insert_sorted(&mut list, -3);
    assert_eq!(list, vec![-3, 1, 4, 5, 9]);
}
