use topojson_client::feature::can_resolve;
use topojson_client::mesh::{mesh, mesh_arcs};
use topojson_client::stitch::{knows, stitch, FlushDir, Stitch};
use topojson_client::topology::{Arc, Geometry, Topology, Value};

type P = (f64, f64);

/// An arc as the library takes it, from coordinates that are stored as they
/// are.
fn arc(raw: &[(f64, f64)]) -> Arc<P> {
    let first = raw[0];
    let last = raw[raw.len() - 1];
    Arc {
        points: raw.to_vec(),
        start: (first.0 as i32, first.1 as i32),
        end: (last.0 as i32, last.1 as i32),
        zero_step: raw.len() > 1 && raw[1].0 == 0_f64 && raw[1].1 == 0_f64,
    }
}

/// An arc from steps that add up, as a quantized topology stores them.
fn arc_of_steps(raw: &[(f64, f64)]) -> Arc<P> {
    let mut points = Vec::new();
    let (mut x0, mut y0) = (0_f64, 0_f64);
    for p in raw {
        x0 += p.0;
        y0 += p.1;
        points.push((x0, y0));
    }
    Arc {
        points,
        start: (raw[0].0 as i32, raw[0].1 as i32),
        end: (x0 as i32, y0 as i32),
        zero_step: raw.len() > 1 && raw[1].0 == 0_f64 && raw[1].1 == 0_f64,
    }
}

fn topology(arcs: Vec<Vec<(f64, f64)>>) -> Topology<P> {
    Topology { arcs: arcs.iter().map(|a| arc(a)).collect(), objects: vec![] }
}

fn sorted(mut fragments: Vec<Vec<i32>>) -> Vec<Vec<i32>> {
    fragments.sort();
    fragments
}

#[test]
fn two_arcs_that_meet_at_both_ends_make_one_ring() {
    let topology = topology(vec![
        vec![(1_f64, 1_f64), (1_f64, 0_f64)],
        vec![(1_f64, 0_f64), (0_f64, 0_f64), (0_f64, 1_f64), (1_f64, 1_f64)],
    ]);
    assert_eq!(stitch(&topology, vec![0, 1]), vec![vec![0, 1]]);
    assert_eq!(stitch(&topology, vec![1, 0]), vec![vec![1, 0]]);
    assert_eq!(stitch(&topology, vec![-1, -2]), vec![vec![-1, -2]]);
    assert_eq!(stitch(&topology, vec![-2, -1]), vec![vec![-2, -1]]);
}

#[test]
fn arcs_that_do_not_meet_stay_alone() {
    let topology = topology(vec![
        vec![(0_f64, 0_f64), (1_f64, 0_f64)],
        vec![(5_f64, 5_f64), (6_f64, 5_f64), (5_f64, 5_f64)],
        vec![(2_f64, 2_f64), (3_f64, 2_f64)],
        vec![(8_f64, 1_f64), (9_f64, 1_f64)],
    ]);
    let alone: Vec<Vec<i32>> = vec![vec![-3], vec![0], vec![1], vec![3]];
    assert_eq!(sorted(stitch(&topology, vec![0, 1, -3, 3])), alone);
    assert_eq!(sorted(stitch(&topology, vec![3, -3, 1, 0])), alone);
    assert_eq!(sorted(stitch(&topology, vec![1, 3, 0, -3])), alone);
    // In the order of the keys at which they end.
    assert_eq!(stitch(&topology, vec![3, -3, 1, 0]), vec![vec![0], vec![-3], vec![1], vec![3]]);
}

#[test]
fn nothing_to_stitch_gives_nothing() {
    let topology = topology(vec![vec![(0_f64, 0_f64), (1_f64, 0_f64)]]);
    assert_eq!(stitch(&topology, vec![]), Vec::<Vec<i32>>::new());
}

#[test]
fn a_chain_grows_at_both_ends() {
    let topology = topology(vec![
        vec![(0_f64, 0_f64), (1_f64, 0_f64)],
        vec![(1_f64, 0_f64), (2_f64, 0_f64)],
        vec![(2_f64, 0_f64), (3_f64, 0_f64)],
        vec![(3_f64, 0_f64), (4_f64, 0_f64)],
    ]);
    // Appended, then put in front.
    assert_eq!(stitch(&topology, vec![1, 2, 0]), vec![vec![0, 1, 2]]);
    // Two fragments that an arc bridges become one.
    assert_eq!(stitch(&topology, vec![0, 2, 1]), vec![vec![0, 1, 2]]);
    assert_eq!(stitch(&topology, vec![3, 1, 0, 2]), vec![vec![0, 1, 2, 3]]);
    // An open chain comes out once.
    assert_eq!(stitch(&topology, vec![0, 1]), vec![vec![0, 1]]);
    // Backwards, the chain runs the other way.
    assert_eq!(stitch(&topology, vec![-1, -2, -3]), vec![vec![-3, -2, -1]]);
    // Arcs that run against each other do not join.
    assert_eq!(sorted(stitch(&topology, vec![0, -2])), vec![vec![-2], vec![0]]);
}

#[test]
fn each_fragment_runs_from_end_to_start() {
    let topology = topology(vec![
        vec![(0_f64, 0_f64), (1_f64, 0_f64)],
        vec![(1_f64, 0_f64), (1_f64, 1_f64)],
        vec![(1_f64, 1_f64), (0_f64, 0_f64)],
        vec![(7_f64, 7_f64), (8_f64, 8_f64)],
        vec![(9_f64, 9_f64), (8_f64, 8_f64)],
    ]);
    let fragments = stitch(&topology, vec![4, 2, 0, 3, 1]);
    let mut seen: Vec<i32> = fragments.iter().flatten().copied().collect();
    seen.sort();
    assert_eq!(seen, vec![0, 1, 2, 3, 4]);
    for fragment in &fragments {
        assert!(!fragment.is_empty());
        for pair in fragment.windows(2) {
            let stitch = Stitch::new(&topology);
            assert_eq!(stitch.ends(pair[0]).1, stitch.ends(pair[1]).0);
        }
    }
    assert_eq!(fragments.len(), 3);
}

#[test]
fn no_fragment_ends_where_another_starts() {
    // A ring of three arcs, a chain of three and an arc alone, mixed up.
    let topology = topology(vec![
        vec![(0_f64, 0_f64), (4_f64, 0_f64)],
        vec![(4_f64, 0_f64), (4_f64, 4_f64)],
        vec![(4_f64, 4_f64), (0_f64, 0_f64)],
        vec![(10_f64, 0_f64), (11_f64, 0_f64)],
        vec![(12_f64, 0_f64), (11_f64, 0_f64)],
        vec![(12_f64, 0_f64), (13_f64, 0_f64)],
        vec![(20_f64, 0_f64), (21_f64, 5_f64)],
    ]);
    for arcs in [
        vec![0, 1, 2, 3, -5, 5, 6],
        vec![6, 5, -5, 3, 2, 1, 0],
        vec![1, 5, 0, 3, 6, 2, -5],
        vec![-5, 2, 6, 0, 5, 1, 3],
    ] {
        let fragments = stitch(&topology, arcs);
        assert_eq!(fragments.len(), 3);
        let at = Stitch::new(&topology);
        for (t, one) in fragments.iter().enumerate() {
            for (u, other) in fragments.iter().enumerate() {
                if t != u {
                    assert_ne!(at.ends(one[one.len() - 1]).1, at.ends(other[0]).0);
                }
            }
        }
        let mut rings = 0;
        for fragment in &fragments {
            if at.ends(fragment[fragment.len() - 1]).1 == at.ends(fragment[0]).0 {
                rings += 1;
                assert_eq!(fragment.len(), 3);
            }
        }
        assert_eq!(rings, 1);
    }
}

#[test]
fn empty_arcs_are_taken_first() {
    // The second arc stays on one position: it is empty, and goes first.
    let topology = Topology {
        arcs: vec![
            arc_of_steps(&[(0_f64, 0_f64), (1_f64, 0_f64)]),
            arc_of_steps(&[(1_f64, 0_f64), (0_f64, 0_f64)]),
            arc_of_steps(&[(1_f64, 0_f64), (1_f64, 1_f64)]),
        ],
        objects: vec![],
    };
    assert!(!topology.arcs[0].is_empty());
    assert!(topology.arcs[1].is_empty());
    assert!(!topology.arcs[2].is_empty());
    // Taken in the order given, arc 2 would follow arc 0 at once, and the
    // empty arc would be left alone.
    assert_eq!(stitch(&topology, vec![0, 2, 1]), vec![vec![0, 1, 2]]);
    assert_eq!(stitch(&topology, vec![0, 1, 2]), vec![vec![0, 1, 2]]);
    assert_eq!(stitch(&topology, vec![2, 1, 0]), vec![vec![0, 1, 2]]);
}

#[test]
fn an_arc_of_three_positions_is_not_empty() {
    let long = arc_of_steps(&[(1_f64, 0_f64), (0_f64, 0_f64), (0_f64, 0_f64)]);
    assert!(!long.is_empty());
    let moved = arc_of_steps(&[(1_f64, 0_f64), (0_f64, 1_f64)]);
    assert!(!moved.is_empty());
    let alone = arc_of_steps(&[(1_f64, 0_f64)]);
    assert!(!alone.is_empty());
}

#[test]
fn the_ends_of_an_arc_follow_its_direction() {
    let topology = topology(vec![
        vec![(0_f64, 0_f64), (1_f64, 0_f64)],
        vec![(4_f64, 5_f64), (6_f64, 7_f64), (8_f64, 9_f64)],
    ]);
    let stitch = Stitch::new(&topology);
    assert_eq!(stitch.ends(1), ((4, 5), (8, 9)));
    assert_eq!(stitch.ends(!1), ((8, 9), (4, 5)));
    assert_eq!(stitch.ends(0), ((0, 0), (1, 0)));
    assert_eq!(stitch.ends(-1), ((1, 0), (0, 0)));
}

#[test]
fn fragments_come_out_once() {
    let topology = topology(vec![
        vec![(0_f64, 0_f64), (1_f64, 0_f64)],
        vec![(1_f64, 0_f64), (0_f64, 0_f64)],
        vec![(5_f64, 5_f64), (6_f64, 6_f64)],
    ]);
    let mut stitch = Stitch::new(&topology);
    stitch.take(0);
    stitch.take(2);
    stitch.take(1);
    assert!(!stitch.is_stitched(0));
    stitch.flush(&FlushDir::EndToStart);
    assert_eq!(stitch.plain(), vec![vec![0, 1], vec![2]]);
    stitch.flush(&FlushDir::StartToEnd);
    stitch.flush(&FlushDir::EndToStart);
    assert_eq!(stitch.plain(), vec![vec![0, 1], vec![2]]);
    assert!(stitch.is_stitched(0));
    assert!(stitch.is_stitched(-2));
    assert!(stitch.is_stitched(2));
}

#[test]
fn a_fragment_that_only_its_start_still_knows_comes_out_in_the_second_pass() {
    // Two arcs end at the same place: the index of ends keeps the later.
    let topology = topology(vec![
        vec![(0_f64, 0_f64), (5_f64, 5_f64)],
        vec![(1_f64, 1_f64), (5_f64, 5_f64)],
    ]);
    let mut stitch = Stitch::new(&topology);
    stitch.take(0);
    stitch.take(1);
    stitch.flush(&FlushDir::EndToStart);
    assert_eq!(stitch.plain(), vec![vec![1]]);
    stitch.flush(&FlushDir::StartToEnd);
    assert_eq!(stitch.plain(), vec![vec![1], vec![0]]);
    assert_eq!(self::stitch(&topology, vec![0, 1]), vec![vec![1], vec![0]]);
}

#[test]
fn an_arc_that_is_given_twice_makes_no_fragment_twice() {
    let topology = topology(vec![
        vec![(0_f64, 0_f64), (1_f64, 0_f64)],
        vec![(5_f64, 5_f64), (6_f64, 5_f64), (5_f64, 5_f64)],
        vec![(1_f64, 0_f64), (2_f64, 0_f64)],
    ]);
    assert_eq!(stitch(&topology, vec![0, 0]), vec![vec![0]]);
    assert_eq!(stitch(&topology, vec![0, 2, 0]), vec![vec![0], vec![0, 2]]);
    assert_eq!(stitch(&topology, vec![0, -1]), vec![vec![0, -1]]);
    // A ring that is given twice goes round twice.
    assert_eq!(stitch(&topology, vec![1, 1]), vec![vec![1, 1]]);
}

#[test]
fn references_are_known_by_their_index() {
    let topology = topology(vec![
        vec![(0_f64, 0_f64), (1_f64, 0_f64)],
        vec![(1_f64, 0_f64), (0_f64, 0_f64)],
    ]);
    assert!(knows(&topology, &vec![]));
    assert!(knows(&topology, &vec![0, 1, -1, -2]));
    assert!(!knows(&topology, &vec![0, 2]));
    assert!(!knows(&topology, &vec![-3]));
    assert!(!knows(&topology, &vec![i32::MIN]));
}

#[test]
fn the_mesh_is_every_arc_stitched() {
    let topology = topology(vec![
        vec![(1_f64, 1_f64), (1_f64, 0_f64)],
        vec![(1_f64, 0_f64), (0_f64, 0_f64), (0_f64, 1_f64), (1_f64, 1_f64)],
        vec![(4_f64, 4_f64), (5_f64, 5_f64)],
    ]);
    let arcs = mesh_arcs(&topology);
    assert_eq!(arcs, Value::MultiLineString(vec![vec![0, 1], vec![2]]));
    assert!(can_resolve(&topology, &arcs));
    assert_eq!(
        mesh(&topology),
        Some(Geometry::MultiLineString(vec![
            vec![(1_f64, 1_f64), (1_f64, 0_f64), (0_f64, 0_f64), (0_f64, 1_f64), (1_f64, 1_f64)],
            vec![(4_f64, 4_f64), (5_f64, 5_f64)],
        ]))
    );
    let none: Topology<P> = Topology { arcs: vec![], objects: vec![] };
    assert_eq!(mesh_arcs(&none), Value::MultiLineString(vec![]));
    assert_eq!(mesh(&none), Some(Geometry::MultiLineString(vec![])));
}

#[test]
fn a_mesh_with_nothing_to_draw_is_no_mesh() {
    let nowhere: Arc<P> =
        Arc { points: vec![], start: (0, 0), end: (0, 0), zero_step: false };
    let topology = Topology { arcs: vec![nowhere], objects: vec![] };
    assert_eq!(mesh_arcs(&topology), Value::MultiLineString(vec![vec![0]]));
    assert_eq!(mesh(&topology), None);
}
