use focal_desk::wires::{bfs, mark, route_cells, simplify, Grid, Wire, WireKind};

/// Each step of `p` goes to one of the four neighbours.
fn steps_are_adjacent(p: &[(i32, i32)]) -> bool {
    p.windows(2).all(|w| (w[0].0 - w[1].0).abs() + (w[0].1 - w[1].1).abs() == 1)
}

#[test]
fn a_grid_blocks_its_ring_and_its_boxes() {
    let g = Grid::new(6, 5, &vec![(3, 4, 2, 2)]);
    assert_eq!((g.width(), g.height()), (6, 5));
    assert!(!g.free(0, 0));
    assert!(!g.free(5, 2), "the right edge is blocked");
    assert!(!g.free(2, 4), "the bottom edge is blocked");
    assert!(g.free(1, 1));
    assert!(!g.free(3, 2) && !g.free(4, 2), "under the box");
    assert!(g.free(3, 1) && g.free(4, 3));
    assert!(!g.free(-1, 2) && !g.free(2, 7), "off the grid");
}

#[test]
fn bfs_finds_the_straightest_short_route() {
    let g = Grid::new(5, 5, &vec![]);
    let p = bfs(&g, None, (1, 1), (3, 3)).expect("open grid");
    assert_eq!(p, vec![(1, 1), (2, 1), (3, 1), (3, 2), (3, 3)]);
    assert_eq!(simplify(&p), vec![(1, 1), (3, 1), (3, 3)]);
}

#[test]
fn bfs_to_itself_is_one_cell() {
    let g = Grid::new(4, 4, &vec![]);
    assert_eq!(bfs(&g, None, (2, 2), (2, 2)), Some(vec![(2, 2)]));
}

#[test]
fn bfs_refuses_blocked_ends_and_walled_goals() {
    let g = Grid::new(9, 9, &vec![(3, 5, 3, 3), (3, 3, 4, 5), (5, 5, 4, 5), (3, 5, 6, 6)]);
    assert!(g.free(4, 4), "the walled-in cell itself is free");
    assert_eq!(bfs(&g, None, (1, 1), (4, 4)), None, "no way in");
    assert_eq!(bfs(&g, None, (0, 0), (1, 1)), None, "start on the ring");
    assert_eq!(bfs(&g, None, (1, 1), (3, 3)), None, "goal under a box");
    assert!(bfs(&g, None, (1, 1), (7, 7)).is_some());
}

#[test]
fn bfs_goes_around_an_obstacle() {
    // A wall down the middle with a gap at the bottom.
    let g = Grid::new(7, 6, &vec![(3, 3, 0, 3)]);
    let p = bfs(&g, None, (1, 1), (5, 1)).expect("through the gap");
    assert_eq!(p.first(), Some(&(1, 1)));
    assert_eq!(p.last(), Some(&(5, 1)));
    assert!(steps_are_adjacent(&p));
    assert!(p.iter().all(|&(x, y)| g.free(x, y)));
    assert!(p.contains(&(3, 4)), "the only way across");
}

#[test]
fn a_taken_lane_is_refused_but_a_crossing_passes() {
    let g = Grid::new(7, 3, &vec![]);
    let mut occ = vec![0u8; 21];
    let first = bfs(&g, Some(&occ[..]), (1, 1), (5, 1)).unwrap();
    mark(&mut occ, &first, 7);
    assert_eq!(bfs(&g, Some(&occ[..]), (1, 1), (5, 1)), None, "the only lane is taken");
    assert_eq!(bfs(&g, None, (1, 1), (5, 1)), Some(first), "sharing is still possible");
}

#[test]
fn mark_sets_the_lane_bits_at_both_ends_of_each_step() {
    let mut occ = vec![0u8; 25];
    occ[0] = 4;
    mark(&mut occ, &[(1, 1), (2, 1), (2, 2)], 5);
    assert_eq!(occ[6], 1);
    assert_eq!(occ[7], 3);
    assert_eq!(occ[12], 2);
    assert_eq!(occ[0], 4, "other cells keep their bits");
    assert_eq!(occ.iter().filter(|&&b| b != 0).count(), 4);
}

#[test]
fn simplify_keeps_corners_and_ends() {
    assert_eq!(simplify(&[]), vec![]);
    assert_eq!(simplify(&[(1, 1), (1, 2)]), vec![(1, 1), (1, 2)]);
    assert_eq!(
        simplify(&[(0, 0), (1, 0), (2, 0), (2, 1), (2, 2), (3, 2)]),
        vec![(0, 0), (2, 0), (2, 2), (3, 2)]
    );
    assert_eq!(simplify(&[(4, 4), (4, 5), (4, 6), (4, 7)]), vec![(4, 4), (4, 7)]);
}

#[test]
fn later_wires_keep_to_their_own_lanes() {
    let g = Grid::new(7, 5, &vec![]);
    let ends = vec![
        Some(((1, 2), (5, 2))),
        Some(((3, 1), (3, 3))),
        Some(((1, 2), (5, 2))),
        None,
    ];
    let r = route_cells(&g, &ends);
    assert_eq!(r.len(), 4);
    assert_eq!(r[0], Some(vec![(1, 2), (2, 2), (3, 2), (4, 2), (5, 2)]));
    assert_eq!(r[1], Some(vec![(3, 1), (3, 2), (3, 3)]), "a crossing is allowed");
    let third = r[2].clone().expect("a detour exists");
    assert_eq!(third.first(), Some(&(1, 2)));
    assert_eq!(third.last(), Some(&(5, 2)));
    assert!(steps_are_adjacent(&third));
    assert!(third.iter().all(|&(x, y)| !(y == 2 && (2..=4).contains(&x))), "not alongside the first");
    assert_eq!(r[3], None, "no ports, no route");
}

#[test]
fn a_wire_names_two_windows() {
    let w = Wire { a: 0, b: 2, kind: WireKind::Soft };
    assert_eq!((w.a, w.b, w.kind), (0, 2, WireKind::Soft));
    assert_ne!(WireKind::Hard, WireKind::Soft);
}
