use earcut::{
    area, cure_local_intersections, earcut_linked, eliminate_hole, equals, filter_points,
    find_hole_bridge, get_leftmost, index_curve, intersects, intersects_polygon, is_ear,
    is_valid_diagonal, linked_list, locally_inside, middle_inside, point_in_triangle, sort_holes,
    sort_linked, split_earcut, Grid, HashParameters, Node, Pass, Point, Rings, Sign,
};

fn grid(points: &[(i32, i32)]) -> Grid {
    Grid::new(points.iter().map(|p| Point { x: p.0, y: p.1 }).collect())
}

/// The nodes of the ring of `start`, from `start` on.
fn walk(rings: &Rings, start: usize) -> Vec<usize> {
    let mut out = vec![start];
    let mut p = rings.next(start);
    while p != start {
        out.push(p);
        p = rings.next(p);
    }
    let mut back = vec![start];
    let mut p = rings.prev(start);
    while p != start {
        back.push(p);
        p = rings.prev(p);
    }
    back[1..].reverse();
    assert_eq!(out, back);
    out
}

/// The points of the ring of `start`, from `start` on.
fn points(rings: &Rings, start: usize) -> Vec<usize> {
    walk(rings, start).iter().map(|p| rings.index(*p)).collect()
}

fn ring_of(rings: &mut Rings, count: usize) -> usize {
    let mut last = None;
    for i in 0..count {
        last = Some(rings.append(last, i));
    }
    last.unwrap()
}

#[test]
fn node_new() {
    let n = Node::new(7, 3, 4);
    assert_eq!((n.i, n.prev, n.next, n.z, n.steiner), (7, 3, 4, 0, false));
    assert_eq!((n.prev_z, n.next_z), (None, None));
}

#[test]
fn append_builds_a_ring() {
    let mut rings = Rings::new();
    let a = rings.append(None, 10);
    assert_eq!(a, 0);
    assert_eq!(walk(&rings, a), vec![0]);
    let b = rings.append(Some(a), 11);
    let c = rings.append(Some(b), 12);
    assert_eq!(rings.len(), 3);
    assert_eq!(walk(&rings, c), vec![2, 0, 1]);
    assert_eq!(points(&rings, a), vec![10, 11, 12]);
}

#[test]
fn append_in_the_middle() {
    let mut rings = Rings::new();
    let last = ring_of(&mut rings, 3);
    assert_eq!(last, 2);
    let d = rings.append(Some(0), 9);
    assert_eq!(walk(&rings, 0), vec![0, d, 1, 2]);
}

#[test]
fn remove_joins_the_neighbours() {
    let mut rings = Rings::new();
    ring_of(&mut rings, 4);
    rings.remove(1);
    assert_eq!(walk(&rings, 0), vec![0, 2, 3]);
    // the node keeps its own links
    assert_eq!(rings.prev(1), 0);
    assert_eq!(rings.next(1), 2);
}

#[test]
fn remove_of_a_lone_node_changes_nothing() {
    let mut rings = Rings::new();
    let a = rings.append(None, 0);
    rings.remove(a);
    assert_eq!(walk(&rings, a), vec![a]);
}

#[test]
fn split_polygon_cuts_a_ring_in_two() {
    let mut rings = Rings::new();
    ring_of(&mut rings, 6);
    let c = rings.split_polygon(0, 3);
    assert_eq!(c, 7);
    assert_eq!(walk(&rings, 0), vec![0, 3, 4, 5]);
    assert_eq!(walk(&rings, c), vec![7, 6, 1, 2]);
    assert_eq!(points(&rings, c), vec![3, 0, 1, 2]);
}

#[test]
fn split_polygon_joins_two_rings() {
    let mut rings = Rings::new();
    ring_of(&mut rings, 3);
    let mut last = None;
    for i in 3..6 {
        last = Some(rings.append(last, i));
    }
    assert_eq!(walk(&rings, 3), vec![3, 4, 5]);
    let c = rings.split_polygon(1, 4);
    assert_eq!(c, 7);
    assert_eq!(walk(&rings, 1), vec![1, 4, 5, 3, 7, 6, 2, 0]);
    assert_eq!(points(&rings, 1), vec![1, 4, 5, 3, 4, 1, 2, 0]);
}

#[test]
fn predicates_on_a_square() {
    let g = grid(&[(0, 0), (4, 0), (4, 4), (0, 4), (4, 0)]);
    let mut rings = Rings::new();
    ring_of(&mut rings, 4);
    let extra = rings.append(None, 4);
    assert_eq!(area(&rings, &g, 0, 1, 2), Sign::Negative);
    assert_eq!(area(&rings, &g, 2, 1, 0), Sign::Positive);
    assert_eq!(area(&rings, &g, 0, 1, extra), Sign::Zero);
    assert!(equals(&rings, &g, 1, extra));
    assert!(!equals(&rings, &g, 1, 2));
    assert!(point_in_triangle(&rings, &g, 0, 1, 2, extra));
    assert!(!point_in_triangle(&rings, &g, 0, 1, 2, 3));
    // the diagonals cross, the sides do not
    assert!(intersects(&rings, &g, 0, 2, 1, 3));
    assert!(!intersects(&rings, &g, 0, 1, 2, 3));
    // the same segment twice
    assert!(intersects(&rings, &g, 0, 2, 2, 0));
    // a touch at one end is a crossing only on one side
    assert!(!intersects(&rings, &g, 0, 1, 1, 2));
    assert!(locally_inside(&rings, &g, 0, 2));
    assert!(locally_inside(&rings, &g, 2, 0));
    assert!(middle_inside(&rings, &g, 0, 2));
    assert!(!intersects_polygon(&rings, &g, 0, 2));
    assert!(is_valid_diagonal(&rings, &g, 0, 2));
    // neighbours make no diagonal
    assert!(!is_valid_diagonal(&rings, &g, 0, 1));
    assert!(!is_valid_diagonal(&rings, &g, 0, 3));
}

#[test]
fn diagonal_outside_a_notch() {
    // a square with a notch cut into its upper side
    let g = grid(&[(0, 0), (8, 0), (8, 8), (6, 8), (4, 2), (2, 8), (0, 8)]);
    let mut rings = Rings::new();
    let last = linked_list(&mut rings, &g, 0, 7, true).unwrap();
    assert_eq!(points(&rings, last), vec![6, 0, 1, 2, 3, 4, 5]);
    // across the notch
    assert!(!middle_inside(&rings, &g, 3, 5));
    assert!(!locally_inside(&rings, &g, 3, 5));
    assert!(!is_valid_diagonal(&rings, &g, 3, 5));
    // through the tip of the notch
    assert!(intersects_polygon(&rings, &g, 0, 2));
    assert!(!is_valid_diagonal(&rings, &g, 0, 2));
    // from the tip of the notch to the lower corners
    assert!(is_valid_diagonal(&rings, &g, 4, 0));
    assert!(is_valid_diagonal(&rings, &g, 4, 1));
    assert!(is_valid_diagonal(&rings, &g, 1, 4));
}

#[test]
fn linked_list_keeps_a_clockwise_outer_ring() {
    let g = grid(&[(0, 0), (4, 0), (4, 4), (0, 4)]);
    let mut rings = Rings::new();
    let last = linked_list(&mut rings, &g, 0, 4, true).unwrap();
    assert_eq!(last, 3);
    assert_eq!(points(&rings, last), vec![3, 0, 1, 2]);
}

#[test]
fn linked_list_reverses_for_the_other_winding() {
    let g = grid(&[(0, 0), (4, 0), (4, 4), (0, 4)]);
    let mut rings = Rings::new();
    let last = linked_list(&mut rings, &g, 0, 4, false).unwrap();
    assert_eq!(points(&rings, last), vec![0, 3, 2, 1]);
    let g = grid(&[(0, 4), (4, 4), (4, 0), (0, 0)]);
    let mut rings = Rings::new();
    let last = linked_list(&mut rings, &g, 0, 4, true).unwrap();
    assert_eq!(points(&rings, last), vec![0, 3, 2, 1]);
}

#[test]
fn linked_list_drops_a_closing_point() {
    let g = grid(&[(0, 0), (4, 0), (4, 4), (0, 4), (0, 0)]);
    let mut rings = Rings::new();
    let node = linked_list(&mut rings, &g, 0, 5, true).unwrap();
    assert_eq!(rings.len(), 5);
    assert_eq!(node, 0);
    assert_eq!(points(&rings, node), vec![0, 1, 2, 3]);
}

#[test]
fn linked_list_of_nothing() {
    let g = grid(&[(0, 0)]);
    let mut rings = Rings::new();
    assert_eq!(linked_list(&mut rings, &g, 0, 0, true), None);
    assert_eq!(rings.len(), 0);
    assert_eq!(linked_list(&mut rings, &g, 0, 1, true), Some(0));
    assert_eq!(walk(&rings, 0), vec![0]);
}

#[test]
fn linked_list_of_a_later_ring() {
    let g = grid(&[(9, 9), (0, 0), (4, 0), (4, 4), (0, 4)]);
    let mut rings = Rings::new();
    let lone = linked_list(&mut rings, &g, 0, 1, true).unwrap();
    let last = linked_list(&mut rings, &g, 1, 4, true).unwrap();
    assert_eq!(points(&rings, last), vec![4, 1, 2, 3]);
    assert_eq!(walk(&rings, lone), vec![lone]);
}

#[test]
fn filter_points_removes_collinear_and_duplicate_points() {
    let g = grid(&[(0, 0), (2, 0), (4, 0), (4, 0), (4, 4), (0, 4)]);
    let mut rings = Rings::new();
    let last = linked_list(&mut rings, &g, 0, 6, true).unwrap();
    let end = filter_points(&mut rings, &g, last, last);
    let mut left = points(&rings, end);
    left.sort();
    assert_eq!(left.len(), 4);
    assert_eq!(left[0], 0);
    assert_eq!(left[2], 4);
    assert_eq!(left[3], 5);
    assert!(left[1] == 2 || left[1] == 3);
}

#[test]
fn filter_points_twice_is_filter_points_once() {
    let g = grid(&[(0, 0), (2, 0), (4, 0), (4, 0), (4, 4), (0, 4)]);
    let mut rings = Rings::new();
    let last = linked_list(&mut rings, &g, 0, 6, true).unwrap();
    let once = filter_points(&mut rings, &g, last, last);
    let ring = walk(&rings, once);
    let twice = filter_points(&mut rings, &g, once, once);
    assert_eq!(twice, once);
    assert_eq!(walk(&rings, twice), ring);
}

#[test]
fn filter_points_stops_at_the_end_given() {
    let g = grid(&[(0, 0), (2, 0), (4, 0), (4, 4), (0, 4)]);
    let mut rings = Rings::new();
    linked_list(&mut rings, &g, 0, 5, true).unwrap();
    // from node 3 to node 4 only node 3 is looked at, and it is a corner
    let end = filter_points(&mut rings, &g, 3, 4);
    assert_eq!(end, 4);
    assert_eq!(walk(&rings, 0).len(), 5);
    // node 1 lies on a line with its neighbours
    let end = filter_points(&mut rings, &g, 1, 2);
    assert_eq!(end, 0);
    assert_eq!(walk(&rings, 0), vec![0, 2, 3, 4]);
}

#[test]
fn filter_points_collapses_a_line() {
    let g = grid(&[(0, 0), (1, 1), (2, 2), (3, 3)]);
    let mut rings = Rings::new();
    let last = linked_list(&mut rings, &g, 0, 4, true).unwrap();
    let end = filter_points(&mut rings, &g, last, last);
    assert_eq!(walk(&rings, end).len(), 1);
}

#[test]
fn filter_points_keeps_a_steiner_point() {
    let g = grid(&[(5, 5)]);
    let mut rings = Rings::new();
    let node = linked_list(&mut rings, &g, 0, 1, false).unwrap();
    rings.mark_steiner(node);
    assert!(rings.is_steiner(node));
    let end = filter_points(&mut rings, &g, node, node);
    assert_eq!(end, node);
    assert_eq!(walk(&rings, end), vec![node]);
}

#[test]
fn is_ear_on_a_notched_square() {
    let g = grid(&[(0, 0), (8, 0), (8, 8), (6, 8), (4, 2), (2, 8), (0, 8)]);
    let mut rings = Rings::new();
    linked_list(&mut rings, &g, 0, 7, true).unwrap();
    // the corner at (8, 0) has the tip of the notch in its triangle
    assert!(!is_ear(&rings, &g, &None, 1));
    assert!(is_ear(&rings, &g, &None, 2));
    assert!(is_ear(&rings, &g, &None, 3));
    // the tip of the notch is no convex corner
    assert!(!is_ear(&rings, &g, &None, 4));
    assert!(is_ear(&rings, &g, &None, 5));
    assert!(is_ear(&rings, &g, &None, 6));
    assert!(!is_ear(&rings, &g, &None, 0));
}

#[test]
fn is_ear_with_the_index_agrees_with_the_scan() {
    let g = grid(&[(0, 0), (8, 0), (8, 8), (6, 8), (4, 2), (2, 8), (0, 8)]);
    let mut rings = Rings::new();
    let last = linked_list(&mut rings, &g, 0, 7, true).unwrap();
    let hash = HashParameters { min_x: 0, min_y: 0, max_x: 1, max_y: 2 };
    index_curve(&mut rings, &g, &hash, last);
    for node in 0..7 {
        assert_eq!(is_ear(&rings, &g, &Some(hash), node), is_ear(&rings, &g, &None, node));
    }
}

#[test]
fn hash_parameters_are_the_bounding_box() {
    let g = grid(&[(3, 1), (9, 4), (5, 7), (0, 3), (0, 5), (9, 2)]);
    let mut rings = Rings::new();
    let last = ring_of(&mut rings, 6);
    assert_eq!(HashParameters::new(&rings, &g, last, 80), None);
    let hash = HashParameters::new(&rings, &g, last, 81).unwrap();
    // the walk starts at the last node; the first point that reaches a side stays
    assert_eq!(hash, HashParameters { min_x: 3, min_y: 0, max_x: 5, max_y: 2 });
    let hash = HashParameters::new(&rings, &g, 0, 81).unwrap();
    assert_eq!(hash, HashParameters { min_x: 3, min_y: 0, max_x: 1, max_y: 2 });
}

fn z_list(rings: &Rings, head: usize) -> Vec<usize> {
    let mut out = Vec::new();
    let mut p = Some(head);
    let mut before = None;
    while let Some(q) = p {
        assert_eq!(rings.prev_z(q), before);
        out.push(q);
        before = p;
        p = rings.next_z(q);
    }
    out
}

#[test]
fn index_curve_threads_the_ring_in_z_order() {
    // a box of side 32767 makes every point its own cell
    let g = grid(&[(0, 0), (32767, 0), (32767, 32767), (3, 5), (1, 1), (2, 0), (0, 2)]);
    let hash = HashParameters { min_x: 0, min_y: 0, max_x: 1, max_y: 2 };
    let mut rings = Rings::new();
    let last = ring_of(&mut rings, 7);
    index_curve(&mut rings, &g, &hash, last);
    let z: Vec<u32> = (0..7).map(|p| rings.z(p)).collect();
    assert_eq!(z, vec![0, 0x1555_5555, 0x3fff_ffff, 0b100111, 3, 4, 8]);
    let mut head = 0;
    while let Some(q) = rings.prev_z(head) {
        head = q;
    }
    assert_eq!(z_list(&rings, head), vec![0, 4, 5, 6, 3, 1, 2]);
    // the ring itself is as it was
    assert_eq!(walk(&rings, last), vec![6, 0, 1, 2, 3, 4, 5]);
}

#[test]
fn sort_linked_sorts_and_keeps_equal_values_in_order() {
    let mut rings = Rings::new();
    let values = [5, 3, 8, 3, 1, 9, 3, 0, 7, 5, 2];
    for (k, z) in values.iter().enumerate() {
        rings.append(None, k);
        rings.nodes[k].z = *z;
        rings.nodes[k].prev_z = if k > 0 { Some(k - 1) } else { None };
        rings.nodes[k].next_z = if k + 1 < values.len() { Some(k + 1) } else { None };
    }
    let head = sort_linked(&mut rings, 0);
    let sorted = z_list(&rings, head);
    assert_eq!(sorted, vec![7, 4, 10, 1, 3, 6, 0, 9, 8, 2, 5]);
}

#[test]
fn sort_linked_of_one_node() {
    let mut rings = Rings::new();
    rings.append(None, 0);
    assert_eq!(sort_linked(&mut rings, 0), 0);
    assert_eq!(z_list(&rings, 0), vec![0]);
}

#[test]
fn get_leftmost_takes_the_first_of_equals() {
    let g = grid(&[(3, 1), (0, 4), (5, 7), (0, 3)]);
    let mut rings = Rings::new();
    let last = ring_of(&mut rings, 4);
    assert_eq!(get_leftmost(&rings, &g, last), 3);
    assert_eq!(get_leftmost(&rings, &g, 0), 1);
}

#[test]
fn sort_holes_orders_from_left_to_right() {
    let g = grid(&[(5, 0), (2, 0), (9, 0), (2, 1), (0, 0)]);
    let mut rings = Rings::new();
    for i in 0..5 {
        rings.append(None, i);
    }
    let sorted = sort_holes(&rings, &g, &vec![0, 1, 2, 3, 4]);
    assert_eq!(sorted, vec![4, 1, 3, 0, 2]);
    assert_eq!(sort_holes(&rings, &g, &vec![]), vec![]);
}

fn square_with_hole() -> (Grid, Rings, usize, usize) {
    let g = grid(&[(0, 0), (8, 0), (8, 8), (0, 8), (2, 2), (2, 6), (6, 6), (6, 2)]);
    let mut rings = Rings::new();
    let outer = linked_list(&mut rings, &g, 0, 4, true).unwrap();
    let hole = linked_list(&mut rings, &g, 4, 4, false).unwrap();
    let leftmost = get_leftmost(&rings, &g, hole);
    (g, rings, outer, leftmost)
}

#[test]
fn find_hole_bridge_picks_the_node_at_the_least_angle() {
    let (g, rings, outer, leftmost) = square_with_hole();
    assert_eq!(rings.index(leftmost), 4);
    // the ray from (2, 2) hits the left side at (0, 2); of the ends of that
    // side the second, (0, 0), is taken, and no node lies between it and the hole
    let m = find_hole_bridge(&rings, &g, leftmost, outer).unwrap();
    assert_eq!(rings.index(m), 0);
}

#[test]
fn find_hole_bridge_misses_a_ring_to_the_right() {
    let g = grid(&[(10, 0), (14, 0), (14, 4), (10, 4), (1, 1), (1, 3), (3, 3), (3, 1)]);
    let mut rings = Rings::new();
    let outer = linked_list(&mut rings, &g, 0, 4, true).unwrap();
    let hole = linked_list(&mut rings, &g, 4, 4, false).unwrap();
    let leftmost = get_leftmost(&rings, &g, hole);
    assert_eq!(find_hole_bridge(&rings, &g, leftmost, outer), None);
    let before = rings.len();
    assert_eq!(eliminate_hole(&mut rings, &g, leftmost, outer), outer);
    assert_eq!(rings.len(), before);
}

#[test]
fn find_hole_bridge_ends_on_a_node() {
    // the hole touches the height of the corner (0, 4) of the outer ring
    let g = grid(&[(0, 0), (8, 0), (8, 8), (4, 8), (0, 4), (2, 4), (3, 5), (3, 3)]);
    let mut rings = Rings::new();
    let outer = linked_list(&mut rings, &g, 0, 5, true).unwrap();
    let hole = linked_list(&mut rings, &g, 5, 3, false).unwrap();
    let leftmost = get_leftmost(&rings, &g, hole);
    assert_eq!(rings.index(leftmost), 5);
    let m = find_hole_bridge(&rings, &g, leftmost, outer).unwrap();
    assert_eq!(rings.index(m), 4);
}

#[test]
fn find_hole_bridge_prefers_the_node_farther_right_on_a_tie() {
    // the ray from (100, 50) hits the edge from (20, 100) to (0, 0) at (10, 50);
    // the tips (60, 30) and (80, 40) both lie on the line from (0, 0) to the
    // hole, so that both are seen at the same angle
    let g = grid(&[
        (0, 0),
        (50, 0),
        (60, 30),
        (70, 0),
        (75, 0),
        (80, 40),
        (85, 0),
        (200, 0),
        (200, 100),
        (20, 100),
        (100, 50),
        (110, 60),
        (120, 50),
        (110, 45),
    ]);
    let mut rings = Rings::new();
    let outer = linked_list(&mut rings, &g, 0, 10, true).unwrap();
    assert_eq!(points(&rings, outer), vec![9, 0, 1, 2, 3, 4, 5, 6, 7, 8]);
    let hole = linked_list(&mut rings, &g, 10, 4, false).unwrap();
    let leftmost = get_leftmost(&rings, &g, hole);
    assert_eq!(rings.index(leftmost), 10);
    let m = find_hole_bridge(&rings, &g, leftmost, outer).unwrap();
    assert_eq!(rings.index(m), 5);
}

#[test]
fn eliminate_hole_makes_one_ring() {
    let (g, mut rings, outer, leftmost) = square_with_hole();
    let r = eliminate_hole(&mut rings, &g, leftmost, outer);
    assert_eq!(rings.len(), 10);
    let merged = points(&rings, r);
    assert_eq!(merged.len(), 10);
    let mut sorted = merged.clone();
    sorted.sort();
    assert_eq!(sorted, vec![0, 0, 1, 2, 3, 4, 4, 5, 6, 7]);
    // the bridge runs from (0, 0) to (2, 2) and back
    let mut out = 0;
    let mut back = 0;
    for k in 0..10 {
        if merged[k] == 0 && merged[(k + 1) % 10] == 4 {
            out += 1;
        }
        if merged[k] == 4 && merged[(k + 1) % 10] == 0 {
            back += 1;
        }
    }
    assert_eq!((out, back), (1, 1));
}

#[test]
fn earcut_linked_on_a_plain_ring() {
    let g = grid(&[(0, 0), (4, 0), (4, 4), (0, 4)]);
    let mut rings = Rings::new();
    let last = linked_list(&mut rings, &g, 0, 4, true).unwrap();
    let mut indices = vec![[9, 9, 9]];
    earcut_linked(&mut rings, &g, &None, last, &mut indices, Pass::Clip);
    assert_eq!(indices, vec![[9, 9, 9], [2, 3, 0], [0, 1, 2]]);
}

#[test]
fn earcut_linked_on_two_nodes() {
    let g = grid(&[(0, 0), (4, 0)]);
    let mut rings = Rings::new();
    let last = ring_of(&mut rings, 2);
    let mut indices = Vec::new();
    earcut_linked(&mut rings, &g, &None, last, &mut indices, Pass::Clip);
    assert_eq!(indices.len(), 0);
    earcut_linked(&mut rings, &g, &None, last, &mut indices, Pass::Split);
    assert_eq!(indices.len(), 0);
}

#[test]
fn cure_local_intersections_cuts_out_a_bowtie() {
    // the edges from (0, 0) to (4, 4) and from (4, 0) to (0, 4) cross
    let g = grid(&[(0, 0), (4, 4), (4, 0), (0, 4), (-4, 2)]);
    let mut rings = Rings::new();
    let last = ring_of(&mut rings, 5);
    let mut indices = Vec::new();
    let before = walk(&rings, last).len();
    let r = cure_local_intersections(&mut rings, &g, last, &mut indices);
    let after = walk(&rings, r).len();
    assert_eq!(before, after + 2 * indices.len());
    for t in &indices {
        for i in t {
            assert!(*i < 5);
        }
    }
}

#[test]
fn cure_local_intersections_leaves_a_sound_ring() {
    let g = grid(&[(0, 0), (4, 0), (4, 4), (0, 4)]);
    let mut rings = Rings::new();
    let last = linked_list(&mut rings, &g, 0, 4, true).unwrap();
    let mut indices = Vec::new();
    let r = cure_local_intersections(&mut rings, &g, last, &mut indices);
    assert_eq!(r, last);
    assert_eq!(indices.len(), 0);
    assert_eq!(walk(&rings, r).len(), 4);
}

#[test]
fn split_earcut_takes_the_first_valid_diagonal() {
    let g = grid(&[(0, 0), (4, 0), (4, 4), (0, 4)]);
    let mut rings = Rings::new();
    let last = linked_list(&mut rings, &g, 0, 4, true).unwrap();
    let mut indices = Vec::new();
    split_earcut(&mut rings, &g, &None, last, &mut indices);
    // the diagonal from the start to the node two behind it: copies of both
    assert_eq!(rings.len(), 6);
    assert_eq!(rings.index(4), rings.index(last));
    assert_eq!(rings.index(5), 1);
    assert_eq!(indices.len(), 2);
}

#[test]
fn split_earcut_without_a_diagonal_does_nothing() {
    let g = grid(&[(0, 0), (4, 0), (4, 4)]);
    let mut rings = Rings::new();
    let last = linked_list(&mut rings, &g, 0, 3, true).unwrap();
    let mut indices = Vec::new();
    split_earcut(&mut rings, &g, &None, last, &mut indices);
    assert_eq!(rings.len(), 3);
    assert_eq!(indices.len(), 0);
}
