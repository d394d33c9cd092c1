use earcut::{Grid, HashParameters, Kernel, Point, Sign};

fn grid(points: &[(i32, i32)]) -> Grid {
    Grid::new(points.iter().map(|p| Point { x: p.0, y: p.1 }).collect())
}

#[test]
fn keys_are_the_coordinates() {
    let g = grid(&[(3, -4), (i32::MIN, i32::MAX)]);
    assert_eq!(g.len(), 2);
    assert_eq!(g.x_key(0), 3);
    assert_eq!(g.y_key(0), -4);
    assert_eq!(g.x_key(1), i32::MIN as i64);
    assert_eq!(g.y_key(1), i32::MAX as i64);
}

#[test]
fn orient_is_the_sign_of_the_area() {
    let g = grid(&[(0, 0), (1, 0), (1, 1), (2, 0)]);
    // (q.y - p.y) * (r.x - q.x) - (q.x - p.x) * (r.y - q.y) = 0 * 0 - 1 * 1 = -1
    assert_eq!(g.orient(0, 1, 2), Sign::Negative);
    assert_eq!(g.orient(2, 1, 0), Sign::Positive);
    assert_eq!(g.orient(0, 1, 3), Sign::Zero);
    assert_eq!(g.orient(0, 0, 0), Sign::Zero);
}

#[test]
fn orient_at_the_ends_of_the_range() {
    let lo = i32::MIN;
    let hi = i32::MAX;
    let g = grid(&[(lo, lo), (hi, lo), (hi, hi), (lo, hi)]);
    assert_eq!(g.orient(0, 1, 2), Sign::Negative);
    assert_eq!(g.orient(0, 3, 2), Sign::Positive);
    assert_eq!(g.orient(0, 2, 0), Sign::Zero);
}

#[test]
fn in_triangle_counts_the_boundary() {
    let g = grid(&[(0, 0), (4, 4), (4, 0), (3, 1), (2, 2), (4, 0), (1, 3), (5, 5)]);
    // the corner at (4, 0) is convex: (0 - 0) * (4 - 4) - (4 - 0) * (4 - 0) < 0
    assert_eq!(g.orient(0, 2, 1), Sign::Negative);
    assert!(g.in_triangle(0, 2, 1, 3));
    assert!(g.in_triangle(0, 2, 1, 4));
    assert!(g.in_triangle(0, 2, 1, 5));
    assert!(g.in_triangle(0, 2, 1, 0));
    assert!(!g.in_triangle(0, 2, 1, 6));
    assert!(!g.in_triangle(0, 2, 1, 7));
    // the other way round no point off the boundary is inside
    assert!(!g.in_triangle(0, 1, 2, 3));
    assert!(!g.in_triangle(0, 1, 2, 4));
}

#[test]
fn winding_is_the_sign_of_the_shoelace_sum() {
    let g = grid(&[(0, 0), (4, 0), (4, 4), (0, 4), (0, 4), (4, 4), (4, 0), (0, 0), (1, 1), (2, 2)]);
    // (0 - 0) * (4 + 0) + (0 - 4) * (0 + 0) + (4 - 4) * (0 + 4) + (4 - 0) * (4 + 4) = 32
    assert_eq!(g.ring_winding(0, 4), Sign::Positive);
    assert_eq!(g.ring_winding(4, 4), Sign::Negative);
    assert_eq!(g.ring_winding(8, 2), Sign::Zero);
    assert_eq!(g.ring_winding(8, 1), Sign::Zero);
    // three points of the first ring: (4 - 0) * (4 + 0) + 0 + 0 = 16
    assert_eq!(g.ring_winding(0, 3), Sign::Positive);
    // a ring that starts inside the list of points
    assert_eq!(g.ring_winding(1, 3), Sign::Positive);
    assert_eq!(g.ring_winding(5, 3), Sign::Negative);
}

#[test]
fn mid_ray_crosses_edges_to_the_right() {
    // the midpoint of points 0 and 1 is (1, 1)
    let g = grid(&[(0, 0), (2, 2), (4, 0), (4, 4), (-4, 0), (-4, 4), (0, 1), (8, 1), (4, 1), (4, 3)]);
    assert!(g.crosses_mid_ray(0, 1, 2, 3));
    assert!(g.crosses_mid_ray(0, 1, 3, 2));
    assert!(!g.crosses_mid_ray(0, 1, 4, 5));
    // a level edge is never crossed
    assert!(!g.crosses_mid_ray(0, 1, 6, 7));
    // an edge that starts at the height of the midpoint and rises is crossed
    assert!(g.crosses_mid_ray(0, 1, 8, 9));
    // one that ends there is crossed, seen from its other end
    assert!(g.crosses_mid_ray(0, 1, 9, 8));
    // an edge that hangs down from that height is not
    assert!(!g.crosses_mid_ray(0, 1, 8, 2));
}

#[test]
fn ray_hit_side_tells_left_from_right() {
    // the hole point is (5, 2)
    let g = grid(&[(5, 2), (0, 4), (0, 0), (9, 4), (9, 0), (5, 4), (5, 0), (3, 4), (7, 0)]);
    assert_eq!(g.ray_hit_side(0, 1, 2), Sign::Negative);
    assert_eq!(g.ray_hit_side(0, 3, 4), Sign::Positive);
    assert_eq!(g.ray_hit_side(0, 5, 6), Sign::Zero);
    // the line from (3, 4) to (7, 0) meets the level 2 at abscissa 5
    assert_eq!(g.ray_hit_side(0, 7, 8), Sign::Zero);
    assert_eq!(g.ray_hit_side(0, 8, 7), Sign::Zero);
}

#[test]
fn ray_hit_order_compares_two_crossings() {
    // the level is 2; the edges cross it at 0, at 3 and at 1.5
    let g = grid(&[(5, 2), (0, 4), (0, 0), (3, 4), (3, 0), (1, 3), (2, 1)]);
    assert_eq!(g.ray_hit_order(0, 3, 4, 1, 2), Sign::Positive);
    assert_eq!(g.ray_hit_order(0, 1, 2, 3, 4), Sign::Negative);
    assert_eq!(g.ray_hit_order(0, 1, 2, 2, 1), Sign::Zero);
    assert_eq!(g.ray_hit_order(0, 5, 6, 1, 2), Sign::Positive);
    assert_eq!(g.ray_hit_order(0, 5, 6, 3, 4), Sign::Negative);
    assert_eq!(g.ray_hit_order(0, 6, 5, 4, 3), Sign::Negative);
}

#[test]
fn bridge_sector_is_the_triangle_to_the_hit() {
    // hole point (6, 2); the edge from (0, 4) to (0, 0) is hit at (0, 2);
    // its end (0, 0) is the first candidate
    let g = grid(&[(6, 2), (0, 4), (0, 0), (2, 1), (2, 3), (3, 1), (0, 0), (6, 2), (1, 2)]);
    assert!(g.in_bridge_sector(0, 1, 2, 2, 3));
    assert!(!g.in_bridge_sector(0, 1, 2, 2, 4));
    assert!(g.in_bridge_sector(0, 1, 2, 2, 5));
    assert!(g.in_bridge_sector(0, 1, 2, 2, 6));
    assert!(g.in_bridge_sector(0, 1, 2, 2, 7));
    assert!(g.in_bridge_sector(0, 1, 2, 2, 8));
    // with the upper end as candidate the triangle lies above the ray
    assert!(g.in_bridge_sector(0, 1, 2, 1, 4));
    assert!(!g.in_bridge_sector(0, 1, 2, 1, 3));
}

#[test]
fn tangent_order_compares_slopes_without_sign() {
    // seen from (10, 0): slopes 1/10, 2/5, 2/5 downwards, 0
    let g = grid(&[(10, 0), (0, 1), (5, 2), (5, -2), (3, 0)]);
    assert_eq!(g.tangent_order(0, 1, 2), Sign::Negative);
    assert_eq!(g.tangent_order(0, 2, 1), Sign::Positive);
    assert_eq!(g.tangent_order(0, 2, 3), Sign::Zero);
    assert_eq!(g.tangent_order(0, 4, 1), Sign::Negative);
    assert_eq!(g.tangent_order(0, 4, 4), Sign::Zero);
}

#[test]
fn grid_cells() {
    // a box from (10, 20) to (110, 70): the longer side is 100
    let g = grid(&[(10, 40), (60, 20), (110, 30), (50, 70), (35, 45), (110, 70)]);
    let hash = HashParameters { min_x: 0, min_y: 1, max_x: 2, max_y: 3 };
    assert_eq!(g.grid_x(&hash, 0), 0);
    assert_eq!(g.grid_y(&hash, 1), 0);
    assert_eq!(g.grid_x(&hash, 2), 32767);
    // 32767 * 50 / 100
    assert_eq!(g.grid_y(&hash, 3), 16383);
    // 32767 * 25 / 100
    assert_eq!(g.grid_x(&hash, 4), 8191);
    assert_eq!(g.grid_y(&hash, 4), 8191);
    assert_eq!(g.grid_y(&hash, 5), 16383);
}

#[test]
fn grid_cells_of_a_box_without_extent() {
    let g = grid(&[(5, 5), (5, 5)]);
    let hash = HashParameters { min_x: 0, min_y: 0, max_x: 1, max_y: 1 };
    assert_eq!(g.grid_x(&hash, 0), 0);
    assert_eq!(g.grid_y(&hash, 1), 0);
}

#[test]
fn grid_cells_outside_the_box_are_clamped() {
    let g = grid(&[(0, 0), (10, 10), (-5, 20)]);
    let hash = HashParameters { min_x: 0, min_y: 0, max_x: 1, max_y: 1 };
    assert_eq!(g.grid_x(&hash, 2), 0);
    assert_eq!(g.grid_y(&hash, 2), 32767);
}

#[test]
fn z_order_interleaves_the_cells() {
    // a box of side 32767, so that each point is its own cell
    let g = grid(&[(0, 0), (32767, 32767), (3, 5), (1, 0), (0, 1), (255, 0), (0, 255)]);
    let hash = HashParameters { min_x: 0, min_y: 0, max_x: 1, max_y: 1 };
    assert_eq!(hash.z_order(&g, 0, 0), 0);
    assert_eq!(hash.z_order(&g, 3, 3), 1);
    assert_eq!(hash.z_order(&g, 4, 4), 2);
    // x = 011, y = 101: bits y2 x2 y1 x1 y0 x0 = 1 0 0 1 1 1
    assert_eq!(hash.z_order(&g, 2, 2), 0b100111);
    assert_eq!(hash.z_order(&g, 5, 5), 0x5555);
    assert_eq!(hash.z_order(&g, 6, 6), 0xaaaa);
    assert_eq!(hash.z_order(&g, 1, 1), 0x3fff_ffff);
    // the column of one point with the row of another
    assert_eq!(hash.z_order(&g, 3, 4), 3);
}
