use earcut::{earcut, Point};

fn ring(points: &[(i32, i32)]) -> Vec<Point> {
    points.iter().map(|p| Point { x: p.0, y: p.1 }).collect()
}

fn doubled_area(points: &Vec<Point>, t: &[usize; 3]) -> i64 {
    let (p, q, r) = (points[t[0]], points[t[1]], points[t[2]]);
    let (px, py) = (p.x as i64, p.y as i64);
    let (qx, qy) = (q.x as i64, q.y as i64);
    let (rx, ry) = (r.x as i64, r.y as i64);
    ((qy - py) * (rx - qx) - (qx - px) * (ry - qy)).abs()
}

fn doubled_ring_area(points: &Vec<Point>) -> i64 {
    let mut sum: i64 = 0;
    let mut last = points[points.len() - 1];
    for p in points {
        sum += (last.x as i64 - p.x as i64) * (last.y as i64 + p.y as i64);
        last = *p;
    }
    sum.abs()
}

fn check(polygon: &Vec<Vec<Point>>, expected_triangles: usize) -> Vec<[usize; 3]> {
    let output = earcut(polygon);
    let mut flat = Vec::new();
    for r in polygon {
        for p in r {
            flat.push(*p);
        }
    }
    for t in &output {
        for i in t {
            assert!(*i < flat.len());
        }
    }
    let mut cut: i64 = 0;
    for t in &output {
        cut += doubled_area(&flat, t);
    }
    let mut area: i64 = 0;
    for (i, r) in polygon.iter().enumerate() {
        if r.len() > 0 {
            area += if i == 0 { doubled_ring_area(r) } else { -doubled_ring_area(r) };
        }
    }
    if expected_triangles > 0 {
        assert_eq!(cut, area);
    }
    assert_eq!(output.len(), expected_triangles);
    output
}

#[test]
fn triangle() {
    let output = check(&vec![ring(&[(0, 0), (1, 0), (1, 1)])], 1);
    let mut t = output[0];
    t.sort();
    assert_eq!(t, [0, 1, 2]);
}

#[test]
fn triangle_is_cut_at_its_last_point() {
    let output = earcut(&vec![ring(&[(0, 0), (1, 0), (1, 1)])]);
    assert_eq!(output, vec![[1, 2, 0]]);
}

#[test]
fn square() {
    let output = check(&vec![ring(&[(0, 0), (4, 0), (4, 4), (0, 4)])], 2);
    assert_eq!(output, vec![[2, 3, 0], [0, 1, 2]]);
}

#[test]
fn reversed_square_gives_the_same_rings() {
    let output = check(&vec![ring(&[(0, 4), (4, 4), (4, 0), (0, 0)])], 2);
    assert_eq!(output, vec![[1, 0, 3], [3, 2, 1]]);
}

#[test]
fn square_with_square_hole() {
    let polygon = vec![
        ring(&[(0, 0), (4, 0), (4, 4), (0, 4)]),
        ring(&[(1, 1), (1, 3), (3, 3), (3, 1)]),
    ];
    let output = check(&polygon, 8);
    let mut flat = Vec::new();
    for r in &polygon {
        for p in r {
            flat.push(*p);
        }
    }
    let mut cut = 0;
    for t in &output {
        cut += doubled_area(&flat, t);
    }
    assert_eq!(cut, 24);
}

#[test]
fn empty_input() {
    assert_eq!(earcut(&vec![]).len(), 0);
}

#[test]
fn empty_outer_ring() {
    assert_eq!(earcut(&vec![vec![], ring(&[(1, 1), (1, 3), (3, 3)])]).len(), 0);
}

#[test]
fn single_point() {
    assert_eq!(earcut(&vec![ring(&[(7, 7)])]).len(), 0);
}

#[test]
fn two_points() {
    assert_eq!(earcut(&vec![ring(&[(7, 7), (9, 9)])]).len(), 0);
}

#[test]
fn collinear_ring() {
    assert_eq!(earcut(&vec![ring(&[(0, 0), (1, 1), (2, 2), (3, 3)])]).len(), 0);
}

#[test]
fn closed_ring_loses_its_last_point() {
    let output = check(&vec![ring(&[(0, 0), (4, 0), (4, 4), (0, 4), (0, 0)])], 2);
    for t in &output {
        for i in t {
            assert!(*i < 4);
        }
    }
}

#[test]
fn collinear_point_on_an_edge_is_no_ear() {
    let output = check(&vec![ring(&[(0, 0), (2, 0), (4, 0), (4, 4), (0, 4)])], 3);
    for t in &output {
        assert!(t[1] != 1);
    }
}

#[test]
fn hole_as_a_single_point() {
    let polygon = vec![ring(&[(0, 0), (100, 0), (100, 100), (0, 100)]), ring(&[(50, 50)])];
    check(&polygon, 4);
}

#[test]
fn empty_hole_is_skipped() {
    let polygon = vec![ring(&[(0, 0), (4, 0), (4, 4), (0, 4)]), vec![]];
    check(&polygon, 2);
}

#[test]
fn hole_outside_the_ring_is_dropped() {
    let polygon = vec![
        ring(&[(10, 0), (14, 0), (14, 4), (10, 4)]),
        ring(&[(1, 1), (1, 3), (3, 3), (3, 1)]),
    ];
    let output = earcut(&polygon);
    assert_eq!(output.len(), 2);
    for t in &output {
        for i in t {
            assert!(*i < 4);
        }
    }
}

#[test]
fn two_holes_are_bridged_from_left_to_right() {
    let polygon = vec![
        ring(&[(0, 0), (20, 0), (20, 10), (0, 10)]),
        ring(&[(12, 3), (12, 7), (16, 7), (16, 3)]),
        ring(&[(2, 3), (2, 7), (6, 7), (6, 3)]),
    ];
    check(&polygon, 12);
}

#[test]
fn two_holes_at_different_heights() {
    let polygon = vec![
        ring(&[(0, 0), (20, 0), (20, 10), (0, 10)]),
        ring(&[(12, 2), (12, 5), (16, 5), (16, 2)]),
        ring(&[(2, 4), (2, 8), (6, 8), (6, 4)]),
    ];
    check(&polygon, 14);
}

#[test]
fn triangle_count_is_bounded() {
    let polygon = vec![
        ring(&[(0, 0), (20, 0), (20, 10), (0, 10)]),
        ring(&[(12, 3), (12, 7), (16, 7), (16, 3)]),
        ring(&[(2, 3), (2, 7), (6, 7), (6, 3)]),
    ];
    let output = earcut(&polygon);
    assert!(output.len() + 2 <= 12 + 2 * 2);
}

#[test]
fn bowtie_is_cured() {
    let polygon = vec![ring(&[(0, 0), (10, 0), (10, 10), (20, 0), (20, 10), (0, 10)])];
    let output = earcut(&polygon);
    assert!(output.len() <= 4);
    for t in &output {
        for i in t {
            assert!(*i < 6);
        }
    }
}

#[test]
fn extreme_coordinates() {
    let lo = i32::MIN;
    let hi = i32::MAX;
    let output = earcut(&vec![ring(&[(lo, lo), (hi, lo), (hi, hi), (lo, hi)])]);
    assert_eq!(output.len(), 2);
}

fn comb(teeth: i32) -> Vec<Point> {
    let mut points = Vec::new();
    points.push(Point { x: 0, y: 0 });
    points.push(Point { x: 4 * teeth, y: 0 });
    let mut k = teeth;
    while k > 0 {
        points.push(Point { x: 4 * k, y: 10 });
        points.push(Point { x: 4 * k - 1, y: 3 });
        points.push(Point { x: 4 * k - 3, y: 3 });
        points.push(Point { x: 4 * k - 4, y: 10 });
        k -= 1;
    }
    points
}

#[test]
fn large_polygon_uses_the_spatial_index() {
    let outer = comb(40);
    let n = outer.len();
    assert!(n > 80);
    let output = earcut(&vec![outer.clone()]);
    let mut cut: i64 = 0;
    for t in &output {
        cut += doubled_area(&outer, t);
    }
    assert_eq!(cut, doubled_ring_area(&outer));
    assert!(output.len() <= n - 2);
}

#[test]
fn simple_polygon_gives_two_triangles_fewer_than_points() {
    let outer = ring(&[(0, 0), (6, 0), (6, 2), (3, 3), (6, 4), (6, 6), (0, 6), (0, 4), (2, 3), (0, 2)]);
    check(&vec![outer], 8);
}

#[test]
fn large_polygon_with_holes() {
    let outer = comb(30);
    let polygon = vec![
        outer,
        ring(&[(5, 1), (5, 2), (7, 2), (7, 1)]),
        ring(&[(45, 1), (45, 2), (47, 2), (47, 1)]),
        ring(&[(85, 1), (86, 2), (87, 1)]),
    ];
    let output = earcut(&polygon);
    let mut flat = Vec::new();
    for r in &polygon {
        for p in r {
            flat.push(*p);
        }
    }
    let mut cut: i64 = 0;
    for t in &output {
        cut += doubled_area(&flat, t);
    }
    let mut area = doubled_ring_area(&polygon[0]);
    for r in &polygon[1..] {
        area -= doubled_ring_area(r);
    }
    assert_eq!(cut, area);
    assert!(output.len() + 2 <= flat.len() + 2 * 3);
}

fn cross(o: Point, a: Point, b: Point) -> i64 {
    (a.x as i64 - o.x as i64) * (b.y as i64 - o.y as i64)
        - (a.y as i64 - o.y as i64) * (b.x as i64 - o.x as i64)
}

/// The segments cross at a point that is an end of neither.
fn cross_properly(a: Point, b: Point, c: Point, d: Point) -> bool {
    let (d1, d2) = (cross(c, d, a), cross(c, d, b));
    let (d3, d4) = (cross(a, b, c), cross(a, b, d));
    ((d1 > 0 && d2 < 0) || (d1 < 0 && d2 > 0)) && ((d3 > 0 && d4 < 0) || (d3 < 0 && d4 > 0))
}

/// Three times the point lies strictly inside the triangle scaled by three.
fn strictly_inside(t: [Point; 3], px3: i64, py3: i64) -> bool {
    let side = |a: Point, b: Point| {
        (3 * b.x as i64 - 3 * a.x as i64) * (py3 - 3 * a.y as i64)
            - (3 * b.y as i64 - 3 * a.y as i64) * (px3 - 3 * a.x as i64)
    };
    let (s1, s2, s3) = (side(t[0], t[1]), side(t[1], t[2]), side(t[2], t[0]));
    (s1 > 0 && s2 > 0 && s3 > 0) || (s1 < 0 && s2 < 0 && s3 < 0)
}

fn overlap(s: [Point; 3], t: [Point; 3]) -> bool {
    for i in 0..3 {
        for j in 0..3 {
            if cross_properly(s[i], s[(i + 1) % 3], t[j], t[(j + 1) % 3]) {
                return true;
            }
        }
    }
    for p in s {
        if strictly_inside(t, 3 * p.x as i64, 3 * p.y as i64) {
            return true;
        }
    }
    for p in t {
        if strictly_inside(s, 3 * p.x as i64, 3 * p.y as i64) {
            return true;
        }
    }
    let centre = |t: [Point; 3]| {
        (t[0].x as i64 + t[1].x as i64 + t[2].x as i64, t[0].y as i64 + t[1].y as i64 + t[2].y as i64)
    };
    let (sx, sy) = centre(s);
    let (tx, ty) = centre(t);
    strictly_inside(t, sx, sy) || strictly_inside(s, tx, ty)
}

fn no_two_overlap(polygon: &Vec<Vec<Point>>) {
    let output = earcut(polygon);
    let mut flat = Vec::new();
    for r in polygon {
        for p in r {
            flat.push(*p);
        }
    }
    assert!(output.len() > 1);
    for i in 0..output.len() {
        for j in 0..i {
            let s = [flat[output[i][0]], flat[output[i][1]], flat[output[i][2]]];
            let t = [flat[output[j][0]], flat[output[j][1]], flat[output[j][2]]];
            assert!(!overlap(s, t));
        }
    }
}

#[test]
fn triangles_do_not_overlap() {
    no_two_overlap(&vec![
        ring(&[(0, 0), (4, 0), (4, 4), (0, 4)]),
        ring(&[(1, 1), (1, 3), (3, 3), (3, 1)]),
    ]);
    no_two_overlap(&vec![ring(&[(0, 0), (8, 0), (8, 8), (6, 8), (4, 2), (2, 8), (0, 8)])]);
    no_two_overlap(&vec![
        comb(30),
        ring(&[(5, 1), (5, 2), (7, 2), (7, 1)]),
        ring(&[(45, 1), (45, 2), (47, 2), (47, 1)]),
    ]);
}

#[test]
fn overlap_is_seen() {
    let s = [Point { x: 0, y: 0 }, Point { x: 4, y: 0 }, Point { x: 0, y: 4 }];
    let t = [Point { x: 1, y: 1 }, Point { x: 5, y: 1 }, Point { x: 1, y: 5 }];
    let u = [Point { x: 4, y: 0 }, Point { x: 4, y: 4 }, Point { x: 0, y: 4 }];
    assert!(overlap(s, t));
    assert!(overlap(s, s));
    assert!(!overlap(s, u));
}
