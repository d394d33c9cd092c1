use earcut::{earcut, earcut_with, HashParameters, Kernel, Point, Sign};

struct Floats {
    pts: Vec<(f64, f64)>,
}

fn key(v: f64) -> i64 {
    let bits = (v + 0.0).to_bits() as i64;
    bits ^ ((((bits >> 63) as u64) >> 1) as i64)
}

fn sign(v: f64) -> Sign {
    if v < 0.0 {
        Sign::Negative
    } else if v > 0.0 {
        Sign::Positive
    } else {
        Sign::Zero
    }
}

fn order(a: f64, b: f64) -> Sign {
    if a < b {
        Sign::Negative
    } else if a > b {
        Sign::Positive
    } else {
        Sign::Zero
    }
}

fn point_in_triangle(ax: f64, ay: f64, bx: f64, by: f64, cx: f64, cy: f64, px: f64, py: f64) -> bool {
    (cx - px) * (ay - py) - (ax - px) * (cy - py) >= 0.0
        && (ax - px) * (by - py) - (bx - px) * (ay - py) >= 0.0
        && (bx - px) * (cy - py) - (cx - px) * (by - py) >= 0.0
}

impl Floats {
    fn hit(&self, h: usize, p: usize, n: usize) -> f64 {
        let (_, hy) = self.pts[h];
        let (px, py) = self.pts[p];
        let (nx, ny) = self.pts[n];
        px + (hy - py) * (nx - px) / (ny - py)
    }

    fn frame(&self, hash: &HashParameters) -> (f64, f64, f64) {
        let min_x = self.pts[hash.min_x].0;
        let min_y = self.pts[hash.min_y].1;
        let size = f64::max(self.pts[hash.max_x].0 - min_x, self.pts[hash.max_y].1 - min_y);
        (min_x, min_y, if size != 0.0 { 1.0 / size } else { 0.0 })
    }
}

impl Kernel for Floats {
    fn count(&self) -> usize {
        self.len()
    }

    fn x(&self, p: usize) -> i64 {
        self.x_key(p)
    }

    fn y(&self, p: usize) -> i64 {
        self.y_key(p)
    }

    fn turn(&self, p: usize, q: usize, r: usize) -> Sign {
        self.orient(p, q, r)
    }

    fn inside(&self, a: usize, b: usize, c: usize, p: usize) -> bool {
        self.in_triangle(a, b, c, p)
    }

    fn winding(&self, first: usize, len: usize) -> Sign {
        self.ring_winding(first, len)
    }

    fn mid_ray(&self, a: usize, b: usize, p: usize, n: usize) -> bool {
        self.crosses_mid_ray(a, b, p, n)
    }

    fn hit_side(&self, h: usize, p: usize, n: usize) -> Sign {
        self.ray_hit_side(h, p, n)
    }

    fn hit_order(&self, h: usize, p: usize, n: usize, q: usize, m: usize) -> Sign {
        self.ray_hit_order(h, p, n, q, m)
    }

    fn in_sector(&self, h: usize, p: usize, n: usize, m: usize, v: usize) -> bool {
        self.in_bridge_sector(h, p, n, m, v)
    }

    fn slope_order(&self, h: usize, p: usize, q: usize) -> Sign {
        self.tangent_order(h, p, q)
    }

    fn cell_x(&self, hash: HashParameters, p: usize) -> u16 {
        self.grid_x(&hash, p)
    }

    fn cell_y(&self, hash: HashParameters, p: usize) -> u16 {
        self.grid_y(&hash, p)
    }

    fn len(&self) -> usize {
        self.pts.len()
    }

    fn x_key(&self, p: usize) -> i64 {
        key(self.pts[p].0)
    }

    fn y_key(&self, p: usize) -> i64 {
        key(self.pts[p].1)
    }

    fn orient(&self, p: usize, q: usize, r: usize) -> Sign {
        let (p, q, r) = (self.pts[p], self.pts[q], self.pts[r]);
        sign((q.1 - p.1) * (r.0 - q.0) - (q.0 - p.0) * (r.1 - q.1))
    }

    fn in_triangle(&self, a: usize, b: usize, c: usize, p: usize) -> bool {
        let (a, b, c, p) = (self.pts[a], self.pts[b], self.pts[c], self.pts[p]);
        point_in_triangle(a.0, a.1, b.0, b.1, c.0, c.1, p.0, p.1)
    }

    fn ring_winding(&self, first: usize, len: usize) -> Sign {
        let ring = &self.pts[first..first + len];
        let mut sum = 0.0;
        let mut last = ring[len - 1];
        for p in ring {
            sum += (last.0 - p.0) * (last.1 + p.1);
            last = *p;
        }
        sign(sum)
    }

    fn crosses_mid_ray(&self, a: usize, b: usize, p: usize, n: usize) -> bool {
        let (a, b, p, n) = (self.pts[a], self.pts[b], self.pts[p], self.pts[n]);
        let px = (a.0 + b.0) / 2.0;
        let py = (a.1 + b.1) / 2.0;
        (p.1 > py) != (n.1 > py) && n.1 != p.1 && px < (n.0 - p.0) * (py - p.1) / (n.1 - p.1) + p.0
    }

    fn ray_hit_side(&self, h: usize, p: usize, n: usize) -> Sign {
        order(self.hit(h, p, n), self.pts[h].0)
    }

    fn ray_hit_order(&self, h: usize, p: usize, n: usize, q: usize, m: usize) -> Sign {
        order(self.hit(h, p, n), self.hit(h, q, m))
    }

    fn in_bridge_sector(&self, h: usize, p: usize, n: usize, m: usize, v: usize) -> bool {
        let qx = self.hit(h, p, n);
        let (hx, hy) = self.pts[h];
        let (mx, my) = self.pts[m];
        let (vx, vy) = self.pts[v];
        point_in_triangle(
            if hy < my { hx } else { qx },
            hy,
            mx,
            my,
            if hy < my { qx } else { hx },
            hy,
            vx,
            vy,
        )
    }

    fn tangent_order(&self, h: usize, p: usize, q: usize) -> Sign {
        let (hx, hy) = self.pts[h];
        let (px, py) = self.pts[p];
        let (qx, qy) = self.pts[q];
        order((hy - py).abs() / (hx - px), (hy - qy).abs() / (hx - qx))
    }

    fn grid_x(&self, hash: &HashParameters, p: usize) -> u16 {
        let (min_x, _, inv_size) = self.frame(hash);
        (32767.0 * (self.pts[p].0 - min_x) * inv_size) as i32 as u16
    }

    fn grid_y(&self, hash: &HashParameters, p: usize) -> u16 {
        let (_, min_y, inv_size) = self.frame(hash);
        (32767.0 * (self.pts[p].1 - min_y) * inv_size) as i32 as u16
    }
}

fn triangulate(polygon: &Vec<Vec<(f64, f64)>>) -> Vec<[usize; 3]> {
    let mut pts = Vec::new();
    let mut sizes = Vec::new();
    for ring in polygon {
        sizes.push(ring.len());
        for p in ring {
            pts.push(*p);
        }
    }
    earcut_with(&Floats { pts }, &sizes)
}

fn twice_signed_area(points: &Vec<(f64, f64)>) -> f64 {
    let mut sum = 0.0;
    let mut last = points[points.len() - 1];
    for p in points {
        sum += (last.0 - p.0) * (last.1 + p.1);
        last = *p;
    }
    sum
}

fn polygon_area(polygon: &Vec<Vec<(f64, f64)>>) -> f64 {
    let mut sum = 0.0;
    for (i, r) in polygon.iter().enumerate() {
        sum += f64::abs(twice_signed_area(r)) / 2.0 * if i == 0 { 1.0 } else { -1.0 };
    }
    sum
}

fn triangles_area(polygon: &Vec<Vec<(f64, f64)>>, indices: &Vec<[usize; 3]>) -> f64 {
    let mut flattened = Vec::new();
    for ring in polygon {
        for p in ring {
            flattened.push(*p);
        }
    }
    let mut sum = 0.0;
    for t in indices {
        let (p, q, r) = (flattened[t[0]], flattened[t[1]], flattened[t[2]]);
        sum += f64::abs((q.1 - p.1) * (r.0 - q.0) - (q.0 - p.0) * (r.1 - q.1)) / 2.0;
    }
    sum
}

fn fixture(input: Vec<Vec<(f64, f64)>>, expected_triangles: usize, expected_deviation: f64) {
    let output = triangulate(&input);

    assert_eq!(output.len(), expected_triangles);

    let polygon_area = polygon_area(&input);
    let triangles_area = triangles_area(&input, &output);
    let deviation = if polygon_area == 0. && triangles_area == 0. {
        0.
    } else {
        f64::abs((triangles_area - polygon_area) / polygon_area)
    };

    assert!(deviation < expected_deviation, "expected {} < {}", deviation, expected_deviation);
}

fn ring(points: &[(i32, i32)]) -> Vec<(f64, f64)> {
    points.iter().map(|p| (p.0 as f64, p.1 as f64)).collect()
}

#[test]
fn float_triangle() {
    let output = triangulate(&vec![vec![(0.0, 0.0), (1.0, 0.0), (1.0, 1.0)]]);
    assert_eq!(output.len(), 1);
    let mut t = output[0];
    t.sort();
    assert_eq!(t, [0, 1, 2]);
}

#[test]
fn float_square_with_square_hole() {
    let polygon = vec![
        vec![(0.0, 0.0), (4.0, 0.0), (4.0, 4.0), (0.0, 4.0)],
        vec![(1.0, 1.0), (1.0, 3.0), (3.0, 3.0), (3.0, 1.0)],
    ];
    let output = triangulate(&polygon);
    assert_eq!(output.len(), 8);
    assert_eq!(triangles_area(&polygon, &output), 12.0);
}

#[test]
fn float_empty_input() {
    assert_eq!(triangulate(&vec![]).len(), 0);
}

#[test]
fn float_collinear_ring() {
    let output = triangulate(&vec![vec![(0.0, 0.0), (1.0, 1.0), (2.0, 2.0), (3.0, 3.0)]]);
    assert_eq!(output.len(), 0);
}

#[test]
fn float_keys_order_as_the_numbers_do() {
    let values = [-1e300, -2.5, -1.0, -1e-300, 0.0, 1e-300, 1.0, 2.5, 1e300];
    for i in 0..values.len() {
        for j in 0..values.len() {
            assert_eq!(key(values[i]) < key(values[j]), i < j);
        }
    }
    assert_eq!(key(-0.0), key(0.0));
}

#[test]
fn float_negative_coordinates() {
    let polygon = vec![
        vec![(-4.0, -4.0), (4.0, -4.0), (4.0, 4.0), (-4.0, 4.0)],
        vec![(-1.0, -1.0), (-1.0, 1.0), (1.0, 1.0), (1.0, -1.0)],
    ];
    let output = triangulate(&polygon);
    assert_eq!(output.len(), 8);
    assert_eq!(triangles_area(&polygon, &output), 60.0);
}

#[test]
fn float_fractions() {
    let polygon = vec![vec![(0.5, 0.25), (2.75, 0.25), (2.75, 1.5), (1.5, 3.125), (0.5, 1.5)]];
    let output = triangulate(&polygon);
    assert_eq!(output.len(), 3);
    assert_eq!(triangles_area(&polygon, &output), polygon_area(&polygon));
}

fn comb(teeth: i32) -> Vec<(i32, i32)> {
    let mut points = vec![(0, 0), (4 * teeth, 0)];
    let mut k = teeth;
    while k > 0 {
        points.push((4 * k, 10));
        points.push((4 * k - 1, 3));
        points.push((4 * k - 3, 3));
        points.push((4 * k - 4, 10));
        k -= 1;
    }
    points
}

#[test]
fn float_kernel_agrees_with_the_grid() {
    let rings = vec![
        comb(30),
        vec![(5, 1), (5, 2), (7, 2), (7, 1)],
        vec![(45, 1), (45, 2), (47, 2), (47, 1)],
        vec![(85, 1), (86, 2), (87, 1)],
    ];
    let floats: Vec<Vec<(f64, f64)>> = rings.iter().map(|r| ring(r)).collect();
    let grid: Vec<Vec<Point>> =
        rings.iter().map(|r| r.iter().map(|p| Point { x: p.0, y: p.1 }).collect()).collect();
    assert!(rings[0].len() > 80);
    assert_eq!(triangulate(&floats), earcut(&grid));
    let small = vec![rings[0][..40].to_vec(), rings[1].clone()];
    let floats: Vec<Vec<(f64, f64)>> = small.iter().map(|r| ring(r)).collect();
    let grid: Vec<Vec<Point>> =
        small.iter().map(|r| r.iter().map(|p| Point { x: p.0, y: p.1 }).collect()).collect();
    assert_eq!(triangulate(&floats), earcut(&grid));
}

#[test]
fn fixtures() {
    fixture(
        vec![ring(&[
            (661, 112),
            (661, 96),
            (666, 96),
            (666, 87),
            (743, 87),
            (771, 87),
            (771, 114),
            (750, 114),
            (750, 113),
            (742, 113),
            (742, 106),
            (710, 106),
            (710, 113),
            (666, 113),
            (666, 112),
        ])],
        13,
        1e-14,
    );
    fixture(
        vec![ring(&[(100, 100), (100, 100), (200, 100), (200, 200), (200, 100), (0, 100)])],
        0,
        1e-14,
    );
    fixture(
        vec![
            ring(&[(0, 0), (4000, 0), (4000, 4000), (0, 4000)]),
            ring(&[(0, 0), (4000, 0), (4000, 4000), (0, 4000)]),
        ],
        0,
        1e-14,
    );
    fixture(
        vec![
            ring(&[(0, 0), (100, 0), (100, 100), (0, 100)]),
            ring(&[(50, 50)]),
            ring(&[(30, 40)]),
            ring(&[(70, 60)]),
            ring(&[(20, 70)]),
        ],
        9,
        1e-14,
    );
    fixture(
        vec![
            ring(&[(10, 10), (25, 10), (25, 40), (10, 40)]),
            ring(&[(15, 30), (20, 35), (10, 40)]),
            ring(&[(15, 15), (15, 20), (20, 15)]),
        ],
        10,
        1e-14,
    );
    fixture(
        vec![ring(&[
            (4136, 1016),
            (4112, 1016),
            (4104, 976),
            (4136, 1016),
            (4144, 984),
            (4104, 976),
            (4144, 968),
            (4144, 984),
            (4168, 992),
            (4152, 1064),
        ])],
        4,
        1e-14,
    );
    fixture(
        vec![ring(&[
            (440, 4152),
            (440, 4208),
            (296, 4192),
            (368, 4192),
            (400, 4200),
            (400, 4176),
            (368, 4192),
            (296, 4192),
            (264, 4200),
            (288, 4160),
            (296, 4192),
        ])],
        7,
        1e-14,
    );
}
