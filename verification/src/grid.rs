//! The exact kernel for points of the integer grid.

use vstd::prelude::*;
use itertools::Itertools;
use crate::kernel::{sign_of, HashParameters, Kernel, Sign, GRID_MAX};
use crate::polygon::{earcut_with, plain_cut, total, triangulated};
use crate::triangle::in_range;

verus! {

/// A point of the integer grid.
#[derive(Clone, Copy, Debug, PartialEq, Eq)]
pub struct Point {
    pub x: i32,
    pub y: i32,
}

/// Twice the signed area of the triangle `p`, `q`, `r`, negative where the three
/// make a convex corner.
pub open spec fn cross(p: Point, q: Point, r: Point) -> int {
    (q.y - p.y) * (r.x - q.x) - (q.x - p.x) * (r.y - q.y)
}

/// The point `(px, py)` lies on the inner side of each edge of the triangle
/// `(ax, ay)`, `(bx, by)`, `(cx, cy)`, or on the edge.
pub open spec fn covers(
    ax: int,
    ay: int,
    bx: int,
    by: int,
    cx: int,
    cy: int,
    px: int,
    py: int,
) -> bool {
    &&& (cx - px) * (ay - py) - (ax - px) * (cy - py) >= 0
    &&& (ax - px) * (by - py) - (bx - px) * (ay - py) >= 0
    &&& (bx - px) * (cy - py) - (cx - px) * (by - py) >= 0
}

/// What the edge from `a` to `b` adds to the shoelace sum.
pub open spec fn shoelace_term(a: Point, b: Point) -> int {
    (a.x - b.x) * (a.y + b.y)
}

/// The shoelace sum of the closing edge of the ring `pts` and of its first
/// `upto` edges: twice the area of the ring, by its sign the winding.
pub open spec fn shoelace(pts: Seq<Point>, upto: int) -> int
    decreases upto,
{
    if upto <= 0 {
        shoelace_term(pts.last(), pts[0])
    } else {
        shoelace(pts, upto - 1) + shoelace_term(pts[upto - 1], pts[upto])
    }
}

/// Where the line through `p` and `n`, which is not level, meets the level of
/// `h`: the abscissa of that point, times the rise of the line.
pub open spec fn hit(h: Point, p: Point, n: Point) -> int {
    (h.y - p.y) * (n.x - p.x) + p.x * (n.y - p.y)
}

/// The sign of `v` where `d` is positive, the opposite sign where it is not.
pub open spec fn signed_by(v: int, d: int) -> int {
    if d > 0 {
        v
    } else {
        -v
    }
}

/// The ray that leaves the midpoint of `a` and `b` to the right crosses the edge
/// from `p` to `n`.
pub open spec fn crossed(a: Point, b: Point, p: Point, n: Point) -> bool {
    let x2 = a.x + b.x;
    let y2 = a.y + b.y;
    let rise = n.y - p.y;
    &&& (2 * p.y > y2) != (2 * n.y > y2)
    &&& rise != 0
    &&& signed_by((x2 - 2 * p.x) * rise, rise) < signed_by((n.x - p.x) * (y2 - 2 * p.y), rise)
}

/// The point `v` lies in the triangle of `h`, of `m`, and of the point where the
/// line through `p` and `n` meets the level of `h`. All abscissas are taken
/// times the rise of that line, without its sign.
pub open spec fn sector(h: Point, p: Point, n: Point, m: Point, v: Point) -> bool {
    let rise = n.y - p.y;
    let scale = signed_by(1, rise);
    let hx = h.x * rise * scale;
    let qx = hit(h, p, n) * scale;
    let mx = m.x * rise * scale;
    let vx = v.x * rise * scale;
    if h.y < m.y {
        covers(hx, h.y as int, mx, m.y as int, qx, h.y as int, vx, v.y as int)
    } else {
        covers(qx, h.y as int, mx, m.y as int, hx, h.y as int, vx, v.y as int)
    }
}

/// The distance of `a` from `b`, without its sign.
pub open spec fn gap(a: int, b: int) -> int {
    if a >= b {
        a - b
    } else {
        b - a
    }
}

/// The cell of the point at `offset` from the side of a box of side `size`, in a
/// grid of `GRID_MAX + 1` cells.
pub open spec fn cell(offset: int, size: int) -> u16 {
    if size <= 0 || offset <= 0 {
        0
    } else if offset >= size {
        GRID_MAX
    } else {
        (GRID_MAX * offset / size) as u16
    }
}

/// The longer side of the box `hash` round points of `pts`.
pub open spec fn side(pts: Seq<Point>, hash: HashParameters) -> int {
    let w = pts[hash.max_x as int].x - pts[hash.min_x as int].x;
    let h = pts[hash.max_y as int].y - pts[hash.min_y as int].y;
    if w >= h {
        w
    } else {
        h
    }
}

/// Most points that a grid kernel holds.
pub const GRID_POINTS: usize = 0xffff_ffff;

/// The exact kernel for points of the integer grid.
pub struct Grid {
    points: Vec<Point>,
}

impl View for Grid {
    type V = Seq<Point>;

    closed spec fn view(&self) -> Seq<Point> {
        self.points@
    }
}

impl Grid {
    #[verifier::type_invariant]
    spec fn bounded(self) -> bool {
        self.points@.len() <= GRID_POINTS
    }

    /// The kernel of the given points.
    pub fn new(points: Vec<Point>) -> (grid: Grid)
        requires
            points@.len() <= GRID_POINTS,
        ensures
            grid@ == points@,
    {
        Grid { points }
    }

    /// The kernel counts the points that it holds.
    pub proof fn lemma_count(&self)
        ensures
            self.count() == self@.len(),
            self@.len() <= usize::MAX,
    {
        assert(self.points.len() == self.points@.len());
    }

    /// The point of index `p`.
    fn at(&self, p: usize) -> (point: Point)
        requires
            p < self@.len(),
        ensures
            point == self@[p as int],
    {
        self.points[p]
    }
}

/// The product of two numbers that are small enough for it.
fn product(a: i128, b: i128) -> (r: i128)
    requires
        -0x40_0000_0000_0000_0000 <= a <= 0x40_0000_0000_0000_0000,
        -0x4_0000_0000 <= b <= 0x4_0000_0000,
    ensures
        r == a * b,
{
    assert(-0x100_0000_0000_0000_0000_0000_0000 <= a * b <= 0x100_0000_0000_0000_0000_0000_0000)
        by (nonlinear_arith)
        requires
            -0x40_0000_0000_0000_0000 <= a <= 0x40_0000_0000_0000_0000,
            -0x4_0000_0000 <= b <= 0x4_0000_0000,
    ;
    a * b
}

/// A product is no larger than the product of the bounds of its factors.
proof fn lemma_product_bound(a: int, b: int, m: int, n: int)
    requires
        -m <= a <= m,
        -n <= b <= n,
    ensures
        -(m * n) <= a * b <= m * n,
{
    assert(-(m * n) <= a * b <= m * n) by (nonlinear_arith)
        requires
            -m <= a <= m,
            -n <= b <= n,
    ;
}

/// The sign of a number.
fn sign(v: i128) -> (s: Sign)
    ensures
        s == sign_of(v as int),
{
    if v < 0 {
        Sign::Negative
    } else if v == 0 {
        Sign::Zero
    } else {
        Sign::Positive
    }
}

/// The difference of two coordinates.
fn less(a: i32, b: i32) -> (r: i128)
    ensures
        r == a - b,
        -0xffff_ffff <= r <= 0xffff_ffff,
{
    a as i128 - b as i128
}

/// Twice the signed area of the triangle `p`, `q`, `r`.
fn cross_of(p: Point, q: Point, r: Point) -> (v: i128)
    ensures
        v == cross(p, q, r),
{
    let a = product(less(q.y, p.y), less(r.x, q.x));
    let b = product(less(q.x, p.x), less(r.y, q.y));
    proof {
        lemma_product_bound(q.y - p.y, r.x - q.x, 0xffff_ffff, 0xffff_ffff);
        lemma_product_bound(q.x - p.x, r.y - q.y, 0xffff_ffff, 0xffff_ffff);
    }
    a - b
}

/// Checks whether a point lies in a triangle, all given by coordinates that are
/// small enough for the arithmetic.
fn covers_of(ax: i128, ay: i32, bx: i128, by: i32, cx: i128, cy: i32, px: i128, py: i32) -> (r:
    bool)
    requires
        -0x8_0000_0000_0000_0000 <= ax <= 0x8_0000_0000_0000_0000,
        -0x8_0000_0000_0000_0000 <= bx <= 0x8_0000_0000_0000_0000,
        -0x8_0000_0000_0000_0000 <= cx <= 0x8_0000_0000_0000_0000,
        -0x8_0000_0000_0000_0000 <= px <= 0x8_0000_0000_0000_0000,
    ensures
        r == covers(
            ax as int,
            ay as int,
            bx as int,
            by as int,
            cx as int,
            cy as int,
            px as int,
            py as int,
        ),
{
    let ux = ax - px;
    let vx = bx - px;
    let wx = cx - px;
    let uy = less(ay, py);
    let vy = less(by, py);
    let wy = less(cy, py);
    proof {
        lemma_product_bound(wx as int, uy as int, 0x10_0000_0000_0000_0000, 0xffff_ffff);
        lemma_product_bound(ux as int, wy as int, 0x10_0000_0000_0000_0000, 0xffff_ffff);
        lemma_product_bound(ux as int, vy as int, 0x10_0000_0000_0000_0000, 0xffff_ffff);
        lemma_product_bound(vx as int, uy as int, 0x10_0000_0000_0000_0000, 0xffff_ffff);
        lemma_product_bound(vx as int, wy as int, 0x10_0000_0000_0000_0000, 0xffff_ffff);
        lemma_product_bound(wx as int, vy as int, 0x10_0000_0000_0000_0000, 0xffff_ffff);
    }
    product(wx, uy) - product(ux, wy) >= 0 && product(ux, vy) - product(vx, uy) >= 0 && product(
        vx,
        wy,
    ) - product(wx, vy) >= 0
}

/// Where the line through `p` and `n` meets the level of `h`, times its rise.
fn hit_of(h: Point, p: Point, n: Point) -> (v: i128)
    ensures
        v == hit(h, p, n),
        -0x1_8000_0000_0000_0000 <= v <= 0x1_8000_0000_0000_0000,
{
    let a = product(less(h.y, p.y), less(n.x, p.x));
    let b = product(p.x as i128, less(n.y, p.y));
    proof {
        lemma_product_bound(h.y - p.y, n.x - p.x, 0xffff_ffff, 0xffff_ffff);
        lemma_product_bound(p.x as int, n.y - p.y, 0x8000_0000, 0xffff_ffff);
    }
    a + b
}

/// A number with its sign, or with the opposite sign where `d` is not positive.
fn signed(v: i128, d: i128) -> (r: i128)
    requires
        -0x1000_0000_0000_0000_0000_0000_0000 <= v <= 0x1000_0000_0000_0000_0000_0000_0000,
    ensures
        r == signed_by(v as int, d as int),
{
    if d > 0 {
        v
    } else {
        -v
    }
}

/// The consecutive pairs of the ring `ring`, by `Itertools::tuple_windows`:
/// the pair at position `k` holds the points at positions `k` and `k + 1`. A
/// ring of fewer than two points has no pair.
#[verifier::external_body]
fn adjacent_pairs(ring: &Vec<Point>) -> (pairs: Vec<(Point, Point)>)
    ensures
        pairs@.len() == (if ring@.len() == 0 {
            0
        } else {
            ring@.len() - 1
        }),
        forall|k: int|
            0 <= k < pairs@.len() ==> (#[trigger] pairs@[k]) == (ring@[k], ring@[k + 1]),
{
    ring.iter().copied().tuple_windows().collect()
}

impl Kernel for Grid {
    closed spec fn count(&self) -> usize {
        self.points@.len() as usize
    }

    open spec fn x(&self, p: usize) -> i64 {
        self@[p as int].x as i64
    }

    open spec fn y(&self, p: usize) -> i64 {
        self@[p as int].y as i64
    }

    open spec fn turn(&self, p: usize, q: usize, r: usize) -> Sign {
        sign_of(cross(self@[p as int], self@[q as int], self@[r as int]))
    }

    open spec fn inside(&self, a: usize, b: usize, c: usize, p: usize) -> bool {
        covers(
            self@[a as int].x as int,
            self@[a as int].y as int,
            self@[b as int].x as int,
            self@[b as int].y as int,
            self@[c as int].x as int,
            self@[c as int].y as int,
            self@[p as int].x as int,
            self@[p as int].y as int,
        )
    }

    open spec fn winding(&self, first: usize, len: usize) -> Sign {
        sign_of(shoelace(self@.subrange(first as int, first + len), len - 1))
    }

    open spec fn mid_ray(&self, a: usize, b: usize, p: usize, n: usize) -> bool {
        crossed(self@[a as int], self@[b as int], self@[p as int], self@[n as int])
    }

    open spec fn hit_side(&self, h: usize, p: usize, n: usize) -> Sign {
        let rise = self@[n as int].y - self@[p as int].y;
        sign_of(
            signed_by(
                hit(self@[h as int], self@[p as int], self@[n as int]) - self@[h as int].x * rise,
                rise,
            ),
        )
    }

    open spec fn hit_order(&self, h: usize, p: usize, n: usize, q: usize, m: usize) -> Sign {
        let rise = self@[n as int].y - self@[p as int].y;
        let other = self@[m as int].y - self@[q as int].y;
        sign_of(
            signed_by(
                signed_by(
                    hit(self@[h as int], self@[p as int], self@[n as int]) * other - hit(
                        self@[h as int],
                        self@[q as int],
                        self@[m as int],
                    ) * rise,
                    rise,
                ),
                other,
            ),
        )
    }

    open spec fn in_sector(&self, h: usize, p: usize, n: usize, m: usize, v: usize) -> bool {
        sector(
            self@[h as int],
            self@[p as int],
            self@[n as int],
            self@[m as int],
            self@[v as int],
        )
    }

    open spec fn slope_order(&self, h: usize, p: usize, q: usize) -> Sign {
        let hp = self@[h as int];
        let pp = self@[p as int];
        let qp = self@[q as int];
        sign_of(
            gap(hp.y as int, pp.y as int) * (hp.x - qp.x) - gap(hp.y as int, qp.y as int) * (hp.x
                - pp.x),
        )
    }

    open spec fn cell_x(&self, hash: HashParameters, p: usize) -> u16 {
        cell(self@[p as int].x - self@[hash.min_x as int].x, side(self@, hash))
    }

    open spec fn cell_y(&self, hash: HashParameters, p: usize) -> u16 {
        cell(self@[p as int].y - self@[hash.min_y as int].y, side(self@, hash))
    }

    fn len(&self) -> (n: usize) {
        self.points.len()
    }

    fn x_key(&self, p: usize) -> (k: i64) {
        self.at(p).x as i64
    }

    fn y_key(&self, p: usize) -> (k: i64) {
        self.at(p).y as i64
    }

    fn orient(&self, p: usize, q: usize, r: usize) -> (s: Sign) {
        sign(cross_of(self.at(p), self.at(q), self.at(r)))
    }

    fn in_triangle(&self, a: usize, b: usize, c: usize, p: usize) -> (r: bool) {
        let a = self.at(a);
        let b = self.at(b);
        let c = self.at(c);
        let p = self.at(p);
        covers_of(a.x as i128, a.y, b.x as i128, b.y, c.x as i128, c.y, p.x as i128, p.y)
    }

    fn ring_winding(&self, first: usize, len: usize) -> (s: Sign) {
        proof {
            use_type_invariant(self);
        }
        let ghost pts = self@.subrange(first as int, first + len);
        let mut ring: Vec<Point> = Vec::new();
        let mut k: usize = 0;
        assert(self.points.len() == self@.len());
        while k < len
            invariant
                0 <= k <= len,
                first + len <= self@.len(),
                self@.len() <= usize::MAX,
                pts == self@.subrange(first as int, first + len),
                ring@ == pts.take(k as int),
            decreases len - k,
        {
            ring.push(self.at(first + k));
            proof {
                assert(ring@ =~= pts.take(k + 1));
            }
            k += 1;
        }
        assert(ring@ =~= pts);
        let pairs = adjacent_pairs(&ring);
        let mut sum: i128 = product(
            less(ring[len - 1].x, ring[0].x),
            ring[len - 1].y as i128 + ring[0].y as i128,
        );
        proof {
            lemma_product_bound(
                ring@[len - 1].x - ring@[0].x,
                ring@[len - 1].y + ring@[0].y,
                0x1_0000_0000,
                0x1_0000_0000,
            );
        }
        let mut j: usize = 0;
        while j < pairs.len()
            invariant
                0 <= j <= pairs@.len(),
                pairs@.len() == len - 1,
                len <= GRID_POINTS,
                ring@ == pts,
                pts.len() == len,
                forall|k: int|
                    0 <= k < pairs@.len() ==> (#[trigger] pairs@[k]) == (ring@[k], ring@[k + 1]),
                sum == shoelace(pts, j as int),
                -(j + 1) * 0x1_0000_0000_0000_0000 <= sum <= (j + 1) * 0x1_0000_0000_0000_0000,
            decreases pairs@.len() - j,
        {
            let (a, b) = pairs[j];
            let term = product(less(a.x, b.x), a.y as i128 + b.y as i128);
            proof {
                lemma_product_bound(a.x - b.x, a.y + b.y, 0x1_0000_0000, 0x1_0000_0000);
            }
            sum = sum + term;
            j += 1;
        }
        sign(sum)
    }

    fn crosses_mid_ray(&self, a: usize, b: usize, p: usize, n: usize) -> (r: bool) {
        let a = self.at(a);
        let b = self.at(b);
        let p = self.at(p);
        let n = self.at(n);
        let x2 = a.x as i128 + b.x as i128;
        let y2 = a.y as i128 + b.y as i128;
        let rise = less(n.y, p.y);
        if (2 * (p.y as i128) > y2) == (2 * (n.y as i128) > y2) || rise == 0 {
            return false;
        }
        let left = product(x2 - 2 * (p.x as i128), rise);
        let right = product(less(n.x, p.x), y2 - 2 * (p.y as i128));
        proof {
            lemma_product_bound(x2 - 2 * p.x, rise as int, 0x2_0000_0000, 0xffff_ffff);
            lemma_product_bound(n.x - p.x, y2 - 2 * p.y, 0xffff_ffff, 0x2_0000_0000);
        }
        signed(left, rise) < signed(right, rise)
    }

    fn ray_hit_side(&self, h: usize, p: usize, n: usize) -> (s: Sign) {
        let h = self.at(h);
        let p = self.at(p);
        let n = self.at(n);
        let rise = less(n.y, p.y);
        let here = product(h.x as i128, rise);
        proof {
            lemma_product_bound(h.x as int, rise as int, 0x8000_0000, 0xffff_ffff);
        }
        sign(signed(hit_of(h, p, n) - here, rise))
    }

    fn ray_hit_order(&self, h: usize, p: usize, n: usize, q: usize, m: usize) -> (s: Sign) {
        let h = self.at(h);
        let p = self.at(p);
        let n = self.at(n);
        let q = self.at(q);
        let m = self.at(m);
        let rise = less(n.y, p.y);
        let other = less(m.y, q.y);
        let one = hit_of(h, p, n);
        let two = hit_of(h, q, m);
        let left = product(one, other);
        let right = product(two, rise);
        proof {
            lemma_product_bound(one as int, other as int, 0x1_8000_0000_0000_0000, 0xffff_ffff);
            lemma_product_bound(two as int, rise as int, 0x1_8000_0000_0000_0000, 0xffff_ffff);
        }
        sign(signed(signed(left - right, rise), other))
    }

    fn in_bridge_sector(&self, h: usize, p: usize, n: usize, m: usize, v: usize) -> (r: bool) {
        let h = self.at(h);
        let p = self.at(p);
        let n = self.at(n);
        let m = self.at(m);
        let v = self.at(v);
        let rise = less(n.y, p.y);
        let scale: i128 = if rise > 0 {
            1
        } else {
            -1
        };
        let span = product(rise, scale);
        let hx = product(span, h.x as i128);
        let qx = product(hit_of(h, p, n), scale);
        let mx = product(span, m.x as i128);
        let vx = product(span, v.x as i128);
        proof {
            lemma_product_bound(span as int, h.x as int, 0xffff_ffff, 0x8000_0000);
            lemma_product_bound(span as int, m.x as int, 0xffff_ffff, 0x8000_0000);
            lemma_product_bound(span as int, v.x as int, 0xffff_ffff, 0x8000_0000);
            assert(h.x * (n.y - p.y) * scale == span * h.x) by (nonlinear_arith)
                requires
                    span == (n.y - p.y) * scale,
            ;
            assert(m.x * (n.y - p.y) * scale == span * m.x) by (nonlinear_arith)
                requires
                    span == (n.y - p.y) * scale,
            ;
            assert(v.x * (n.y - p.y) * scale == span * v.x) by (nonlinear_arith)
                requires
                    span == (n.y - p.y) * scale,
            ;
        }
        if h.y < m.y {
            covers_of(hx, h.y, mx, m.y, qx, h.y, vx, v.y)
        } else {
            covers_of(qx, h.y, mx, m.y, hx, h.y, vx, v.y)
        }
    }

    fn tangent_order(&self, h: usize, p: usize, q: usize) -> (s: Sign) {
        let h = self.at(h);
        let p = self.at(p);
        let q = self.at(q);
        let up = less(h.y, p.y);
        let uq = less(h.y, q.y);
        let rise_p = if up >= 0 {
            up
        } else {
            -up
        };
        let rise_q = if uq >= 0 {
            uq
        } else {
            -uq
        };
        let left = product(rise_p, less(h.x, q.x));
        let right = product(rise_q, less(h.x, p.x));
        proof {
            lemma_product_bound(rise_p as int, h.x - q.x, 0xffff_ffff, 0xffff_ffff);
            lemma_product_bound(rise_q as int, h.x - p.x, 0xffff_ffff, 0xffff_ffff);
        }
        sign(left - right)
    }

    fn grid_x(&self, hash: &HashParameters, p: usize) -> (c: u16) {
        let size = self.box_side(hash);
        cell_of(less(self.at(p).x, self.at(hash.min_x).x), size)
    }

    fn grid_y(&self, hash: &HashParameters, p: usize) -> (c: u16) {
        let size = self.box_side(hash);
        cell_of(less(self.at(p).y, self.at(hash.min_y).y), size)
    }
}

impl Grid {
    /// The longer side of the box `hash`.
    fn box_side(&self, hash: &HashParameters) -> (size: i128)
        requires
            hash.within(self.count()),
        ensures
            size == side(self@, *hash),
            -0xffff_ffff <= size <= 0xffff_ffff,
    {
        let w = less(self.at(hash.max_x).x, self.at(hash.min_x).x);
        let h = less(self.at(hash.max_y).y, self.at(hash.min_y).y);
        if w >= h {
            w
        } else {
            h
        }
    }
}

/// The cell of the point at `offset` from the side of a box of side `size`.
fn cell_of(offset: i128, size: i128) -> (c: u16)
    requires
        -0xffff_ffff <= offset <= 0xffff_ffff,
        -0xffff_ffff <= size <= 0xffff_ffff,
    ensures
        c == cell(offset as int, size as int),
{
    if size <= 0 || offset <= 0 {
        0
    } else if offset >= size {
        GRID_MAX
    } else {
        let scaled = product(offset, GRID_MAX as i128);
        proof {
            lemma_product_bound(offset as int, GRID_MAX as int, 0xffff_ffff, 0x7fff);
            assert(0 <= (GRID_MAX * offset) / (size as int) < GRID_MAX) by (nonlinear_arith)
                requires
                    0 < offset < size,
                    GRID_MAX == 32767,
            ;
            assert(offset * GRID_MAX == GRID_MAX * offset) by (nonlinear_arith);
        }
        (scaled / size) as u16
    }
}


/// The points of the rings of a polygon, one ring after the other.
pub open spec fn flattened(polygon: Seq<Vec<Point>>) -> Seq<Point>
    decreases polygon.len(),
{
    if polygon.len() == 0 {
        Seq::empty()
    } else {
        flattened(polygon.drop_last()) + polygon.last()@
    }
}

/// The numbers of points of the rings of a polygon.
pub open spec fn sizes_of(polygon: Seq<Vec<Point>>) -> Seq<usize> {
    Seq::new(polygon.len(), |k: int| polygon[k]@.len() as usize)
}

/// The rings of a polygon have as many points as the polygon flattened.
proof fn lemma_flattened_total(polygon: Seq<Vec<Point>>, k: int)
    requires
        0 <= k <= polygon.len(),
    ensures
        total(sizes_of(polygon), k) == flattened(polygon.take(k)).len(),
    decreases k,
{
    if k > 0 {
        lemma_flattened_total(polygon, k - 1);
        assert(polygon.take(k).drop_last() =~= polygon.take(k - 1));
        assert(polygon.take(k).last() == polygon[k - 1]);
        assert(polygon[k - 1]@.len() <= usize::MAX) by {
            assert(polygon[k - 1].len() == polygon[k - 1]@.len());
        }
    } else {
        assert(polygon.take(0) =~= Seq::<Vec<Point>>::empty());
    }
}

/// Triangulates a polygon of the integer grid, with holes. The first ring is the
/// outer boundary, the others are holes. Each triangle is given as three
/// indices into the points of all rings, the outer ring first.
///
/// Nothing is asked of the polygon. An empty polygon has no triangles, a
/// polygon that crosses itself may have fewer than its area needs.
pub fn earcut(polygon: &Vec<Vec<Point>>) -> (triangles: Vec<[usize; 3]>)
    requires
        flattened(polygon@).len() <= GRID_POINTS,
    ensures
        in_range(triangles@, 0, flattened(polygon@).len() as usize),
        polygon@.len() == 0 || polygon@[0]@.len() == 0 ==> triangles@.len() == 0,
        polygon@.len() > 0 ==> triangles@.len() + 2 <= flattened(polygon@).len() + 2 * (
        polygon@.len() - 1) || triangles@.len() == 0,
        exists|grid: Grid|
            {
                &&& grid@ == flattened(polygon@)
                &&& plain_cut(&grid, sizes_of(polygon@), triangles@)
                &&& #[trigger] triangulated(&grid, sizes_of(polygon@), triangles@)
            },
{
    let mut points: Vec<Point> = Vec::new();
    let mut sizes: Vec<usize> = Vec::new();
    let mut k: usize = 0;
    proof {
        assert(polygon@.take(0) =~= Seq::<Vec<Point>>::empty());
        assert(polygon@.take(polygon@.len() as int) =~= polygon@);
    }
    while k < polygon.len()
        invariant
            0 <= k <= polygon@.len(),
            points@ == flattened(polygon@.take(k as int)),
            sizes@ == sizes_of(polygon@).take(k as int),
            flattened(polygon@).len() <= GRID_POINTS,
        decreases polygon@.len() - k,
    {
        let ring = &polygon[k];
        let ghost before = points@;
        let mut j: usize = 0;
        while j < ring.len()
            invariant
                0 <= j <= ring@.len(),
                points@ == before + ring@.take(j as int),
            decreases ring@.len() - j,
        {
            points.push(ring[j]);
            proof {
                assert(ring@.take(j + 1) =~= ring@.take(j as int).push(ring@[j as int]));
                assert(points@ =~= before + ring@.take(j + 1));
            }
            j += 1;
        }
        sizes.push(ring.len());
        proof {
            assert(ring@.take(ring@.len() as int) =~= ring@);
            assert(polygon@.take(k + 1).drop_last() =~= polygon@.take(k as int));
            assert(polygon@.take(k + 1).last() == polygon@[k as int]);
            assert(sizes@ =~= sizes_of(polygon@).take(k + 1));
        }
        k += 1;
    }
    proof {
        assert(sizes@ =~= sizes_of(polygon@));
        lemma_flattened_total(polygon@, polygon@.len() as int);
    }
    let grid = Grid::new(points);
    let triangles = earcut_with(&grid, &sizes);
    proof {
        assert(grid@ == flattened(polygon@) && plain_cut(&grid, sizes_of(polygon@), triangles@)
            && triangulated(&grid, sizes_of(polygon@), triangles@));
    }
    triangles
}

} // verus!
