//! The arithmetic on coordinates that the engine asks of its kernel.

use vstd::prelude::*;

verus! {

/// The sign of a real number.
#[derive(Clone, Copy, Debug, PartialEq, Eq, Structural)]
pub enum Sign {
    Negative,
    Zero,
    Positive,
}

/// The sign of an integer.
pub open spec fn sign_of(v: int) -> Sign {
    if v < 0 {
        Sign::Negative
    } else if v == 0 {
        Sign::Zero
    } else {
        Sign::Positive
    }
}

/// The bounding box of a ring, held as the four points that touch its sides.
///
/// The spatial index maps every vertex into a grid laid over this box.
#[derive(Clone, Copy, Debug, PartialEq, Eq, Structural)]
pub struct HashParameters {
    /// A point of least abscissa.
    pub min_x: usize,
    /// A point of least ordinate.
    pub min_y: usize,
    /// A point of greatest abscissa.
    pub max_x: usize,
    /// A point of greatest ordinate.
    pub max_y: usize,
}

impl HashParameters {
    /// The four points are points of a kernel with `count` points.
    pub open spec fn within(&self, count: usize) -> bool {
        &&& self.min_x < count
        &&& self.min_y < count
        &&& self.max_x < count
        &&& self.max_y < count
    }
}

/// Number of cells along one side of the grid of the spatial index, less one.
pub const GRID_MAX: u16 = 32767;

/// The arithmetic on coordinates that triangulation needs.
///
/// A kernel holds the points of a polygon, numbered from zero in the order of
/// the flattened input, and answers questions about them. The engine never sees
/// a coordinate: it compares the order keys `x` and `y`, and asks the kernel for
/// every quantity that takes arithmetic.
///
/// Each executable method comes with a specification function of the same
/// arguments that says what it returns. The keys must order the points as their
/// coordinates do: `x(p) < x(q)` exactly when `p` lies left of `q`, and `y`
/// likewise for below.
pub trait Kernel {
    /// Number of points.
    spec fn count(&self) -> usize;

    /// Order key of the abscissa of point `p`.
    spec fn x(&self, p: usize) -> i64;

    /// Order key of the ordinate of point `p`.
    spec fn y(&self, p: usize) -> i64;

    /// Sign of `(q.y - p.y) * (r.x - q.x) - (q.x - p.x) * (r.y - q.y)`:
    /// negative where `p`, `q`, `r` make a convex corner.
    spec fn turn(&self, p: usize, q: usize, r: usize) -> Sign;

    /// Point `p` lies in the triangle `a`, `b`, `c`, its boundary included.
    spec fn inside(&self, a: usize, b: usize, c: usize, p: usize) -> bool;

    /// Sign of the shoelace sum of the ring made of the `len` points from `first` on.
    spec fn winding(&self, first: usize, len: usize) -> Sign;

    /// The edge from `p` to `n` is crossed by the ray that leaves the midpoint of
    /// `a` and `b` towards greater abscissas.
    spec fn mid_ray(&self, a: usize, b: usize, p: usize, n: usize) -> bool;

    /// Where the line through `p` and `n` meets the horizontal through `h`:
    /// left of `h` (negative), at `h` (zero) or right of it (positive).
    spec fn hit_side(&self, h: usize, p: usize, n: usize) -> Sign;

    /// Sign of the abscissa at which the line through `p` and `n` meets the
    /// horizontal through `h`, less that at which the line through `q` and `m` does.
    spec fn hit_order(&self, h: usize, p: usize, n: usize, q: usize, m: usize) -> Sign;

    /// Point `v` lies in the triangle of `h`, of `m`, and of the point where the line
    /// through `p` and `n` meets the horizontal through `h`, its boundary included.
    spec fn in_sector(&self, h: usize, p: usize, n: usize, m: usize, v: usize) -> bool;

    /// Sign of the slope of the segment from `h` to `p`, less that from `h` to `q`,
    /// each slope taken without its sign.
    spec fn slope_order(&self, h: usize, p: usize, q: usize) -> Sign;

    /// Column of point `p` in the grid over the box `hash`.
    spec fn cell_x(&self, hash: HashParameters, p: usize) -> u16;

    /// Row of point `p` in the grid over the box `hash`.
    spec fn cell_y(&self, hash: HashParameters, p: usize) -> u16;

    fn len(&self) -> (n: usize)
        ensures
            n == self.count(),
    ;

    fn x_key(&self, p: usize) -> (k: i64)
        requires
            p < self.count(),
        ensures
            k == self.x(p),
    ;

    fn y_key(&self, p: usize) -> (k: i64)
        requires
            p < self.count(),
        ensures
            k == self.y(p),
    ;

    fn orient(&self, p: usize, q: usize, r: usize) -> (s: Sign)
        requires
            p < self.count(),
            q < self.count(),
            r < self.count(),
        ensures
            s == self.turn(p, q, r),
    ;

    fn in_triangle(&self, a: usize, b: usize, c: usize, p: usize) -> (r: bool)
        requires
            a < self.count(),
            b < self.count(),
            c < self.count(),
            p < self.count(),
        ensures
            r == self.inside(a, b, c, p),
    ;

    fn ring_winding(&self, first: usize, len: usize) -> (s: Sign)
        requires
            len >= 1,
            first + len <= self.count(),
        ensures
            s == self.winding(first, len),
    ;

    fn crosses_mid_ray(&self, a: usize, b: usize, p: usize, n: usize) -> (r: bool)
        requires
            a < self.count(),
            b < self.count(),
            p < self.count(),
            n < self.count(),
        ensures
            r == self.mid_ray(a, b, p, n),
    ;

    fn ray_hit_side(&self, h: usize, p: usize, n: usize) -> (s: Sign)
        requires
            h < self.count(),
            p < self.count(),
            n < self.count(),
            self.y(p) != self.y(n),
        ensures
            s == self.hit_side(h, p, n),
    ;

    fn ray_hit_order(&self, h: usize, p: usize, n: usize, q: usize, m: usize) -> (s: Sign)
        requires
            h < self.count(),
            p < self.count(),
            n < self.count(),
            q < self.count(),
            m < self.count(),
            self.y(p) != self.y(n),
            self.y(q) != self.y(m),
        ensures
            s == self.hit_order(h, p, n, q, m),
    ;

    fn in_bridge_sector(&self, h: usize, p: usize, n: usize, m: usize, v: usize) -> (r: bool)
        requires
            h < self.count(),
            p < self.count(),
            n < self.count(),
            m < self.count(),
            v < self.count(),
            self.y(p) != self.y(n),
        ensures
            r == self.in_sector(h, p, n, m, v),
    ;

    fn tangent_order(&self, h: usize, p: usize, q: usize) -> (s: Sign)
        requires
            h < self.count(),
            p < self.count(),
            q < self.count(),
            self.x(p) < self.x(h),
            self.x(q) < self.x(h),
        ensures
            s == self.slope_order(h, p, q),
    ;

    fn grid_x(&self, hash: &HashParameters, p: usize) -> (c: u16)
        requires
            hash.within(self.count()),
            p < self.count(),
        ensures
            c == self.cell_x(*hash, p),
    ;

    fn grid_y(&self, hash: &HashParameters, p: usize) -> (c: u16)
        requires
            hash.within(self.count()),
            p < self.count(),
        ensures
            c == self.cell_y(*hash, p),
    ;
}

} // verus!
