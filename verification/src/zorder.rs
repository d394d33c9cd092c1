//! The z-order curve: bounding box, grid cells, and interleaved bits.

use vstd::prelude::*;
use crate::geometry::sound;
use crate::kernel::{HashParameters, Kernel};
use crate::ring::{has_ring, on_ring, ring, succ, Node, Rings};

verus! {

/// A polygon with more vertices than this is triangulated with the spatial
/// index; a smaller one is scanned, which is then faster.
pub const INDEX_THRESHOLD: usize = 80;

/// The number whose bit at position `2 * k` is the bit of `v` at position `k`,
/// and whose bits at odd positions are zero.
pub open spec fn spread(v: u16) -> u32 {
    let x = v as u32;
    (x & 0x1) | ((x & 0x2) << 1) | ((x & 0x4) << 2) | ((x & 0x8) << 3) | ((x & 0x10) << 4) | ((x
        & 0x20) << 5) | ((x & 0x40) << 6) | ((x & 0x80) << 7) | ((x & 0x100) << 8) | ((x & 0x200)
        << 9) | ((x & 0x400) << 10) | ((x & 0x800) << 11) | ((x & 0x1000) << 12) | ((x & 0x2000)
        << 13) | ((x & 0x4000) << 14) | ((x & 0x8000) << 15)
}

/// The z-order value of the cell in column `x` and row `y`: the bits of `x` at
/// the even positions, those of `y` at the odd ones.
pub open spec fn interleaved(x: u16, y: u16) -> u32 {
    spread(x) | (spread(y) << 1)
}

/// The z-order value of the cell in the column of point `px` and the row of
/// point `py`, in the grid over the box `hash`.
pub open spec fn z_value<K: Kernel>(kernel: &K, hash: HashParameters, px: usize, py: usize) -> u32 {
    interleaved(kernel.cell_x(hash, px), kernel.cell_y(hash, py))
}

/// Position `k` holds the first least number of `keys`.
pub open spec fn first_least(keys: Seq<int>, k: int) -> bool {
    &&& 0 <= k < keys.len()
    &&& forall|j: int| 0 <= j < keys.len() ==> keys[k] <= #[trigger] keys[j]
    &&& forall|j: int| 0 <= j < k ==> keys[k] < #[trigger] keys[j]
}

/// Position `k` holds the first greatest number of `keys`.
pub open spec fn first_greatest(keys: Seq<int>, k: int) -> bool {
    &&& 0 <= k < keys.len()
    &&& forall|j: int| 0 <= j < keys.len() ==> keys[k] >= #[trigger] keys[j]
    &&& forall|j: int| 0 <= j < k ==> keys[k] > #[trigger] keys[j]
}

/// The abscissas of the nodes of the ring `c`, by their order keys.
pub open spec fn xs<K: Kernel>(nodes: Seq<Node>, kernel: &K, c: Seq<usize>) -> Seq<int> {
    Seq::new(c.len(), |k: int| kernel.x(nodes[c[k] as int].i) as int)
}

/// The ordinates of the nodes of the ring `c`, by their order keys.
pub open spec fn ys<K: Kernel>(nodes: Seq<Node>, kernel: &K, c: Seq<usize>) -> Seq<int> {
    Seq::new(c.len(), |k: int| kernel.y(nodes[c[k] as int].i) as int)
}

/// The box `hash` is the bounding box of the ring `c`: each of its four points
/// is that of the first node of the ring that reaches that side.
pub open spec fn bounds<K: Kernel>(
    nodes: Seq<Node>,
    kernel: &K,
    c: Seq<usize>,
    hash: HashParameters,
) -> bool {
    exists|w: int, s: int, e: int, n: int|
        {
            &&& first_least(xs(nodes, kernel, c), w)
            &&& first_least(ys(nodes, kernel, c), s)
            &&& first_greatest(xs(nodes, kernel, c), e)
            &&& first_greatest(ys(nodes, kernel, c), n)
            &&& hash.min_x == nodes[c[w] as int].i
            &&& hash.min_y == nodes[c[s] as int].i
            &&& hash.max_x == nodes[c[e] as int].i
            &&& hash.max_y == nodes[c[n] as int].i
        }
}

/// The bits of `v` at the odd positions are zero.
pub open spec fn on_even_bits(v: u32) -> bool {
    v & 0xaaaa_aaaau32 == 0
}

/// Spreading the bits of a number keeps the order of numbers.
pub proof fn lemma_spread_ordered(v: u16, w: u16)
    requires
        v <= w,
    ensures
        spread(v) <= spread(w),
        spread(w) <= 0x5555_5555,
        on_even_bits(spread(v)),
        on_even_bits(spread(w)),
{
    let x = v as u32;
    let y = w as u32;
    assert(((x & 0x1) | ((x & 0x2) << 1) | ((x & 0x4) << 2) | ((x & 0x8) << 3) | ((x & 0x10) << 4)
        | ((x & 0x20) << 5) | ((x & 0x40) << 6) | ((x & 0x80) << 7) | ((x & 0x100) << 8) | ((x
        & 0x200) << 9) | ((x & 0x400) << 10) | ((x & 0x800) << 11) | ((x & 0x1000) << 12) | ((x
        & 0x2000) << 13) | ((x & 0x4000) << 14) | ((x & 0x8000) << 15)) <= ((y & 0x1) | ((y & 0x2)
        << 1) | ((y & 0x4) << 2) | ((y & 0x8) << 3) | ((y & 0x10) << 4) | ((y & 0x20) << 5) | ((y
        & 0x40) << 6) | ((y & 0x80) << 7) | ((y & 0x100) << 8) | ((y & 0x200) << 9) | ((y & 0x400)
        << 10) | ((y & 0x800) << 11) | ((y & 0x1000) << 12) | ((y & 0x2000) << 13) | ((y & 0x4000)
        << 14) | ((y & 0x8000) << 15))) by (bit_vector)
        requires
            x <= y,
            y <= 0xffff,
    ;
    assert(((y & 0x1) | ((y & 0x2) << 1) | ((y & 0x4) << 2) | ((y & 0x8) << 3) | ((y & 0x10) << 4)
        | ((y & 0x20) << 5) | ((y & 0x40) << 6) | ((y & 0x80) << 7) | ((y & 0x100) << 8) | ((y
        & 0x200) << 9) | ((y & 0x400) << 10) | ((y & 0x800) << 11) | ((y & 0x1000) << 12) | ((y
        & 0x2000) << 13) | ((y & 0x4000) << 14) | ((y & 0x8000) << 15)) <= 0x5555_5555)
        by (bit_vector)
        requires
            y <= 0xffff,
    ;
    let a = spread(v);
    let b = spread(w);
    assert(a & 0xaaaa_aaaau32 == 0 && b & 0xaaaa_aaaau32 == 0) by (bit_vector)
        requires
            a == ((x & 0x1) | ((x & 0x2) << 1) | ((x & 0x4) << 2) | ((x & 0x8) << 3) | ((x & 0x10)
                << 4) | ((x & 0x20) << 5) | ((x & 0x40) << 6) | ((x & 0x80) << 7) | ((x & 0x100)
                << 8) | ((x & 0x200) << 9) | ((x & 0x400) << 10) | ((x & 0x800) << 11) | ((x
                & 0x1000) << 12) | ((x & 0x2000) << 13) | ((x & 0x4000) << 14) | ((x & 0x8000)
                << 15)),
            b == ((y & 0x1) | ((y & 0x2) << 1) | ((y & 0x4) << 2) | ((y & 0x8) << 3) | ((y & 0x10)
                << 4) | ((y & 0x20) << 5) | ((y & 0x40) << 6) | ((y & 0x80) << 7) | ((y & 0x100)
                << 8) | ((y & 0x200) << 9) | ((y & 0x400) << 10) | ((y & 0x800) << 11) | ((y
                & 0x1000) << 12) | ((y & 0x2000) << 13) | ((y & 0x4000) << 14) | ((y & 0x8000)
                << 15)),
    ;
}

/// The z-order value of a cell grows with its column and with its row.
pub proof fn lemma_interleaved_ordered(x1: u16, y1: u16, x2: u16, y2: u16)
    requires
        x1 <= x2,
        y1 <= y2,
    ensures
        interleaved(x1, y1) <= interleaved(x2, y2),
{
    lemma_spread_ordered(x1, x2);
    lemma_spread_ordered(y1, y2);
    lemma_spread_ordered(x1, x1);
    lemma_spread_ordered(y1, y1);
    let a = spread(x1);
    let b = spread(y1);
    let c = spread(x2);
    let d = spread(y2);
    assert((a | (b << 1)) <= (c | (d << 1))) by (bit_vector)
        requires
            a <= c,
            b <= d,
            c <= 0x5555_5555u32,
            d <= 0x5555_5555u32,
            a & 0xaaaa_aaaau32 == 0,
            b & 0xaaaa_aaaau32 == 0,
            c & 0xaaaa_aaaau32 == 0,
            d & 0xaaaa_aaaau32 == 0,
    ;
}

/// Moves the bits of `v` to the even positions.
fn spread_bits(v: u16) -> (r: u32)
    ensures
        r == spread(v),
{
    let x: u32 = v as u32;
    let a: u32 = (x | (x << 8)) & 0x00FF00FF;
    let b: u32 = (a | (a << 4)) & 0x0F0F0F0F;
    let c: u32 = (b | (b << 2)) & 0x33333333;
    let d: u32 = (c | (c << 1)) & 0x55555555;
    assert(d == spread(v)) by (bit_vector)
        requires
            x == v as u32,
            a == (x | (x << 8)) & 0x00FF00FF,
            b == (a | (a << 4)) & 0x0F0F0F0F,
            c == (b | (b << 2)) & 0x33333333,
            d == (c | (c << 1)) & 0x55555555,
    ;
    d
}

impl HashParameters {
    /// The bounding box of the ring of `head`, for a polygon of `vertices`
    /// vertices; none where the polygon is too small for the spatial index to pay.
    pub fn new<K: Kernel>(rings: &Rings, kernel: &K, head: usize, vertices: usize) -> (hash:
        Option<HashParameters>)
        requires
            sound(rings@, kernel),
            has_ring(rings@, head),
        ensures
            vertices <= INDEX_THRESHOLD <==> hash is None,
            hash matches Some(h) ==> h.within(kernel.count()) && bounds(
                rings@,
                kernel,
                ring(rings@, head),
                h,
            ),
    {
        if vertices <= INDEX_THRESHOLD {
            return None;
        }
        let ghost c = ring(rings@, head);
        let ghost keys_x = xs(rings@, kernel, c);
        let ghost keys_y = ys(rings@, kernel, c);
        let first = rings.index(head);
        let mut min_x = first;
        let mut max_x = first;
        let mut min_y = first;
        let mut max_y = first;
        let mut low_x = kernel.x_key(first);
        let mut high_x = low_x;
        let mut low_y = kernel.y_key(first);
        let mut high_y = low_y;
        let ghost mut w: int = 0;
        let ghost mut s: int = 0;
        let ghost mut e: int = 0;
        let ghost mut n: int = 0;
        let ghost mut k: int = 1;
        let mut p = rings.next(head);
        assert(rings@[c[0] as int].next == c[succ(0, c.len() as int)]);
        if p == head {
            assert(c.len() == 1) by {
                if c.len() > 1 {
                    assert(c[1] != c[0]);
                }
            }
            let hash = HashParameters { min_x, min_y, max_x, max_y };
            assert(first_least(keys_x, 0));
            assert(first_least(keys_y, 0));
            assert(first_greatest(keys_x, 0));
            assert(first_greatest(keys_y, 0));
            return Some(hash);
        }
        loop
            invariant_except_break
                1 <= k < c.len(),
                p == c[k],
            invariant
                1 <= k <= c.len(),
                sound(rings@, kernel),
                on_ring(rings@, c, head),
                keys_x == xs(rings@, kernel, c),
                keys_y == ys(rings@, kernel, c),
                0 <= w < k && 0 <= s < k && 0 <= e < k && 0 <= n < k,
                min_x == rings@[c[w] as int].i,
                min_y == rings@[c[s] as int].i,
                max_x == rings@[c[e] as int].i,
                max_y == rings@[c[n] as int].i,
                low_x == keys_x[w],
                low_y == keys_y[s],
                high_x == keys_x[e],
                high_y == keys_y[n],
                forall|j: int| 0 <= j < k ==> keys_x[w] <= #[trigger] keys_x[j],
                forall|j: int| 0 <= j < w ==> keys_x[w] < #[trigger] keys_x[j],
                forall|j: int| 0 <= j < k ==> keys_y[s] <= #[trigger] keys_y[j],
                forall|j: int| 0 <= j < s ==> keys_y[s] < #[trigger] keys_y[j],
                forall|j: int| 0 <= j < k ==> keys_x[e] >= #[trigger] keys_x[j],
                forall|j: int| 0 <= j < e ==> keys_x[e] > #[trigger] keys_x[j],
                forall|j: int| 0 <= j < k ==> keys_y[n] >= #[trigger] keys_y[j],
                forall|j: int| 0 <= j < n ==> keys_y[n] > #[trigger] keys_y[j],
            ensures
                k == c.len(),
            decreases c.len() - k,
        {
            let i = rings.index(p);
            let x = kernel.x_key(i);
            let y = kernel.y_key(i);
            assert(x == keys_x[k] && y == keys_y[k]);
            if x < low_x {
                low_x = x;
                min_x = i;
                proof {
                    w = k;
                }
            }
            if y < low_y {
                low_y = y;
                min_y = i;
                proof {
                    s = k;
                }
            }
            if x > high_x {
                high_x = x;
                max_x = i;
                proof {
                    e = k;
                }
            }
            if y > high_y {
                high_y = y;
                max_y = i;
                proof {
                    n = k;
                }
            }
            assert(rings@[c[k] as int].next == c[succ(k, c.len() as int)]);
            p = rings.next(p);
            proof {
                k = k + 1;
            }
            if p == head {
                assert(k == c.len()) by {
                    if k < c.len() {
                        assert(c[k] != c[0]);
                    }
                }
                break ;
            }
        }
        let hash = HashParameters { min_x, min_y, max_x, max_y };
        assert(first_least(keys_x, w));
        assert(first_least(keys_y, s));
        assert(first_greatest(keys_x, e));
        assert(first_greatest(keys_y, n));
        Some(hash)
    }

    /// Z-order value of the grid cell in the column of point `px` and the row of
    /// point `py`.
    pub fn z_order<K: Kernel>(&self, kernel: &K, px: usize, py: usize) -> (z: u32)
        requires
            self.within(kernel.count()),
            px < kernel.count(),
            py < kernel.count(),
        ensures
            z == z_value(kernel, *self, px, py),
    {
        let x = spread_bits(kernel.grid_x(self, px));
        let y = spread_bits(kernel.grid_y(self, py));
        assert(spread(kernel.cell_y(*self, py)) <= 0x55555555) by {
            let v = kernel.cell_y(*self, py);
            assert(spread(v) <= 0x55555555) by (bit_vector);
        }
        x | (y << 1)
    }
}

} // verus!
