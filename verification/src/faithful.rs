//! The spatial index on the grid: why the test for an ear may trust it.

use vstd::prelude::*;
use crate::clip::walked;
use crate::curve::{curve_indexed, indexes};
use crate::ear::{
    ascending, convex, ear_at, ear_by_index, ear_by_scan, greatest_of, high_z, least_of,
    lemma_index_agrees, low_z, scanned, spoils,
};
use crate::grid::{cell, covers, cross, side, Grid};
use crate::kernel::{HashParameters, Kernel, GRID_MAX};
use crate::ring::{
    has_ring, is_chain, is_cycle, lemma_cycle_frame, lemma_removed_chain, lemma_removed_cycle,
    lemma_removed_fields, lemma_ring_unique, lemma_rotated_cycle, linked, pred, removed, ring,
    rotated, same_links, succ, Node,
};
use crate::sort::{goes_before, z_values};
use crate::triangle::corner;
use crate::zorder::{lemma_interleaved_ordered, z_value};

verus! {

/// A point farther from the side of the box lies in no earlier cell.
pub proof fn lemma_cell_ordered(near: int, far: int, size: int)
    requires
        near <= far,
    ensures
        cell(near, size) <= cell(far, size),
{
    if size > 0 && near > 0 && far < size {
        assert(GRID_MAX * near <= GRID_MAX * far) by (nonlinear_arith)
            requires
                near <= far,
                GRID_MAX == 32767,
        ;
        vstd::arithmetic::div_mod::lemma_div_is_ordered(GRID_MAX * near, GRID_MAX * far, size);
        assert(0 <= (GRID_MAX * far) / size < GRID_MAX) by (nonlinear_arith)
            requires
                0 < far < size,
                GRID_MAX == 32767,
        ;
        assert(0 <= (GRID_MAX * near) / size < GRID_MAX) by (nonlinear_arith)
            requires
                0 < near < size,
                GRID_MAX == 32767,
        ;
    } else if size > 0 && near > 0 && near < size {
        assert(0 <= (GRID_MAX * near) / size < GRID_MAX) by (nonlinear_arith)
            requires
                0 < near < size,
                GRID_MAX == 32767,
        ;
    } else if size > 0 && far > 0 && far < size {
        assert(0 <= (GRID_MAX * far) / size < GRID_MAX) by (nonlinear_arith)
            requires
                0 < far < size,
                GRID_MAX == 32767,
        ;
    }
}

/// A point that a triangle with a convex corner covers lies no farther left than
/// the leftmost corner of the triangle, and no farther right than the rightmost;
/// and so for the heights.
pub proof fn lemma_covered_in_box(
    ax: int,
    ay: int,
    bx: int,
    by: int,
    cx: int,
    cy: int,
    px: int,
    py: int,
)
    requires
        covers(ax, ay, bx, by, cx, cy, px, py),
        (by - ay) * (cx - bx) - (bx - ax) * (cy - by) < 0,
    ensures
        ax <= px || bx <= px || cx <= px,
        ax >= px || bx >= px || cx >= px,
        ay <= py || by <= py || cy <= py,
        ay >= py || by >= py || cy >= py,
{
    let ux = ax - px;
    let uy = ay - py;
    let vx = bx - px;
    let vy = by - py;
    let wx = cx - px;
    let wy = cy - py;
    let t1 = wx * uy - ux * wy;
    let t2 = ux * vy - vx * uy;
    let t3 = vx * wy - wx * vy;
    lemma_area_about(ax, ay, bx, by, cx, cy, px, py);
    lemma_balance(ux, vx, wx, uy, vy, wy);
    lemma_balance(uy, vy, wy, ux, vx, wx);
    assert(uy * (-t3) + vy * (-t1) + wy * (-t2) == 0) by {
        assert(vy * wx - wy * vx == -t3);
        assert(wy * ux - uy * wx == -t1);
        assert(uy * vx - vy * ux == -t2);
    }
    assert(uy * t3 + vy * t1 + wy * t2 == 0) by {
        lemma_negated(uy, t3);
        lemma_negated(vy, t1);
        lemma_negated(wy, t2);
    }
    lemma_weighted(ux, vx, wx, t3, t1, t2);
    lemma_weighted(uy, vy, wy, t3, t1, t2);
}

/// The product with the opposite number is the opposite product.
proof fn lemma_negated(a: int, b: int)
    ensures
        a * (-b) == -(a * b),
{
    assert(a * (-b) == -(a * b)) by (nonlinear_arith);
}

/// The three vectors `u`, `v`, `w`, each weighted by the cross product of the
/// other two, add up to nothing; here for their first coordinates.
proof fn lemma_balance(ux: int, vx: int, wx: int, uy: int, vy: int, wy: int)
    ensures
        ux * (vx * wy - wx * vy) + vx * (wx * uy - ux * wy) + wx * (ux * vy - vx * uy) == 0,
{
    let m1 = ux * vx * wy;
    let m2 = ux * wx * vy;
    let m3 = vx * wx * uy;
    assert(ux * (vx * wy - wx * vy) == m1 - m2) by (nonlinear_arith)
        requires
            m1 == ux * vx * wy,
            m2 == ux * wx * vy,
    ;
    assert(vx * (wx * uy - ux * wy) == m3 - m1) by (nonlinear_arith)
        requires
            m3 == vx * wx * uy,
            m1 == ux * vx * wy,
    ;
    assert(wx * (ux * vy - vx * uy) == m2 - m3) by (nonlinear_arith)
        requires
            m2 == ux * wx * vy,
            m3 == vx * wx * uy,
    ;
}

/// Twice the area of a triangle is the sum of the cross products of its corners
/// about any point.
proof fn lemma_area_about(
    ax: int,
    ay: int,
    bx: int,
    by: int,
    cx: int,
    cy: int,
    px: int,
    py: int,
)
    ensures
        ((cx - px) * (ay - py) - (ax - px) * (cy - py)) + ((ax - px) * (by - py) - (bx - px) * (ay
            - py)) + ((bx - px) * (cy - py) - (cx - px) * (by - py)) == -((by - ay) * (cx - bx) - (bx
            - ax) * (cy - by)),
{
    assert((cx - px) * (ay - py) == cx * ay - cx * py - px * ay + px * py) by (nonlinear_arith);
    assert((ax - px) * (cy - py) == ax * cy - ax * py - px * cy + px * py) by (nonlinear_arith);
    assert((ax - px) * (by - py) == ax * by - ax * py - px * by + px * py) by (nonlinear_arith);
    assert((bx - px) * (ay - py) == bx * ay - bx * py - px * ay + px * py) by (nonlinear_arith);
    assert((bx - px) * (cy - py) == bx * cy - bx * py - px * cy + px * py) by (nonlinear_arith);
    assert((cx - px) * (by - py) == cx * by - cx * py - px * by + px * py) by (nonlinear_arith);
    assert((by - ay) * (cx - bx) == by * cx - by * bx - ay * cx + ay * bx) by (nonlinear_arith);
    assert((bx - ax) * (cy - by) == bx * cy - bx * by - ax * cy + ax * by) by (nonlinear_arith);
    assert(cx * ay == ay * cx && ax * cy == ax * cy && bx * ay == ay * bx && cx * by == by * cx
        && by * bx == bx * by) by (nonlinear_arith);
}

/// Numbers that are all positive, or all negative, have no weighted sum of zero,
/// where the weights are not negative and not all zero.
proof fn lemma_weighted(u: int, v: int, w: int, a: int, b: int, c: int)
    requires
        a >= 0,
        b >= 0,
        c >= 0,
        a + b + c > 0,
        u * a + v * b + w * c == 0,
    ensures
        u <= 0 || v <= 0 || w <= 0,
        u >= 0 || v >= 0 || w >= 0,
{
    if u > 0 && v > 0 && w > 0 {
        assert(u * a >= a && v * b >= b && w * c >= c) by (nonlinear_arith)
            requires
                u >= 1,
                v >= 1,
                w >= 1,
                a >= 0,
                b >= 0,
                c >= 0,
        ;
    }
    if u < 0 && v < 0 && w < 0 {
        assert(u * a <= -a && v * b <= -b && w * c <= -c) by (nonlinear_arith)
            requires
                u <= -1,
                v <= -1,
                w <= -1,
                a >= 0,
                b >= 0,
                c >= 0,
        ;
    }
}


/// On the grid, a node that spoils an ear has its cell in the range of the box
/// round the ear's triangle: its z-order value, where that is the value of its
/// cell, is no less than that of the lower left corner of the box and no
/// greater than that of the upper right.
pub proof fn lemma_in_window(
    nodes: Seq<Node>,
    grid: &Grid,
    hash: HashParameters,
    ear: usize,
    q: usize,
)
    requires
        nodes[q as int].z == z_value(grid, hash, nodes[q as int].i, nodes[q as int].i),
        convex(nodes, grid, ear),
        spoils(nodes, grid, ear, q),
    ensures
        low_z(nodes, grid, hash, ear) <= nodes[q as int].z <= high_z(nodes, grid, hash, ear),
{
    let ia = nodes[nodes[ear as int].prev as int].i;
    let ib = nodes[ear as int].i;
    let ic = nodes[nodes[ear as int].next as int].i;
    let iq = nodes[q as int].i;
    let a = grid@[ia as int];
    let b = grid@[ib as int];
    let c = grid@[ic as int];
    let p = grid@[iq as int];
    assert(cross(a, b, c) < 0);
    lemma_covered_in_box(
        a.x as int,
        a.y as int,
        b.x as int,
        b.y as int,
        c.x as int,
        c.y as int,
        p.x as int,
        p.y as int,
    );
    let size = side(grid@, hash);
    let west = least_of(|p: usize| grid.x(p), ia, ib, ic);
    let south = least_of(|p: usize| grid.y(p), ia, ib, ic);
    let east = greatest_of(|p: usize| grid.x(p), ia, ib, ic);
    let north = greatest_of(|p: usize| grid.y(p), ia, ib, ic);
    let left = grid@[hash.min_x as int].x;
    let floor = grid@[hash.min_y as int].y;
    assert(grid@[west as int].x <= p.x);
    assert(grid@[south as int].y <= p.y);
    assert(grid@[east as int].x >= p.x);
    assert(grid@[north as int].y >= p.y);
    lemma_cell_ordered(grid@[west as int].x - left, p.x - left, size);
    lemma_cell_ordered(grid@[south as int].y - floor, p.y - floor, size);
    lemma_cell_ordered(p.x - left, grid@[east as int].x - left, size);
    lemma_cell_ordered(p.y - floor, grid@[north as int].y - floor, size);
    lemma_interleaved_ordered(
        grid.cell_x(hash, west),
        grid.cell_y(hash, south),
        grid.cell_x(hash, iq),
        grid.cell_y(hash, iq),
    );
    lemma_interleaved_ordered(
        grid.cell_x(hash, iq),
        grid.cell_y(hash, iq),
        grid.cell_x(hash, east),
        grid.cell_y(hash, north),
    );
}

/// The spatial index of the ring `c` is in order: the list `zs` holds the nodes of
/// the ring, and no others, in ascending order of their z-order values, and
/// the value of every node is that of its cell.
pub open spec fn faithful(
    nodes: Seq<Node>,
    grid: &Grid,
    hash: HashParameters,
    c: Seq<usize>,
    zs: Seq<usize>,
) -> bool {
    &&& is_chain(nodes, zs)
    &&& ascending(nodes, zs)
    &&& forall|x: usize| zs.contains(x) <==> c.contains(x)
    &&& forall|j: int|
        0 <= j < c.len() ==> (#[trigger] nodes[c[j] as int]).z == z_value(
            grid,
            hash,
            nodes[c[j] as int].i,
            nodes[c[j] as int].i,
        )
}

/// On the grid the spatial index is faithful: where it is in order for a ring of
/// three nodes or more, the test for an ear with the index agrees with the scan
/// of the ring.
pub proof fn lemma_faithful_agrees(
    nodes: Seq<Node>,
    grid: &Grid,
    hash: HashParameters,
    c: Seq<usize>,
    zs: Seq<usize>,
    k: int,
)
    requires
        is_cycle(nodes, c),
        c.len() >= 3,
        0 <= k < c.len(),
        faithful(nodes, grid, hash, c, zs),
    ensures
        ear_by_index(nodes, grid, hash, c[k]) == ear_by_scan(nodes, grid, c[k]),
{
    if convex(nodes, grid, c[k]) {
        assert forall|j: int| 0 <= j < c.len() && spoils(nodes, grid, c[k], #[trigger] c[j]) implies low_z(
            nodes,
            grid,
            hash,
            c[k],
        ) <= nodes[c[j] as int].z <= high_z(nodes, grid, hash, c[k]) by {
            lemma_in_window(nodes, grid, hash, c[k], c[j]);
        }
        lemma_index_agrees(nodes, grid, hash, c, zs, k);
    }
}

/// The index that threading a ring in z-order leaves is in order, where every
/// node has the value of its cell.
pub proof fn lemma_grid_index_agrees(
    nodes: Seq<Node>,
    grid: &Grid,
    hash: HashParameters,
    c: Seq<usize>,
    zs: Seq<usize>,
    k: int,
)
    requires
        is_cycle(nodes, c),
        c.len() >= 3,
        0 <= k < c.len(),
        indexes(nodes, c, zs),
        forall|j: int|
            0 <= j < c.len() ==> (#[trigger] nodes[c[j] as int]).z == z_value(
                grid,
                hash,
                nodes[c[j] as int].i,
                nodes[c[j] as int].i,
            ),
    ensures
        faithful(nodes, grid, hash, c, zs),
        ear_by_index(nodes, grid, hash, c[k]) == ear_by_scan(nodes, grid, c[k]),
{
    assert(ascending(nodes, zs)) by {
        reveal(ascending);
        assert forall|i: int, j: int| 0 <= i <= j < zs.len() implies (#[trigger] nodes[zs[i] as int]).z
            <= (#[trigger] nodes[zs[j] as int]).z by {
            if i < j {
                assert(goes_before(z_values(nodes), c, zs[i], zs[j]));
            }
        }
    }
    lemma_faithful_agrees(nodes, grid, hash, c, zs, k);
}

/// The two arenas hold the same rings of the same points: they differ in nothing
/// but z-order values and links.
pub open spec fn same_rings(a: Seq<Node>, b: Seq<Node>) -> bool {
    &&& a.len() == b.len()
    &&& forall|j: int| 0 <= j < a.len() ==> same_links(#[trigger] a[j], b[j])
}

/// The scan for an ear sees nothing of z-order values and links.
pub proof fn lemma_scan_same(a: Seq<Node>, b: Seq<Node>, grid: &Grid, c: Seq<usize>, k: int)
    requires
        same_rings(a, b),
        is_cycle(a, c),
        0 <= k < c.len(),
    ensures
        is_cycle(b, c),
        ear_by_scan(a, grid, c[k]) == ear_by_scan(b, grid, c[k]),
{
    assert forall|j: int| 0 <= j < c.len() implies same_links(
        a[#[trigger] c[j] as int],
        b[c[j] as int],
    ) by {}
    lemma_cycle_frame(a, b, c);
    let r = rotated(c, k);
    lemma_rotated_cycle(a, c, k);
    lemma_rotated_cycle(b, c, k);
    lemma_ring_unique(a, r, c[k]);
    lemma_ring_unique(b, r, c[k]);
    let n = c.len() as int;
    assert(a[r[0] as int].next == r[succ(0, n)]);
    assert(a[r[0] as int].prev == r[pred(0, n)]);
    assert(same_links(a[c[k] as int], b[c[k] as int]));
    assert(r[succ(0, n)] < a.len() && r[pred(0, n)] < a.len());
    assert(same_links(a[r[succ(0, n)] as int], b[r[succ(0, n)] as int]));
    assert(same_links(a[r[pred(0, n)] as int], b[r[pred(0, n)] as int]));
    assert forall|j: int| 0 <= j < n implies spoils(a, grid, c[k], #[trigger] r[j]) == spoils(
        b,
        grid,
        c[k],
        r[j],
    ) by {
        assert(a[r[j] as int].next == r[succ(j, n)]);
        assert(a[r[j] as int].prev == r[pred(j, n)]);
        assert(same_links(a[r[j] as int], b[r[j] as int]));
        assert(r[succ(j, n)] < a.len() && r[pred(j, n)] < a.len());
        assert(same_links(a[r[succ(j, n)] as int], b[r[succ(j, n)] as int]));
        assert(same_links(a[r[pred(j, n)] as int], b[r[pred(j, n)] as int]));
    }
    assert(convex(a, grid, c[k]) == convex(b, grid, c[k]));
    if ear_by_scan(a, grid, c[k]) {
        assert forall|j: int| 0 <= j < n && scanned(n, j) implies !spoils(
            b,
            grid,
            c[k],
            #[trigger] ring(b, c[k])[j],
        ) by {
            assert(!spoils(a, grid, c[k], ring(a, c[k])[j]));
        }
    }
    if ear_by_scan(b, grid, c[k]) {
        assert forall|j: int| 0 <= j < n && scanned(n, j) implies !spoils(
            a,
            grid,
            c[k],
            #[trigger] ring(a, c[k])[j],
        ) by {
            assert(!spoils(b, grid, c[k], ring(b, c[k])[j]));
        }
    }
}

/// The spatial index stays in order when a node leaves the ring.
pub proof fn lemma_faithful_removed(
    nodes: Seq<Node>,
    grid: &Grid,
    hash: HashParameters,
    c: Seq<usize>,
    zs: Seq<usize>,
    k: int,
)
    requires
        linked(nodes),
        is_cycle(nodes, c),
        c.len() >= 2,
        0 <= k < c.len(),
        faithful(nodes, grid, hash, c, zs),
    ensures
        faithful(removed(nodes, c[k] as int), grid, hash, c.remove(k), zs.remove(zs.index_of(c[k]))),
{
    let p = c[k];
    assert(c.contains(c[k]));
    let e = zs.index_of(p);
    let after = removed(nodes, p as int);
    let rest = c.remove(k);
    let left = zs.remove(e);
    lemma_removed_chain(nodes, zs, e);
    lemma_removed_fields(nodes, p as int);
    assert forall|j: int| 0 <= j < left.len() implies left[j] == zs[if j < e {
        j
    } else {
        j + 1
    }] by {}
    assert forall|j: int| 0 <= j < rest.len() implies rest[j] == c[if j < k {
        j
    } else {
        j + 1
    }] by {}
    assert(ascending(after, left)) by {
        reveal(ascending);
        assert forall|i: int, j: int| 0 <= i <= j < left.len() implies (#[trigger] after[left[i] as int]).z
            <= (#[trigger] after[left[j] as int]).z by {
            let ii = if i < e { i } else { i + 1 };
            let jj = if j < e { j } else { j + 1 };
            assert(left[i] == zs[ii] && left[j] == zs[jj]);
            assert(nodes[zs[ii] as int].z <= nodes[zs[jj] as int].z);
            assert(zs[ii] < nodes.len() && zs[jj] < nodes.len());
        }
    }
    assert forall|x: usize| left.contains(x) <==> rest.contains(x) by {
        if left.contains(x) {
            let j = left.index_of(x);
            let jj = if j < e { j } else { j + 1 };
            assert(left[j] == zs[jj]);
            assert(zs.contains(zs[jj]));
            assert(zs[jj] != zs[e]);
            let q = c.index_of(x);
            assert(q != k);
            let qq = if q < k { q } else { q - 1 };
            assert(rest[qq] == c[q]);
        }
        if rest.contains(x) {
            let q = rest.index_of(x);
            let qq = if q < k { q } else { q + 1 };
            assert(rest[q] == c[qq]);
            assert(c.contains(c[qq]));
            assert(c[qq] != c[k]);
            let j = zs.index_of(x);
            assert(j != e);
            let jj = if j < e { j } else { j - 1 };
            assert(left[jj] == zs[j]);
        }
    }
    assert forall|j: int| 0 <= j < rest.len() implies (#[trigger] after[rest[j] as int]).z == z_value(
        grid,
        hash,
        after[rest[j] as int].i,
        after[rest[j] as int].i,
    ) by {
        let jj = if j < k { j } else { j + 1 };
        assert(rest[j] == c[jj]);
        assert(nodes[c[jj] as int].z == z_value(
            grid,
            hash,
            nodes[c[jj] as int].i,
            nodes[c[jj] as int].i,
        ));
        assert(c[jj] < nodes.len());
    }
}

/// On the grid the walk in search of ears goes the same way with the spatial
/// index as without: from arenas that hold the same rings, where the index is
/// in order, it cuts the same triangles, ends alike, and leaves the same rings.
pub proof fn lemma_walk_agrees(
    with: Seq<Node>,
    without: Seq<Node>,
    grid: &Grid,
    hash: HashParameters,
    c: Seq<usize>,
    zs: Seq<usize>,
    k: int,
    stop: usize,
    out: Seq<[usize; 3]>,
    fuel: nat,
)
    requires
        linked(with),
        linked(without),
        same_rings(with, without),
        is_cycle(with, c),
        0 <= k < c.len(),
        faithful(with, grid, hash, c, zs),
    ensures
        walked(with, grid, Some(hash), out, c[k], stop, fuel).1 == walked(
            without,
            grid,
            None,
            out,
            c[k],
            stop,
            fuel,
        ).1,
        walked(with, grid, Some(hash), out, c[k], stop, fuel).2 == walked(
            without,
            grid,
            None,
            out,
            c[k],
            stop,
            fuel,
        ).2,
        same_rings(
            walked(with, grid, Some(hash), out, c[k], stop, fuel).0,
            walked(without, grid, None, out, c[k], stop, fuel).0,
        ),
    decreases fuel,
{
    let n = c.len() as int;
    let cur = c[k];
    let prev = with[cur as int].prev;
    let next = with[cur as int].next;
    assert(with[c[k] as int].next == c[succ(k, n)]);
    assert(with[c[k] as int].prev == c[pred(k, n)]);
    assert(same_links(with[cur as int], without[cur as int]));
    assert(same_links(with[prev as int], without[prev as int]));
    assert(same_links(with[next as int], without[next as int]));
    if prev != next && fuel > 0 {
        assert(n >= 3) by {
            if n == 2 {
                assert(succ(k, n) == pred(k, n));
            }
        }
        lemma_faithful_agrees(with, grid, hash, c, zs, k);
        lemma_scan_same(with, without, grid, c, k);
        assert(ear_at(with, grid, Some(hash), cur) == ear_at(without, grid, None, cur));
        if ear_at(with, grid, Some(hash), cur) {
            let rest = c.remove(k);
            lemma_removed_cycle(with, c, k);
            lemma_removed_fields(with, cur as int);
            lemma_removed_fields(without, cur as int);
            lemma_faithful_removed(with, grid, hash, c, zs, k);
            let after = removed(with, cur as int);
            let bare = removed(without, cur as int);
            assert(same_rings(after, bare)) by {
                assert forall|j: int| 0 <= j < after.len() implies same_links(
                    #[trigger] after[j],
                    bare[j],
                ) by {
                    assert(same_links(with[j], without[j]));
                }
            }
            let at = if succ(k, n) < k { succ(k, n) } else { succ(k, n) - 1 };
            assert(rest[at] == next);
            assert(after[rest[at] as int].next == rest[succ(at, n - 1)]);
            assert(same_links(after[next as int], bare[next as int]));
            assert(corner(with, cur) == corner(without, cur));
            lemma_walk_agrees(
                after,
                bare,
                grid,
                hash,
                rest,
                zs.remove(zs.index_of(cur)),
                succ(at, n - 1),
                after[next as int].next,
                out.push(corner(with, cur)),
                (fuel - 1) as nat,
            );
        } else if next != stop {
            lemma_walk_agrees(
                with,
                without,
                grid,
                hash,
                c,
                zs,
                succ(k, n),
                stop,
                out,
                (fuel - 1) as nat,
            );
        }
    }
}

/// Once a ring of three nodes or more has been indexed, the test for an ear with
/// the index agrees at each of its nodes with the scan of the ring, if no node
/// of the ring had a z-order value that was not that of its cell.
pub proof fn lemma_indexed_agrees(
    before: Seq<Node>,
    after: Seq<Node>,
    grid: &Grid,
    hash: HashParameters,
    start: usize,
    k: int,
)
    requires
        has_ring(before, start),
        ring(before, start).len() >= 3,
        0 <= k < ring(before, start).len(),
        curve_indexed(before, after, grid, hash, start),
        forall|j: int|
            0 <= j < ring(before, start).len() ==> {
                let node = #[trigger] before[ring(before, start)[j] as int];
                node.z == 0 || node.z == z_value(grid, hash, node.i, node.i)
            },
    ensures
        ear_by_index(after, grid, hash, ring(before, start)[k]) == ear_by_scan(
            after,
            grid,
            ring(before, start)[k],
        ),
{
    let c = ring(before, start);
    assert forall|j: int| 0 <= j < c.len() implies same_links(
        before[#[trigger] c[j] as int],
        after[c[j] as int],
    ) by {
        assert(after[c[j] as int].i == before[c[j] as int].i);
    }
    lemma_cycle_frame(before, after, c);
    let zs = choose|zs: Seq<usize>| indexes(after, c, zs);
    assert forall|j: int| 0 <= j < c.len() implies (#[trigger] after[c[j] as int]).z == z_value(
        grid,
        hash,
        after[c[j] as int].i,
        after[c[j] as int].i,
    ) by {
        assert(c.contains(c[j]));
        assert(after[c[j] as int].i == before[c[j] as int].i);
        let node = before[c[j] as int];
        assert(node.z == 0 || node.z == z_value(grid, hash, node.i, node.i));
        assert(c[j] as int as usize == c[j]);
    }
    lemma_grid_index_agrees(after, grid, hash, c, zs, k);
}

} // verus!
