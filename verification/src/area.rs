//! Areas on the grid: what clipping an ear takes off the area of a ring.

use vstd::prelude::*;
use crate::clip::{entry_state, walked, walked_out, Pass, Walk};
use crate::curve::{curve_indexed, indexes};
use crate::ear::{ascending, convex, ear_at};
use crate::faithful::{faithful, lemma_walk_agrees, same_rings};
use crate::filter::{degenerate, filter_walk};
use crate::grid::{cross, shoelace, shoelace_term, Grid, Point};
use crate::holes::{holes_done, holes_trace};
use crate::kernel::{HashParameters, Kernel};
use crate::polygon::{
    boxed, clipped_from, closed, forward, handles, holes_listed, lemma_listed_same, listed,
    point_at, sorted_from, stably_sorted, triangulated,
};
use crate::ring::{
    bridged, cut_half, is_cycle, kept_half, lemma_bridged_fields, lemma_cycle_frame,
    lemma_removed_cycle, lemma_removed_fields, lemma_ring_unique, lemma_rotated_cycle, linked,
    merged_ring, pred, removed, ring, rotated, same_links, succ, unchained, Node,
};
use crate::sort::{goes_before, z_values};
use crate::triangle::corner;
use crate::zorder::z_value;

verus! {

/// The points of the nodes of the ring `c`, in the order of the ring.
pub open spec fn points_of(nodes: Seq<Node>, grid: &Grid, c: Seq<usize>) -> Seq<Point> {
    Seq::new(c.len(), |k: int| grid@[nodes[c[k] as int].i as int])
}

/// Twice the area of the ring `c`, by the shoelace sum of its points: positive
/// where the ring winds clockwise.
pub open spec fn ring_area(nodes: Seq<Node>, grid: &Grid, c: Seq<usize>) -> int {
    shoelace(points_of(nodes, grid, c), c.len() - 1)
}

/// Twice the area of the triangle of the three points, named by their indices: not
/// negative where the corner at the second is convex.
pub open spec fn triangle_area(grid: &Grid, t: [usize; 3]) -> int {
    -cross(grid@[t[0] as int], grid@[t[1] as int], grid@[t[2] as int])
}

/// Twice the area of the triangles from position `from` on, added up.
pub open spec fn cut_area(grid: &Grid, out: Seq<[usize; 3]>, from: int) -> int
    decreases out.len() - from,
{
    if from >= out.len() {
        0
    } else {
        triangle_area(grid, out[from]) + cut_area(grid, out, from + 1)
    }
}

/// The shoelace sum along the points from position `lo` to position `hi`.
pub open spec fn chain(ps: Seq<Point>, lo: int, hi: int) -> int
    decreases hi - lo,
{
    if hi <= lo {
        0
    } else {
        chain(ps, lo, hi - 1) + shoelace_term(ps[hi - 1], ps[hi])
    }
}

/// The shoelace sum of a ring is that of its closing edge and of the chain of its
/// points.
proof fn lemma_shoelace_chain(ps: Seq<Point>, upto: int)
    requires
        0 <= upto,
    ensures
        shoelace(ps, upto) == shoelace_term(ps.last(), ps[0]) + chain(ps, 0, upto),
    decreases upto,
{
    if upto > 0 {
        lemma_shoelace_chain(ps, upto - 1);
    }
}

/// A chain is the sum of its two parts.
proof fn lemma_chain_split(ps: Seq<Point>, lo: int, mid: int, hi: int)
    requires
        lo <= mid <= hi,
    ensures
        chain(ps, lo, hi) == chain(ps, lo, mid) + chain(ps, mid, hi),
    decreases hi - mid,
{
    if mid < hi {
        lemma_chain_split(ps, lo, mid, hi - 1);
    }
}

/// A chain sees nothing of a point taken out behind it.
proof fn lemma_chain_before(ps: Seq<Point>, k: int, lo: int, hi: int)
    requires
        0 <= lo <= hi < k < ps.len(),
    ensures
        chain(ps.remove(k), lo, hi) == chain(ps, lo, hi),
    decreases hi - lo,
{
    if lo < hi {
        lemma_chain_before(ps, k, lo, hi - 1);
        assert(ps.remove(k)[hi - 1] == ps[hi - 1]);
        assert(ps.remove(k)[hi] == ps[hi]);
    }
}

/// A chain moves down by one where a point is taken out before it.
proof fn lemma_chain_behind(ps: Seq<Point>, k: int, lo: int, hi: int)
    requires
        0 <= k <= lo <= hi < ps.len() - 1,
    ensures
        chain(ps.remove(k), lo, hi) == chain(ps, lo + 1, hi + 1),
    decreases hi - lo,
{
    if lo < hi {
        lemma_chain_behind(ps, k, lo, hi - 1);
        assert(ps.remove(k)[hi - 1] == ps[hi]);
        assert(ps.remove(k)[hi] == ps[hi + 1]);
    }
}

/// Twice the area of the triangle `a`, `b`, `d` by the shoelace sum.
pub open spec fn corner_area(a: Point, b: Point, d: Point) -> int {
    shoelace_term(a, b) + shoelace_term(b, d) + shoelace_term(d, a)
}

/// The shoelace sum of a triangle is its cross product, with the other sign.
proof fn lemma_corner_cross(a: Point, b: Point, d: Point)
    ensures
        corner_area(a, b, d) == -cross(a, b, d),
        shoelace_term(d, a) == -shoelace_term(a, d),
{
    let ax = a.x as int;
    let ay = a.y as int;
    let bx = b.x as int;
    let by = b.y as int;
    let dx = d.x as int;
    let dy = d.y as int;
    assert((ax - bx) * (ay + by) == ax * ay + ax * by - bx * ay - bx * by) by (nonlinear_arith);
    assert((bx - dx) * (by + dy) == bx * by + bx * dy - dx * by - dx * dy) by (nonlinear_arith);
    assert((dx - ax) * (dy + ay) == dx * dy + dx * ay - ax * dy - ax * ay) by (nonlinear_arith);
    assert((ax - dx) * (ay + dy) == ax * ay + ax * dy - dx * ay - dx * dy) by (nonlinear_arith);
    assert((by - ay) * (dx - bx) == by * dx - by * bx - ay * dx + ay * bx) by (nonlinear_arith);
    assert((bx - ax) * (dy - by) == bx * dy - bx * by - ax * dy + ax * by) by (nonlinear_arith);
    assert(bx * ay == ay * bx && dx * by == by * dx && dx * ay == ay * dx && bx * by == by * bx)
        by (nonlinear_arith);
}

/// Taking a point out of a ring of two points or more takes the area of the
/// triangle at that point off the shoelace sum.
pub proof fn lemma_shoelace_removed(ps: Seq<Point>, k: int)
    requires
        ps.len() >= 2,
        0 <= k < ps.len(),
    ensures
        shoelace(ps, ps.len() - 1) == shoelace(ps.remove(k), ps.len() - 2) + corner_area(
            ps[pred(k, ps.len() as int)],
            ps[k],
            ps[succ(k, ps.len() as int)],
        ),
{
    let n = ps.len() as int;
    let q = ps.remove(k);
    let a = ps[pred(k, n)];
    let b = ps[k];
    let d = ps[succ(k, n)];
    lemma_shoelace_chain(ps, n - 1);
    lemma_shoelace_chain(q, n - 2);
    lemma_corner_cross(a, b, d);
    if k == 0 {
        lemma_chain_behind(ps, 0, 0, n - 2);
        lemma_chain_split(ps, 0, 1, n - 1);
        assert(chain(ps, 0, 1) == shoelace_term(ps[0], ps[1])) by {
            assert(chain(ps, 0, 0) == 0);
        }
        assert(q.last() == ps[n - 1] || n == 2);
        assert(q[0] == ps[1]);
        if n == 2 {
            assert(q.last() == ps[1]);
            lemma_corner_cross(ps[1], ps[1], ps[1]);
            lemma_corner_cross(ps[1], ps[0], ps[1]);
        }
    } else if k == n - 1 {
        lemma_chain_before(ps, k, 0, n - 2);
        assert(chain(ps, 0, n - 1) == chain(ps, 0, n - 2) + shoelace_term(ps[n - 2], ps[n - 1]));
        assert(q.last() == ps[n - 2]);
        assert(q[0] == ps[0]);
        if n == 2 {
            lemma_corner_cross(ps[0], ps[0], ps[0]);
            lemma_corner_cross(ps[0], ps[1], ps[0]);
        }
    } else {
        lemma_chain_split(ps, 0, k - 1, n - 1);
        lemma_chain_split(ps, k - 1, k + 1, n - 1);
        assert(chain(ps, k - 1, k + 1) == shoelace_term(ps[k - 1], ps[k]) + shoelace_term(
            ps[k],
            ps[k + 1],
        )) by {
            assert(chain(ps, k - 1, k) == chain(ps, k - 1, k - 1) + shoelace_term(ps[k - 1], ps[k]));
            assert(chain(ps, k - 1, k - 1) == 0);
        }
        lemma_chain_split(q, 0, k - 1, n - 2);
        lemma_chain_split(q, k - 1, k, n - 2);
        lemma_chain_before(ps, k, 0, k - 1);
        lemma_chain_behind(ps, k, k, n - 2);
        assert(chain(q, k - 1, k) == shoelace_term(ps[k - 1], ps[k + 1])) by {
            assert(chain(q, k - 1, k - 1) == 0);
            assert(q[k - 1] == ps[k - 1]);
            assert(q[k] == ps[k + 1]);
        }
        assert(q.last() == ps[n - 1]);
        assert(q[0] == ps[0]);
    }
}

/// A ring of two nodes or fewer has no area.
proof fn lemma_no_area(ps: Seq<Point>)
    requires
        1 <= ps.len() <= 2,
    ensures
        shoelace(ps, ps.len() - 1) == 0,
{
    lemma_shoelace_chain(ps, ps.len() - 1);
    assert(chain(ps, 0, 0) == 0);
    if ps.len() == 2 {
        assert(chain(ps, 0, 1) == chain(ps, 0, 0) + shoelace_term(ps[0], ps[1]));
        assert(ps.last() == ps[1]);
        lemma_corner_cross(ps[0], ps[0], ps[1]);
    } else {
        assert(ps.last() == ps[0]);
        lemma_corner_cross(ps[0], ps[0], ps[0]);
    }
}

/// Cutting an ear off a ring of three nodes or more takes the area of its
/// triangle, which is not nothing, off the area of the ring.
proof fn lemma_ear_area(nodes: Seq<Node>, grid: &Grid, c: Seq<usize>, k: int)
    requires
        linked(nodes),
        is_cycle(nodes, c),
        c.len() >= 3,
        0 <= k < c.len(),
        convex(nodes, grid, c[k]),
    ensures
        triangle_area(grid, corner(nodes, c[k])) > 0,
        ring_area(nodes, grid, c) == ring_area(removed(nodes, c[k] as int), grid, c.remove(k))
            + triangle_area(grid, corner(nodes, c[k])),
{
    let n = c.len() as int;
    let cur = c[k];
    let after = removed(nodes, cur as int);
    let rest = c.remove(k);
    assert(nodes[c[k] as int].next == c[succ(k, n)]);
    assert(nodes[c[k] as int].prev == c[pred(k, n)]);
    lemma_removed_fields(nodes, cur as int);
    let ps = points_of(nodes, grid, c);
    assert(points_of(after, grid, rest) =~= ps.remove(k)) by {
        assert forall|j: int| 0 <= j < rest.len() implies points_of(after, grid, rest)[j]
            == ps.remove(k)[j] by {
            let jj = if j < k { j } else { j + 1 };
            assert(rest[j] == c[jj]);
            assert(c[jj] < nodes.len());
        }
    }
    lemma_shoelace_removed(ps, k);
    lemma_corner_cross(ps[pred(k, n)], ps[k], ps[succ(k, n)]);
}

/// The area that a walk keeps from the cut of an ear on, it keeps from before
/// the cut.
proof fn lemma_area_joined(
    nodes: Seq<Node>,
    after: Seq<Node>,
    grid: &Grid,
    c: Seq<usize>,
    rest: Seq<usize>,
    out: Seq<[usize; 3]>,
    t: [usize; 3],
    mid: Seq<Node>,
    cut: Seq<[usize; 3]>,
    end: Walk,
)
    requires
        area_kept(after, grid, rest, out.push(t), mid, cut, end),
        triangle_area(grid, t) > 0,
        ring_area(nodes, grid, c) == ring_area(after, grid, rest) + triangle_area(grid, t),
    ensures
        area_kept(nodes, grid, c, out, mid, cut, end),
{
    let grown = out.push(t);
    assert(cut.subrange(0, out.len() as int) =~= out) by {
        assert forall|j: int| 0 <= j < out.len() implies cut[j] == out[j] by {
            assert(cut.subrange(0, grown.len() as int)[j] == cut[j]);
            assert(grown[j] == out[j]);
        }
    }
    assert(cut[out.len() as int] == t) by {
        assert(cut.subrange(0, grown.len() as int)[out.len() as int] == cut[out.len() as int]);
        assert(grown[out.len() as int] == t);
    }
    assert(cut_area(grid, cut, out.len() as int) == triangle_area(grid, t) + cut_area(
        grid,
        cut,
        out.len() as int + 1,
    ));
    assert forall|j: int| out.len() <= j < cut.len() implies triangle_area(grid, #[trigger] cut[j])
        > 0 by {}
}

/// The area of the triangles grows by that of one more triangle in front.
proof fn lemma_cut_area_kept(grid: &Grid, a: Seq<[usize; 3]>, b: Seq<[usize; 3]>, from: int)
    requires
        0 <= from <= a.len() <= b.len(),
        b.subrange(0, a.len() as int) == a,
    ensures
        cut_area(grid, b, from) == cut_area(grid, a, from) + cut_area(grid, b, a.len() as int),
    decreases a.len() - from,
{
    if from < a.len() {
        lemma_cut_area_kept(grid, a, b, from + 1);
        assert(b.subrange(0, a.len() as int)[from] == b[from]);
    }
}

/// What the walk in search of ears has done to the area of the ring `c`, where
/// `mid` is the arena, `cut` are the triangles and `end` is the end that it
/// leaves: the triangles that it has added have convex corners, and the area
/// of the ring is theirs, together with that of the ring that is left where
/// the walk got stuck.
pub open spec fn area_kept(
    nodes: Seq<Node>,
    grid: &Grid,
    c: Seq<usize>,
    out: Seq<[usize; 3]>,
    mid: Seq<Node>,
    cut: Seq<[usize; 3]>,
    end: Walk,
) -> bool {
    &&& cut.len() >= out.len()
    &&& cut.subrange(0, out.len() as int) == out
    &&& forall|t: int| out.len() <= t < cut.len() ==> triangle_area(grid, #[trigger] cut[t]) > 0
    &&& match end {
        Walk::Done => ring_area(nodes, grid, c) == cut_area(grid, cut, out.len() as int),
        Walk::Stuck(e) => exists|left: Seq<usize>|
            {
                &&& #[trigger] is_cycle(mid, left)
                &&& left.contains(e)
                &&& ring_area(nodes, grid, c) == ring_area(mid, grid, left) + cut_area(
                    grid,
                    cut,
                    out.len() as int,
                )
            },
        Walk::Going => true,
    }
}

/// Clipping ears conserves area: the triangles that the walk in search of ears
/// cuts off a ring have, together with what is left of the ring, the area of
/// the ring; a ring that is clipped to its end has the area of its triangles.
pub proof fn lemma_area_clipped(
    nodes: Seq<Node>,
    grid: &Grid,
    hash: Option<HashParameters>,
    c: Seq<usize>,
    k: int,
    stop: usize,
    out: Seq<[usize; 3]>,
    fuel: nat,
)
    requires
        linked(nodes),
        is_cycle(nodes, c),
        0 <= k < c.len(),
    ensures
        area_kept(
            nodes,
            grid,
            c,
            out,
            walked(nodes, grid, hash, out, c[k], stop, fuel).0,
            walked(nodes, grid, hash, out, c[k], stop, fuel).1,
            walked(nodes, grid, hash, out, c[k], stop, fuel).2,
        ),
    decreases fuel,
{
    let n = c.len() as int;
    let cur = c[k];
    let prev = nodes[cur as int].prev;
    let next = nodes[cur as int].next;
    assert(nodes[c[k] as int].next == c[succ(k, n)]);
    assert(nodes[c[k] as int].prev == c[pred(k, n)]);
    assert(out.subrange(0, out.len() as int) =~= out);
    assert(cut_area(grid, out, out.len() as int) == 0);
    if prev == next {
        if n >= 3 {
            assert(c[succ(k, n)] != c[pred(k, n)]);
        }
        lemma_no_area(points_of(nodes, grid, c));
    } else if fuel > 0 {
        if ear_at(nodes, grid, hash, cur) {
            assert(n >= 3) by {
                if n == 2 {
                    assert(succ(k, n) == pred(k, n));
                }
            }
            let after = removed(nodes, cur as int);
            let rest = c.remove(k);
            let t = corner(nodes, cur);
            lemma_removed_cycle(nodes, c, k);
            lemma_removed_fields(nodes, cur as int);
            let at = if succ(k, n) < k { succ(k, n) } else { succ(k, n) - 1 };
            assert(rest[at] == next);
            assert(after[rest[at] as int].next == rest[succ(at, n - 1)]);
            let on = after[next as int].next;
            lemma_area_clipped(
                after,
                grid,
                hash,
                rest,
                succ(at, n - 1),
                on,
                out.push(t),
                (fuel - 1) as nat,
            );
            let far = walked(after, grid, hash, out.push(t), on, on, (fuel - 1) as nat);
            assert(convex(nodes, grid, cur));
            lemma_ear_area(nodes, grid, c, k);
            lemma_area_joined(nodes, after, grid, c, rest, out, t, far.0, far.1, far.2);
        } else if next != stop {
            lemma_area_clipped(nodes, grid, hash, c, succ(k, n), stop, out, (fuel - 1) as nat);
        } else {
            assert(c.contains(c[succ(k, n)]));
            assert(is_cycle(nodes, c) && c.contains(next) && ring_area(nodes, grid, c) == ring_area(
                nodes,
                grid,
                c,
            ) + cut_area(grid, out, out.len() as int));
        }
    }
}


/// Taking a degenerate node out of a ring of two nodes or more leaves the area
/// of the ring as it is.
proof fn lemma_degenerate_area(nodes: Seq<Node>, grid: &Grid, c: Seq<usize>, k: int)
    requires
        linked(nodes),
        is_cycle(nodes, c),
        c.len() >= 2,
        0 <= k < c.len(),
        degenerate(nodes, grid, c[k]),
    ensures
        ring_area(nodes, grid, c) == ring_area(removed(nodes, c[k] as int), grid, c.remove(k)),
{
    let n = c.len() as int;
    let cur = c[k];
    let after = removed(nodes, cur as int);
    let rest = c.remove(k);
    assert(nodes[c[k] as int].next == c[succ(k, n)]);
    assert(nodes[c[k] as int].prev == c[pred(k, n)]);
    lemma_removed_fields(nodes, cur as int);
    let ps = points_of(nodes, grid, c);
    assert(points_of(after, grid, rest) =~= ps.remove(k)) by {
        assert forall|j: int| 0 <= j < rest.len() implies points_of(after, grid, rest)[j]
            == ps.remove(k)[j] by {
            let jj = if j < k { j } else { j + 1 };
            assert(rest[j] == c[jj]);
            assert(c[jj] < nodes.len());
        }
    }
    lemma_shoelace_removed(ps, k);
    let a = ps[pred(k, n)];
    let b = ps[k];
    let d = ps[succ(k, n)];
    lemma_corner_cross(a, b, d);
    if b.x == d.x && b.y == d.y {
        assert(cross(a, b, d) == 0) by (nonlinear_arith)
            requires
                cross(a, b, d) == (b.y - a.y) * (d.x - b.x) - (b.x - a.x) * (d.y - b.y),
                b.x == d.x,
                b.y == d.y,
        ;
    }
}

/// The arena that a filtering walk leaves.
pub open spec fn walk_left(
    nodes: Seq<Node>,
    grid: &Grid,
    p: usize,
    end: usize,
    fuel: nat,
) -> Seq<Node> {
    match filter_walk(nodes, grid, p, end, fuel) {
        Some((after, _)) => after,
        None => nodes,
    }
}

/// Filtering conserves area: the ring that a filtering walk leaves has the area
/// of the ring that it started on.
pub proof fn lemma_area_filtered(
    nodes: Seq<Node>,
    grid: &Grid,
    c: Seq<usize>,
    k: int,
    end: usize,
    fuel: nat,
)
    requires
        linked(nodes),
        is_cycle(nodes, c),
        0 <= k < c.len(),
        filter_walk(nodes, grid, c[k], end, fuel) is Some,
    ensures
        exists|left: Seq<usize>|
            {
                &&& #[trigger] is_cycle(walk_left(nodes, grid, c[k], end, fuel), left)
                &&& ring_area(walk_left(nodes, grid, c[k], end, fuel), grid, left) == ring_area(
                    nodes,
                    grid,
                    c,
                )
                &&& forall|x: usize| left.contains(x) ==> c.contains(x)
            },
    decreases fuel,
{
    let n = c.len() as int;
    let p = c[k];
    let next = nodes[p as int].next;
    let back = nodes[p as int].prev;
    let result = walk_left(nodes, grid, c[k], end, fuel);
    assert(nodes[c[k] as int].next == c[succ(k, n)]);
    assert(nodes[c[k] as int].prev == c[pred(k, n)]);
    if fuel > 0 {
        if degenerate(nodes, grid, p) {
            if next == p {
                assert(result == nodes);
                assert(is_cycle(result, c) && ring_area(result, grid, c) == ring_area(
                    nodes,
                    grid,
                    c,
                ));
            } else {
                assert(n >= 2) by {
                    if n == 1 {
                        assert(succ(k, n) == k);
                    }
                }
                let after = removed(nodes, p as int);
                let rest = c.remove(k);
                lemma_removed_cycle(nodes, c, k);
                lemma_removed_fields(nodes, p as int);
                lemma_degenerate_area(nodes, grid, c, k);
                let at = if k > 0 { k - 1 } else { n - 2 };
                assert(rest[at] == back);
                assert forall|x: usize| rest.contains(x) implies c.contains(x) by {
                    let j = rest.index_of(x);
                    let jj = if j < k { j } else { j + 1 };
                    assert(rest[j] == c[jj]);
                }
                if after[back as int].next == back {
                    assert(result == after);
                    assert(is_cycle(result, rest) && ring_area(result, grid, rest) == ring_area(
                        nodes,
                        grid,
                        c,
                    ));
                } else {
                    lemma_area_filtered(after, grid, rest, at, back, (fuel - 1) as nat);
                    let far = walk_left(after, grid, back, back, (fuel - 1) as nat);
                    assert(result == far);
                    let left = choose|left: Seq<usize>|
                        {
                            &&& #[trigger] is_cycle(far, left)
                            &&& ring_area(far, grid, left) == ring_area(after, grid, rest)
                            &&& forall|x: usize| left.contains(x) ==> rest.contains(x)
                        };
                    assert(is_cycle(result, left) && ring_area(result, grid, left) == ring_area(
                        nodes,
                        grid,
                        c,
                    ));
                    assert forall|x: usize| left.contains(x) implies c.contains(x) by {
                        assert(rest.contains(x));
                    }
                }
            }
        } else if next == end {
            assert(result == nodes);
            assert(is_cycle(result, c) && ring_area(result, grid, c) == ring_area(nodes, grid, c));
        } else {
            lemma_area_filtered(nodes, grid, c, succ(k, n), end, (fuel - 1) as nat);
            let far = walk_left(nodes, grid, next, end, (fuel - 1) as nat);
            assert(result == far);
            let left = choose|left: Seq<usize>|
                {
                    &&& #[trigger] is_cycle(far, left)
                    &&& ring_area(far, grid, left) == ring_area(nodes, grid, c)
                    &&& forall|x: usize| left.contains(x) ==> c.contains(x)
                };
            assert(is_cycle(result, left));
        }
    }
}


/// A chain is that of any stretch of points that holds the same points.
proof fn lemma_chain_moved(ps: Seq<Point>, qs: Seq<Point>, lo: int, hi: int, off: int)
    requires
        lo <= hi,
        forall|j: int| lo <= j <= hi ==> #[trigger] ps[j + off] == qs[j],
    ensures
        chain(ps, lo + off, hi + off) == chain(qs, lo, hi),
    decreases hi - lo,
{
    if lo < hi {
        lemma_chain_moved(ps, qs, lo, hi - 1, off);
        assert(ps[(hi - 1) + off] == qs[hi - 1]);
        assert(ps[hi + off] == qs[hi]);
        assert(chain(ps, lo + off, hi + off) == chain(ps, lo + off, hi + off - 1) + shoelace_term(
            ps[hi + off - 1],
            ps[hi + off],
        ));
    }
}

/// A chain of one step is the term of that step.
proof fn lemma_chain_one(ps: Seq<Point>, lo: int)
    ensures
        chain(ps, lo, lo + 1) == shoelace_term(ps[lo], ps[lo + 1]),
        chain(ps, lo, lo) == 0,
{
    assert(chain(ps, lo, lo) == 0);
    assert(chain(ps, lo, lo + 1) == chain(ps, lo, lo + 1 - 1) + shoelace_term(
        ps[lo + 1 - 1],
        ps[lo + 1],
    ));
}

/// A bridge between two rings adds their areas: the ring that it leaves has the
/// area of the one and of the other together.
pub proof fn lemma_area_merged(nodes: Seq<Node>, grid: &Grid, c: Seq<usize>, d: Seq<usize>)
    requires
        linked(nodes),
        nodes.len() + 2 <= usize::MAX,
        is_cycle(nodes, c),
        is_cycle(nodes, d),
    ensures
        ring_area(
            bridged(nodes, c[0] as int, d[0] as int),
            grid,
            merged_ring(c, d, nodes.len() as usize),
        ) == ring_area(nodes, grid, c) + ring_area(nodes, grid, d),
{
    let a = c[0] as int;
    let b = d[0] as int;
    let m = nodes.len() as usize;
    let n1 = c.len() as int;
    let n2 = d.len() as int;
    let after = bridged(nodes, a, b);
    let r = merged_ring(c, d, m);
    let n = n1 + n2 + 2;
    lemma_bridged_fields(nodes, a, b);
    let cs = points_of(nodes, grid, c);
    let ds = points_of(nodes, grid, d);
    let ps = points_of(after, grid, r);
    assert(r.len() == n);
    assert(r[0] == c[0]);
    assert forall|j: int| 1 <= j <= n2 implies r[j] == d[j - 1] by {}
    assert(r[n2 + 1] == (m + 1) as usize);
    assert(r[n2 + 2] == m);
    assert forall|j: int| n2 + 3 <= j < n implies r[j] == c[j - n2 - 2] by {}
    assert(ps[0] == cs[0]);
    assert forall|j: int| 0 <= j <= n2 - 1 implies #[trigger] ps[j + 1] == ds[j] by {
        assert(r[j + 1] == d[j]);
        assert(d[j] < nodes.len());
    }
    assert(ps[n2 + 1] == ds[0]);
    assert(ps[n2 + 2] == cs[0]);
    assert forall|j: int| 0 <= j <= n1 - 1 implies #[trigger] ps[j + (n2 + 2)] == cs[j] by {
        if j > 0 {
            assert(r[j + n2 + 2] == c[j]);
            assert(c[j] < nodes.len());
        }
    }
    lemma_shoelace_chain(ps, n - 1);
    lemma_shoelace_chain(cs, n1 - 1);
    lemma_shoelace_chain(ds, n2 - 1);
    lemma_chain_split(ps, 0, 1, n - 1);
    lemma_chain_split(ps, 1, n2, n - 1);
    lemma_chain_split(ps, n2, n2 + 1, n - 1);
    lemma_chain_split(ps, n2 + 1, n2 + 2, n - 1);
    lemma_chain_one(ps, 0);
    lemma_chain_one(ps, n2);
    lemma_chain_one(ps, n2 + 1);
    lemma_chain_moved(ps, ds, 0, n2 - 1, 1);
    lemma_chain_moved(ps, cs, 0, n1 - 1, n2 + 2);
    assert(ps[n2] == ds[n2 - 1]) by {
        assert(ps[(n2 - 1) + 1] == ds[n2 - 1]);
    }
    assert(ps[1] == ds[0]) by {
        assert(ps[0int + 1] == ds[0]);
    }
    assert(ps.last() == cs.last()) by {
        assert(ps[(n1 - 1) + (n2 + 2)] == cs[n1 - 1]);
    }
    lemma_corner_cross(cs[0], cs[0], ds[0]);
}

/// A bridge between two nodes of a ring divides its area: the two rings that it
/// leaves have together the area of the ring.
pub proof fn lemma_area_split(nodes: Seq<Node>, grid: &Grid, c: Seq<usize>, j: int)
    requires
        linked(nodes),
        nodes.len() + 2 <= usize::MAX,
        is_cycle(nodes, c),
        2 <= j < c.len(),
    ensures
        ring_area(bridged(nodes, c[0] as int, c[j] as int), grid, kept_half(c, j)) + ring_area(
            bridged(nodes, c[0] as int, c[j] as int),
            grid,
            cut_half(c, j, nodes.len() as usize),
        ) == ring_area(nodes, grid, c),
{
    let a = c[0] as int;
    let b = c[j] as int;
    let m = nodes.len() as usize;
    let n = c.len() as int;
    let after = bridged(nodes, a, b);
    let kept = kept_half(c, j);
    let cut = cut_half(c, j, m);
    lemma_bridged_fields(nodes, a, b);
    let cs = points_of(nodes, grid, c);
    let ks = points_of(after, grid, kept);
    let us = points_of(after, grid, cut);
    let kn = n - j + 1;
    assert(kept.len() == kn);
    assert(cut.len() == j + 1);
    assert(kept[0] == c[0]);
    assert forall|i: int| 1 <= i < kn implies kept[i] == c[i + j - 1] by {}
    assert(cut[0] == m);
    assert(cut[j] == (m + 1) as usize);
    assert forall|i: int| 1 <= i < j implies cut[i] == c[i] by {}
    assert(ks[0] == cs[0]);
    assert forall|i: int| j <= i <= n - 1 implies #[trigger] ks[i + (1 - j)] == cs[i] by {
        assert(kept[i - j + 1] == c[i]);
        assert(c[i] < nodes.len());
    }
    assert forall|i: int| 0 <= i <= j implies #[trigger] us[i + 0] == cs[i] by {
        if 0 < i < j {
            assert(cut[i] == c[i]);
            assert(c[i] < nodes.len());
        }
    }
    lemma_shoelace_chain(cs, n - 1);
    lemma_shoelace_chain(ks, kn - 1);
    lemma_shoelace_chain(us, j);
    lemma_chain_split(cs, 0, j, n - 1);
    lemma_chain_split(ks, 0, 1, kn - 1);
    lemma_chain_one(ks, 0);
    lemma_chain_moved(ks, cs, j, n - 1, 1 - j);
    lemma_chain_moved(us, cs, 0, j, 0);
    assert(ks[1] == cs[j]) by {
        assert(ks[j + (1 - j)] == cs[j]);
    }
    assert(ks.last() == cs.last()) by {
        assert(ks[(n - 1) + (1 - j)] == cs[n - 1]);
    }
    assert(us.last() == cs[j]) by {
        assert(us[j + 0] == cs[j]);
    }
    assert(us[0] == cs[0]) by {
        assert(us[0int + 0] == cs[0]);
    }
    lemma_corner_cross(cs[0], cs[0], cs[j]);
}


/// The points `ps` in reverse.
pub open spec fn reversed(ps: Seq<Point>) -> Seq<Point> {
    Seq::new(ps.len(), |k: int| ps[ps.len() - 1 - k])
}

/// A chain is its first step and the chain behind it.
proof fn lemma_chain_first(ps: Seq<Point>, lo: int, hi: int)
    requires
        lo < hi,
    ensures
        chain(ps, lo, hi) == shoelace_term(ps[lo], ps[lo + 1]) + chain(ps, lo + 1, hi),
{
    lemma_chain_split(ps, lo, lo + 1, hi);
    lemma_chain_one(ps, lo);
}

/// The chain of the first `k` steps of the points in reverse is the chain of
/// their last `k` steps, with the other sign.
proof fn lemma_chain_reversed(ps: Seq<Point>, k: int)
    requires
        0 <= k < ps.len(),
    ensures
        chain(reversed(ps), 0, k) == -chain(ps, ps.len() - 1 - k, ps.len() - 1),
    decreases k,
{
    let n = ps.len() as int;
    let rs = reversed(ps);
    if k > 0 {
        lemma_chain_reversed(ps, k - 1);
        lemma_chain_first(ps, n - 1 - k, n - 1);
        assert(rs[k - 1] == ps[n - k]);
        assert(rs[k] == ps[n - 1 - k]);
        lemma_corner_cross(ps[n - 1 - k], ps[n - 1 - k], ps[n - k]);
    }
}

/// A ring walked the other way round has the same area with the other sign.
pub proof fn lemma_shoelace_reversed(ps: Seq<Point>)
    requires
        ps.len() >= 1,
    ensures
        shoelace(reversed(ps), ps.len() - 1) == -shoelace(ps, ps.len() - 1),
{
    let n = ps.len() as int;
    let rs = reversed(ps);
    lemma_shoelace_chain(ps, n - 1);
    lemma_shoelace_chain(rs, n - 1);
    lemma_chain_reversed(ps, n - 1);
    assert(rs.last() == ps[0]);
    assert(rs[0] == ps[n - 1]);
    lemma_corner_cross(ps[n - 1], ps[n - 1], ps[0]);
}

/// The size of a number.
pub open spec fn size(v: int) -> int {
    if v >= 0 {
        v
    } else {
        -v
    }
}

/// The ring that linking the `len` points from `first` on leaves.
pub open spec fn listed_ring(
    nodes: Seq<Node>,
    grid: &Grid,
    first: usize,
    len: usize,
    clockwise: bool,
) -> Seq<usize> {
    if closed(grid, first, len, clockwise) {
        handles(nodes.len() as int, len - 1)
    } else {
        handles(nodes.len() as int, len as int)
    }
}

/// Linking a ring gives it the winding asked for: the area of an outer ring is
/// that of its points, without its sign; the area of a hole that with the sign
/// of a loss.
pub proof fn lemma_area_listed(
    before: Seq<Node>,
    after: Seq<Node>,
    grid: &Grid,
    first: usize,
    len: usize,
    clockwise: bool,
    node: usize,
)
    requires
        listed(before, after, grid, first, len, clockwise, Some(node)),
        first + len <= grid@.len(),
        before.len() + len <= usize::MAX,
    ensures
        is_cycle(after, listed_ring(before, grid, first, len, clockwise)),
        ring_area(after, grid, listed_ring(before, grid, first, len, clockwise)) == (if clockwise {
            size(shoelace(grid@.subrange(first as int, first + len), len - 1))
        } else {
            -size(shoelace(grid@.subrange(first as int, first + len), len - 1))
        }),
{
    grid.lemma_count();
    let m = before.len() as int;
    let input = grid@.subrange(first as int, first + len);
    let c = listed_ring(before, grid, first, len, clockwise);
    let laid = if forward(grid, first, len, clockwise) { input } else { reversed(input) };
    // the points in the order in which they were laid out
    assert forall|k: int| 0 <= k < len implies #[trigger] laid[k] == grid@[point_at(
        grid,
        first,
        len,
        clockwise,
        k,
    )] by {}
    if !forward(grid, first, len, clockwise) {
        lemma_shoelace_reversed(input);
    }
    let shoe = shoelace(laid, len - 1);
    assert(shoe == (if clockwise {
        size(shoelace(input, len - 1))
    } else {
        -size(shoelace(input, len - 1))
    }));
    let ps = points_of(after, grid, c);
    if closed(grid, first, len, clockwise) {
        assert(ps =~= laid.remove(len - 1)) by {
            assert forall|k: int| 0 <= k < len - 1 implies ps[k] == laid.remove(len - 1)[k] by {
                assert(c[k] == (m + k) as usize);
                assert(after[m + k].i == point_at(grid, first, len, clockwise, k));
            }
        }
        lemma_shoelace_removed(laid, len - 1);
        let a = laid[len - 2];
        let b = laid[len - 1];
        let d = laid[0];
        lemma_corner_cross(a, b, d);
        let p0 = point_at(grid, first, len, clockwise, 0) as usize;
        let p1 = point_at(grid, first, len, clockwise, len - 1) as usize;
        assert(grid.x(p0) == grid.x(p1) && grid.y(p0) == grid.y(p1));
        assert(laid[0] == grid@[p0 as int]);
        assert(laid[len - 1] == grid@[p1 as int]);
        assert(b.x == d.x && b.y == d.y);
        assert(cross(a, b, d) == 0) by (nonlinear_arith)
            requires
                cross(a, b, d) == (b.y - a.y) * (d.x - b.x) - (b.x - a.x) * (d.y - b.y),
                b.x == d.x,
                b.y == d.y,
        ;
    } else {
        assert(ps =~= laid) by {
            assert forall|k: int| 0 <= k < len implies ps[k] == laid[k] by {
                assert(c[k] == (m + k) as usize);
                assert(after[m + k].i == point_at(grid, first, len, clockwise, k));
            }
        }
    }
}


/// A walk that has ended goes no further on more fuel.
pub proof fn lemma_walk_settled<K: Kernel>(
    nodes: Seq<Node>,
    kernel: &K,
    hash: Option<HashParameters>,
    out: Seq<[usize; 3]>,
    cur: usize,
    stop: usize,
    fuel: nat,
    more: nat,
)
    requires
        !(walked(nodes, kernel, hash, out, cur, stop, fuel).2 is Going),
    ensures
        walked(nodes, kernel, hash, out, cur, stop, fuel + more) == walked(
            nodes,
            kernel,
            hash,
            out,
            cur,
            stop,
            fuel,
        ),
    decreases fuel,
{
    let prev = nodes[cur as int].prev;
    let next = nodes[cur as int].next;
    if prev != next && fuel > 0 {
        assert(((fuel + more) - 1) as nat == (fuel - 1) as nat + more);
        if ear_at(nodes, kernel, hash, cur) {
            let after = removed(nodes, cur as int);
            let on = after[next as int].next;
            lemma_walk_settled(
                after,
                kernel,
                hash,
                out.push(corner(nodes, cur)),
                on,
                on,
                (fuel - 1) as nat,
                more,
            );
        } else if next != stop {
            lemma_walk_settled(nodes, kernel, hash, out, next, stop, (fuel - 1) as nat, more);
        }
    }
}

/// A ring linked into an empty arena leaves the arena well linked, with no
/// z-order value computed.
proof fn lemma_listed_linked(nodes: Seq<Node>, grid: &Grid, len: usize, head: usize)
    requires
        listed(Seq::empty(), nodes, grid, 0, len, true, Some(head)),
        len <= usize::MAX,
    ensures
        linked(nodes),
        len >= 1,
        nodes.len() == len,
        is_cycle(nodes, listed_ring(Seq::empty(), grid, 0, len, true)),
        listed_ring(Seq::empty(), grid, 0, len, true).contains(head),
        forall|j: int| 0 <= j < nodes.len() ==> (#[trigger] nodes[j]).z == 0,
{
    let c = listed_ring(Seq::empty(), grid, 0, len, true);
    let n = c.len() as int;
    assert forall|j: int| 0 <= j < nodes.len() implies {
        &&& (#[trigger] nodes[j]).prev < nodes.len()
        &&& nodes[j].next < nodes.len()
        &&& (nodes[j].prev_z matches Some(q) ==> q < nodes.len())
        &&& (nodes[j].next_z matches Some(q) ==> q < nodes.len())
        &&& nodes[j].z == 0
    } by {
        assert(unchained(nodes[0 + j]));
        assert(nodes[0 + j].z == 0);
        if j < n {
            assert(c[j] == j as usize);
            assert(nodes[c[j] as int].next == c[succ(j, n)]);
            assert(nodes[c[j] as int].prev == c[pred(j, n)]);
            assert(c[succ(j, n)] < nodes.len());
            assert(c[pred(j, n)] < nodes.len());
        }
    }
    if closed(grid, 0, len, true) {
        assert(c[0] == head);
    } else {
        assert(c[len - 1] == head);
    }
}

/// The index that threading a ring leaves is in order, where no node of the ring
/// had a z-order value before.
proof fn lemma_indexed_faithful(
    before: Seq<Node>,
    after: Seq<Node>,
    grid: &Grid,
    hash: HashParameters,
    c: Seq<usize>,
    start: usize,
)
    requires
        is_cycle(before, c),
        c.contains(start),
        curve_indexed(before, after, grid, hash, start),
        forall|j: int| 0 <= j < before.len() ==> (#[trigger] before[j]).z == 0,
    ensures
        linked(after),
        same_rings(after, before),
        is_cycle(after, c),
        exists|zs: Seq<usize>| faithful(after, grid, hash, c, zs),
{
    let k = c.index_of(start);
    let r = rotated(c, k);
    lemma_rotated_cycle(before, c, k);
    lemma_ring_unique(before, r, start);
    assert forall|j: int| 0 <= j < c.len() implies same_links(
        before[#[trigger] c[j] as int],
        after[c[j] as int],
    ) by {
        assert(after[c[j] as int].i == before[c[j] as int].i);
    }
    lemma_cycle_frame(before, after, c);
    assert(same_rings(after, before)) by {
        assert forall|j: int| 0 <= j < after.len() implies same_links(#[trigger] after[j], before[j]) by {
            assert(after[j].i == before[j].i);
        }
    }
    let zs = choose|zs: Seq<usize>| indexes(after, r, zs);
    assert(ascending(after, zs)) by {
        reveal(ascending);
        assert forall|i: int, j: int| 0 <= i <= j < zs.len() implies (#[trigger] after[zs[i] as int]).z
            <= (#[trigger] after[zs[j] as int]).z by {
            if i < j {
                assert(goes_before(z_values(after), r, zs[i], zs[j]));
            }
        }
    }
    assert forall|j: int| 0 <= j < c.len() implies (#[trigger] after[c[j] as int]).z == z_value(
        grid,
        hash,
        after[c[j] as int].i,
        after[c[j] as int].i,
    ) by {
        assert(c.contains(c[j]));
        assert(r.contains(c[j]));
        assert(after[c[j] as int].i == before[c[j] as int].i);
        assert(before[c[j] as int].z == 0);
        assert(c[j] as int as usize == c[j]);
    }
    assert(faithful(after, grid, hash, c, zs));
}

/// Area conservation for a polygon without holes: where the scan of its outer
/// ring clips the ring to its end, the triangles of the triangulation have
/// together the area of the polygon, whether the spatial index is used or not.
pub proof fn lemma_area_conserved(
    grid: &Grid,
    sizes: Seq<usize>,
    triangles: Seq<[usize; 3]>,
    nodes: Seq<Node>,
    head: usize,
    fuel: nat,
)
    requires
        sizes.len() == 1,
        sizes[0] == grid.count(),
        triangulated(grid, sizes, triangles),
        listed(Seq::empty(), nodes, grid, 0, sizes[0], true, Some(head)),
        walked(nodes, grid, None, Seq::empty(), head, head, fuel).2 is Done,
    ensures
        cut_area(grid, triangles, 0) == size(shoelace(grid@, grid@.len() - 1)),
{
    grid.lemma_count();
    let len = sizes[0];
    let none = Seq::<[usize; 3]>::empty();
    lemma_listed_linked(nodes, grid, len, head);
    let c = listed_ring(Seq::empty(), grid, 0, len, true);
    let k = c.index_of(head);
    // the arena that is clipped is the one that holds the outer ring
    let (states, queues, first, sorted, merged, last) = choose|
        states: Seq<Seq<Node>>,
        queues: Seq<Seq<usize>>,
        first: usize,
        sorted: Seq<usize>,
        merged: Seq<Node>,
        last: usize,
    |
        {
            &&& listed(Seq::empty(), states[0], grid, 0, sizes[0], true, Some(first))
            &&& #[trigger] holes_listed(grid, sizes, states, queues)
            &&& stably_sorted(states.last(), grid, queues.last(), sorted)
            &&& #[trigger] holes_done(states.last(), merged, grid, sorted, first, last)
            &&& clipped_from(merged, grid, last, grid.count(), triangles)
        };
    lemma_listed_same(nodes, states[0], grid, len, head, first);
    assert(states.last() == nodes);
    assert(queues.last().len() == 0);
    let from = choose|from: Seq<int>| sorted_from(nodes, grid, queues.last(), sorted, from);
    assert(sorted.len() == 0);
    let (trace, heads) = choose|trace: Seq<Seq<Node>>, heads: Seq<usize>|
        {
            &&& #[trigger] holes_trace(grid, sorted, trace, heads)
            &&& trace[0] == nodes
            &&& heads[0] == first
            &&& trace.last() == merged
            &&& heads.last() == last
        };
    assert(merged == nodes && last == head);
    // the walk that gave the triangles is the scan of the outer ring
    let (hash, base, after, spent) = choose|
        hash: Option<HashParameters>,
        base: Seq<Node>,
        after: Seq<Node>,
        spent: nat,
    |
        {
            &&& boxed(nodes, grid, head, grid.count(), hash)
            &&& entry_state(nodes, base, grid, hash, Pass::Clip, head)
            &&& #[trigger] walked_out(base, after, grid, hash, head, Pass::Clip, none, triangles, spent)
        };
    let scan = walked(nodes, grid, None, none, head, head, fuel);
    let done = walked(base, grid, hash, none, head, head, spent);
    assert(!(done.2 is Going));
    match hash {
        None => {
            assert(base == nodes);
        },
        Some(h) => {
            lemma_indexed_faithful(nodes, base, grid, h, c, head);
            let zs = choose|zs: Seq<usize>| faithful(base, grid, h, c, zs);
            lemma_walk_agrees(base, nodes, grid, h, c, zs, k, head, none, spent);
        },
    }
    let bare = walked(nodes, grid, None, none, head, head, spent);
    assert(bare.1 == done.1 && bare.2 == done.2);
    lemma_walk_settled(nodes, grid, None, none, head, head, fuel, spent);
    lemma_walk_settled(nodes, grid, None, none, head, head, spent, fuel);
    assert(fuel + spent == spent + fuel);
    assert(bare == scan);
    assert(triangles == scan.1);
    // the area of the outer ring is that of its triangles
    lemma_area_clipped(nodes, grid, None, c, k, head, none, fuel);
    lemma_area_listed(Seq::empty(), nodes, grid, 0, len, true, head);
    assert(grid@.subrange(0, 0 + len) =~= grid@);
}

} // verus!
