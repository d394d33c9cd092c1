//! Predicates on the nodes of a ring: areas, crossings, and diagonals.

use vstd::prelude::*;
use crate::kernel::{Kernel, Sign};
use crate::ring::{has_ring, indexed, linked, ring, succ, Node, Rings};

verus! {

/// The arena is well linked and its nodes stand for points of the kernel.
pub open spec fn sound<K: Kernel>(nodes: Seq<Node>, kernel: &K) -> bool {
    linked(nodes) && indexed(nodes, kernel.count())
}

/// Which way the path through the nodes `p`, `q`, `r` turns at `q`.
pub open spec fn turn_at<K: Kernel>(nodes: Seq<Node>, kernel: &K, p: int, q: int, r: int) -> Sign {
    kernel.turn(nodes[p].i, nodes[q].i, nodes[r].i)
}

/// The nodes `p` and `q` lie at the same point.
pub open spec fn coincide<K: Kernel>(nodes: Seq<Node>, kernel: &K, p: int, q: int) -> bool {
    kernel.x(nodes[p].i) == kernel.x(nodes[q].i) && kernel.y(nodes[p].i) == kernel.y(nodes[q].i)
}

/// Node `p` lies in the triangle of the nodes `a`, `b`, `c`.
pub open spec fn within<K: Kernel>(
    nodes: Seq<Node>,
    kernel: &K,
    a: int,
    b: int,
    c: int,
    p: int,
) -> bool {
    kernel.inside(nodes[a].i, nodes[b].i, nodes[c].i, nodes[p].i)
}

/// The segments from `a1` to `b1` and from `a2` to `b2` cross, or are the same
/// segment.
pub open spec fn crossing<K: Kernel>(
    nodes: Seq<Node>,
    kernel: &K,
    a1: int,
    b1: int,
    a2: int,
    b2: int,
) -> bool {
    if (coincide(nodes, kernel, a1, b1) && coincide(nodes, kernel, a2, b2)) || (coincide(
        nodes,
        kernel,
        a1,
        b2,
    ) && coincide(nodes, kernel, a2, b1)) {
        true
    } else {
        &&& (turn_at(nodes, kernel, a1, b1, a2) == Sign::Positive) != (turn_at(
            nodes,
            kernel,
            a1,
            b1,
            b2,
        ) == Sign::Positive)
        &&& (turn_at(nodes, kernel, a2, b2, a1) == Sign::Positive) != (turn_at(
            nodes,
            kernel,
            a2,
            b2,
            b1,
        ) == Sign::Positive)
    }
}

/// The diagonal from `a` to `b` leaves `a` into the inside of the polygon.
pub open spec fn inward<K: Kernel>(nodes: Seq<Node>, kernel: &K, a: int, b: int) -> bool {
    let before = nodes[a].prev as int;
    let after = nodes[a].next as int;
    if turn_at(nodes, kernel, before, a, after) == Sign::Negative {
        turn_at(nodes, kernel, a, b, after) != Sign::Negative && turn_at(
            nodes,
            kernel,
            a,
            before,
            b,
        ) != Sign::Negative
    } else {
        turn_at(nodes, kernel, a, b, before) == Sign::Negative || turn_at(
            nodes,
            kernel,
            a,
            after,
            b,
        ) == Sign::Negative
    }
}

/// The edge that leaves position `k` of the ring `c` is crossed by the ray from
/// the midpoint of `a` and `b`.
pub open spec fn edge_on_mid_ray<K: Kernel>(
    nodes: Seq<Node>,
    kernel: &K,
    c: Seq<usize>,
    a: int,
    b: int,
    k: int,
) -> bool {
    kernel.mid_ray(
        nodes[a].i,
        nodes[b].i,
        nodes[c[k] as int].i,
        nodes[c[succ(k, c.len() as int)] as int].i,
    )
}

/// Of the first `upto` edges of the ring `c`, an odd number is crossed by the ray
/// from the midpoint of `a` and `b`.
pub open spec fn odd_crossings<K: Kernel>(
    nodes: Seq<Node>,
    kernel: &K,
    c: Seq<usize>,
    a: int,
    b: int,
    upto: int,
) -> bool
    decreases upto,
{
    if upto <= 0 {
        false
    } else {
        odd_crossings(nodes, kernel, c, a, b, upto - 1) != edge_on_mid_ray(
            nodes,
            kernel,
            c,
            a,
            b,
            upto - 1,
        )
    }
}

/// The midpoint of `a` and `b` lies inside the ring of `a`.
pub open spec fn midpoint_inside<K: Kernel>(nodes: Seq<Node>, kernel: &K, a: usize, b: usize) -> bool {
    odd_crossings(
        nodes,
        kernel,
        ring(nodes, a),
        a as int,
        b as int,
        ring(nodes, a).len() as int,
    )
}

/// The edge that leaves position `k` of the ring `c` has no end at the point of
/// `a` or of `b`, and crosses the segment from `a` to `b`.
pub open spec fn edge_crosses<K: Kernel>(
    nodes: Seq<Node>,
    kernel: &K,
    c: Seq<usize>,
    a: int,
    b: int,
    k: int,
) -> bool {
    let p = c[k] as int;
    let n = c[succ(k, c.len() as int)] as int;
    &&& nodes[p].i != nodes[a].i
    &&& nodes[n].i != nodes[a].i
    &&& nodes[p].i != nodes[b].i
    &&& nodes[n].i != nodes[b].i
    &&& crossing(nodes, kernel, p, n, a, b)
}

/// Some edge of the ring of `a` crosses the segment from `a` to `b`.
pub open spec fn crosses_ring<K: Kernel>(nodes: Seq<Node>, kernel: &K, a: usize, b: usize) -> bool {
    exists|k: int|
        0 <= k < ring(nodes, a).len() && edge_crosses(
            nodes,
            kernel,
            ring(nodes, a),
            a as int,
            b as int,
            k,
        )
}

/// The segment from `a` to `b` is a diagonal of the ring of `a`: its ends are not
/// neighbours, it crosses no edge, and it runs inside the polygon.
pub open spec fn valid_diagonal<K: Kernel>(nodes: Seq<Node>, kernel: &K, a: usize, b: usize) -> bool {
    &&& nodes[nodes[a as int].next as int].i != nodes[b as int].i
    &&& nodes[nodes[a as int].prev as int].i != nodes[b as int].i
    &&& !crosses_ring(nodes, kernel, a, b)
    &&& inward(nodes, kernel, a as int, b as int)
    &&& inward(nodes, kernel, b as int, a as int)
    &&& midpoint_inside(nodes, kernel, a, b)
}

/// Signed area of the triangle of the nodes `p`, `q`, `r`, by its sign.
pub fn area<K: Kernel>(rings: &Rings, kernel: &K, p: usize, q: usize, r: usize) -> (s: Sign)
    requires
        sound(rings@, kernel),
        p < rings@.len(),
        q < rings@.len(),
        r < rings@.len(),
    ensures
        s == turn_at(rings@, kernel, p as int, q as int, r as int),
{
    kernel.orient(rings.index(p), rings.index(q), rings.index(r))
}

/// Checks whether two nodes lie at the same point.
pub fn equals<K: Kernel>(rings: &Rings, kernel: &K, p: usize, q: usize) -> (r: bool)
    requires
        sound(rings@, kernel),
        p < rings@.len(),
        q < rings@.len(),
    ensures
        r == coincide(rings@, kernel, p as int, q as int),
{
    let pi = rings.index(p);
    let qi = rings.index(q);
    kernel.x_key(pi) == kernel.x_key(qi) && kernel.y_key(pi) == kernel.y_key(qi)
}

/// Checks whether node `p` lies in the triangle of the nodes `a`, `b`, `c`.
pub fn point_in_triangle<K: Kernel>(
    rings: &Rings,
    kernel: &K,
    a: usize,
    b: usize,
    c: usize,
    p: usize,
) -> (r: bool)
    requires
        sound(rings@, kernel),
        a < rings@.len(),
        b < rings@.len(),
        c < rings@.len(),
        p < rings@.len(),
    ensures
        r == within(rings@, kernel, a as int, b as int, c as int, p as int),
{
    kernel.in_triangle(rings.index(a), rings.index(b), rings.index(c), rings.index(p))
}

/// Checks whether two segments intersect.
pub fn intersects<K: Kernel>(
    rings: &Rings,
    kernel: &K,
    a1: usize,
    b1: usize,
    a2: usize,
    b2: usize,
) -> (r: bool)
    requires
        sound(rings@, kernel),
        a1 < rings@.len(),
        b1 < rings@.len(),
        a2 < rings@.len(),
        b2 < rings@.len(),
    ensures
        r == crossing(rings@, kernel, a1 as int, b1 as int, a2 as int, b2 as int),
{
    if (equals(rings, kernel, a1, b1) && equals(rings, kernel, a2, b2)) || (equals(
        rings,
        kernel,
        a1,
        b2,
    ) && equals(rings, kernel, a2, b1)) {
        true
    } else {
        let s1 = area(rings, kernel, a1, b1, a2) == Sign::Positive;
        let s2 = area(rings, kernel, a1, b1, b2) == Sign::Positive;
        let s3 = area(rings, kernel, a2, b2, a1) == Sign::Positive;
        let s4 = area(rings, kernel, a2, b2, b1) == Sign::Positive;
        s1 != s2 && s3 != s4
    }
}

/// Checks whether the diagonal from `a` to `b` is locally inside the polygon.
pub fn locally_inside<K: Kernel>(rings: &Rings, kernel: &K, a: usize, b: usize) -> (r: bool)
    requires
        sound(rings@, kernel),
        a < rings@.len(),
        b < rings@.len(),
    ensures
        r == inward(rings@, kernel, a as int, b as int),
{
    let before = rings.prev(a);
    let after = rings.next(a);
    if area(rings, kernel, before, a, after) == Sign::Negative {
        area(rings, kernel, a, b, after) != Sign::Negative && area(rings, kernel, a, before, b)
            != Sign::Negative
    } else {
        area(rings, kernel, a, b, before) == Sign::Negative || area(rings, kernel, a, after, b)
            == Sign::Negative
    }
}

/// Checks whether the middle of the diagonal from `a` to `b` is inside the ring
/// of `a`, by the parity of the edges that a ray from it crosses.
pub fn middle_inside<K: Kernel>(rings: &Rings, kernel: &K, a: usize, b: usize) -> (inside: bool)
    requires
        sound(rings@, kernel),
        has_ring(rings@, a),
        b < rings@.len(),
    ensures
        inside == midpoint_inside(rings@, kernel, a, b),
{
    let ghost c = ring(rings@, a);
    let ghost mut k: int = 0;
    let ai = rings.index(a);
    let bi = rings.index(b);
    let mut p = a;
    let mut inside = false;
    loop
        invariant_except_break
            0 <= k < c.len(),
            p == c[k],
            inside == odd_crossings(rings@, kernel, c, a as int, b as int, k),
        invariant
            sound(rings@, kernel),
            crate::ring::on_ring(rings@, c, a),
            ai == rings@[a as int].i,
            bi == rings@[b as int].i,
            b < rings@.len(),
        ensures
            inside == odd_crossings(rings@, kernel, c, a as int, b as int, c.len() as int),
        decreases c.len() - k,
    {
        let next = rings.next(p);
        assert(rings@[c[k] as int].next == c[succ(k, c.len() as int)]);
        if kernel.crosses_mid_ray(ai, bi, rings.index(p), rings.index(next)) {
            inside = !inside;
        }
        p = next;
        proof {
            k = k + 1;
        }
        if p == a {
            assert(k == c.len()) by {
                if k < c.len() {
                    assert(c[k] != c[0]);
                }
            }
            break ;
        }
    }
    inside
}

/// Checks whether the diagonal from `a` to `b` intersects an edge of the ring of
/// `a`. Edges that end at the point of `a` or of `b` do not count.
pub fn intersects_polygon<K: Kernel>(rings: &Rings, kernel: &K, a: usize, b: usize) -> (r: bool)
    requires
        sound(rings@, kernel),
        has_ring(rings@, a),
        b < rings@.len(),
    ensures
        r == crosses_ring(rings@, kernel, a, b),
{
    let ghost c = ring(rings@, a);
    let ghost mut k: int = 0;
    let ai = rings.index(a);
    let bi = rings.index(b);
    let mut p = a;
    loop
        invariant
            0 <= k < c.len(),
            p == c[k],
            forall|j: int| 0 <= j < k ==> !edge_crosses(rings@, kernel, c, a as int, b as int, j),
            sound(rings@, kernel),
            crate::ring::on_ring(rings@, c, a),
            c == ring(rings@, a),
            ai == rings@[a as int].i,
            bi == rings@[b as int].i,
            b < rings@.len(),
        decreases c.len() - k,
    {
        let next = rings.next(p);
        assert(rings@[c[k] as int].next == c[succ(k, c.len() as int)]);
        let pi = rings.index(p);
        let ni = rings.index(next);
        if pi != ai && ni != ai && pi != bi && ni != bi && intersects(rings, kernel, p, next, a, b) {
            assert(edge_crosses(rings@, kernel, c, a as int, b as int, k));
            return true;
        }
        p = next;
        proof {
            k = k + 1;
        }
        if p == a {
            assert(k == c.len()) by {
                if k < c.len() {
                    assert(c[k] != c[0]);
                }
            }
            return false;
        }
    }
}

/// Checks whether the diagonal between two nodes is valid, that is, lies in the
/// interior of the polygon.
pub fn is_valid_diagonal<K: Kernel>(rings: &Rings, kernel: &K, a: usize, b: usize) -> (r: bool)
    requires
        sound(rings@, kernel),
        has_ring(rings@, a),
        b < rings@.len(),
    ensures
        r == valid_diagonal(rings@, kernel, a, b),
{
    let bi = rings.index(b);
    rings.index(rings.next(a)) != bi && rings.index(rings.prev(a)) != bi && !intersects_polygon(
        rings,
        kernel,
        a,
        b,
    ) && locally_inside(rings, kernel, a, b) && locally_inside(rings, kernel, b, a)
        && middle_inside(rings, kernel, a, b)
}

} // verus!
