//! Hole elimination: the search for a bridge and the merging of rings.

use vstd::prelude::*;
use crate::filter::{
    filter_points, filtered, lemma_filtered_facts, lemma_other_ring, lemma_worked_facts,
    lemma_worked_none, lemma_worked_twice, lemma_worked_wider, worked,
};
use crate::geometry::{inward, locally_inside, sound};
use crate::kernel::{Kernel, Sign};
use crate::ring::{
    all_unchained, bridged, has_ring, is_cycle, lemma_bridged_fields, lemma_bridged_merge,
    lemma_ring_unique, lemma_rotated_cycle, merged_ring, on_ring, pred, ring, rotated, same_links,
    succ, unchained, Node, Rings,
};
use crate::zorder::{first_least, xs};

verus! {

/// Finds the leftmost node of the ring of `start`: the first one, from `start`
/// on, that no node of the ring lies left of.
pub fn get_leftmost<K: Kernel>(rings: &Rings, kernel: &K, start: usize) -> (leftmost: usize)
    requires
        sound(rings@, kernel),
        has_ring(rings@, start),
    ensures
        exists|k: int|
            first_least(xs(rings@, kernel, ring(rings@, start)), k) && leftmost == ring(
                rings@,
                start,
            )[k],
{
    let ghost c = ring(rings@, start);
    let ghost keys = xs(rings@, kernel, c);
    let ghost mut k: int = 0;
    let ghost mut w: int = 0;
    let mut p = start;
    let mut leftmost = start;
    let mut low = kernel.x_key(rings.index(start));
    loop
        invariant
            sound(rings@, kernel),
            on_ring(rings@, c, start),
            c == ring(rings@, start),
            keys == xs(rings@, kernel, c),
            0 <= k < c.len(),
            p == c[k],
            0 <= w < c.len(),
            w <= k,
            leftmost == c[w],
            low == keys[w],
            forall|j: int| 0 <= j < k ==> keys[w] <= #[trigger] keys[j],
            forall|j: int| 0 <= j < w ==> keys[w] < #[trigger] keys[j],
        decreases c.len() - k,
    {
        let x = kernel.x_key(rings.index(p));
        assert(x == keys[k]);
        if x < low {
            leftmost = p;
            low = x;
            proof {
                w = k;
            }
        }
        assert(rings@[c[k] as int].next == c[succ(k, c.len() as int)]);
        p = rings.next(p);
        proof {
            k = k + 1;
        }
        if p == start {
            assert(k == c.len()) by {
                if k < c.len() {
                    assert(c[k] != c[0]);
                }
            }
            assert(first_least(keys, w));
            return leftmost;
        }
    }
}

/// How far the search for the edge that a ray from the hole hits has come.
pub enum Search {
    /// The ray ends on this node of the outer ring.
    Found(usize),
    /// The nearest edge met so far, by the position of its first node.
    Best(Option<int>),
}

/// The point of node `p`.
pub open spec fn point(nodes: Seq<Node>, p: usize) -> usize {
    nodes[p as int].i
}

/// The edge from `p` to `n` reaches from the height of `h`, or above it, down to
/// the height of `h`, or below it, and is not level.
pub open spec fn straddles<K: Kernel>(
    nodes: Seq<Node>,
    kernel: &K,
    h: usize,
    p: usize,
    n: usize,
) -> bool {
    &&& kernel.y(point(nodes, h)) <= kernel.y(point(nodes, p))
    &&& kernel.y(point(nodes, h)) >= kernel.y(point(nodes, n))
    &&& kernel.y(point(nodes, n)) != kernel.y(point(nodes, p))
}

/// The edge that leaves position `k` of the ring `c` is hit by the ray that runs
/// left from `h`, and nearer to `h` than the edge at `best`.
pub open spec fn nearer<K: Kernel>(
    nodes: Seq<Node>,
    kernel: &K,
    c: Seq<usize>,
    h: usize,
    k: int,
    best: Option<int>,
) -> bool {
    let p = c[k];
    let n = c[succ(k, c.len() as int)];
    &&& straddles(nodes, kernel, h, p, n)
    &&& kernel.hit_side(point(nodes, h), point(nodes, p), point(nodes, n)) != Sign::Positive
    &&& (best matches Some(b) ==> kernel.hit_order(
        point(nodes, h),
        point(nodes, p),
        point(nodes, n),
        point(nodes, c[b]),
        point(nodes, c[succ(b, c.len() as int)]),
    ) == Sign::Positive)
}

/// The search after the edge at position `k` has been found nearer than any
/// before: it ends where the ray ends on a node of that edge.
pub open spec fn taken<K: Kernel>(
    nodes: Seq<Node>,
    kernel: &K,
    c: Seq<usize>,
    h: usize,
    k: int,
) -> Search {
    let p = c[k];
    let n = c[succ(k, c.len() as int)];
    let at_hole = kernel.hit_side(point(nodes, h), point(nodes, p), point(nodes, n)) == Sign::Zero;
    if at_hole && kernel.y(point(nodes, h)) == kernel.y(point(nodes, p)) {
        Search::Found(p)
    } else if at_hole && kernel.y(point(nodes, h)) == kernel.y(point(nodes, n)) {
        Search::Found(n)
    } else {
        Search::Best(Some(k))
    }
}

/// The search for the edge that the ray running left from `h` hits first, after
/// the first `upto` edges of the ring `c`.
pub open spec fn sought<K: Kernel>(
    nodes: Seq<Node>,
    kernel: &K,
    c: Seq<usize>,
    h: usize,
    upto: int,
) -> Search
    decreases upto,
{
    if upto <= 0 {
        Search::Best(None)
    } else {
        match sought(nodes, kernel, c, h, upto - 1) {
            Search::Found(x) => Search::Found(x),
            Search::Best(b) => if nearer(nodes, kernel, c, h, upto - 1, b) {
                taken(nodes, kernel, c, h, upto - 1)
            } else {
                Search::Best(b)
            },
        }
    }
}

/// The end of the edge at position `b` that lies farther left; the second end
/// where both lie alike.
pub open spec fn left_end<K: Kernel>(nodes: Seq<Node>, kernel: &K, c: Seq<usize>, b: int) -> usize {
    let p = c[b];
    let n = c[succ(b, c.len() as int)];
    if kernel.x(point(nodes, p)) < kernel.x(point(nodes, n)) {
        p
    } else {
        n
    }
}

/// Node `v` may take the bridge in place of the end `m0` of the edge from `p` to
/// `n` that the ray hit: it lies between `m0` and the hole from left to right,
/// and in the triangle between the hole, the point hit, and `m0`.
pub open spec fn eligible<K: Kernel>(
    nodes: Seq<Node>,
    kernel: &K,
    h: usize,
    p: usize,
    n: usize,
    m0: usize,
    v: usize,
) -> bool {
    &&& kernel.x(point(nodes, h)) > kernel.x(point(nodes, v))
    &&& kernel.x(point(nodes, v)) >= kernel.x(point(nodes, m0))
    &&& kernel.in_sector(
        point(nodes, h),
        point(nodes, p),
        point(nodes, n),
        point(nodes, m0),
        point(nodes, v),
    )
}

/// Node `v` makes a better bridge than `m`, the best so far, which `found` says
/// is itself a node that took the bridge: `v` is seen from the hole at a lesser
/// angle to the ray, or at the same angle and farther right. The first node
/// that is eligible is better than none.
pub open spec fn better<K: Kernel>(
    nodes: Seq<Node>,
    kernel: &K,
    h: usize,
    m: usize,
    found: bool,
    v: usize,
) -> bool {
    let order = kernel.slope_order(point(nodes, h), point(nodes, v), point(nodes, m));
    &&& (!found || order == Sign::Negative || (order == Sign::Zero && kernel.x(point(nodes, v))
        > kernel.x(point(nodes, m))))
    &&& inward(nodes, kernel, v as int, h as int)
}

/// The best bridge among the first `upto` nodes of the ring `d`, which starts at
/// the end `d[0]` of the edge from `p` to `n` that the ray hit, and whether a
/// node has taken the bridge from `d[0]`.
pub open spec fn refined<K: Kernel>(
    nodes: Seq<Node>,
    kernel: &K,
    d: Seq<usize>,
    h: usize,
    p: usize,
    n: usize,
    upto: int,
) -> (usize, bool)
    decreases upto,
{
    if upto <= 1 {
        (d[0], false)
    } else {
        let (m, found) = refined(nodes, kernel, d, h, p, n, upto - 1);
        let v = d[upto - 1];
        if eligible(nodes, kernel, h, p, n, d[0], v) && better(nodes, kernel, h, m, found, v) {
            (v, true)
        } else {
            (m, found)
        }
    }
}

/// The node of the ring `c` to which the hole, by its leftmost node `h`, is to be
/// bridged; none where the ray that runs left from `h` hits no edge of the ring.
///
/// The ray is cast first. Where it ends on a node, that node is the bridge. Else
/// the left end of the edge it hits is the bridge, unless a node of the ring
/// lies between that end and the hole: then the one seen at the least angle is.
pub open spec fn bridge<K: Kernel>(nodes: Seq<Node>, kernel: &K, c: Seq<usize>, h: usize) -> Option<
    usize,
> {
    match sought(nodes, kernel, c, h, c.len() as int) {
        Search::Found(x) => Some(x),
        Search::Best(None) => None,
        Search::Best(Some(b)) => {
            let p = c[b];
            let n = c[succ(b, c.len() as int)];
            let m0 = left_end(nodes, kernel, c, b);
            if kernel.hit_side(point(nodes, h), point(nodes, p), point(nodes, n)) == Sign::Zero {
                Some(nodes[m0 as int].prev)
            } else {
                Some(
                    refined(
                        nodes,
                        kernel,
                        ring(nodes, m0),
                        h,
                        p,
                        n,
                        c.len() as int,
                    ).0,
                )
            }
        },
    }
}

/// The edge of the outer ring that the ray from the hole hits first, or the node
/// on which it ends.
enum Hit {
    Node(usize),
    Edge(usize, usize),
    Miss,
}

/// Casts a ray from the node `hole` to the left and finds the edge of the ring of
/// `outer_node` that it hits nearest to the hole.
fn cast_ray<K: Kernel>(rings: &Rings, kernel: &K, hole: usize, outer_node: usize) -> (r: (
    Hit,
    Ghost<int>,
))
    requires
        sound(rings@, kernel),
        has_ring(rings@, outer_node),
        hole < rings@.len(),
    ensures
        ({
            let c = ring(rings@, outer_node);
            match sought(rings@, kernel, c, hole, c.len() as int) {
                Search::Found(x) => r.0 == Hit::Node(x) && c.contains(x),
                Search::Best(None) => r.0 == Hit::Miss,
                Search::Best(Some(b)) => 0 <= b < c.len() && r.1@ == b && r.0 == Hit::Edge(
                    c[b],
                    c[succ(b, c.len() as int)],
                ) && kernel.y(point(rings@, c[b])) != kernel.y(
                    point(rings@, c[succ(b, c.len() as int)]),
                ),
            }
        }),
{
    let ghost c = ring(rings@, outer_node);
    let ghost len = c.len() as int;
    let ghost mut k: int = 0;
    let ghost mut at: Option<int> = None;
    let h = rings.index(hole);
    let hy = kernel.y_key(h);
    let mut p = outer_node;
    let mut best: Option<(usize, usize)> = None;
    loop
        invariant
            sound(rings@, kernel),
            on_ring(rings@, c, outer_node),
            c == ring(rings@, outer_node),
            len == c.len(),
            hole < rings@.len(),
            h == point(rings@, hole),
            hy == kernel.y(h),
            0 <= k < len,
            p == c[k],
            sought(rings@, kernel, c, hole, k) == Search::Best(at),
            at matches Some(b) ==> 0 <= b < k && best == Some((c[b], c[succ(b, len)])) && kernel.y(
                point(rings@, c[b]),
            ) != kernel.y(point(rings@, c[succ(b, len)])),
            at is None ==> best is None,
        decreases len - k,
    {
        let next = rings.next(p);
        assert(rings@[c[k] as int].next == c[succ(k, len)]);
        assert(c[succ(k, len)] < rings@.len());
        let pi = rings.index(p);
        let ni = rings.index(next);
        let py = kernel.y_key(pi);
        let ny = kernel.y_key(ni);
        if hy <= py && hy >= ny && ny != py {
            let side = kernel.ray_hit_side(h, pi, ni);
            let beyond = match best {
                None => true,
                Some((bp, bn)) => kernel.ray_hit_order(
                    h,
                    pi,
                    ni,
                    rings.index(bp),
                    rings.index(bn),
                ) == Sign::Positive,
            };
            if side != Sign::Positive && beyond {
                assert(nearer(rings@, kernel, c, hole, k, at));
                if side == Sign::Zero {
                    if hy == py {
                        assert(sought(rings@, kernel, c, hole, k + 1) == Search::Found(p));
                        proof {
                            lemma_sought_found(rings@, kernel, c, hole, k + 1, len);
                            assert(c.contains(c[k]));
                        }
                        return (Hit::Node(p), Ghost(k));
                    }
                    if hy == ny {
                        assert(sought(rings@, kernel, c, hole, k + 1) == Search::Found(next));
                        proof {
                            lemma_sought_found(rings@, kernel, c, hole, k + 1, len);
                            assert(c.contains(c[succ(k, len)]));
                        }
                        return (Hit::Node(next), Ghost(k));
                    }
                }
                best = Some((p, next));
                proof {
                    at = Some(k);
                }
            } else {
                assert(!nearer(rings@, kernel, c, hole, k, at));
            }
        } else {
            assert(!nearer(rings@, kernel, c, hole, k, at));
        }
        p = next;
        proof {
            k = k + 1;
        }
        if p == outer_node {
            assert(k == len) by {
                if k < len {
                    assert(c[k] != c[0]);
                }
            }
            return match best {
                None => (Hit::Miss, Ghost(0)),
                Some((bp, bn)) => (Hit::Edge(bp, bn), Ghost(at.unwrap())),
            };
        }
    }
}

/// A search that has ended on a node stays there.
proof fn lemma_sought_found<K: Kernel>(
    nodes: Seq<Node>,
    kernel: &K,
    c: Seq<usize>,
    h: usize,
    k: int,
    upto: int,
)
    requires
        sought(nodes, kernel, c, h, k) is Found,
        k <= upto,
    ensures
        sought(nodes, kernel, c, h, upto) == sought(nodes, kernel, c, h, k),
    decreases upto - k,
{
    if k < upto {
        lemma_sought_found(nodes, kernel, c, h, k, upto - 1);
    }
}

/// David Eberly's algorithm for finding a bridge between a hole and the outer
/// polygon: the node of the ring of `outer_node` to link the node `hole` with.
pub fn find_hole_bridge<K: Kernel>(
    rings: &Rings,
    kernel: &K,
    hole: usize,
    outer_node: usize,
) -> (m: Option<usize>)
    requires
        sound(rings@, kernel),
        has_ring(rings@, outer_node),
        hole < rings@.len(),
    ensures
        m == bridge(rings@, kernel, ring(rings@, outer_node), hole),
        m matches Some(x) ==> ring(rings@, outer_node).contains(x),
{
    let ghost c = ring(rings@, outer_node);
    let ghost len = c.len() as int;
    let (hit, Ghost(b)) = cast_ray(rings, kernel, hole, outer_node);
    let (bp, bn) = match hit {
        Hit::Miss => {
            return None;
        },
        Hit::Node(x) => {
            return Some(x);
        },
        Hit::Edge(bp, bn) => (bp, bn),
    };
    assert(rings@[c[b] as int].next == c[succ(b, len)]);
    assert(c[succ(b, len)] < rings@.len());
    let h = rings.index(hole);
    let hx = kernel.x_key(h);
    let pi = rings.index(bp);
    let ni = rings.index(bn);
    let stop = if kernel.x_key(pi) < kernel.x_key(ni) {
        bp
    } else {
        bn
    };
    let ghost home = if stop == bp { b } else { succ(b, len) };
    let ghost d = rotated(c, home);
    proof {
        lemma_rotated_cycle(rings@, c, home);
        lemma_ring_unique(rings@, d, stop);
        assert(rings@[d[0] as int].prev == d[pred(0, len)]);
        assert(c.contains(d[pred(0, len)])) by {
            assert(d.contains(d[pred(0, len)]));
        }
    }
    if kernel.ray_hit_side(h, pi, ni) == Sign::Zero {
        return Some(rings.prev(stop));
    }
    let mi = rings.index(stop);
    let mx = kernel.x_key(mi);
    let mut m = stop;
    let mut found = false;
    let mut p = rings.next(stop);
    let ghost mut k: int = 1;
    assert(rings@[d[0] as int].next == d[succ(0, len)]);
    while p != stop
        invariant
            sound(rings@, kernel),
            is_cycle(rings@, d),
            len == d.len(),
            d[0] == stop,
            hole < rings@.len(),
            h == point(rings@, hole),
            hx == kernel.x(h),
            pi == point(rings@, bp),
            ni == point(rings@, bn),
            mi == point(rings@, stop),
            mx == kernel.x(mi),
            bp < rings@.len(),
            bn < rings@.len(),
            kernel.y(pi) != kernel.y(ni),
            1 <= k <= len,
            p == d[succ(k - 1, len)],
            (m, found) == refined(rings@, kernel, d, hole, bp, bn, k),
            d.contains(m),
            found ==> kernel.x(point(rings@, m)) < hx,
        decreases len - k,
    {
        assert(k < len) by {
            if k == len {
                assert(succ(k - 1, len) == 0);
            }
        }
        assert(p == d[k]);
        let vi = rings.index(p);
        let vx = kernel.x_key(vi);
        if hx > vx && vx >= mx && kernel.in_bridge_sector(h, pi, ni, mi, vi) {
            assert(eligible(rings@, kernel, hole, bp, bn, d[0], p));
            let closer = if found {
                let order = kernel.tangent_order(h, vi, rings.index(m));
                order == Sign::Negative || (order == Sign::Zero && vx > kernel.x_key(
                    rings.index(m),
                ))
            } else {
                true
            };
            if closer && locally_inside(rings, kernel, p, hole) {
                assert(better(rings@, kernel, hole, m, found, p));
                m = p;
                found = true;
                assert(d.contains(d[k]));
            } else {
                assert(!better(rings@, kernel, hole, m, found, p));
            }
        } else {
            assert(!eligible(rings@, kernel, hole, bp, bn, d[0], p));
        }
        assert(rings@[d[k] as int].next == d[succ(k, len)]);
        p = rings.next(p);
        proof {
            k = k + 1;
        }
    }
    proof {
        assert(k == len) by {
            if k < len {
                assert(d[k] != d[0]);
            }
        }
    }
    Some(m)
}


/// What eliminating the hole of the node `hole` leaves, where `r` is the node
/// returned: nothing has changed where the hole finds no bridge; else the hole
/// has been bridged to the outer ring, and the ring filtered from the copy of
/// `hole` on.
pub open spec fn holed<K: Kernel>(
    before: Seq<Node>,
    after: Seq<Node>,
    kernel: &K,
    hole: usize,
    outer_node: usize,
    r: usize,
) -> bool {
    match bridge(before, kernel, ring(before, outer_node), hole) {
        None => after == before && r == outer_node,
        Some(m) => {
            &&& crate::ring::linked(before)
            &&& m < before.len()
            &&& hole < before.len()
            &&& before.len() + 2 <= usize::MAX
            &&& filtered(
                bridged(before, m as int, hole as int),
                after,
                kernel,
                (before.len() + 1) as usize,
                before.len() as usize,
                r,
            )
        },
    }
}

/// The two rings have no node in common.
pub open spec fn apart(c: Seq<usize>, d: Seq<usize>) -> bool {
    forall|x: usize| #[trigger] c.contains(x) ==> !d.contains(x)
}

/// What a bridge between two rings leaves.
proof fn lemma_merge_state<K: Kernel>(nodes: Seq<Node>, kernel: &K, c: Seq<usize>, d: Seq<usize>)
    requires
        sound(nodes, kernel),
        is_cycle(nodes, c),
        is_cycle(nodes, d),
        apart(c, d),
        nodes.len() + 2 <= usize::MAX,
    ensures
        ({
            let after = bridged(nodes, c[0] as int, d[0] as int);
            let m = nodes.len() as usize;
            let r = merged_ring(c, d, m);
            &&& sound(after, kernel)
            &&& worked(nodes, after, kernel, c + d)
            &&& (all_unchained(nodes) ==> all_unchained(after))
            &&& after.len() == nodes.len() + 2
            &&& is_cycle(after, r)
            &&& r.len() == c.len() + d.len() + 2
            &&& r.contains((m + 1) as usize)
            &&& r.contains(m)
            &&& after[m + 1].next == m
            &&& (forall|x: usize| #[trigger] r.contains(x) ==> c.contains(x) || d.contains(x) || x >= m)
        }),
{
    reveal(worked);
    let a = c[0] as int;
    let b = d[0] as int;
    let after = bridged(nodes, a, b);
    let m = nodes.len() as usize;
    let r = merged_ring(c, d, m);
    let n1 = c.len() as int;
    let n2 = d.len() as int;
    assert forall|j: int, k: int| 0 <= j < c.len() && 0 <= k < d.len() implies c[j] != d[k] by {
        assert(c.contains(c[j]));
        assert(d.contains(d[k]));
    }
    lemma_bridged_fields(nodes, a, b);
    lemma_bridged_merge(nodes, c, d);
    assert(nodes[c[0] as int].next == c[succ(0, n1)]);
    assert(nodes[d[0] as int].prev == d[pred(0, n2)]);
    assert(r[0] == c[0]);
    assert forall|k: int| 1 <= k <= n2 implies r[k] == d[k - 1] by {}
    assert(r[n2 + 1] == (m + 1) as usize);
    assert(r[n2 + 2] == m);
    assert forall|k: int| n2 + 3 <= k < r.len() implies r[k] == c[k - n2 - 2] by {}
    assert forall|x: usize| #[trigger] r.contains(x) implies c.contains(x) || d.contains(x) || x
        >= m by {
        let k = r.index_of(x);
        if k == 0 {
            assert(c.contains(c[0]));
        } else if k <= n2 {
            assert(r[k] == d[k - 1]);
            assert(d.contains(d[k - 1]));
        } else if k >= n2 + 3 {
            assert(r[k] == c[k - n2 - 2]);
            assert(c.contains(c[k - n2 - 2]));
        }
    }
    assert((c + d).contains(c[0])) by {
        assert((c + d)[0] == c[0]);
    }
    assert((c + d).contains(d[0])) by {
        assert((c + d)[n1] == d[0]);
    }
    assert((c + d).contains(c[succ(0, n1)])) by {
        assert((c + d)[succ(0, n1)] == c[succ(0, n1)]);
    }
    assert((c + d).contains(d[pred(0, n2)])) by {
        assert((c + d)[n1 + pred(0, n2)] == d[pred(0, n2)]);
    }
    assert forall|i: int| 0 <= i < nodes.len() && !(c + d).contains(i as usize) implies same_links(
        nodes[i],
        #[trigger] after[i],
    ) by {
        assert(i != a && i != b);
        assert(i != nodes[a].next);
        assert(i != nodes[b].prev);
    }
    assert forall|i: int| 0 <= i < after.len() implies (#[trigger] after[i]).i < kernel.count() by {
        if i < nodes.len() {
            assert(nodes[i].i < kernel.count());
        } else {
            assert(nodes[a].i < kernel.count());
            assert(nodes[b].i < kernel.count());
        }
    }
    if all_unchained(nodes) {
        assert forall|i: int| 0 <= i < after.len() implies unchained(#[trigger] after[i]) by {
            if i < nodes.len() {
                assert(unchained(nodes[i]));
            }
        }
    }
}

/// What eliminating a hole leaves for the work that follows it: the work was on
/// the two rings alone, at most two nodes were made, and the ring of `r` is made
/// of nodes of the two rings and of new ones.
pub proof fn lemma_holed_facts<K: Kernel>(
    before: Seq<Node>,
    after: Seq<Node>,
    kernel: &K,
    hole: usize,
    outer_node: usize,
    r: usize,
)
    requires
        sound(before, kernel),
        has_ring(before, outer_node),
        has_ring(before, hole),
        apart(ring(before, outer_node), ring(before, hole)),
        holed(before, after, kernel, hole, outer_node, r),
        bridge(before, kernel, ring(before, outer_node), hole) matches Some(m) ==> ring(
            before,
            outer_node,
        ).contains(m) && before.len() + 2 <= usize::MAX,
    ensures
        sound(after, kernel),
        has_ring(after, r),
        worked(before, after, kernel, ring(before, outer_node) + ring(before, hole)),
        after.len() == before.len() || after.len() == before.len() + 2,
        all_unchained(before) ==> all_unchained(after),
        forall|x: usize| #[trigger]
            ring(after, r).contains(x) ==> ring(before, outer_node).contains(x) || ring(
                before,
                hole,
            ).contains(x) || x >= before.len(),
{
    let c = ring(before, outer_node);
    let d = ring(before, hole);
    match bridge(before, kernel, c, hole) {
        None => {
            lemma_worked_none(before, kernel, c + d);
        },
        Some(m) => {
            let k = c.index_of(m);
            let turned = rotated(c, k);
            lemma_rotated_cycle(before, c, k);
            assert(apart(turned, d)) by {
                assert forall|x: usize| #[trigger] turned.contains(x) implies !d.contains(x) by {
                    assert(c.contains(x));
                }
            }
            lemma_merge_state(before, kernel, turned, d);
            let mid = bridged(before, m as int, hole as int);
            let len = before.len() as usize;
            let joined = merged_ring(turned, d, len);
            let b2 = (len + 1) as usize;
            let at = joined.index_of(b2);
            lemma_rotated_cycle(mid, joined, at);
            lemma_ring_unique(mid, rotated(joined, at), b2);
            lemma_filtered_facts(mid, after, kernel, b2, len, r);
            assert forall|x: usize| #[trigger] (turned + d).contains(x) implies (c + d).contains(
                x,
            ) by {
                let q = (turned + d).index_of(x);
                if q < turned.len() {
                    assert(turned.contains(turned[q]));
                    assert(c.contains(x));
                    let qq = c.index_of(x);
                    assert((c + d)[qq] == x);
                } else {
                    assert((c + d)[c.len() + (q - turned.len())] == x);
                }
            }
            lemma_worked_wider(before, mid, kernel, turned + d, c + d);
            assert forall|x: usize| #[trigger] ring(mid, b2).contains(x) implies (c + d).contains(x)
                || x >= before.len() by {
                assert(joined.contains(x));
                if turned.contains(x) {
                    assert(c.contains(x));
                    let qq = c.index_of(x);
                    assert((c + d)[qq] == x);
                } else if d.contains(x) {
                    let qq = d.index_of(x);
                    assert((c + d)[c.len() + qq] == x);
                }
            }
            lemma_worked_twice(before, mid, after, kernel, c + d, ring(mid, b2));
            assert forall|x: usize| #[trigger] ring(after, r).contains(x) implies c.contains(x)
                || d.contains(x) || x >= before.len() by {
                assert(ring(mid, b2).contains(x));
                assert(joined.contains(x));
                if turned.contains(x) {
                    assert(c.contains(x));
                }
            }
        },
    }
}

/// Finds a bridge between the node `hole`, the leftmost of a hole, and the ring
/// of `outer_node`, links the two rings by it, and filters the ring around the
/// bridge. Returns a node of the ring that is left; where the hole finds no
/// bridge, nothing is done and `outer_node` is returned.
pub fn eliminate_hole<K: Kernel>(rings: &mut Rings, kernel: &K, hole: usize, outer_node: usize) -> (r:
    usize)
    requires
        sound(old(rings)@, kernel),
        has_ring(old(rings)@, outer_node),
        has_ring(old(rings)@, hole),
        apart(ring(old(rings)@, outer_node), ring(old(rings)@, hole)),
    ensures
        holed(old(rings)@, final(rings)@, kernel, hole, outer_node, r),
        bridge(old(rings)@, kernel, ring(old(rings)@, outer_node), hole) matches Some(m) ==> ring(
            old(rings)@,
            outer_node,
        ).contains(m) && old(rings)@.len() + 2 <= usize::MAX,
{
    let ghost before = rings@;
    let ghost c = ring(before, outer_node);
    let ghost d = ring(before, hole);
    proof {
        assert(d[0] == hole && d[0] < before.len());
    }
    match find_hole_bridge(rings, kernel, hole, outer_node) {
        None => outer_node,
        Some(m) => {
            proof {
                let k = c.index_of(m);
                assert(c[k] < before.len());
            }
            let b = rings.split_polygon(m, hole);
            proof {
                let k = c.index_of(m);
                let turned = rotated(c, k);
                lemma_rotated_cycle(before, c, k);
                assert(apart(turned, d)) by {
                    assert forall|x: usize| #[trigger] turned.contains(x) implies !d.contains(x) by {
                        assert(c.contains(x));
                    }
                }
                lemma_merge_state(before, kernel, turned, d);
                let joined = merged_ring(turned, d, before.len() as usize);
                let at = joined.index_of(b);
                lemma_rotated_cycle(rings@, joined, at);
                lemma_ring_unique(rings@, rotated(joined, at), b);
                assert(joined.contains(before.len() as usize));
                assert(rotated(joined, at).contains(before.len() as usize));
            }
            let after_b = rings.next(b);
            filter_points(rings, kernel, b, after_b)
        },
    }
}

/// Checks whether node `x` is on the ring of `start`.
pub fn on_ring_of(rings: &Rings, start: usize, x: usize) -> (r: bool)
    requires
        crate::ring::linked(rings@),
        has_ring(rings@, start),
    ensures
        r == ring(rings@, start).contains(x),
{
    let ghost c = ring(rings@, start);
    let ghost mut k: int = 0;
    let mut p = start;
    loop
        invariant
            crate::ring::linked(rings@),
            on_ring(rings@, c, start),
            c == ring(rings@, start),
            0 <= k < c.len(),
            p == c[k],
            forall|j: int| 0 <= j < k ==> c[j] != x,
        decreases c.len() - k,
    {
        if p == x {
            assert(c.contains(c[k]));
            return true;
        }
        assert(rings@[c[k] as int].next == c[succ(k, c.len() as int)]);
        p = rings.next(p);
        proof {
            k = k + 1;
        }
        if p == start {
            assert(k == c.len()) by {
                if k < c.len() {
                    assert(c[k] != c[0]);
                }
            }
            return false;
        }
    }
}


/// What bridging one hole into the outer ring leaves: the hole has been
/// eliminated from the node `from` of the outer ring, and the outer ring then
/// filtered from `from` to the node behind it, if `from` is still on the ring;
/// else the node that the elimination returned is taken for the outer ring.
pub open spec fn hole_step<K: Kernel>(
    before: Seq<Node>,
    after: Seq<Node>,
    kernel: &K,
    hole: usize,
    from: usize,
    head: usize,
) -> bool {
    exists|mid: Seq<Node>, r: usize|
        {
            &&& #[trigger] holed(before, mid, kernel, hole, from, r)
            &&& if ring(mid, r).contains(from) {
                filtered(mid, after, kernel, from, mid[from as int].next, head)
            } else {
                after == mid && head == r
            }
        }
}

/// The arenas `states` and the nodes `heads` are those that bridging the holes
/// of `queue` goes through, one hole after the other.
pub open spec fn holes_trace<K: Kernel>(
    kernel: &K,
    queue: Seq<usize>,
    states: Seq<Seq<Node>>,
    heads: Seq<usize>,
) -> bool {
    &&& states.len() == queue.len() + 1
    &&& heads.len() == queue.len() + 1
    &&& forall|k: int|
        0 <= k < queue.len() ==> #[trigger] hole_step(
            states[k],
            states[k + 1],
            kernel,
            queue[k],
            heads[k],
            heads[k + 1],
        )
}

/// What bridging the holes of `queue` into the ring of `outer_node`, one after
/// the other, leaves, where `head` is the node of the outer ring returned.
pub open spec fn holes_done<K: Kernel>(
    before: Seq<Node>,
    after: Seq<Node>,
    kernel: &K,
    queue: Seq<usize>,
    outer_node: usize,
    head: usize,
) -> bool {
    exists|states: Seq<Seq<Node>>, heads: Seq<usize>|
        {
            &&& #[trigger] holes_trace(kernel, queue, states, heads)
            &&& states[0] == before
            &&& heads[0] == outer_node
            &&& states.last() == after
            &&& heads.last() == head
        }
}

/// The holes of `queue` from position `k` on wait to be bridged into the ring of
/// `head`: each is a ring of nodes below `bound`, and no two of all these rings
/// share a node.
#[verifier::opaque]
pub open spec fn pending<K: Kernel>(
    nodes: Seq<Node>,
    kernel: &K,
    queue: Seq<usize>,
    k: int,
    head: usize,
    bound: int,
) -> bool {
    &&& sound(nodes, kernel)
    &&& has_ring(nodes, head)
    &&& bound <= nodes.len()
    &&& forall|j: int|
        k <= j < queue.len() ==> {
            &&& has_ring(nodes, #[trigger] queue[j])
            &&& apart(ring(nodes, queue[j]), ring(nodes, head))
            &&& forall|x: usize| #[trigger] ring(nodes, queue[j]).contains(x) ==> x < bound
        }
    &&& forall|j: int, l: int|
        k <= j < queue.len() && k <= l < queue.len() && j != l ==> apart(
            ring(nodes, #[trigger] queue[j]),
            ring(nodes, #[trigger] queue[l]),
        )
}

/// The holes that wait are still there after work on rings that they share no
/// node with.
proof fn lemma_pending_kept<K: Kernel>(
    before: Seq<Node>,
    after: Seq<Node>,
    kernel: &K,
    queue: Seq<usize>,
    k: int,
    head: usize,
    bound: int,
    area: Seq<usize>,
    next: usize,
)
    requires
        pending(before, kernel, queue, k, head, bound),
        worked(before, after, kernel, area),
        has_ring(after, next),
        forall|j: int|
            k + 1 <= j < queue.len() ==> apart(ring(before, #[trigger] queue[j]), area),
        forall|x: usize| #[trigger]
            ring(after, next).contains(x) ==> area.contains(x) || x >= bound,
        0 <= k,
    ensures
        pending(after, kernel, queue, k + 1, next, bound),
{
    reveal(pending);
    lemma_worked_facts(before, after, kernel, area);
    assert forall|j: int| k + 1 <= j < queue.len() implies has_ring(after, #[trigger] queue[j])
        && ring(after, queue[j]) == ring(before, queue[j]) by {
        let c = ring(before, queue[j]);
        assert(apart(c, area));
        lemma_other_ring(before, after, kernel, area, c);
        lemma_ring_unique(after, c, queue[j]);
    }
    assert forall|j: int| k + 1 <= j < queue.len() implies apart(
        ring(after, #[trigger] queue[j]),
        ring(after, next),
    ) by {
        let c = ring(before, queue[j]);
        assert(apart(c, area));
        assert forall|x: usize| #[trigger] c.contains(x) implies !ring(after, next).contains(x) by {
            if ring(after, next).contains(x) {
                assert(x < bound);
            }
        }
    }
}

/// The hole next in the queue, and what it is apart from.
proof fn lemma_pending_next<K: Kernel>(
    nodes: Seq<Node>,
    kernel: &K,
    queue: Seq<usize>,
    k: int,
    head: usize,
    bound: int,
)
    requires
        pending(nodes, kernel, queue, k, head, bound),
        0 <= k < queue.len(),
    ensures
        sound(nodes, kernel),
        has_ring(nodes, head),
        has_ring(nodes, queue[k]),
        apart(ring(nodes, head), ring(nodes, queue[k])),
        bound <= nodes.len(),
        forall|j: int|
            k + 1 <= j < queue.len() ==> apart(
                ring(nodes, #[trigger] queue[j]),
                ring(nodes, head) + ring(nodes, queue[k]),
            ),
        forall|x: usize| #[trigger]
            (ring(nodes, head) + ring(nodes, queue[k])).contains(x) ==> ring(nodes, head).contains(x)
                || ring(nodes, queue[k]).contains(x),
        forall|x: usize| #[trigger] ring(nodes, queue[k]).contains(x) ==> x < bound,
{
    reveal(pending);
    let c = ring(nodes, head);
    let d = ring(nodes, queue[k]);
    assert(apart(d, c));
    assert forall|x: usize| #[trigger] c.contains(x) implies !d.contains(x) by {}
    assert forall|x: usize| #[trigger] (c + d).contains(x) implies c.contains(x) || d.contains(
        x,
    ) by {
        let q = (c + d).index_of(x);
        if q < c.len() {
            assert(c[q] == x);
        } else {
            assert(d[q - c.len()] == x);
        }
    }
    assert forall|j: int| k + 1 <= j < queue.len() implies apart(
        ring(nodes, #[trigger] queue[j]),
        c + d,
    ) by {
        assert(apart(ring(nodes, queue[j]), c));
        assert(apart(ring(nodes, queue[j]), ring(nodes, queue[k])));
    }
}

/// Links every hole into the outer ring, producing a single ring without holes.
/// The holes are given by their leftmost nodes, in the order in which they are
/// to be bridged. After each hole the outer ring is filtered at the node from
/// which the bridge was sought. Returns a node of the ring that is left.
pub fn eliminate_holes<K: Kernel>(
    rings: &mut Rings,
    kernel: &K,
    queue: &Vec<usize>,
    outer_node: usize,
) -> (head: usize)
    requires
        pending(old(rings)@, kernel, queue@, 0, outer_node, old(rings)@.len() as int),
    ensures
        holes_done(old(rings)@, final(rings)@, kernel, queue@, outer_node, head),
        sound(final(rings)@, kernel),
        has_ring(final(rings)@, head),
        old(rings)@.len() <= final(rings)@.len() <= old(rings)@.len() + 2 * queue@.len(),
        all_unchained(old(rings)@) ==> all_unchained(final(rings)@),
{
    let ghost s0 = rings@;
    let ghost bound = s0.len() as int;
    let mut head = outer_node;
    let mut k: usize = 0;
    let ghost mut states: Seq<Seq<Node>> = seq![s0];
    let ghost mut heads: Seq<usize> = seq![outer_node];
    proof {
        lemma_pending_next0(s0, kernel, queue@, outer_node, bound);
    }
    while k < queue.len()
        invariant
            0 <= k <= queue@.len(),
            pending(rings@, kernel, queue@, k as int, head, bound),
            states.len() == k + 1,
            heads.len() == k + 1,
            states[0] == s0,
            heads[0] == outer_node,
            states[k as int] == rings@,
            heads[k as int] == head,
            forall|j: int|
                0 <= j < k ==> #[trigger] hole_step(
                    states[j],
                    states[j + 1],
                    kernel,
                    queue@[j],
                    heads[j],
                    heads[j + 1],
                ),
            sound(rings@, kernel),
            has_ring(rings@, head),
            s0.len() <= rings@.len() <= s0.len() + 2 * k,
            all_unchained(s0) ==> all_unchained(rings@),
            s0 == old(rings)@,
            bound == s0.len(),
        decreases queue@.len() - k,
    {
        let hole = queue[k];
        let ghost s1 = rings@;
        let ghost from = head;
        let ghost c = ring(s1, head);
        let ghost d = ring(s1, hole);
        proof {
            lemma_pending_next(s1, kernel, queue@, k as int, head, bound);
        }
        let r = eliminate_hole(rings, kernel, hole, head);
        let ghost s2 = rings@;
        proof {
            lemma_holed_facts(s1, s2, kernel, hole, head, r);
            lemma_worked_facts(s1, s2, kernel, c + d);
        }
        if on_ring_of(rings, r, head) {
            proof {
                lemma_ring_of_member(s2, r, head);
            }
            let after_head = rings.next(head);
            head = filter_points(rings, kernel, head, after_head);
            proof {
                lemma_filtered_facts(s2, rings@, kernel, from, after_head, head);
                assert forall|x: usize| #[trigger] ring(s2, from).contains(x) implies (c
                    + d).contains(x) || x >= s1.len() by {
                    assert(ring(s2, r).contains(x));
                    lemma_concat_has(c, d, x);
                }
                lemma_worked_twice(s1, s2, rings@, kernel, c + d, ring(s2, from));
                assert forall|x: usize| #[trigger] ring(rings@, head).contains(x) implies (c
                    + d).contains(x) || x >= bound by {
                    assert(ring(s2, from).contains(x));
                    assert(ring(s2, r).contains(x));
                    lemma_concat_has(c, d, x);
                }
            }
        } else {
            head = r;
            proof {
                assert forall|x: usize| #[trigger] ring(rings@, head).contains(x) implies (c
                    + d).contains(x) || x >= bound by {
                    lemma_concat_has(c, d, x);
                }
            }
        }
        proof {
            lemma_pending_kept(s1, rings@, kernel, queue@, k as int, from, bound, c + d, head);
            assert(hole_step(s1, rings@, kernel, hole, from, head)) by {
                assert(holed(s1, s2, kernel, hole, from, r));
            }
            let grown = states.push(rings@);
            let led = heads.push(head);
            assert forall|j: int| 0 <= j < k + 1 implies #[trigger] hole_step(
                grown[j],
                grown[j + 1],
                kernel,
                queue@[j],
                led[j],
                led[j + 1],
            ) by {
                if j < k {
                    assert(hole_step(states[j], states[j + 1], kernel, queue@[j], heads[j], heads[j + 1]));
                }
            }
            states = grown;
            heads = led;
        }
        k += 1;
    }
    proof {
        assert(holes_trace(kernel, queue@, states, heads));
    }
    head
}

/// A node of either of two rings is a node of the two together.
proof fn lemma_concat_has(c: Seq<usize>, d: Seq<usize>, x: usize)
    ensures
        c.contains(x) ==> (c + d).contains(x),
        d.contains(x) ==> (c + d).contains(x),
{
    if c.contains(x) {
        let q = c.index_of(x);
        assert((c + d)[q] == x);
    }
    if d.contains(x) {
        let q = d.index_of(x);
        assert((c + d)[c.len() + q] == x);
    }
}

/// The ring of a node on a ring is that ring, read from the node.
proof fn lemma_ring_of_member(nodes: Seq<Node>, r: usize, x: usize)
    requires
        has_ring(nodes, r),
        ring(nodes, r).contains(x),
    ensures
        has_ring(nodes, x),
        ring(nodes, x).len() == ring(nodes, r).len(),
        forall|y: usize| ring(nodes, x).contains(y) <==> ring(nodes, r).contains(y),
        ring(nodes, x).contains(nodes[x as int].next),
{
    let c = ring(nodes, r);
    let k = c.index_of(x);
    lemma_rotated_cycle(nodes, c, k);
    lemma_ring_unique(nodes, rotated(c, k), x);
    let d = rotated(c, k);
    assert(nodes[d[0] as int].next == d[succ(0, d.len() as int)]);
    assert(d.contains(d[succ(0, d.len() as int)]));
}

/// What holds of the outer ring before the first hole is bridged.
proof fn lemma_pending_next0<K: Kernel>(
    nodes: Seq<Node>,
    kernel: &K,
    queue: Seq<usize>,
    head: usize,
    bound: int,
)
    requires
        pending(nodes, kernel, queue, 0, head, bound),
    ensures
        sound(nodes, kernel),
        has_ring(nodes, head),
{
    reveal(pending);
}

} // verus!
