//! The test for an ear, by a scan of the ring or with the spatial index.

use vstd::prelude::*;
use crate::geometry::{area, point_in_triangle, sound, turn_at, within};
use crate::kernel::{HashParameters, Kernel, Sign};
use crate::ring::{
    coherent, has_ring, is_chain, is_cycle, lemma_distinct_bounded, lemma_ring_unique,
    lemma_rotated_cycle, on_ring, pred, ring, rotated, succ, threaded, unchained, Node, Rings,
};
use crate::zorder::z_value;

verus! {

/// The corner at node `ear` is convex.
pub open spec fn convex<K: Kernel>(nodes: Seq<Node>, kernel: &K, ear: usize) -> bool {
    turn_at(
        nodes,
        kernel,
        nodes[ear as int].prev as int,
        ear as int,
        nodes[ear as int].next as int,
    ) == Sign::Negative
}

/// Node `q` keeps the corner at `ear` from being an ear: it lies in the triangle
/// that the corner makes with its two neighbours, and its own corner is not
/// convex.
pub open spec fn spoils<K: Kernel>(nodes: Seq<Node>, kernel: &K, ear: usize, q: usize) -> bool {
    &&& within(
        nodes,
        kernel,
        nodes[ear as int].prev as int,
        ear as int,
        nodes[ear as int].next as int,
        q as int,
    )
    &&& turn_at(
        nodes,
        kernel,
        nodes[q as int].prev as int,
        q as int,
        nodes[q as int].next as int,
    ) != Sign::Negative
}

/// Node `q` is neither neighbour of `ear`, and spoils the ear there.
pub open spec fn spoils_apart<K: Kernel>(nodes: Seq<Node>, kernel: &K, ear: usize, q: usize) -> bool {
    &&& q != nodes[ear as int].prev
    &&& q != nodes[ear as int].next
    &&& spoils(nodes, kernel, ear, q)
}

/// The positions of a ring of `n` nodes, read from the ear, that a scan for
/// spoilers visits: all but the ear and its two neighbours.
pub open spec fn scanned(n: int, k: int) -> bool {
    if n == 2 {
        k == 0
    } else {
        2 <= k < n - 1
    }
}

/// The corner at `ear` is an ear, by a scan of the ring: it is convex, and no
/// other node of the ring spoils it.
pub open spec fn ear_by_scan<K: Kernel>(nodes: Seq<Node>, kernel: &K, ear: usize) -> bool {
    &&& convex(nodes, kernel, ear)
    &&& forall|k: int|
        0 <= k < ring(nodes, ear).len() && scanned(ring(nodes, ear).len() as int, k) ==> !spoils(
            nodes,
            kernel,
            ear,
            #[trigger] ring(nodes, ear)[k],
        )
}

/// The point among `i`, `j`, `k` that comes first by the key `key`.
pub open spec fn least_of(key: spec_fn(usize) -> i64, i: usize, j: usize, k: usize) -> usize {
    if key(i) <= key(j) && key(i) <= key(k) {
        i
    } else if key(j) <= key(k) {
        j
    } else {
        k
    }
}

/// The point among `i`, `j`, `k` that comes last by the key `key`.
pub open spec fn greatest_of(key: spec_fn(usize) -> i64, i: usize, j: usize, k: usize) -> usize {
    if key(i) >= key(j) && key(i) >= key(k) {
        i
    } else if key(j) >= key(k) {
        j
    } else {
        k
    }
}

/// Z-order value of the lower left corner of the box round the triangle at `ear`.
pub open spec fn low_z<K: Kernel>(
    nodes: Seq<Node>,
    kernel: &K,
    hash: HashParameters,
    ear: usize,
) -> u32 {
    let a = nodes[nodes[ear as int].prev as int].i;
    let b = nodes[ear as int].i;
    let c = nodes[nodes[ear as int].next as int].i;
    z_value(
        kernel,
        hash,
        least_of(|p: usize| kernel.x(p), a, b, c),
        least_of(|p: usize| kernel.y(p), a, b, c),
    )
}

/// Z-order value of the upper right corner of the box round the triangle at `ear`.
pub open spec fn high_z<K: Kernel>(
    nodes: Seq<Node>,
    kernel: &K,
    hash: HashParameters,
    ear: usize,
) -> u32 {
    let a = nodes[nodes[ear as int].prev as int].i;
    let b = nodes[ear as int].i;
    let c = nodes[nodes[ear as int].next as int].i;
    z_value(
        kernel,
        hash,
        greatest_of(|p: usize| kernel.x(p), a, b, c),
        greatest_of(|p: usize| kernel.y(p), a, b, c),
    )
}

/// Walking down the z-order list from `from`, a node spoils the ear at `ear`
/// before the walk meets a z-order value below `low`, the end of the list, or
/// has made `fuel` steps.
pub open spec fn spoiled_below<K: Kernel>(
    nodes: Seq<Node>,
    kernel: &K,
    ear: usize,
    from: Option<usize>,
    low: u32,
    fuel: nat,
) -> bool
    decreases fuel,
{
    match from {
        None => false,
        Some(q) => if fuel == 0 || nodes[q as int].z < low {
            false
        } else {
            spoils_apart(nodes, kernel, ear, q) || spoiled_below(
                nodes,
                kernel,
                ear,
                nodes[q as int].prev_z,
                low,
                (fuel - 1) as nat,
            )
        },
    }
}

/// Walking up the z-order list from `from`, a node spoils the ear at `ear` before
/// the walk meets a z-order value above `high`, the end of the list, or has made
/// `fuel` steps.
pub open spec fn spoiled_above<K: Kernel>(
    nodes: Seq<Node>,
    kernel: &K,
    ear: usize,
    from: Option<usize>,
    high: u32,
    fuel: nat,
) -> bool
    decreases fuel,
{
    match from {
        None => false,
        Some(q) => if fuel == 0 || nodes[q as int].z > high {
            false
        } else {
            spoils_apart(nodes, kernel, ear, q) || spoiled_above(
                nodes,
                kernel,
                ear,
                nodes[q as int].next_z,
                high,
                (fuel - 1) as nat,
            )
        },
    }
}

/// The corner at `ear` is an ear, by the spatial index: it is convex, and no node
/// whose z-order value lies in the range of the triangle's box spoils it. The
/// list is walked from the ear in both directions, one step for each node of
/// the arena at most.
pub open spec fn ear_by_index<K: Kernel>(
    nodes: Seq<Node>,
    kernel: &K,
    hash: HashParameters,
    ear: usize,
) -> bool {
    &&& convex(nodes, kernel, ear)
    &&& !spoiled_below(
        nodes,
        kernel,
        ear,
        nodes[ear as int].prev_z,
        low_z(nodes, kernel, hash, ear),
        nodes.len(),
    )
    &&& !spoiled_above(
        nodes,
        kernel,
        ear,
        nodes[ear as int].next_z,
        high_z(nodes, kernel, hash, ear),
        nodes.len(),
    )
}

/// The corner at `ear` is an ear: convex, with no other vertex inside.
pub open spec fn ear_at<K: Kernel>(
    nodes: Seq<Node>,
    kernel: &K,
    hash: Option<HashParameters>,
    ear: usize,
) -> bool {
    match hash {
        None => ear_by_scan(nodes, kernel, ear),
        Some(h) => ear_by_index(nodes, kernel, h, ear),
    }
}

/// Checks whether node `q` keeps the corner at `ear` from being an ear.
fn spoils_ear<K: Kernel>(rings: &Rings, kernel: &K, ear: usize, q: usize) -> (r: bool)
    requires
        sound(rings@, kernel),
        ear < rings@.len(),
        q < rings@.len(),
    ensures
        r == spoils(rings@, kernel, ear, q),
{
    point_in_triangle(rings, kernel, rings.prev(ear), ear, rings.next(ear), q) && area(
        rings,
        kernel,
        rings.prev(q),
        q,
        rings.next(q),
    ) != Sign::Negative
}

/// Looks for a spoiler of the ear at `ear` down the z-order list from `from`.
fn scan_below<K: Kernel>(
    rings: &Rings,
    kernel: &K,
    ear: usize,
    from: Option<usize>,
    low: u32,
    Ghost(zs): Ghost<Seq<usize>>,
    Ghost(at): Ghost<int>,
    Ghost(fuel): Ghost<nat>,
) -> (r: bool)
    requires
        sound(rings@, kernel),
        ear < rings@.len(),
        is_chain(rings@, zs),
        -1 <= at < zs.len(),
        from == (if at >= 0 {
            Some(zs[at])
        } else {
            None
        }),
        fuel > at,
    ensures
        r == spoiled_below(rings@, kernel, ear, from, low, fuel),
{
    let mut p = from;
    let ghost mut k = at;
    let ghost mut left = fuel;
    let before = rings.prev(ear);
    let after = rings.next(ear);
    loop
        invariant
            sound(rings@, kernel),
            ear < rings@.len(),
            is_chain(rings@, zs),
            before == rings@[ear as int].prev,
            after == rings@[ear as int].next,
            -1 <= k < zs.len(),
            p == (if k >= 0 {
                Some(zs[k])
            } else {
                None
            }),
            left > k,
            spoiled_below(rings@, kernel, ear, from, low, fuel) == spoiled_below(
                rings@,
                kernel,
                ear,
                p,
                low,
                left,
            ),
        decreases k + 1,
    {
        match p {
            None => {
                return false;
            },
            Some(q) => {
                assert(rings@[zs[k] as int].prev_z == (if k > 0 {
                    Some(zs[k - 1])
                } else {
                    None
                }));
                if rings.z(q) < low {
                    return false;
                }
                if q != before && q != after && spoils_ear(rings, kernel, ear, q) {
                    return true;
                }
                p = rings.prev_z(q);
                proof {
                    k = k - 1;
                    left = (left - 1) as nat;
                }
            },
        }
    }
}

/// Looks for a spoiler of the ear at `ear` up the z-order list from `from`.
fn scan_above<K: Kernel>(
    rings: &Rings,
    kernel: &K,
    ear: usize,
    from: Option<usize>,
    high: u32,
    Ghost(zs): Ghost<Seq<usize>>,
    Ghost(at): Ghost<int>,
    Ghost(fuel): Ghost<nat>,
) -> (r: bool)
    requires
        sound(rings@, kernel),
        ear < rings@.len(),
        is_chain(rings@, zs),
        0 <= at <= zs.len(),
        from == (if at < zs.len() {
            Some(zs[at])
        } else {
            None
        }),
        fuel >= zs.len() - at,
    ensures
        r == spoiled_above(rings@, kernel, ear, from, high, fuel),
{
    let mut n = from;
    let ghost mut k = at;
    let ghost mut left = fuel;
    let before = rings.prev(ear);
    let after = rings.next(ear);
    loop
        invariant
            sound(rings@, kernel),
            ear < rings@.len(),
            is_chain(rings@, zs),
            before == rings@[ear as int].prev,
            after == rings@[ear as int].next,
            0 <= k <= zs.len(),
            n == (if k < zs.len() {
                Some(zs[k])
            } else {
                None
            }),
            left >= zs.len() - k,
            spoiled_above(rings@, kernel, ear, from, high, fuel) == spoiled_above(
                rings@,
                kernel,
                ear,
                n,
                high,
                left,
            ),
        decreases zs.len() - k,
    {
        match n {
            None => {
                return false;
            },
            Some(q) => {
                assert(rings@[zs[k] as int].next_z == (if k + 1 < zs.len() {
                    Some(zs[k + 1])
                } else {
                    None
                }));
                if rings.z(q) > high {
                    return false;
                }
                if q != before && q != after && spoils_ear(rings, kernel, ear, q) {
                    return true;
                }
                n = rings.next_z(q);
                proof {
                    k = k + 1;
                    left = (left - 1) as nat;
                }
            },
        }
    }
}

/// The point among `i`, `j`, `k` of least abscissa.
fn leftmost_of<K: Kernel>(kernel: &K, i: usize, j: usize, k: usize) -> (r: usize)
    requires
        i < kernel.count(),
        j < kernel.count(),
        k < kernel.count(),
    ensures
        r == least_of(|p: usize| kernel.x(p), i, j, k),
        r < kernel.count(),
{
    let xi = kernel.x_key(i);
    let xj = kernel.x_key(j);
    let xk = kernel.x_key(k);
    if xi <= xj && xi <= xk {
        i
    } else if xj <= xk {
        j
    } else {
        k
    }
}

/// The point among `i`, `j`, `k` of greatest abscissa.
fn rightmost_of<K: Kernel>(kernel: &K, i: usize, j: usize, k: usize) -> (r: usize)
    requires
        i < kernel.count(),
        j < kernel.count(),
        k < kernel.count(),
    ensures
        r == greatest_of(|p: usize| kernel.x(p), i, j, k),
        r < kernel.count(),
{
    let xi = kernel.x_key(i);
    let xj = kernel.x_key(j);
    let xk = kernel.x_key(k);
    if xi >= xj && xi >= xk {
        i
    } else if xj >= xk {
        j
    } else {
        k
    }
}

/// The point among `i`, `j`, `k` of least ordinate.
fn lowest_of<K: Kernel>(kernel: &K, i: usize, j: usize, k: usize) -> (r: usize)
    requires
        i < kernel.count(),
        j < kernel.count(),
        k < kernel.count(),
    ensures
        r == least_of(|p: usize| kernel.y(p), i, j, k),
        r < kernel.count(),
{
    let yi = kernel.y_key(i);
    let yj = kernel.y_key(j);
    let yk = kernel.y_key(k);
    if yi <= yj && yi <= yk {
        i
    } else if yj <= yk {
        j
    } else {
        k
    }
}

/// The point among `i`, `j`, `k` of greatest ordinate.
fn highest_of<K: Kernel>(kernel: &K, i: usize, j: usize, k: usize) -> (r: usize)
    requires
        i < kernel.count(),
        j < kernel.count(),
        k < kernel.count(),
    ensures
        r == greatest_of(|p: usize| kernel.y(p), i, j, k),
        r < kernel.count(),
{
    let yi = kernel.y_key(i);
    let yj = kernel.y_key(j);
    let yk = kernel.y_key(k);
    if yi >= yj && yi >= yk {
        i
    } else if yj >= yk {
        j
    } else {
        k
    }
}

/// Looks for a spoiler of the convex corner at `ear` among the nodes near it on
/// the z-order list, walking the list in both directions at once.
fn spoiled_nearby<K: Kernel>(
    rings: &Rings,
    kernel: &K,
    hash: &HashParameters,
    ear: usize,
) -> (r: bool)
    requires
        sound(rings@, kernel),
        has_ring(rings@, ear),
        hash.within(kernel.count()),
        coherent(rings@, ring(rings@, ear)),
    ensures
        r == (spoiled_below(
            rings@,
            kernel,
            ear,
            rings@[ear as int].prev_z,
            low_z(rings@, kernel, *hash, ear),
            rings@.len(),
        ) || spoiled_above(
            rings@,
            kernel,
            ear,
            rings@[ear as int].next_z,
            high_z(rings@, kernel, *hash, ear),
            rings@.len(),
        )),
{
    let ghost c = ring(rings@, ear);
    let ghost zs = choose|zs: Seq<usize>| threaded(rings@, c, zs);
    let ghost total = rings@.len();
    proof {
        lemma_distinct_bounded(zs, total);
        assert(zs.contains(c[0]) || unchained(rings@[c[0] as int]));
    }
    let ghost listed = zs.contains(ear);
    let ghost home = if listed { zs.index_of(ear) } else { 0 };
    let before = rings.prev(ear);
    let after = rings.next(ear);
    let pa = rings.index(before);
    let pb = rings.index(ear);
    let pc = rings.index(after);
    let low = hash.z_order(
        kernel,
        leftmost_of(kernel, pa, pb, pc),
        lowest_of(kernel, pa, pb, pc),
    );
    let high = hash.z_order(
        kernel,
        rightmost_of(kernel, pa, pb, pc),
        highest_of(kernel, pa, pb, pc),
    );
    let mut p = rings.prev_z(ear);
    let mut n = rings.next_z(ear);
    let ghost mut kp: int = if listed { home - 1 } else { -1 };
    let ghost mut kn: int = if listed { home + 1 } else { zs.len() as int };
    let ghost mut left_p: nat = total;
    let ghost mut left_n: nat = total;
    proof {
        if listed {
            assert(rings@[zs[home] as int].prev_z == (if home > 0 {
                Some(zs[home - 1])
            } else {
                None
            }));
        }
    }
    loop
        invariant
            sound(rings@, kernel),
            ear < rings@.len(),
            is_chain(rings@, zs),
            before == rings@[ear as int].prev,
            after == rings@[ear as int].next,
            low == low_z(rings@, kernel, *hash, ear),
            high == high_z(rings@, kernel, *hash, ear),
            total == rings@.len(),
            -1 <= kp < zs.len(),
            0 <= kn <= zs.len(),
            p == (if kp >= 0 {
                Some(zs[kp])
            } else {
                None
            }),
            n == (if kn < zs.len() {
                Some(zs[kn])
            } else {
                None
            }),
            left_p > kp,
            left_n >= zs.len() - kn,
            spoiled_below(rings@, kernel, ear, rings@[ear as int].prev_z, low, total)
                == spoiled_below(rings@, kernel, ear, p, low, left_p),
            spoiled_above(rings@, kernel, ear, rings@[ear as int].next_z, high, total)
                == spoiled_above(rings@, kernel, ear, n, high, left_n),
        decreases kp + 1,
    {
        match (p, n) {
            (Some(pp), Some(nn)) => {
                assert(rings@[zs[kp] as int].prev_z == (if kp > 0 {
                    Some(zs[kp - 1])
                } else {
                    None
                }));
                assert(rings@[zs[kn] as int].next_z == (if kn + 1 < zs.len() {
                    Some(zs[kn + 1])
                } else {
                    None
                }));
                if rings.z(pp) < low {
                    break ;
                }
                if rings.z(nn) > high {
                    break ;
                }
                if pp != before && pp != after && spoils_ear(rings, kernel, ear, pp) {
                    return true;
                }
                if nn != before && nn != after && spoils_ear(rings, kernel, ear, nn) {
                    return true;
                }
                p = rings.prev_z(pp);
                n = rings.next_z(nn);
                proof {
                    kp = kp - 1;
                    kn = kn + 1;
                    left_p = (left_p - 1) as nat;
                    left_n = (left_n - 1) as nat;
                }
            },
            _ => {
                break ;
            },
        }
    }
    if scan_below(rings, kernel, ear, p, low, Ghost(zs), Ghost(kp), Ghost(left_p)) {
        return true;
    }
    scan_above(rings, kernel, ear, n, high, Ghost(zs), Ghost(kn), Ghost(left_n))
}

/// Checks whether a polygon node forms a valid ear with its neighbours: the
/// corner is convex and no other vertex of the ring lies in its triangle.
///
/// With a spatial index only the nodes whose z-order value lies in the range of
/// the triangle's bounding box are looked at; without one the whole ring is.
pub fn is_ear<K: Kernel>(
    rings: &Rings,
    kernel: &K,
    hash: &Option<HashParameters>,
    ear: usize,
) -> (r: bool)
    requires
        sound(rings@, kernel),
        has_ring(rings@, ear),
        hash matches Some(h) ==> h.within(kernel.count()) && coherent(
            rings@,
            ring(rings@, ear),
        ),
    ensures
        r == ear_at(rings@, kernel, *hash, ear),
{
    let a = rings.prev(ear);
    let c = rings.next(ear);
    if area(rings, kernel, a, ear, c) != Sign::Negative {
        return false;
    }
    match hash {
        Some(h) => !spoiled_nearby(rings, kernel, h, ear),
        None => {
            let ghost cyc = ring(rings@, ear);
            let ghost len = cyc.len() as int;
            assert(rings@[cyc[0] as int].next == cyc[succ(0, len)]);
            assert(rings@[cyc[0] as int].prev == cyc[crate::ring::pred(0, len)]);
            let mut p = rings.next(c);
            assert(rings@[cyc[succ(0, len)] as int].next == cyc[succ(succ(0, len), len)]);
            let ghost mut k: int = succ(succ(0, len), len);
            while p != a
                invariant
                    *hash is None,
                    convex(rings@, kernel, ear),
                    sound(rings@, kernel),
                    on_ring(rings@, cyc, ear),
                    cyc == ring(rings@, ear),
                    len == cyc.len(),
                    a == cyc[len - 1],
                    0 <= k < len,
                    p == cyc[k],
                    len == 2 ==> k <= 1,
                    len >= 3 ==> k >= 2,
                    forall|j: int|
                        0 <= j < len && scanned(len, j) && (len == 2 || j < k) ==> !spoils(
                            rings@,
                            kernel,
                            ear,
                            #[trigger] cyc[j],
                        ),
                    len == 2 && k == 1 ==> !spoils(rings@, kernel, ear, cyc[0]),
                decreases (if len == 2 { 2 - k } else { len - k }),
            {
                if spoils_ear(rings, kernel, ear, p) {
                    assert(scanned(len, k)) by {
                        if k == len - 1 {
                            assert(cyc[k] == a);
                        }
                    }
                    assert(spoils(rings@, kernel, ear, ring(rings@, ear)[k]));
                    return false;
                }
                assert(rings@[cyc[k] as int].next == cyc[succ(k, len)]);
                p = rings.next(p);
                proof {
                    assert(k != len - 1);
                    k = succ(k, len);
                }
            }
            proof {
                assert(k == len - 1) by {
                    if k != len - 1 {
                        assert(cyc[k] != cyc[len - 1]);
                    }
                }
            }
            true
        },
    }
}


/// The nodes of the list `zs` stand in ascending order of their z-order values.
#[verifier::opaque]
pub open spec fn ascending(nodes: Seq<Node>, zs: Seq<usize>) -> bool {
    forall|i: int, j: int|
        0 <= i <= j < zs.len() ==> (#[trigger] nodes[zs[i] as int]).z <= (#[trigger] nodes[zs[j] as int]).z
}

/// A node of the list `zs` at position `t` or before it has a z-order value of
/// `low` or more and spoils the ear at `ear`.
pub open spec fn spoiler_below<K: Kernel>(
    nodes: Seq<Node>,
    kernel: &K,
    ear: usize,
    zs: Seq<usize>,
    t: int,
    low: u32,
) -> bool {
    exists|s: int|
        0 <= s <= t && s < zs.len() && nodes[#[trigger] zs[s] as int].z >= low && spoils_apart(
            nodes,
            kernel,
            ear,
            zs[s],
        )
}

/// A node of the list `zs` at position `t` or behind it has a z-order value of
/// `high` or less and spoils the ear at `ear`.
pub open spec fn spoiler_above<K: Kernel>(
    nodes: Seq<Node>,
    kernel: &K,
    ear: usize,
    zs: Seq<usize>,
    t: int,
    high: u32,
) -> bool {
    exists|s: int|
        0 <= t <= s < zs.len() && nodes[#[trigger] zs[s] as int].z <= high && spoils_apart(
            nodes,
            kernel,
            ear,
            zs[s],
        )
}

/// The node at position `t` of a list, if there is one.
pub open spec fn listed_at(zs: Seq<usize>, t: int) -> Option<usize> {
    if 0 <= t < zs.len() {
        Some(zs[t])
    } else {
        None
    }
}

/// On a list in ascending order, the walk down from position `t` finds a spoiler
/// where there is one with a z-order value of `low` or more.
pub proof fn lemma_walk_below<K: Kernel>(
    nodes: Seq<Node>,
    kernel: &K,
    ear: usize,
    zs: Seq<usize>,
    t: int,
    low: u32,
    fuel: nat,
)
    requires
        is_chain(nodes, zs),
        ascending(nodes, zs),
        -1 <= t < zs.len(),
        fuel > t,
    ensures
        spoiled_below(nodes, kernel, ear, listed_at(zs, t), low, fuel) == spoiler_below(
            nodes,
            kernel,
            ear,
            zs,
            t,
            low,
        ),
    decreases t + 1,
{
    reveal(ascending);
    if t >= 0 {
        let q = zs[t];
        assert(nodes[zs[t] as int].prev_z == listed_at(zs, t - 1));
        if nodes[q as int].z < low {
            if spoiler_below(nodes, kernel, ear, zs, t, low) {
                let s = choose|s: int|
                    0 <= s <= t && s < zs.len() && nodes[#[trigger] zs[s] as int].z >= low
                        && spoils_apart(nodes, kernel, ear, zs[s]);
                assert(nodes[zs[s] as int].z <= nodes[zs[t] as int].z);
            }
        } else {
            lemma_walk_below(nodes, kernel, ear, zs, t - 1, low, (fuel - 1) as nat);
            if spoils_apart(nodes, kernel, ear, q) {
                assert(nodes[zs[t] as int].z >= low);
            } else if spoiler_below(nodes, kernel, ear, zs, t - 1, low) {
                let s = choose|s: int|
                    0 <= s <= t - 1 && s < zs.len() && nodes[#[trigger] zs[s] as int].z >= low
                        && spoils_apart(nodes, kernel, ear, zs[s]);
                assert(nodes[zs[s] as int].z >= low);
            } else if spoiler_below(nodes, kernel, ear, zs, t, low) {
                let s = choose|s: int|
                    0 <= s <= t && s < zs.len() && nodes[#[trigger] zs[s] as int].z >= low
                        && spoils_apart(nodes, kernel, ear, zs[s]);
                assert(s <= t - 1);
                assert(nodes[zs[s] as int].z >= low);
            }
        }
    }
}

/// On a list in ascending order, the walk up from position `t` finds a spoiler
/// where there is one with a z-order value of `high` or less.
pub proof fn lemma_walk_above<K: Kernel>(
    nodes: Seq<Node>,
    kernel: &K,
    ear: usize,
    zs: Seq<usize>,
    t: int,
    high: u32,
    fuel: nat,
)
    requires
        is_chain(nodes, zs),
        ascending(nodes, zs),
        0 <= t <= zs.len(),
        fuel >= zs.len() - t,
    ensures
        spoiled_above(nodes, kernel, ear, listed_at(zs, t), high, fuel) == spoiler_above(
            nodes,
            kernel,
            ear,
            zs,
            t,
            high,
        ),
    decreases zs.len() - t,
{
    reveal(ascending);
    if t < zs.len() {
        let q = zs[t];
        assert(nodes[zs[t] as int].next_z == listed_at(zs, t + 1));
        if nodes[q as int].z > high {
            if spoiler_above(nodes, kernel, ear, zs, t, high) {
                let s = choose|s: int|
                    0 <= t <= s < zs.len() && nodes[#[trigger] zs[s] as int].z <= high
                        && spoils_apart(nodes, kernel, ear, zs[s]);
                assert(nodes[zs[t] as int].z <= nodes[zs[s] as int].z);
            }
        } else {
            lemma_walk_above(nodes, kernel, ear, zs, t + 1, high, (fuel - 1) as nat);
            if spoils_apart(nodes, kernel, ear, q) {
                assert(nodes[zs[t] as int].z <= high);
            } else if spoiler_above(nodes, kernel, ear, zs, t + 1, high) {
                let s = choose|s: int|
                    0 <= t + 1 <= s < zs.len() && nodes[#[trigger] zs[s] as int].z <= high
                        && spoils_apart(nodes, kernel, ear, zs[s]);
                assert(nodes[zs[s] as int].z <= high);
            } else if spoiler_above(nodes, kernel, ear, zs, t, high) {
                let s = choose|s: int|
                    0 <= t <= s < zs.len() && nodes[#[trigger] zs[s] as int].z <= high
                        && spoils_apart(nodes, kernel, ear, zs[s]);
                assert(s >= t + 1);
                assert(nodes[zs[s] as int].z <= high);
            }
        }
    }
}

/// Some node of the ring read from the ear, other than the ear and its
/// neighbours, spoils the ear.
pub open spec fn seen_by_scan<K: Kernel>(
    nodes: Seq<Node>,
    kernel: &K,
    r: Seq<usize>,
) -> bool {
    exists|j: int|
        0 <= j < r.len() && scanned(r.len() as int, j) && spoils(nodes, kernel, r[0], #[trigger] r[j])
}

/// Some node of the list before or behind the ear, which stands at position `e`,
/// has its z-order value in the range and spoils the ear.
pub open spec fn found_by_index<K: Kernel>(
    nodes: Seq<Node>,
    kernel: &K,
    zs: Seq<usize>,
    e: int,
    low: u32,
    high: u32,
) -> bool {
    spoiler_below(nodes, kernel, zs[e], zs, e - 1, low) || spoiler_above(
        nodes,
        kernel,
        zs[e],
        zs,
        e + 1,
        high,
    )
}

/// A spoiler that the index finds is one that the scan sees.
proof fn lemma_found_seen<K: Kernel>(
    nodes: Seq<Node>,
    kernel: &K,
    r: Seq<usize>,
    zs: Seq<usize>,
    e: int,
    low: u32,
    high: u32,
)
    requires
        is_cycle(nodes, r),
        r.len() >= 3,
        zs.no_duplicates(),
        0 <= e < zs.len(),
        zs[e] == r[0],
        forall|x: usize| zs.contains(x) ==> r.contains(x),
        found_by_index(nodes, kernel, zs, e, low, high),
    ensures
        seen_by_scan(nodes, kernel, r),
{
    let n = r.len() as int;
    let ear = r[0];
    assert(nodes[r[0] as int].next == r[succ(0, n)]);
    assert(nodes[r[0] as int].prev == r[pred(0, n)]);
    let s = if spoiler_below(nodes, kernel, ear, zs, e - 1, low) {
        choose|s: int|
            0 <= s <= e - 1 && s < zs.len() && nodes[#[trigger] zs[s] as int].z >= low
                && spoils_apart(nodes, kernel, ear, zs[s])
    } else {
        choose|s: int|
            0 <= e + 1 <= s < zs.len() && nodes[#[trigger] zs[s] as int].z <= high
                && spoils_apart(nodes, kernel, ear, zs[s])
    };
    let q = zs[s];
    assert(zs.contains(zs[s]));
    assert(r.contains(q));
    let j = r.index_of(q);
    assert(zs[s] != zs[e]);
    assert(j != 0 && j != 1 && j != n - 1);
    assert(scanned(n, j));
    assert(spoils(nodes, kernel, r[0], r[j]));
}

/// A spoiler that the scan sees is one that the index finds, where its z-order
/// value lies in the range.
proof fn lemma_seen_found<K: Kernel>(
    nodes: Seq<Node>,
    kernel: &K,
    r: Seq<usize>,
    zs: Seq<usize>,
    e: int,
    low: u32,
    high: u32,
)
    requires
        is_cycle(nodes, r),
        r.len() >= 3,
        0 <= e < zs.len(),
        zs[e] == r[0],
        forall|x: usize| r.contains(x) ==> zs.contains(x),
        forall|j: int|
            0 <= j < r.len() && spoils(nodes, kernel, r[0], #[trigger] r[j]) ==> low
                <= nodes[r[j] as int].z <= high,
        seen_by_scan(nodes, kernel, r),
    ensures
        found_by_index(nodes, kernel, zs, e, low, high),
{
    let n = r.len() as int;
    let ear = r[0];
    assert(nodes[r[0] as int].next == r[succ(0, n)]);
    assert(nodes[r[0] as int].prev == r[pred(0, n)]);
    let j = choose|j: int|
        0 <= j < r.len() && scanned(r.len() as int, j) && spoils(nodes, kernel, r[0], #[trigger] r[j]);
    let q = r[j];
    assert(r.contains(r[j]));
    assert(low <= nodes[q as int].z <= high);
    let s = zs.index_of(q);
    assert(r[j] != r[0] && r[j] != r[1] && r[j] != r[n - 1]);
    assert(spoils_apart(nodes, kernel, ear, zs[s]));
    if s < e {
        assert(spoiler_below(nodes, kernel, ear, zs, e - 1, low));
    } else {
        assert(spoiler_above(nodes, kernel, ear, zs, e + 1, high));
    }
}

/// The scan of the ring finds the ear spoiled where it sees a spoiler.
proof fn lemma_scan_seen<K: Kernel>(nodes: Seq<Node>, kernel: &K, r: Seq<usize>)
    requires
        is_cycle(nodes, r),
    ensures
        ear_by_scan(nodes, kernel, r[0]) == (convex(nodes, kernel, r[0]) && !seen_by_scan(
            nodes,
            kernel,
            r,
        )),
{
    lemma_ring_unique(nodes, r, r[0]);
    if !seen_by_scan(nodes, kernel, r) {
        assert forall|j: int| 0 <= j < r.len() && scanned(r.len() as int, j) implies !spoils(
            nodes,
            kernel,
            r[0],
            #[trigger] ring(nodes, r[0])[j],
        ) by {
            if spoils(nodes, kernel, r[0], r[j]) {
                assert(seen_by_scan(nodes, kernel, r));
            }
        }
    }
}

/// The test for an ear with the spatial index agrees with the scan of the ring,
/// where the index holds the nodes of the ring in ascending order of their
/// z-order values, and every node that spoils the ear has its z-order value in
/// the range of the triangle's box.
pub proof fn lemma_index_agrees<K: Kernel>(
    nodes: Seq<Node>,
    kernel: &K,
    hash: HashParameters,
    c: Seq<usize>,
    zs: Seq<usize>,
    k: int,
)
    requires
        is_cycle(nodes, c),
        c.len() >= 3,
        0 <= k < c.len(),
        is_chain(nodes, zs),
        ascending(nodes, zs),
        forall|x: usize| zs.contains(x) <==> c.contains(x),
        forall|j: int|
            0 <= j < c.len() && spoils(nodes, kernel, c[k], #[trigger] c[j]) ==> low_z(
                nodes,
                kernel,
                hash,
                c[k],
            ) <= nodes[c[j] as int].z <= high_z(nodes, kernel, hash, c[k]),
    ensures
        ear_by_index(nodes, kernel, hash, c[k]) == ear_by_scan(nodes, kernel, c[k]),
{
    let ear = c[k];
    let r = rotated(c, k);
    lemma_rotated_cycle(nodes, c, k);
    let low = low_z(nodes, kernel, hash, ear);
    let high = high_z(nodes, kernel, hash, ear);
    assert(c.contains(c[k]));
    let e = zs.index_of(ear);
    lemma_distinct_bounded(zs, nodes.len());
    assert(nodes[zs[e] as int].prev_z == listed_at(zs, e - 1));
    assert(nodes[zs[e] as int].next_z == listed_at(zs, e + 1));
    lemma_walk_below(nodes, kernel, ear, zs, e - 1, low, nodes.len());
    lemma_walk_above(nodes, kernel, ear, zs, e + 1, high, nodes.len());
    lemma_scan_seen(nodes, kernel, r);
    assert forall|j: int| 0 <= j < r.len() && spoils(nodes, kernel, r[0], #[trigger] r[j]) implies low
        <= nodes[r[j] as int].z <= high by {
        assert(r.contains(r[j]));
        let jc = c.index_of(r[j]);
        assert(spoils(nodes, kernel, c[k], c[jc]));
    }
    if found_by_index(nodes, kernel, zs, e, low, high) {
        lemma_found_seen(nodes, kernel, r, zs, e, low, high);
    }
    if seen_by_scan(nodes, kernel, r) {
        lemma_seen_found(nodes, kernel, r, zs, e, low, high);
    }
}

} // verus!
