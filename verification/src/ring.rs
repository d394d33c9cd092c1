//! The arena of vertex nodes and the rings that their links form.
//!
//! A ring is a closed, doubly linked cycle of nodes. Nodes can be appended to a
//! ring, removed from it, and two nodes can be joined by a bridge, which cuts
//! one ring in two or makes two rings one. Beside the ring links every node
//! has the links of a second list, which orders nodes by z-order value.

use vstd::prelude::*;

verus! {

/// One vertex of a polygon while it is being triangulated.
///
/// Nodes live in an arena and name each other by their position in it.
#[derive(Clone, Copy, Debug)]
pub struct Node {
    /// Index of the vertex in the flattened input.
    pub i: usize,
    /// Previous vertex of the ring.
    pub prev: usize,
    /// Next vertex of the ring.
    pub next: usize,
    /// Z-order value of the vertex, zero while it has not been computed.
    pub z: u32,
    /// Previous node in z-order.
    pub prev_z: Option<usize>,
    /// Next node in z-order.
    pub next_z: Option<usize>,
    /// Marks a hole that has collapsed to a single point.
    pub steiner: bool,
}

impl Node {
    /// A node for input point `i` between `prev` and `next`, without a z-order
    /// value.
    pub fn new(i: usize, prev: usize, next: usize) -> (node: Node)
        ensures
            node == fresh(i, prev, next),
    {
        Node { i, prev, next, z: 0, prev_z: None, next_z: None, steiner: false }
    }
}

/// Position after `k` on a cycle of `n` positions.
pub open spec fn succ(k: int, n: int) -> int {
    if k + 1 < n {
        k + 1
    } else {
        0
    }
}

/// Position before `k` on a cycle of `n` positions.
pub open spec fn pred(k: int, n: int) -> int {
    if k > 0 {
        k - 1
    } else {
        n - 1
    }
}

/// Every link of every node names a node of the arena.
pub open spec fn linked(nodes: Seq<Node>) -> bool {
    forall|j: int|
        0 <= j < nodes.len() ==> {
            &&& (#[trigger] nodes[j]).prev < nodes.len()
            &&& nodes[j].next < nodes.len()
            &&& (nodes[j].prev_z matches Some(q) ==> q < nodes.len())
            &&& (nodes[j].next_z matches Some(q) ==> q < nodes.len())
        }
}

/// Every node stands for one of the first `count` input points.
pub open spec fn indexed(nodes: Seq<Node>, count: usize) -> bool {
    forall|j: int| 0 <= j < nodes.len() ==> (#[trigger] nodes[j]).i < count
}

/// The nodes `c`, in this order, form a closed ring: each is followed by the
/// next one, the last by the first, and `prev` undoes `next`.
pub open spec fn is_cycle(nodes: Seq<Node>, c: Seq<usize>) -> bool {
    &&& c.len() > 0
    &&& c.no_duplicates()
    &&& forall|k: int| 0 <= k < c.len() ==> (#[trigger] c[k]) < nodes.len()
    &&& forall|k: int|
        0 <= k < c.len() ==> {
            &&& (#[trigger] nodes[c[k] as int]).next == c[succ(k, c.len() as int)]
            &&& nodes[c[k] as int].prev == c[pred(k, c.len() as int)]
        }
}

/// The nodes `zs`, in this order, form the list that the z-order links thread.
pub open spec fn is_chain(nodes: Seq<Node>, zs: Seq<usize>) -> bool {
    &&& zs.no_duplicates()
    &&& forall|k: int| 0 <= k < zs.len() ==> (#[trigger] zs[k]) < nodes.len()
    &&& forall|k: int|
        0 <= k < zs.len() ==> {
            &&& (#[trigger] nodes[zs[k] as int]).next_z == (if k + 1 < zs.len() {
                Some(zs[k + 1])
            } else {
                None
            })
            &&& nodes[zs[k] as int].prev_z == (if k > 0 {
                Some(zs[k - 1])
            } else {
                None
            })
        }
}

/// The node has no z-order neighbour.
pub open spec fn unchained(node: Node) -> bool {
    node.prev_z is None && node.next_z is None
}

/// No node of the arena has a z-order neighbour.
pub open spec fn all_unchained(nodes: Seq<Node>) -> bool {
    forall|j: int| 0 <= j < nodes.len() ==> unchained(#[trigger] nodes[j])
}

/// The z-order links thread the list `zs`, and every node of the ring `c` is on
/// that list or has no z-order neighbour.
pub open spec fn threaded(nodes: Seq<Node>, c: Seq<usize>, zs: Seq<usize>) -> bool {
    &&& is_chain(nodes, zs)
    &&& forall|k: int|
        0 <= k < c.len() ==> zs.contains(#[trigger] c[k]) || unchained(nodes[c[k] as int])
}

/// The z-order links around the ring `c` are sound: removing a node of the ring
/// leaves every z-order list a list.
pub open spec fn coherent(nodes: Seq<Node>, c: Seq<usize>) -> bool {
    exists|zs: Seq<usize>| threaded(nodes, c, zs)
}

/// The ring links of the two nodes agree, and so does what they stand for.
pub open spec fn same_links(a: Node, b: Node) -> bool {
    &&& a.i == b.i
    &&& a.prev == b.prev
    &&& a.next == b.next
    &&& a.steiner == b.steiner
}

/// The arena after node `p` has been cut out of its ring.
pub open spec fn unlinked(nodes: Seq<Node>, p: int) -> Seq<Node> {
    let a = nodes[p].prev as int;
    let b = nodes[p].next as int;
    let s = nodes.update(b, Node { prev: nodes[p].prev, ..nodes[b] });
    s.update(a, Node { next: nodes[p].next, ..s[a] })
}

/// The arena after node `p` has been cut out of its z-order list.
pub open spec fn unthreaded(nodes: Seq<Node>, p: int) -> Seq<Node> {
    let s = match nodes[p].prev_z {
        Some(q) => nodes.update(q as int, Node { next_z: nodes[p].next_z, ..nodes[q as int] }),
        None => nodes,
    };
    match nodes[p].next_z {
        Some(q) => s.update(q as int, Node { prev_z: nodes[p].prev_z, ..s[q as int] }),
        None => s,
    }
}

/// The link `link` names node `j`.
pub open spec fn names(link: Option<usize>, j: int) -> bool {
    link matches Some(q) && q == j
}

/// The arena after node `p` has been removed: its neighbours are joined to each
/// other, in the ring and in z-order, and `p` itself is left as it was.
#[verifier::opaque]
pub open spec fn removed(nodes: Seq<Node>, p: int) -> Seq<Node> {
    unthreaded(unlinked(nodes, p), p)
}

/// Cutting a node out of a ring of two or more leaves the others a ring.
pub proof fn lemma_removed_cycle(nodes: Seq<Node>, c: Seq<usize>, k: int)
    requires
        linked(nodes),
        is_cycle(nodes, c),
        0 <= k < c.len(),
        c.len() >= 2,
    ensures
        is_cycle(removed(nodes, c[k] as int), c.remove(k)),
        linked(removed(nodes, c[k] as int)),
{
    let p = c[k] as int;
    let n = c.len() as int;
    let after = removed(nodes, p);
    let d = c.remove(k);
    lemma_removed_fields(nodes, p);
    assert(c[succ(k, n)] == nodes[p].next);
    assert(c[pred(k, n)] == nodes[p].prev);
    assert(d.no_duplicates()) by {
        assert forall|i: int, j: int| 0 <= i < d.len() && 0 <= j < d.len() && i != j implies d[i]
            != d[j] by {
            let ii = if i < k { i } else { i + 1 };
            let jj = if j < k { j } else { j + 1 };
            assert(d[i] == c[ii] && d[j] == c[jj]);
        }
    }
    assert forall|j: int| 0 <= j < d.len() implies {
        &&& (#[trigger] after[d[j] as int]).next == d[succ(j, d.len() as int)]
        &&& after[d[j] as int].prev == d[pred(j, d.len() as int)]
    } by {
        let jj = if j < k { j } else { j + 1 };
        assert(d[j] == c[jj]);
        let sj = succ(j, d.len() as int);
        let sjj = if sj < k { sj } else { sj + 1 };
        assert(d[sj] == c[sjj]);
        let pj = pred(j, d.len() as int);
        let pjj = if pj < k { pj } else { pj + 1 };
        assert(d[pj] == c[pjj]);
        assert(c[succ(jj, n)] == nodes[c[jj] as int].next);
        assert(c[pred(jj, n)] == nodes[c[jj] as int].prev);
        assert(c[jj] != c[k]);
        if succ(jj, n) == k {
            assert(c[jj] == nodes[p].prev);
            assert(sjj == succ(k, n));
        } else {
            assert(c[succ(jj, n)] != c[k]);
            assert(c[jj] != c[pred(k, n)]);
        }
        if pred(jj, n) == k {
            assert(c[jj] == nodes[p].next);
            assert(pjj == pred(k, n));
        } else {
            assert(c[pred(jj, n)] != c[k]);
            assert(c[jj] != c[succ(k, n)]);
        }
    }
}

/// What removing node `p` changes, field by field.
pub proof fn lemma_removed_fields(nodes: Seq<Node>, p: int)
    requires
        linked(nodes),
        0 <= p < nodes.len(),
    ensures
        removed(nodes, p).len() == nodes.len(),
        linked(removed(nodes, p)),
        forall|j: int|
            0 <= j < nodes.len() ==> {
                &&& (#[trigger] removed(nodes, p)[j]).i == nodes[j].i
                &&& removed(nodes, p)[j].z == nodes[j].z
                &&& removed(nodes, p)[j].steiner == nodes[j].steiner
                &&& removed(nodes, p)[j].prev == (if j == nodes[p].next {
                    nodes[p].prev
                } else {
                    nodes[j].prev
                })
                &&& removed(nodes, p)[j].next == (if j == nodes[p].prev {
                    nodes[p].next
                } else {
                    nodes[j].next
                })
                &&& removed(nodes, p)[j].prev_z == (if names(nodes[p].next_z, j) {
                    nodes[p].prev_z
                } else {
                    nodes[j].prev_z
                })
                &&& removed(nodes, p)[j].next_z == (if names(nodes[p].prev_z, j) {
                    nodes[p].next_z
                } else {
                    nodes[j].next_z
                })
            },
{
    reveal(removed);
    let s = unlinked(nodes, p);
    assert(s.len() == nodes.len());
    assert(s[p].prev_z == nodes[p].prev_z);
    assert(s[p].next_z == nodes[p].next_z);
}


/// Cutting a node out of the z-order list leaves the others a list.
pub proof fn lemma_removed_chain(nodes: Seq<Node>, zs: Seq<usize>, k: int)
    requires
        linked(nodes),
        is_chain(nodes, zs),
        0 <= k < zs.len(),
    ensures
        is_chain(removed(nodes, zs[k] as int), zs.remove(k)),
{
    let p = zs[k] as int;
    let after = removed(nodes, p);
    let d = zs.remove(k);
    lemma_removed_fields(nodes, p);
    assert(nodes[zs[k] as int].next_z == (if k + 1 < zs.len() {
        Some(zs[k + 1])
    } else {
        None
    }));
    assert(d.no_duplicates()) by {
        assert forall|i: int, j: int| 0 <= i < d.len() && 0 <= j < d.len() && i != j implies d[i]
            != d[j] by {
            let ii = if i < k { i } else { i + 1 };
            let jj = if j < k { j } else { j + 1 };
            assert(d[i] == zs[ii] && d[j] == zs[jj]);
        }
    }
    assert forall|j: int| 0 <= j < d.len() implies {
        &&& (#[trigger] after[d[j] as int]).next_z == (if j + 1 < d.len() {
            Some(d[j + 1])
        } else {
            None
        })
        &&& after[d[j] as int].prev_z == (if j > 0 {
            Some(d[j - 1])
        } else {
            None
        })
    } by {
        let jj = if j < k { j } else { j + 1 };
        assert(d[j] == zs[jj]);
        assert(zs[jj] != zs[k]);
        assert(nodes[zs[jj] as int].next_z == (if jj + 1 < zs.len() {
            Some(zs[jj + 1])
        } else {
            None
        }));
        if j + 1 < d.len() {
            let nj = if j + 1 < k { j + 1 } else { j + 2 };
            assert(d[j + 1] == zs[nj]);
        }
        if j > 0 {
            let pj = if j - 1 < k { j - 1 } else { j };
            assert(d[j - 1] == zs[pj]);
        }
        if k + 1 < zs.len() {
            if jj != k + 1 {
                assert(zs[jj] != zs[k + 1]);
            }
        }
        if k > 0 {
            if jj != k - 1 {
                assert(zs[jj] != zs[k - 1]);
            }
        }
    }
}

/// Removing a node of a ring keeps the z-order links around the ring sound.
pub proof fn lemma_removed_threaded(nodes: Seq<Node>, c: Seq<usize>, k: int, zs: Seq<usize>)
    requires
        linked(nodes),
        is_cycle(nodes, c),
        0 <= k < c.len(),
        threaded(nodes, c, zs),
    ensures
        threaded(
            removed(nodes, c[k] as int),
            c.remove(k),
            if zs.contains(c[k]) {
                zs.remove(zs.index_of(c[k]))
            } else {
                zs
            },
        ),
{
    let p = c[k] as int;
    let after = removed(nodes, p);
    let d = c.remove(k);
    lemma_removed_fields(nodes, p);
    if zs.contains(c[k]) {
        let m = zs.index_of(c[k]);
        let ws = zs.remove(m);
        lemma_removed_chain(nodes, zs, m);
        assert(nodes[zs[m] as int].next_z == (if m + 1 < zs.len() {
            Some(zs[m + 1])
        } else {
            None
        }));
        assert forall|j: int| 0 <= j < d.len() implies ws.contains(#[trigger] d[j]) || unchained(
            after[d[j] as int],
        ) by {
            let jj = if j < k { j } else { j + 1 };
            assert(d[j] == c[jj]);
            assert(c[jj] != c[k]);
            if zs.contains(c[jj]) {
                let q = zs.index_of(c[jj]);
                let qq = if q < m { q } else { q - 1 };
                assert(ws[qq] == zs[q]);
            } else {
                assert(unchained(nodes[c[jj] as int]));
                if m + 1 < zs.len() {
                    assert(zs.contains(zs[m + 1]));
                }
                if m > 0 {
                    assert(zs.contains(zs[m - 1]));
                }
            }
        }
    } else {
        assert(unchained(nodes[p]));
        assert forall|j: int| 0 <= j < zs.len() implies {
            &&& (#[trigger] after[zs[j] as int]).next_z == (if j + 1 < zs.len() {
                Some(zs[j + 1])
            } else {
                None
            })
            &&& after[zs[j] as int].prev_z == (if j > 0 {
                Some(zs[j - 1])
            } else {
                None
            })
        } by {
            assert(nodes[zs[j] as int].next_z == (if j + 1 < zs.len() {
                Some(zs[j + 1])
            } else {
                None
            }));
        }
        assert forall|j: int| 0 <= j < d.len() implies zs.contains(#[trigger] d[j]) || unchained(
            after[d[j] as int],
        ) by {
            let jj = if j < k { j } else { j + 1 };
            assert(d[j] == c[jj]);
        }
    }
}

/// A ring stays a ring while the links of its nodes stay as they are.
pub proof fn lemma_cycle_frame(nodes: Seq<Node>, after: Seq<Node>, c: Seq<usize>)
    requires
        is_cycle(nodes, c),
        after.len() >= nodes.len(),
        forall|k: int|
            0 <= k < c.len() ==> same_links(nodes[#[trigger] c[k] as int], after[c[k] as int]),
    ensures
        is_cycle(after, c),
{
    assert forall|k: int| 0 <= k < c.len() implies {
        &&& (#[trigger] after[c[k] as int]).next == c[succ(k, c.len() as int)]
        &&& after[c[k] as int].prev == c[pred(k, c.len() as int)]
    } by {
        assert(same_links(nodes[c[k] as int], after[c[k] as int]));
        assert(nodes[c[k] as int].next == c[succ(k, c.len() as int)]);
    }
}

/// The ring `c` starts at node `p`.
pub open spec fn on_ring(nodes: Seq<Node>, c: Seq<usize>, p: usize) -> bool {
    is_cycle(nodes, c) && c[0] == p
}

/// Node `p` is on a ring.
pub open spec fn has_ring(nodes: Seq<Node>, p: usize) -> bool {
    exists|c: Seq<usize>| on_ring(nodes, c, p)
}

/// The ring of node `p`, from `p` on in the order of the `next` links.
pub open spec fn ring(nodes: Seq<Node>, p: usize) -> Seq<usize> {
    choose|c: Seq<usize>| on_ring(nodes, c, p)
}

/// The ring turned so that it starts at position `k`.
pub open spec fn rotated(c: Seq<usize>, k: int) -> Seq<usize> {
    c.subrange(k, c.len() as int) + c.subrange(0, k)
}

/// A ring may be read from any of its nodes.
pub proof fn lemma_rotated_cycle(nodes: Seq<Node>, c: Seq<usize>, k: int)
    requires
        is_cycle(nodes, c),
        0 <= k < c.len(),
    ensures
        is_cycle(nodes, rotated(c, k)),
        rotated(c, k).len() == c.len(),
        rotated(c, k)[0] == c[k],
        forall|x: usize| c.contains(x) <==> rotated(c, k).contains(x),
{
    let n = c.len() as int;
    let r = rotated(c, k);
    assert forall|j: int| 0 <= j < n implies r[j] == c[if j + k < n { j + k } else { j + k - n }] by {}
    assert forall|i: int, j: int| 0 <= i < n && 0 <= j < n && i != j implies r[i] != r[j] by {
        let ii = if i + k < n { i + k } else { i + k - n };
        let jj = if j + k < n { j + k } else { j + k - n };
        assert(r[i] == c[ii] && r[j] == c[jj]);
    }
    assert forall|j: int| 0 <= j < n implies (#[trigger] r[j]) < nodes.len() by {
        let jj = if j + k < n { j + k } else { j + k - n };
        assert(r[j] == c[jj]);
    }
    assert forall|j: int| 0 <= j < n implies {
        &&& (#[trigger] nodes[r[j] as int]).next == r[succ(j, n)]
        &&& nodes[r[j] as int].prev == r[pred(j, n)]
    } by {
        let jj = if j + k < n { j + k } else { j + k - n };
        assert(r[j] == c[jj]);
        assert(nodes[c[jj] as int].next == c[succ(jj, n)]);
        let sj = succ(j, n);
        assert(r[sj] == c[if sj + k < n { sj + k } else { sj + k - n }]);
        let pj = pred(j, n);
        assert(r[pj] == c[if pj + k < n { pj + k } else { pj + k - n }]);
    }
    assert forall|x: usize| c.contains(x) <==> r.contains(x) by {
        if c.contains(x) {
            let j = c.index_of(x);
            let jj = if j >= k { j - k } else { j - k + n };
            assert(r[jj] == x);
        }
        if r.contains(x) {
            let j = r.index_of(x);
            let jj = if j + k < n { j + k } else { j + k - n };
            assert(c[jj] == x);
        }
    }
}

/// Two rings that share a node at given positions agree from there on.
proof fn lemma_cycles_agree(nodes: Seq<Node>, c: Seq<usize>, d: Seq<usize>, j: int)
    requires
        is_cycle(nodes, c),
        is_cycle(nodes, d),
        c[0] == d[0],
        0 <= j < c.len(),
        j < d.len(),
    ensures
        c[j] == d[j],
    decreases j,
{
    if j > 0 {
        lemma_cycles_agree(nodes, c, d, j - 1);
        assert(nodes[c[j - 1] as int].next == c[succ(j - 1, c.len() as int)]);
        assert(nodes[d[j - 1] as int].next == d[succ(j - 1, d.len() as int)]);
    }
}

/// A node is on one ring only.
pub proof fn lemma_ring_unique(nodes: Seq<Node>, c: Seq<usize>, p: usize)
    requires
        on_ring(nodes, c, p),
    ensures
        has_ring(nodes, p),
        ring(nodes, p) == c,
{
    let d = ring(nodes, p);
    assert(on_ring(nodes, d, p));
    let n = c.len() as int;
    let m = d.len() as int;
    if n < m {
        lemma_cycles_agree(nodes, c, d, n - 1);
        assert(nodes[c[n - 1] as int].next == c[succ(n - 1, n)]);
        assert(nodes[d[n - 1] as int].next == d[succ(n - 1, m)]);
        assert(d[n] == d[0]);
        assert(false);
    }
    if m < n {
        lemma_cycles_agree(nodes, c, d, m - 1);
        assert(nodes[c[m - 1] as int].next == c[succ(m - 1, n)]);
        assert(nodes[d[m - 1] as int].next == d[succ(m - 1, m)]);
        assert(c[m] == c[0]);
        assert(false);
    }
    assert forall|j: int| 0 <= j < n implies c[j] == d[j] by {
        lemma_cycles_agree(nodes, c, d, j);
    }
    assert(c =~= d);
}

/// A node for input point `i` that has no z-order value yet.
pub open spec fn fresh(i: usize, prev: usize, next: usize) -> Node {
    Node { i, prev, next, z: 0, prev_z: None, next_z: None, steiner: false }
}

/// The arena after a node for input point `i` has been made and linked in
/// behind `tail`, or made a ring of its own where there is no tail.
pub open spec fn appended(nodes: Seq<Node>, tail: Option<usize>, i: usize) -> Seq<Node> {
    let m = nodes.len() as usize;
    match tail {
        None => nodes.push(fresh(i, m, m)),
        Some(last) => {
            let first = nodes[last as int].next;
            let s = nodes.push(fresh(i, last, first));
            let s = s.update(first as int, Node { prev: m, ..s[first as int] });
            s.update(last as int, Node { next: m, ..s[last as int] })
        },
    }
}

/// What appending a node changes.
pub proof fn lemma_appended_fields(nodes: Seq<Node>, tail: Option<usize>, i: usize)
    requires
        linked(nodes),
        nodes.len() < usize::MAX,
        tail matches Some(t) ==> t < nodes.len(),
    ensures
        appended(nodes, tail, i).len() == nodes.len() + 1,
        linked(appended(nodes, tail, i)),
        appended(nodes, tail, i)[nodes.len() as int].i == i,
        unchained(appended(nodes, tail, i)[nodes.len() as int]),
        !appended(nodes, tail, i)[nodes.len() as int].steiner,
        forall|j: int|
            0 <= j < nodes.len() ==> {
                &&& (#[trigger] appended(nodes, tail, i)[j]).i == nodes[j].i
                &&& appended(nodes, tail, i)[j].z == nodes[j].z
                &&& appended(nodes, tail, i)[j].steiner == nodes[j].steiner
                &&& appended(nodes, tail, i)[j].prev_z == nodes[j].prev_z
                &&& appended(nodes, tail, i)[j].next_z == nodes[j].next_z
                &&& (tail is None ==> appended(nodes, tail, i)[j] == nodes[j])
                &&& (tail matches Some(t) ==> j != t ==> appended(nodes, tail, i)[j].next
                    == nodes[j].next)
                &&& (tail matches Some(t) ==> j != nodes[t as int].next ==> appended(
                    nodes,
                    tail,
                    i,
                )[j].prev == nodes[j].prev)
            },
{
}

/// A node appended without a tail is a ring of its own.
pub proof fn lemma_appended_alone(nodes: Seq<Node>, i: usize)
    requires
        nodes.len() < usize::MAX,
    ensures
        is_cycle(appended(nodes, None, i), seq![nodes.len() as usize]),
{
    let after = appended(nodes, None, i);
    let c = seq![nodes.len() as usize];
    assert forall|k: int| 0 <= k < c.len() implies {
        &&& (#[trigger] after[c[k] as int]).next == c[succ(k, c.len() as int)]
        &&& after[c[k] as int].prev == c[pred(k, c.len() as int)]
    } by {}
}

/// A node appended behind the last node of a ring becomes its last node.
pub proof fn lemma_appended_cycle(nodes: Seq<Node>, c: Seq<usize>, i: usize)
    requires
        linked(nodes),
        nodes.len() < usize::MAX,
        is_cycle(nodes, c),
    ensures
        is_cycle(appended(nodes, Some(c.last()), i), c.push(nodes.len() as usize)),
{
    let n = c.len() as int;
    let last = c[n - 1];
    let m = nodes.len() as usize;
    let after = appended(nodes, Some(last), i);
    let d = c.push(m);
    assert(nodes[c[n - 1] as int].next == c[succ(n - 1, n)]);
    assert(nodes[last as int].next == c[0]);
    assert forall|k: int| 0 <= k < d.len() implies (#[trigger] d[k]) < after.len() by {
        if k < n {
            assert(d[k] == c[k]);
        }
    }
    assert forall|j: int, k: int| 0 <= j < d.len() && 0 <= k < d.len() && j != k implies d[j]
        != d[k] by {
        if j < n {
            assert(d[j] == c[j]);
        }
        if k < n {
            assert(d[k] == c[k]);
        }
    }
    assert forall|k: int| 0 <= k < d.len() implies {
        &&& (#[trigger] after[d[k] as int]).next == d[succ(k, d.len() as int)]
        &&& after[d[k] as int].prev == d[pred(k, d.len() as int)]
    } by {
        if k < n {
            assert(d[k] == c[k]);
            assert(nodes[c[k] as int].next == c[succ(k, n)]);
            assert(nodes[c[k] as int].prev == c[pred(k, n)]);
            if k != n - 1 {
                assert(c[k] != c[n - 1]);
            }
            if k != 0 {
                assert(c[k] != c[0]);
            }
        }
    }
}

/// The arena after the nodes `a` and `b` have been joined by a bridge: `a` now
/// leads to `b`, and a copy of `b` leads to a copy of `a`, which leads to what
/// followed `a`. The copy of `a` is the node before last, that of `b` the last.
pub open spec fn bridged(nodes: Seq<Node>, a: int, b: int) -> Seq<Node> {
    let m = nodes.len() as usize;
    let an = nodes[a].next;
    let bp = nodes[b].prev;
    let s = nodes.update(a, Node { next: b as usize, ..nodes[a] });
    let s = s.update(b, Node { prev: a as usize, ..s[b] });
    let s = s.push(fresh(nodes[a].i, (m + 1) as usize, an));
    let s = s.push(fresh(nodes[b].i, bp, m));
    let s = s.update(an as int, Node { prev: m, ..s[an as int] });
    s.update(bp as int, Node { next: (m + 1) as usize, ..s[bp as int] })
}

/// What a bridge changes.
pub proof fn lemma_bridged_fields(nodes: Seq<Node>, a: int, b: int)
    requires
        linked(nodes),
        nodes.len() + 2 <= usize::MAX,
        0 <= a < nodes.len(),
        0 <= b < nodes.len(),
    ensures
        bridged(nodes, a, b).len() == nodes.len() + 2,
        linked(bridged(nodes, a, b)),
        bridged(nodes, a, b)[nodes.len() as int].i == nodes[a].i,
        bridged(nodes, a, b)[nodes.len() as int + 1].i == nodes[b].i,
        unchained(bridged(nodes, a, b)[nodes.len() as int]),
        unchained(bridged(nodes, a, b)[nodes.len() as int + 1]),
        !bridged(nodes, a, b)[nodes.len() as int].steiner,
        !bridged(nodes, a, b)[nodes.len() as int + 1].steiner,
        forall|j: int|
            0 <= j < nodes.len() ==> {
                &&& (#[trigger] bridged(nodes, a, b)[j]).i == nodes[j].i
                &&& bridged(nodes, a, b)[j].z == nodes[j].z
                &&& bridged(nodes, a, b)[j].steiner == nodes[j].steiner
                &&& bridged(nodes, a, b)[j].prev_z == nodes[j].prev_z
                &&& bridged(nodes, a, b)[j].next_z == nodes[j].next_z
                &&& (j != a && j != nodes[b].prev ==> bridged(nodes, a, b)[j].next
                    == nodes[j].next)
                &&& (j != b && j != nodes[a].next ==> bridged(nodes, a, b)[j].prev
                    == nodes[j].prev)
            },
{
}

/// The ring that a bridge from a node of the ring `c` to a node of another ring
/// `d` leaves: `c[0]`, all of `d`, the two copies, and the rest of `c`.
pub open spec fn merged_ring(c: Seq<usize>, d: Seq<usize>, m: usize) -> Seq<usize> {
    seq![c[0]] + d + seq![(m + 1) as usize, m] + c.subrange(1, c.len() as int)
}

/// A bridge between two rings makes them one.
pub proof fn lemma_bridged_merge(nodes: Seq<Node>, c: Seq<usize>, d: Seq<usize>)
    requires
        linked(nodes),
        nodes.len() + 2 <= usize::MAX,
        is_cycle(nodes, c),
        is_cycle(nodes, d),
        forall|j: int, k: int| 0 <= j < c.len() && 0 <= k < d.len() ==> c[j] != d[k],
    ensures
        is_cycle(
            bridged(nodes, c[0] as int, d[0] as int),
            merged_ring(c, d, nodes.len() as usize),
        ),
        merged_ring(c, d, nodes.len() as usize).len() == c.len() + d.len() + 2,
{
    let a = c[0] as int;
    let b = d[0] as int;
    let m = nodes.len() as usize;
    let n1 = c.len() as int;
    let n2 = d.len() as int;
    let after = bridged(nodes, a, b);
    let r = merged_ring(c, d, m);
    let n = n1 + n2 + 2;
    lemma_bridged_fields(nodes, a, b);
    assert(r.len() == n);
    assert(r[0] == c[0]);
    assert forall|k: int| 1 <= k <= n2 implies r[k] == d[k - 1] by {}
    assert(r[n2 + 1] == (m + 1) as usize);
    assert(r[n2 + 2] == m);
    assert forall|k: int| n2 + 3 <= k < n implies r[k] == c[k - n2 - 2] by {}
    assert(nodes[c[0] as int].next == c[succ(0, n1)]);
    assert(nodes[c[0] as int].prev == c[pred(0, n1)]);
    assert(nodes[d[0] as int].next == d[succ(0, n2)]);
    assert(nodes[d[0] as int].prev == d[pred(0, n2)]);
    assert forall|k: int| 0 <= k < n implies (#[trigger] r[k]) < after.len() by {
        if k == 0 {
        } else if k <= n2 {
            assert(r[k] == d[k - 1]);
        } else if k >= n2 + 3 {
            assert(r[k] == c[k - n2 - 2]);
        }
    }
    assert forall|j: int, k: int| 0 <= j < n && 0 <= k < n && j != k implies r[j] != r[k] by {
        if 1 <= j <= n2 {
            assert(r[j] == d[j - 1]);
        }
        if 1 <= k <= n2 {
            assert(r[k] == d[k - 1]);
        }
        if j >= n2 + 3 {
            assert(r[j] == c[j - n2 - 2]);
        }
        if k >= n2 + 3 {
            assert(r[k] == c[k - n2 - 2]);
        }
    }
    assert forall|k: int| 0 <= k < n implies {
        &&& (#[trigger] after[r[k] as int]).next == r[succ(k, n)]
        &&& after[r[k] as int].prev == r[pred(k, n)]
    } by {
        if k == 0 {
            assert(r[1] == d[0]);
            if n1 > 1 {
                assert(r[n - 1] == c[n1 - 1]);
            }
        } else if k <= n2 {
            let q = k - 1;
            assert(r[k] == d[q]);
            assert(nodes[d[q] as int].next == d[succ(q, n2)]);
            assert(nodes[d[q] as int].prev == d[pred(q, n2)]);
            assert(d[q] != c[0]);
            if q + 1 < n2 {
                assert(r[k + 1] == d[q + 1]);
                assert(d[q] != d[n2 - 1]);
            }
            if q > 0 {
                assert(r[k - 1] == d[q - 1]);
                assert(d[q] != d[0]);
            }
            if n1 > 1 {
                assert(d[q] != c[1]);
            }
        } else if k == n2 + 1 {
            assert(r[n2] == d[n2 - 1]);
        } else if k == n2 + 2 {
            if n1 > 1 {
                assert(r[n2 + 3] == c[1]);
            }
        } else {
            let q = k - n2 - 2;
            assert(r[k] == c[q]);
            assert(nodes[c[q] as int].next == c[succ(q, n1)]);
            assert(nodes[c[q] as int].prev == c[pred(q, n1)]);
            assert(c[q] != c[0]);
            assert(c[q] != d[0]);
            assert(c[q] != d[n2 - 1]);
            if q + 1 < n1 {
                assert(r[k + 1] == c[q + 1]);
            }
            if q > 1 {
                assert(r[k - 1] == c[q - 1]);
                assert(c[q] != c[1]);
            }
        }
    }
}

/// The half of a ring cut at positions 0 and `j` that keeps both nodes.
pub open spec fn kept_half(c: Seq<usize>, j: int) -> Seq<usize> {
    seq![c[0]] + c.subrange(j, c.len() as int)
}

/// The half of a ring cut at positions 0 and `j` that gets the two copies.
pub open spec fn cut_half(c: Seq<usize>, j: int, m: usize) -> Seq<usize> {
    seq![m] + c.subrange(1, j) + seq![(m + 1) as usize]
}

/// A bridge between two nodes of one ring that are not neighbours makes it two.
pub proof fn lemma_bridged_split(nodes: Seq<Node>, c: Seq<usize>, j: int)
    requires
        linked(nodes),
        nodes.len() + 2 <= usize::MAX,
        is_cycle(nodes, c),
        2 <= j < c.len(),
    ensures
        is_cycle(bridged(nodes, c[0] as int, c[j] as int), kept_half(c, j)),
        is_cycle(
            bridged(nodes, c[0] as int, c[j] as int),
            cut_half(c, j, nodes.len() as usize),
        ),
        kept_half(c, j).len() == c.len() - j + 1,
        cut_half(c, j, nodes.len() as usize).len() == j + 1,
{
    let a = c[0] as int;
    let b = c[j] as int;
    let m = nodes.len() as usize;
    let n = c.len() as int;
    let after = bridged(nodes, a, b);
    let r = kept_half(c, j);
    let t = cut_half(c, j, m);
    lemma_bridged_fields(nodes, a, b);
    assert(nodes[c[0] as int].next == c[succ(0, n)]);
    assert(nodes[c[j] as int].prev == c[pred(j, n)]);
    assert(c[0] != c[j]);
    // the half that keeps the two nodes
    let rn = n - j + 1;
    assert(r.len() == rn);
    assert forall|k: int| 1 <= k < rn implies r[k] == c[k + j - 1] by {}
    assert forall|k: int| 0 <= k < rn implies (#[trigger] r[k]) < after.len() by {
        if k >= 1 {
            assert(r[k] == c[k + j - 1]);
        }
    }
    assert forall|p: int, q: int| 0 <= p < rn && 0 <= q < rn && p != q implies r[p] != r[q] by {
        if p >= 1 {
            assert(r[p] == c[p + j - 1]);
        }
        if q >= 1 {
            assert(r[q] == c[q + j - 1]);
        }
    }
    assert forall|k: int| 0 <= k < rn implies {
        &&& (#[trigger] after[r[k] as int]).next == r[succ(k, rn)]
        &&& after[r[k] as int].prev == r[pred(k, rn)]
    } by {
        if k == 0 {
            assert(r[1] == c[j]);
            assert(r[rn - 1] == c[n - 1]);
            assert(nodes[c[0] as int].prev == c[pred(0, n)]);
            assert(c[0] != c[1]);
        } else {
            let q = k + j - 1;
            assert(r[k] == c[q]);
            assert(nodes[c[q] as int].next == c[succ(q, n)]);
            assert(nodes[c[q] as int].prev == c[pred(q, n)]);
            assert(c[q] != c[0]);
            assert(c[q] != c[j - 1]);
            assert(c[q] != c[1]);
            if q + 1 < n {
                assert(r[k + 1] == c[q + 1]);
            }
            if k > 1 {
                assert(r[k - 1] == c[q - 1]);
                assert(c[q] != c[j]);
            }
        }
    }
    // the half that gets the copies
    let tn = j + 1;
    assert(t.len() == tn);
    assert(t[0] == m);
    assert(t[j] == (m + 1) as usize);
    assert forall|k: int| 1 <= k < j implies t[k] == c[k] by {}
    assert forall|k: int| 0 <= k < tn implies (#[trigger] t[k]) < after.len() by {
        if 1 <= k < j {
            assert(t[k] == c[k]);
        }
    }
    assert forall|p: int, q: int| 0 <= p < tn && 0 <= q < tn && p != q implies t[p] != t[q] by {
        if 1 <= p < j {
            assert(t[p] == c[p]);
        }
        if 1 <= q < j {
            assert(t[q] == c[q]);
        }
    }
    assert forall|k: int| 0 <= k < tn implies {
        &&& (#[trigger] after[t[k] as int]).next == t[succ(k, tn)]
        &&& after[t[k] as int].prev == t[pred(k, tn)]
    } by {
        if k == 0 {
            assert(t[1] == c[1]);
        } else if k == j {
            assert(t[j - 1] == c[j - 1]);
        } else {
            assert(t[k] == c[k]);
            assert(nodes[c[k] as int].next == c[succ(k, n)]);
            assert(nodes[c[k] as int].prev == c[pred(k, n)]);
            assert(c[k] != c[0]);
            assert(c[k] != c[j]);
            if k + 1 < j {
                assert(t[k + 1] == c[k + 1]);
                assert(c[k] != c[j - 1]);
            }
            if k > 1 {
                assert(t[k - 1] == c[k - 1]);
                assert(c[k] != c[1]);
            }
        }
    }
}

/// The z-order list `zs` starts at node `p`.
pub open spec fn on_list(nodes: Seq<Node>, zs: Seq<usize>, p: usize) -> bool {
    is_chain(nodes, zs) && zs.len() > 0 && zs[0] == p
}

/// Node `p` is the head of a z-order list.
pub open spec fn has_list(nodes: Seq<Node>, p: usize) -> bool {
    exists|zs: Seq<usize>| on_list(nodes, zs, p)
}

/// The z-order list that starts at node `p`, in the order of the `next_z` links.
pub open spec fn list(nodes: Seq<Node>, p: usize) -> Seq<usize> {
    choose|zs: Seq<usize>| on_list(nodes, zs, p)
}

/// Two lists with the same head agree as far as both go.
proof fn lemma_lists_agree(nodes: Seq<Node>, c: Seq<usize>, d: Seq<usize>, j: int)
    requires
        is_chain(nodes, c),
        is_chain(nodes, d),
        c.len() > 0,
        d.len() > 0,
        c[0] == d[0],
        0 <= j < c.len(),
    ensures
        j < d.len(),
        c[j] == d[j],
    decreases j,
{
    if j > 0 {
        lemma_lists_agree(nodes, c, d, j - 1);
        assert(nodes[c[j - 1] as int].next_z == Some(c[j]));
        assert(nodes[d[j - 1] as int].next_z == (if j < d.len() {
            Some(d[j])
        } else {
            None
        }));
    }
}

/// A node heads one list only.
pub proof fn lemma_list_unique(nodes: Seq<Node>, zs: Seq<usize>, p: usize)
    requires
        on_list(nodes, zs, p),
    ensures
        has_list(nodes, p),
        list(nodes, p) == zs,
{
    let d = list(nodes, p);
    assert(on_list(nodes, d, p));
    lemma_lists_agree(nodes, zs, d, zs.len() - 1);
    lemma_lists_agree(nodes, d, zs, d.len() - 1);
    assert forall|j: int| 0 <= j < zs.len() implies zs[j] == d[j] by {
        lemma_lists_agree(nodes, zs, d, j);
    }
    assert(zs =~= d);
}

/// A list without repeats of numbers below `n` has `n` members at most.
pub proof fn lemma_distinct_bounded(s: Seq<usize>, n: nat)
    requires
        s.no_duplicates(),
        forall|k: int| 0 <= k < s.len() ==> (#[trigger] s[k]) < n,
    ensures
        s.len() <= n,
    decreases n,
{
    if n == 0 {
        if s.len() > 0 {
            assert(s[0] < n);
        }
    } else {
        let top = (n - 1) as usize;
        if s.contains(top) {
            let i = s.index_of(top);
            let t = s.remove(i);
            assert forall|k: int| 0 <= k < t.len() implies (#[trigger] t[k]) < n - 1 by {
                let kk = if k < i { k } else { k + 1 };
                assert(t[k] == s[kk]);
                assert(s[kk] != s[i]);
                assert(s[kk] < n);
            }
            assert(t.no_duplicates()) by {
                assert forall|a: int, b: int| 0 <= a < t.len() && 0 <= b < t.len() && a != b implies t[a]
                    != t[b] by {
                    let aa = if a < i { a } else { a + 1 };
                    let bb = if b < i { b } else { b + 1 };
                    assert(t[a] == s[aa] && t[b] == s[bb]);
                }
            }
            lemma_distinct_bounded(t, (n - 1) as nat);
        } else {
            assert forall|k: int| 0 <= k < s.len() implies (#[trigger] s[k]) < n - 1 by {
                assert(s[k] < n);
                assert(s.contains(s[k]));
            }
            lemma_distinct_bounded(s, (n - 1) as nat);
        }
    }
}

/// The node at position `j` of the ring `c` read twice over.
pub open spec fn twice(c: Seq<usize>, j: int) -> usize {
    if j < c.len() {
        c[j]
    } else {
        c[j - c.len()]
    }
}

/// The positions `idx` show where the nodes of `live` stand in the ring `was`:
/// one after the other and within one turn round the ring, which is read twice
/// over so that the turn may start anywhere.
pub open spec fn stands_at(was: Seq<usize>, live: Seq<usize>, idx: Seq<int>) -> bool {
    &&& idx.len() == live.len()
    &&& forall|k: int|
        0 <= k < idx.len() ==> 0 <= #[trigger] idx[k] < 2 * was.len() && live[k] == twice(
            was,
            idx[k],
        )
    &&& forall|j: int, k: int| 0 <= j < k < idx.len() ==> #[trigger] idx[j] < #[trigger] idx[k]
    &&& (idx.len() > 0 ==> idx[0] < was.len() && idx[idx.len() - 1] < idx[0] + was.len())
}

/// The ring `live` is made of nodes of the ring `was`, in the order in which they
/// stand there.
pub open spec fn wound(was: Seq<usize>, live: Seq<usize>) -> bool {
    exists|idx: Seq<int>| stands_at(was, live, idx)
}

/// A ring is made of its own nodes in their order.
pub proof fn lemma_wound_same(c: Seq<usize>)
    ensures
        wound(c, c),
{
    let idx = Seq::new(c.len(), |k: int| k);
    assert(stands_at(c, c, idx));
}

/// The positions `idx`, from `at` on and then from the start, the turn shifted so
/// that it starts in the first reading of the ring.
pub open spec fn turned_map(idx: Seq<int>, at: int, n: int) -> Seq<int> {
    if idx[at] >= n {
        Seq::new(
            idx.len(),
            |k: int|
                if k + at < idx.len() {
                    idx[k + at] - n
                } else {
                    idx[k + at - idx.len()]
                },
        )
    } else {
        Seq::new(
            idx.len(),
            |k: int|
                if k + at < idx.len() {
                    idx[k + at]
                } else {
                    idx[k + at - idx.len()] + n
                },
        )
    }
}

/// Reading a ring from another node keeps the order of its nodes.
pub proof fn lemma_wound_rotated(was: Seq<usize>, live: Seq<usize>, at: int)
    requires
        wound(was, live),
        0 <= at < live.len(),
    ensures
        wound(was, rotated(live, at)),
{
    let idx = choose|idx: Seq<int>| stands_at(was, live, idx);
    let n = was.len() as int;
    let m = live.len() as int;
    let r = rotated(live, at);
    let map = turned_map(idx, at, n);
    assert forall|k: int| 0 <= k < m implies r[k] == live[if k + at < m {
        k + at
    } else {
        k + at - m
    }] by {}
    assert forall|k: int| 0 <= k < map.len() implies 0 <= #[trigger] map[k] < 2 * n && r[k]
        == twice(was, map[k]) by {
        let kk = if k + at < m { k + at } else { k + at - m };
        assert(0 <= idx[kk] < 2 * n);
        assert(live[kk] == twice(was, idx[kk]));
        if kk < at {
            assert(idx[kk] < idx[at]);
        }
        if kk > at {
            assert(idx[at] < idx[kk]);
        }
        if kk > 0 {
            assert(idx[0] < idx[kk]);
        }
        if kk < m - 1 {
            assert(idx[kk] < idx[m - 1]);
        }
        if at > 0 {
            assert(idx[0] < idx[at]);
        }
    }
    assert forall|j: int, k: int| 0 <= j < k < map.len() implies #[trigger] map[j] < #[trigger] map[k] by {
        let jj = if j + at < m { j + at } else { j + at - m };
        let kk = if k + at < m { k + at } else { k + at - m };
        if jj < kk {
            assert(idx[jj] < idx[kk]);
        }
        if kk < m - 1 {
            assert(idx[kk] < idx[m - 1]);
        }
        if jj > 0 {
            assert(idx[0] < idx[jj]);
        }
        if kk > 0 {
            assert(idx[0] < idx[kk]);
        }
        if jj < m - 1 {
            assert(idx[jj] < idx[m - 1]);
        }
    }
    if at > 0 {
        assert(idx[at - 1] < idx[at]);
        assert(idx[0] < idx[at]);
    }
    if at < m - 1 {
        assert(idx[at] < idx[m - 1]);
    }
    assert(stands_at(was, r, map));
}

/// Taking a node out of a ring keeps the order of the others.
pub proof fn lemma_wound_removed(was: Seq<usize>, live: Seq<usize>, k: int)
    requires
        wound(was, live),
        0 <= k < live.len(),
        live.len() >= 2,
    ensures
        wound(was, live.remove(k)),
{
    let idx = choose|idx: Seq<int>| stands_at(was, live, idx);
    let n = was.len() as int;
    let m = live.len() as int;
    let cut = live.remove(k);
    let rest = idx.remove(k);
    let map = if rest[0] >= n {
        Seq::new(rest.len(), |j: int| rest[j] - n)
    } else {
        rest
    };
    assert forall|j: int| 0 <= j < rest.len() implies rest[j] == idx[if j < k {
        j
    } else {
        j + 1
    }] by {}
    assert forall|j: int| 0 <= j < map.len() implies 0 <= #[trigger] map[j] < 2 * n && cut[j]
        == twice(was, map[j]) by {
        let jj = if j < k { j } else { j + 1 };
        assert(0 <= idx[jj] < 2 * n);
        assert(live[jj] == twice(was, idx[jj]));
        let first = if 0 < k { 0 } else { 1 };
        assert(rest[0] == idx[first]);
        if first < jj {
            assert(idx[first] < idx[jj]);
        }
        if jj < m - 1 {
            assert(idx[jj] < idx[m - 1]);
        }
    }
    assert forall|i: int, j: int| 0 <= i < j < map.len() implies #[trigger] map[i] < #[trigger] map[j] by {
        let ii = if i < k { i } else { i + 1 };
        let jj = if j < k { j } else { j + 1 };
        assert(idx[ii] < idx[jj]);
    }
    let first = if 0 < k { 0 } else { 1 };
    let last = if k < m - 1 { m - 1 } else { m - 2 };
    assert(rest[0] == idx[first]);
    assert(rest[rest.len() - 1] == idx[last]);
    if first > 0 {
        assert(idx[0] < idx[first]);
    }
    if last < m - 1 {
        assert(idx[last] < idx[m - 1]);
    }
    assert(stands_at(was, cut, map));
}

/// The arena of the nodes of one triangulation.
pub struct Rings {
    pub nodes: Vec<Node>,
}

impl View for Rings {
    type V = Seq<Node>;

    open spec fn view(&self) -> Seq<Node> {
        self.nodes@
    }
}

impl Rings {
    /// An arena without nodes.
    pub fn new() -> (rings: Rings)
        ensures
            rings@.len() == 0,
    {
        Rings { nodes: Vec::new() }
    }

    /// Number of nodes ever made.
    pub fn len(&self) -> (n: usize)
        ensures
            n == self@.len(),
    {
        self.nodes.len()
    }

    /// Index in the flattened input of the vertex that node `p` stands for.
    pub fn index(&self, p: usize) -> (i: usize)
        requires
            p < self@.len(),
        ensures
            i == self@[p as int].i,
    {
        self.nodes[p].i
    }

    /// Previous node of `p` in its ring.
    pub fn prev(&self, p: usize) -> (q: usize)
        requires
            p < self@.len(),
        ensures
            q == self@[p as int].prev,
    {
        self.nodes[p].prev
    }

    /// Next node of `p` in its ring.
    pub fn next(&self, p: usize) -> (q: usize)
        requires
            p < self@.len(),
        ensures
            q == self@[p as int].next,
    {
        self.nodes[p].next
    }

    /// Whether node `p` stands for a hole that is a single point.
    pub fn is_steiner(&self, p: usize) -> (b: bool)
        requires
            p < self@.len(),
        ensures
            b == self@[p as int].steiner,
    {
        self.nodes[p].steiner
    }

    /// Z-order value of node `p`.
    pub fn z(&self, p: usize) -> (z: u32)
        requires
            p < self@.len(),
        ensures
            z == self@[p as int].z,
    {
        self.nodes[p].z
    }

    /// Previous node of `p` in z-order.
    pub fn prev_z(&self, p: usize) -> (q: Option<usize>)
        requires
            p < self@.len(),
        ensures
            q == self@[p as int].prev_z,
    {
        self.nodes[p].prev_z
    }

    /// Next node of `p` in z-order.
    pub fn next_z(&self, p: usize) -> (q: Option<usize>)
        requires
            p < self@.len(),
        ensures
            q == self@[p as int].next_z,
    {
        self.nodes[p].next_z
    }

    /// Makes a node for input point `i` and links it in behind `tail`; without a
    /// tail the node is a ring of its own. Returns the new node.
    pub fn append(&mut self, tail: Option<usize>, i: usize) -> (node: usize)
        requires
            linked(old(self)@),
            tail matches Some(t) ==> t < old(self)@.len(),
        ensures
            old(self)@.len() < usize::MAX,
            node == old(self)@.len(),
            final(self)@ == appended(old(self)@, tail, i),
            linked(final(self)@),
    {
        let node = self.nodes.len();
        match tail {
            None => {
                self.nodes.push(Node::new(i, node, node));
            },
            Some(last) => {
                let first = self.nodes[last].next;
                self.nodes.push(Node::new(i, last, first));
                self.nodes[first].prev = node;
                self.nodes[last].next = node;
            },
        }
        proof {
            assert(self.nodes.len() == old(self)@.len() + 1);
            lemma_appended_fields(old(self)@, tail, i);
        }
        node
    }

    /// Links the nodes `a` and `b` with a bridge. Where they are on one ring the
    /// bridge splits it in two; where they are on two rings it makes them one.
    /// Returns the copy of `b`, which the bridge leaves on the other side of `a`.
    pub fn split_polygon(&mut self, a: usize, b: usize) -> (c: usize)
        requires
            linked(old(self)@),
            a < old(self)@.len(),
            b < old(self)@.len(),
        ensures
            old(self)@.len() + 2 <= usize::MAX,
            c == old(self)@.len() + 1,
            final(self)@ == bridged(old(self)@, a as int, b as int),
            linked(final(self)@),
    {
        let ghost s0 = self@;
        let an = self.nodes[a].next;
        let bp = self.nodes[b].prev;
        let of_a = self.nodes[a].i;
        let of_b = self.nodes[b].i;
        self.nodes[a].next = b;
        self.nodes[b].prev = a;
        let ghost s2 = self@;
        let a2 = self.nodes.len();
        self.nodes.push(Node::new(of_a, a2, an));
        let b2 = self.nodes.len();
        self.nodes.push(Node::new(of_b, bp, a2));
        self.nodes[a2].prev = b2;
        let ghost s4 = self@;
        self.nodes[an].prev = a2;
        self.nodes[bp].next = b2;
        proof {
            assert(self.nodes.len() == s0.len() + 2);
            lemma_bridged_fields(s0, a as int, b as int);
            let m = s0.len() as usize;
            let t2 = s0.update(a as int, Node { next: b, ..s0[a as int] });
            let t2 = t2.update(b as int, Node { prev: a, ..t2[b as int] });
            assert(s2 =~= t2);
            let t4 = t2.push(fresh(s0[a as int].i, (m + 1) as usize, an)).push(
                fresh(s0[b as int].i, bp, m),
            );
            assert(s4 =~= t4);
            let t5 = t4.update(an as int, Node { prev: m, ..t4[an as int] });
            let t6 = t5.update(bp as int, Node { next: (m + 1) as usize, ..t5[bp as int] });
            assert(self@ =~= t6);
            assert(t6 == bridged(s0, a as int, b as int));
        }
        b2
    }

    /// Marks node `p` as standing for a hole that is a single point.
    pub fn mark_steiner(&mut self, p: usize)
        requires
            p < old(self)@.len(),
        ensures
            final(self)@ == old(self)@.update(
                p as int,
                Node { steiner: true, ..old(self)@[p as int] },
            ),
    {
        self.nodes[p].steiner = true;
    }

    /// Removes node `p` from its ring and from the z-order list. The node keeps
    /// its own links, so a walk that stands on it can still step off it.
    pub fn remove(&mut self, p: usize)
        requires
            linked(old(self)@),
            p < old(self)@.len(),
        ensures
            final(self)@ == removed(old(self)@, p as int),
            linked(final(self)@),
            final(self)@.len() == old(self)@.len(),
    {
        proof {
            reveal(removed);
            lemma_removed_fields(self@, p as int);
        }
        let before = self.nodes[p].prev;
        let after = self.nodes[p].next;
        self.nodes[after].prev = before;
        self.nodes[before].next = after;
        let before_z = self.nodes[p].prev_z;
        let after_z = self.nodes[p].next_z;
        if let Some(q) = before_z {
            self.nodes[q].next_z = after_z;
        }
        if let Some(q) = after_z {
            self.nodes[q].prev_z = before_z;
        }
    }
}

} // verus!
