//! Threading the nodes of a ring in z-order.

use vstd::prelude::*;
use crate::geometry::sound;
use crate::kernel::{HashParameters, Kernel};
use crate::ring::{
    has_ring, is_chain, lemma_list_unique, linked, list, on_ring, pred, ring, succ, Node, Rings,
};
use crate::sort::{ordered, sort_linked, z_values};
use crate::zorder::z_value;

verus! {

/// The z-order list `zs` threads the nodes of the ring `c`, in ascending order of
/// their z-order values, and nodes of the same value in the order of the ring.
pub open spec fn indexes(nodes: Seq<Node>, c: Seq<usize>, zs: Seq<usize>) -> bool {
    &&& is_chain(nodes, zs)
    &&& zs.len() == c.len()
    &&& ordered(z_values(nodes), c, zs, 0, zs.len() as int)
    &&& forall|x: usize| zs.contains(x) <==> c.contains(x)
}

/// What indexing the ring of `start` leaves: every node of the ring has its
/// z-order value, unless it had one, and the nodes of the ring are threaded in
/// ascending order of it. Nothing else has changed.
pub open spec fn curve_indexed<K: Kernel>(
    before: Seq<Node>,
    after: Seq<Node>,
    kernel: &K,
    hash: HashParameters,
    start: usize,
) -> bool {
    let c = ring(before, start);
    &&& linked(after)
    &&& after.len() == before.len()
    &&& forall|j: int|
        0 <= j < before.len() ==> {
            &&& (#[trigger] after[j]).i == before[j].i
            &&& after[j].prev == before[j].prev
            &&& after[j].next == before[j].next
            &&& after[j].steiner == before[j].steiner
            &&& (!c.contains(j as usize) ==> after[j] == before[j])
            &&& (c.contains(j as usize) ==> after[j].z == (if before[j].z == 0 {
                z_value(kernel, hash, before[j].i, before[j].i)
            } else {
                before[j].z
            }))
        }
    &&& exists|zs: Seq<usize>| indexes(after, c, zs)
}

/// Interlinks the nodes of the ring of `start` in z-order.
pub fn index_curve<K: Kernel>(rings: &mut Rings, kernel: &K, hash: &HashParameters, start: usize)
    requires
        sound(old(rings)@, kernel),
        has_ring(old(rings)@, start),
        hash.within(kernel.count()),
    ensures
        curve_indexed(old(rings)@, final(rings)@, kernel, *hash, start),
{
    let ghost c = ring(rings@, start);
    let ghost n = c.len() as int;
    let ghost mut k: int = 0;
    let mut p = start;
    loop
        invariant_except_break
            0 <= k < n,
            p == c[k],
        invariant
            0 <= k <= n,
            n == c.len(),
            c == ring(old(rings)@, start),
            on_ring(old(rings)@, c, start),
            sound(old(rings)@, kernel),
            sound(rings@, kernel),
            hash.within(kernel.count()),
            rings@.len() == old(rings)@.len(),
            forall|j: int|
                0 <= j < rings@.len() ==> {
                    &&& (#[trigger] rings@[j]).i == old(rings)@[j].i
                    &&& rings@[j].prev == old(rings)@[j].prev
                    &&& rings@[j].next == old(rings)@[j].next
                    &&& rings@[j].steiner == old(rings)@[j].steiner
                },
            forall|j: int|
                0 <= j < rings@.len() && !c.contains(j as usize) ==> (#[trigger] rings@[j]) == old(
                    rings,
                )@[j],
            forall|u: int| k <= u < n ==> (#[trigger] rings@[c[u] as int]) == old(rings)@[c[u] as int],
            forall|u: int|
                0 <= u < k ==> {
                    &&& (#[trigger] rings@[c[u] as int]).prev_z == Some(c[pred(u, n)])
                    &&& rings@[c[u] as int].next_z == Some(c[succ(u, n)])
                    &&& rings@[c[u] as int].z == (if old(rings)@[c[u] as int].z == 0 {
                        z_value(kernel, *hash, old(rings)@[c[u] as int].i, old(rings)@[c[u] as int].i)
                    } else {
                        old(rings)@[c[u] as int].z
                    })
                },
        ensures
            k == n,
            p == start,
        decreases n - k,
    {
        assert(old(rings)@[c[k] as int].next == c[succ(k, n)]);
        assert(old(rings)@[c[k] as int].prev == c[pred(k, n)]);
        assert(rings@[c[k] as int] == old(rings)@[c[k] as int]);
        let ghost before = rings@;
        if rings.nodes[p].z == 0 {
            let i = rings.nodes[p].i;
            rings.nodes[p].z = hash.z_order(kernel, i, i);
        }
        let prev = rings.nodes[p].prev;
        let next = rings.nodes[p].next;
        rings.nodes[p].prev_z = Some(prev);
        rings.nodes[p].next_z = Some(next);
        proof {
            assert forall|u: int| k + 1 <= u < n implies (#[trigger] rings@[c[u] as int]) == old(
                rings,
            )@[c[u] as int] by {
                assert(c[u] != c[k]);
                assert(before[c[u] as int] == old(rings)@[c[u] as int]);
            }
            assert forall|u: int| 0 <= u < k + 1 implies {
                &&& (#[trigger] rings@[c[u] as int]).prev_z == Some(c[pred(u, n)])
                &&& rings@[c[u] as int].next_z == Some(c[succ(u, n)])
                &&& rings@[c[u] as int].z == (if old(rings)@[c[u] as int].z == 0 {
                    z_value(kernel, *hash, old(rings)@[c[u] as int].i, old(rings)@[c[u] as int].i)
                } else {
                    old(rings)@[c[u] as int].z
                })
            } by {
                if u < k {
                    assert(c[u] != c[k]);
                    assert(before[c[u] as int].prev_z == Some(c[pred(u, n)]));
                }
            }
            assert forall|j: int| 0 <= j < rings@.len() && !c.contains(j as usize) implies (#[trigger] rings@[j])
                == old(rings)@[j] by {
                assert(c.contains(c[k]));
                assert(before[j] == old(rings)@[j]);
            }
            assert(linked(rings@)) by {
                assert forall|j: int| 0 <= j < rings@.len() implies {
                    &&& (#[trigger] rings@[j]).prev < rings@.len()
                    &&& rings@[j].next < rings@.len()
                    &&& (rings@[j].prev_z matches Some(q) ==> q < rings@.len())
                    &&& (rings@[j].next_z matches Some(q) ==> q < rings@.len())
                } by {
                    assert(before[j].prev < before.len());
                }
            }
            k = k + 1;
        }
        p = next;
        if p == start {
            assert(k == n) by {
                if k < n {
                    assert(c[k] != c[0]);
                }
            }
            break ;
        }
    }
    let last = rings.nodes[p].prev;
    assert(old(rings)@[c[0] as int].prev == c[pred(0, n)]);
    let ghost mid = rings@;
    rings.nodes[last].next_z = None;
    rings.nodes[p].prev_z = None;
    proof {
        assert(is_chain(rings@, c)) by {
            assert forall|u: int| 0 <= u < n implies {
                &&& (#[trigger] rings@[c[u] as int]).next_z == (if u + 1 < n {
                    Some(c[u + 1])
                } else {
                    None
                })
                &&& rings@[c[u] as int].prev_z == (if u > 0 {
                    Some(c[u - 1])
                } else {
                    None
                })
            } by {
                assert(mid[c[u] as int].prev_z == Some(c[pred(u, n)]));
                if u != 0 {
                    assert(c[u] != c[0]);
                }
                if u != n - 1 {
                    assert(c[u] != c[n - 1]);
                }
            }
        }
        assert(linked(rings@)) by {
            assert forall|j: int| 0 <= j < rings@.len() implies {
                &&& (#[trigger] rings@[j]).prev < rings@.len()
                &&& rings@[j].next < rings@.len()
                &&& (rings@[j].prev_z matches Some(q) ==> q < rings@.len())
                &&& (rings@[j].next_z matches Some(q) ==> q < rings@.len())
            } by {
                assert(mid[j].prev < mid.len());
            }
        }
        lemma_list_unique(rings@, c, start);
    }
    let ghost threaded = rings@;
    let head = sort_linked(rings, p);
    proof {
        let zs = crate::ring::list(rings@, head);
        assert(indexes(rings@, c, zs));
        assert forall|j: int| 0 <= j < rings@.len() implies {
            &&& (#[trigger] rings@[j]).i == old(rings)@[j].i
            &&& rings@[j].prev == old(rings)@[j].prev
            &&& rings@[j].next == old(rings)@[j].next
            &&& rings@[j].steiner == old(rings)@[j].steiner
            &&& (!c.contains(j as usize) ==> rings@[j] == old(rings)@[j])
            &&& (c.contains(j as usize) ==> rings@[j].z == (if old(rings)@[j].z == 0 {
                z_value(kernel, *hash, old(rings)@[j].i, old(rings)@[j].i)
            } else {
                old(rings)@[j].z
            }))
        } by {
            assert(rings.nodes.len() == rings@.len());
            assert(j as usize as int == j);
            assert(mid[j].i == old(rings)@[j].i);
            assert(mid[j].prev == old(rings)@[j].prev);
            assert(threaded[j].i == mid[j].i);
            assert(threaded[j].prev == mid[j].prev);
            assert(threaded[j].next == mid[j].next);
            assert(threaded[j].steiner == mid[j].steiner);
            assert(threaded[j].z == mid[j].z);
            assert(rings@[j].i == threaded[j].i);
            assert(rings@[j].z == threaded[j].z);
            if c.contains(j as usize) {
                let u = c.index_of(j as usize);
                assert(mid[c[u] as int].prev_z == Some(c[pred(u, n)]));
                assert(threaded[j].z == mid[j].z);
            } else {
                assert(mid[j] == old(rings)@[j]);
                assert(c.contains(c[0]));
                assert(c.contains(c[n - 1]));
                assert(threaded[j] == mid[j]);
                assert(rings@[j] == threaded[j]);
            }
        }
    }
}

} // verus!
