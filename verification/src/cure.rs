//! The cure for small local self-intersections.

use vstd::prelude::*;
use crate::filter::{
    lemma_shrunk_worked, lemma_thinned_live, lemma_thinned_start, lemma_thinned_step, shrunk,
    thinned, without, worked,
};
use crate::geometry::{coincide, crossing, equals, intersects, inward, locally_inside, sound};
use crate::kernel::Kernel;
use crate::ring::{
    all_unchained, coherent, has_ring, is_cycle, lemma_removed_fields, lemma_ring_unique, linked,
    pred, removed, ring, rotated, succ, threaded, wound, Node, Rings,
};
use crate::triangle::{corner, in_range, lemma_pushed};

verus! {

/// The corner at node `p` and the one behind it make a small self-intersection
/// that can be cut out: the edge into `p` crosses the edge two further on, and
/// the nodes `a` before `p` and `b` two behind it can see each other.
pub open spec fn bowtie<K: Kernel>(nodes: Seq<Node>, kernel: &K, p: usize) -> bool {
    let a = nodes[p as int].prev;
    let q = nodes[p as int].next;
    let b = nodes[q as int].next;
    &&& b != a
    &&& b != p
    &&& !coincide(nodes, kernel, a as int, b as int)
    &&& crossing(nodes, kernel, a as int, p as int, q as int, b as int)
    &&& inward(nodes, kernel, a as int, b as int)
    &&& inward(nodes, kernel, b as int, a as int)
}

/// The triangle that curing the self-intersection at node `p` cuts off.
pub open spec fn patch(nodes: Seq<Node>, p: usize) -> [usize; 3] {
    [
        nodes[nodes[p as int].prev as int].i,
        nodes[p as int].i,
        nodes[nodes[nodes[p as int].next as int].next as int].i,
    ]
}

/// Position `k` is the first of the ring `c` at which there is a
/// self-intersection to cure.
pub open spec fn first_bowtie<K: Kernel>(nodes: Seq<Node>, kernel: &K, c: Seq<usize>, k: int) -> bool {
    &&& 0 <= k < c.len()
    &&& bowtie(nodes, kernel, c[k])
    &&& forall|j: int| 0 <= j < k ==> !bowtie(nodes, kernel, #[trigger] c[j])
}

/// What is left of the ring `live` once the node at position `k` and the node
/// behind it have been taken out, read from the node behind those.
pub open spec fn cure_ring(live: Seq<usize>, k: int) -> Seq<usize> {
    rotated(rotated(live.remove(k), behind_cut(k, live.len() as int)).remove(0), 0)
}

/// Where the node behind position `k` of a ring of `n` nodes stands once the node
/// at `k` has been taken out.
pub open spec fn behind_cut(k: int, n: int) -> int {
    if k == n - 1 {
        0
    } else {
        k
    }
}

/// Taking two nodes that follow each other out of what is left of a ring.
proof fn lemma_cure_step<K: Kernel>(
    before: Seq<Node>,
    nodes: Seq<Node>,
    kernel: &K,
    ring0: Seq<usize>,
    live: Seq<usize>,
    threads: bool,
    zs: Seq<usize>,
    k: int,
)
    requires
        thinned(before, nodes, kernel, ring0, live, threads, zs),
        0 <= k < live.len(),
        live.len() >= 4,
    ensures
        ({
            let n = live.len() as int;
            let p = live[k];
            let q = live[succ(k, n)];
            let b = live[succ(succ(k, n), n)];
            let once = removed(nodes, p as int);
            let twice = removed(once, q as int);
            let rest = cure_ring(live, k);
            &&& thinned(before, twice, kernel, ring0, rest, threads, without(without(zs, p), q))
            &&& sound(twice, kernel)
            &&& is_cycle(twice, rest)
            &&& rest.len() == n - 2
            &&& rest[0] == b
            &&& linked(once)
            &&& once.len() == nodes.len()
            &&& q < nodes.len()
            &&& once[p as int].next == q
        }),
{
    let n = live.len() as int;
    let p = live[k];
    let q = live[succ(k, n)];
    let b = live[succ(succ(k, n), n)];
    let at1 = behind_cut(k, n);
    lemma_thinned_live(before, nodes, kernel, ring0, live, threads, zs);
    assert(nodes[live[k] as int].next == live[succ(k, n)]);
    assert(nodes[live[succ(k, n)] as int].next == live[succ(succ(k, n), n)]);
    lemma_thinned_step(before, nodes, kernel, ring0, live, threads, zs, k, at1);
    lemma_removed_fields(nodes, p as int);
    let once = removed(nodes, p as int);
    let live1 = rotated(live.remove(k), at1);
    let zs1 = without(zs, p);
    assert(live1[0] == q);
    assert(live[pred(k, n)] != live[k]);
    assert(nodes[live[k] as int].prev == live[pred(k, n)]);
    assert(live[succ(k, n)] != live[pred(k, n)]);
    lemma_thinned_live(before, once, kernel, ring0, live1, threads, zs1);
    assert(once[live1[0] as int].next == live1[succ(0, n - 1)]);
    assert(live1[1] == b);
    lemma_thinned_step(before, once, kernel, ring0, live1, threads, zs1, 0, 0);
    let live2 = rotated(live1.remove(0), 0);
    assert(live2 =~= live1.remove(0));
    assert(live2[0] == b);
    lemma_thinned_live(
        before,
        removed(once, q as int),
        kernel,
        ring0,
        live2,
        threads,
        without(zs1, q),
    );
}

/// The walk in search of self-intersections, `fuel` steps of it at most, from the
/// node `p` on, to end at `stop`: the arena and the triangles that it leaves
/// and the node at which it ends, or nothing where it has not ended yet.
///
/// At each step: where the node has a self-intersection, the triangle is added,
/// the node and the one behind it are removed, and the walk goes on behind the
/// node two further on, to end there. From any other node the walk goes on to
/// the next. It is over when the node it goes on to is its end.
pub open spec fn cure_walk<K: Kernel>(
    nodes: Seq<Node>,
    kernel: &K,
    out: Seq<[usize; 3]>,
    p: usize,
    stop: usize,
    fuel: nat,
) -> Option<(Seq<Node>, Seq<[usize; 3]>, usize)>
    decreases fuel,
{
    let q = nodes[p as int].next;
    let b = nodes[q as int].next;
    if fuel == 0 {
        None
    } else if bowtie(nodes, kernel, p) {
        let after = removed(removed(nodes, p as int), q as int);
        let grown = out.push(patch(nodes, p));
        let next = after[b as int].next;
        if next == b {
            Some((after, grown, next))
        } else {
            cure_walk(after, kernel, grown, next, b, (fuel - 1) as nat)
        }
    } else if q == stop {
        Some((nodes, out, q))
    } else {
        cure_walk(nodes, kernel, out, q, stop, (fuel - 1) as nat)
    }
}

/// After `k` steps the walk in search of self-intersections from `start` stands at
/// the node `p` of the arena `nodes`, with the triangles `out`, to end at `stop`.
#[verifier::opaque]
pub open spec fn curing<K: Kernel>(
    before: Seq<Node>,
    kernel: &K,
    had: Seq<[usize; 3]>,
    start: usize,
    k: nat,
    nodes: Seq<Node>,
    out: Seq<[usize; 3]>,
    p: usize,
    stop: usize,
) -> bool {
    forall|f: nat| #[trigger]
        cure_walk(before, kernel, had, start, start, k + f) == cure_walk(
            nodes,
            kernel,
            out,
            p,
            stop,
            f,
        )
}

/// Before its first step the walk stands where it starts.
proof fn lemma_curing_start<K: Kernel>(
    before: Seq<Node>,
    kernel: &K,
    had: Seq<[usize; 3]>,
    start: usize,
)
    ensures
        curing(before, kernel, had, start, 0, before, had, start, start),
{
    reveal(curing);
    assert forall|f: nat| #[trigger]
        cure_walk(before, kernel, had, start, start, 0 + f) == cure_walk(
            before,
            kernel,
            had,
            start,
            start,
            f,
        ) by {
        assert(0 + f == f);
    }
}

/// One step of the walk in search of self-intersections.
proof fn lemma_curing_step<K: Kernel>(
    before: Seq<Node>,
    kernel: &K,
    had: Seq<[usize; 3]>,
    start: usize,
    k: nat,
    nodes: Seq<Node>,
    out: Seq<[usize; 3]>,
    p: usize,
    stop: usize,
)
    requires
        curing(before, kernel, had, start, k, nodes, out, p, stop),
    ensures
        cure_walk(before, kernel, had, start, start, k + 1) == cure_walk(
            nodes,
            kernel,
            out,
            p,
            stop,
            1,
        ),
        ({
            let q = nodes[p as int].next;
            let b = nodes[q as int].next;
            let after = removed(removed(nodes, p as int), q as int);
            &&& (bowtie(nodes, kernel, p) && after[b as int].next != b ==> curing(
                before,
                kernel,
                had,
                start,
                k + 1,
                after,
                out.push(patch(nodes, p)),
                after[b as int].next,
                b,
            ))
            &&& (!bowtie(nodes, kernel, p) && q != stop ==> curing(
                before,
                kernel,
                had,
                start,
                k + 1,
                nodes,
                out,
                q,
                stop,
            ))
        }),
{
    reveal(curing);
    assert(cure_walk(before, kernel, had, start, start, k + 1) == cure_walk(
        nodes,
        kernel,
        out,
        p,
        stop,
        1,
    ));
    let q = nodes[p as int].next;
    let b = nodes[q as int].next;
    let after = removed(removed(nodes, p as int), q as int);
    if bowtie(nodes, kernel, p) && after[b as int].next != b {
        assert forall|f: nat| #[trigger]
            cure_walk(before, kernel, had, start, start, (k + 1) + f) == cure_walk(
                after,
                kernel,
                out.push(patch(nodes, p)),
                after[b as int].next,
                b,
                f,
            ) by {
            assert((k + 1) + f == k + (f + 1));
            assert(cure_walk(before, kernel, had, start, start, k + (f + 1)) == cure_walk(
                nodes,
                kernel,
                out,
                p,
                stop,
                f + 1,
            ));
            assert(((f + 1) - 1) as nat == f);
        }
    }
    if !bowtie(nodes, kernel, p) && q != stop {
        assert forall|f: nat| #[trigger]
            cure_walk(before, kernel, had, start, start, (k + 1) + f) == cure_walk(
                nodes,
                kernel,
                out,
                q,
                stop,
                f,
            ) by {
            assert((k + 1) + f == k + (f + 1));
            assert(cure_walk(before, kernel, had, start, start, k + (f + 1)) == cure_walk(
                nodes,
                kernel,
                out,
                p,
                stop,
                f + 1,
            ));
            assert(((f + 1) - 1) as nat == f);
        }
    }
}

/// What curing the ring of `start` has left, where `r` is the node returned.
#[verifier::opaque]
pub open spec fn cured<K: Kernel>(
    before: Seq<Node>,
    after: Seq<Node>,
    kernel: &K,
    start: usize,
    r: usize,
    had: Seq<[usize; 3]>,
    has: Seq<[usize; 3]>,
) -> bool {
    let was = ring(before, start);
    let is = ring(after, r);
    &&& sound(after, kernel)
    &&& shrunk(before, after, was)
    &&& has_ring(after, r)
    &&& forall|x: usize| #[trigger] is.contains(x) ==> was.contains(x)
    &&& wound(was, is)
    &&& has.len() >= had.len()
    &&& has.subrange(0, had.len() as int) == had
    &&& in_range(has, had.len() as int, kernel.count())
    &&& is.len() + 2 * (has.len() - had.len()) == was.len()
    &&& (has.len() > had.len() ==> is.len() >= 2)
    &&& (coherent(before, was) ==> coherent(after, is))
    &&& (all_unchained(before) ==> all_unchained(after))
    &&& ((forall|k: int| 0 <= k < was.len() ==> !bowtie(before, kernel, #[trigger] was[k]))
        ==> after == before && r == start && has == had)
    &&& forall|k: int|
        first_bowtie(before, kernel, was, k) ==> has.len() > had.len()
            && has[had.len() as int] == patch(before, #[trigger] was[k])
    &&& exists|fuel: nat| #[trigger]
        cure_walk(before, kernel, had, start, start, fuel) == Some((after, has, r))
}

/// The end of a cure.
proof fn lemma_cured<K: Kernel>(
    before: Seq<Node>,
    after: Seq<Node>,
    kernel: &K,
    start: usize,
    live: Seq<usize>,
    zs: Seq<usize>,
    had: Seq<[usize; 3]>,
    has: Seq<[usize; 3]>,
    first: Option<int>,
    fuel: nat,
)
    requires
        has_ring(before, start),
        thinned(
            before,
            after,
            kernel,
            ring(before, start),
            live,
            coherent(before, ring(before, start)),
            zs,
        ),
        cure_walk(before, kernel, had, start, start, fuel) == Some((after, has, live[0])),
        has.len() >= had.len(),
        has.subrange(0, had.len() as int) == had,
        in_range(has, had.len() as int, kernel.count()),
        live.len() + 2 * (has.len() - had.len()) == ring(before, start).len(),
        has.len() > had.len() ==> live.len() >= 2,
        first is None ==> after == before && live[0] == start && has == had && forall|k: int|
            0 <= k < ring(before, start).len() ==> !bowtie(
                before,
                kernel,
                #[trigger] ring(before, start)[k],
            ),
        first matches Some(k) ==> first_bowtie(before, kernel, ring(before, start), k) && has.len() > had.len() && has[had.len() as int] == patch(
            before,
            ring(before, start)[k],
        ),
    ensures
        cured(before, after, kernel, start, live[0], had, has),
{
    reveal(thinned);
    reveal(cured);
    let was = ring(before, start);
    lemma_ring_unique(after, live, live[0]);
    if coherent(before, was) {
        assert(threaded(after, live, zs));
    }
    assert forall|k: int| first_bowtie(before, kernel, was, k) implies has.len()
        > had.len() && has[had.len() as int] == patch(before, #[trigger] was[k]) by {
        match first {
            None => {
                assert(!bowtie(before, kernel, was[k]));
            },
            Some(f) => {
                if k < f {
                    assert(!bowtie(before, kernel, was[k]));
                }
                if f < k {
                    assert(!bowtie(before, kernel, was[f]));
                }
            },
        }
    }
    if first is Some {
        let f = first->0;
        assert(bowtie(before, kernel, was[f]));
    }
}

/// What curing leaves for the work that follows it.
pub proof fn lemma_cured_facts<K: Kernel>(
    before: Seq<Node>,
    after: Seq<Node>,
    kernel: &K,
    start: usize,
    r: usize,
    had: Seq<[usize; 3]>,
    has: Seq<[usize; 3]>,
)
    requires
        cured(before, after, kernel, start, r, had, has),
    ensures
        sound(after, kernel),
        after.len() == before.len(),
        worked(before, after, kernel, ring(before, start)),
        has_ring(after, r),
        forall|x: usize| #[trigger] ring(after, r).contains(x) ==> ring(before, start).contains(x),
        has.len() >= had.len(),
        has.subrange(0, had.len() as int) == had,
        in_range(has, had.len() as int, kernel.count()),
        ring(after, r).len() + 2 * (has.len() - had.len()) == ring(before, start).len(),
        has.len() > had.len() ==> ring(after, r).len() >= 2,
        coherent(before, ring(before, start)) ==> coherent(after, ring(after, r)),
        all_unchained(before) ==> all_unchained(after),
{
    reveal(cured);
    lemma_shrunk_worked(before, after, kernel, ring(before, start));
}

/// Goes through the nodes of the ring of `start` and cures small local
/// self-intersections: where the edge into a node crosses the edge two further
/// on, the triangle between them is cut off and the two nodes between are taken
/// out of the ring. Returns a node of what is left of the ring.
///
/// A ring of fewer than four nodes has nothing to cure.
pub fn cure_local_intersections<K: Kernel>(
    rings: &mut Rings,
    kernel: &K,
    start: usize,
    indices: &mut Vec<[usize; 3]>,
) -> (r: usize)
    requires
        sound(old(rings)@, kernel),
        has_ring(old(rings)@, start),
    ensures
        cured(old(rings)@, final(rings)@, kernel, start, r, old(indices)@, final(indices)@),
{
    let ghost before = rings@;
    let ghost had = indices@;
    let ghost ring0 = ring(before, start);
    let ghost threads = coherent(before, ring0);
    let ghost mut zs: Seq<usize> = if threads {
        choose|zs: Seq<usize>| threaded(before, ring0, zs)
    } else {
        Seq::empty()
    };
    let ghost mut live = ring0;
    let ghost mut kp: int = 0;
    let ghost mut first: Option<int> = None;
    proof {
        lemma_thinned_start(before, kernel, ring0, 0, threads, zs);
        assert(rotated(ring0, 0) =~= ring0);
        assert(cured_so_far(before, before, kernel, ring0, ring0, had, had, None, 0)) by {
            reveal(cured_so_far);
        }
        lemma_curing_start(before, kernel, had, start);
    }
    let ghost mut steps: nat = 0;
    let mut p = start;
    let mut stop = start;
    loop
        invariant_except_break
            cured_so_far(before, rings@, kernel, ring0, live, had, indices@, first, kp),
            curing(before, kernel, had, start, steps, rings@, indices@, p, stop),
        invariant
            thinned(before, rings@, kernel, ring0, live, threads, zs),
            sound(rings@, kernel),
            is_cycle(rings@, live),
            0 <= kp < live.len(),
            p == live[kp],
            stop == live[0],
            indices@.len() >= had.len(),
            indices@.subrange(0, had.len() as int) == had,
            in_range(indices@, had.len() as int, kernel.count()),
            live.len() + 2 * (indices@.len() - had.len()) == ring0.len(),
            indices@.len() > had.len() ==> live.len() >= 2,
        ensures
            p == live[0],
            cured_so_far(
                before,
                rings@,
                kernel,
                ring0,
                live,
                had,
                indices@,
                first,
                if first is None {
                    ring0.len() as int
                } else {
                    0
                },
            ),
            cure_walk(before, kernel, had, start, start, steps + 1) == Some((rings@, indices@, p)),
        decreases live.len(), live.len() - kp,
    {
        let ghost n = live.len() as int;
        let a = rings.prev(p);
        let q = rings.next(p);
        assert(rings@[live[kp] as int].next == live[succ(kp, n)]);
        assert(rings@[live[kp] as int].prev == live[pred(kp, n)]);
        assert(rings@[live[succ(kp, n)] as int].next == live[succ(succ(kp, n), n)]);
        let b = rings.next(q);
        proof {
            lemma_curing_step(before, kernel, had, start, steps, rings@, indices@, p, stop);
        }
        if b != a && b != p && !equals(rings, kernel, a, b) && intersects(rings, kernel, a, p, q, b)
            && locally_inside(rings, kernel, a, b) && locally_inside(rings, kernel, b, a) {
            assert(bowtie(rings@, kernel, p));
            assert(n >= 4) by {
                if n == 3 {
                    assert(succ(succ(kp, n), n) == pred(kp, n));
                }
                if n <= 2 {
                    assert(succ(succ(kp, n), n) == kp);
                }
            }
            let pa = rings.index(a);
            let pp = rings.index(p);
            let pb = rings.index(b);
            proof {
                lemma_pushed(had, indices@, [pa, pp, pb], kernel.count());
                assert([pa, pp, pb] == patch(rings@, p));
                let found = if first is None { Some(kp) } else { first };
                lemma_cure_found(
                    before,
                    rings@,
                    kernel,
                    ring0,
                    live,
                    had,
                    indices@,
                    first,
                    kp,
                    removed(removed(rings@, p as int), q as int),
                    cure_ring(live, kp),
                    found,
                );
                lemma_cure_step(before, rings@, kernel, ring0, live, threads, zs, kp);
                first = found;
                zs = without(without(zs, p), q);
                live = cure_ring(live, kp);
                kp = 0;
            }
            indices.push([pa, pp, pb]);
            rings.remove(p);
            rings.remove(q);
            stop = b;
            p = b;
            proof {
                lemma_cure_passed(before, rings@, kernel, ring0, live, had, indices@, first);
            }
        } else {
            proof {
                lemma_cure_none(before, rings@, kernel, ring0, live, had, indices@, first, kp);
            }
        }
        assert(rings@[live[kp] as int].next == live[succ(kp, live.len() as int)]);
        p = rings.next(p);
        if p == stop {
            proof {
                if kp + 1 < live.len() {
                    assert(live[kp + 1] != live[0]);
                }
                lemma_cure_round(before, rings@, kernel, ring0, live, had, indices@, first, kp + 1);
                kp = 0;
            }
            break ;
        }
        proof {
            if kp + 1 >= live.len() {
                assert(succ(kp, live.len() as int) == 0);
            }
            kp = kp + 1;
            steps = steps + 1;
        }
    }
    proof {
        lemma_cure_over(before, rings@, kernel, ring0, live, had, indices@, first);
        lemma_cured(before, rings@, kernel, start, live, zs, had, indices@, first, steps + 1);
    }
    p
}

/// What the search for self-intersections has seen so far: until the first one
/// is cured nothing has changed, and no node passed had one; from then on the
/// first triangle is that of the first self-intersection of the ring.
#[verifier::opaque]
pub open spec fn cured_so_far<K: Kernel>(
    before: Seq<Node>,
    nodes: Seq<Node>,
    kernel: &K,
    ring0: Seq<usize>,
    live: Seq<usize>,
    had: Seq<[usize; 3]>,
    has: Seq<[usize; 3]>,
    first: Option<int>,
    kp: int,
) -> bool {
    match first {
        None => nodes == before && live == ring0 && has == had && forall|j: int|
            0 <= j < kp && j < ring0.len() ==> !bowtie(before, kernel, #[trigger] ring0[j]),
        Some(k) => first_bowtie(before, kernel, ring0, k) && has.len() > had.len()
            && has[had.len() as int] == patch(before, ring0[k]),
    }
}

/// The node at which the search stands has a self-intersection, which is cured.
proof fn lemma_cure_found<K: Kernel>(
    before: Seq<Node>,
    nodes: Seq<Node>,
    kernel: &K,
    ring0: Seq<usize>,
    live: Seq<usize>,
    had: Seq<[usize; 3]>,
    has: Seq<[usize; 3]>,
    first: Option<int>,
    kp: int,
    after: Seq<Node>,
    rest: Seq<usize>,
    next: Option<int>,
)
    requires
        cured_so_far(before, nodes, kernel, ring0, live, had, has, first, kp),
        0 <= kp < live.len(),
        has.len() >= had.len(),
        bowtie(nodes, kernel, live[kp]),
        next == (if first is None {
            Some(kp)
        } else {
            first
        }),
    ensures
        cured_so_far(
            before,
            after,
            kernel,
            ring0,
            rest,
            had,
            has.push(patch(nodes, live[kp])),
            next,
            0,
        ),
{
    reveal(cured_so_far);
}

/// After a cure the position of the search does not matter.
proof fn lemma_cure_passed<K: Kernel>(
    before: Seq<Node>,
    nodes: Seq<Node>,
    kernel: &K,
    ring0: Seq<usize>,
    live: Seq<usize>,
    had: Seq<[usize; 3]>,
    has: Seq<[usize; 3]>,
    first: Option<int>,
)
    requires
        cured_so_far(before, nodes, kernel, ring0, live, had, has, first, 0),
        first is Some,
    ensures
        forall|kp: int| #[trigger]
            cured_so_far(before, nodes, kernel, ring0, live, had, has, first, kp),
{
    reveal(cured_so_far);
}

/// The node at which the search stands has no self-intersection.
proof fn lemma_cure_none<K: Kernel>(
    before: Seq<Node>,
    nodes: Seq<Node>,
    kernel: &K,
    ring0: Seq<usize>,
    live: Seq<usize>,
    had: Seq<[usize; 3]>,
    has: Seq<[usize; 3]>,
    first: Option<int>,
    kp: int,
)
    requires
        cured_so_far(before, nodes, kernel, ring0, live, had, has, first, kp),
        0 <= kp < live.len(),
        !bowtie(nodes, kernel, live[kp]),
    ensures
        cured_so_far(before, nodes, kernel, ring0, live, had, has, first, kp + 1),
{
    reveal(cured_so_far);
}

/// The search has gone round the ring.
proof fn lemma_cure_round<K: Kernel>(
    before: Seq<Node>,
    nodes: Seq<Node>,
    kernel: &K,
    ring0: Seq<usize>,
    live: Seq<usize>,
    had: Seq<[usize; 3]>,
    has: Seq<[usize; 3]>,
    first: Option<int>,
    kp: int,
)
    requires
        cured_so_far(before, nodes, kernel, ring0, live, had, has, first, kp),
        kp >= live.len(),
    ensures
        cured_so_far(
            before,
            nodes,
            kernel,
            ring0,
            live,
            had,
            has,
            first,
            if first is None {
                ring0.len() as int
            } else {
                0
            },
        ),
{
    reveal(cured_so_far);
}

/// What the search has seen, once it has gone round the ring.
proof fn lemma_cure_over<K: Kernel>(
    before: Seq<Node>,
    nodes: Seq<Node>,
    kernel: &K,
    ring0: Seq<usize>,
    live: Seq<usize>,
    had: Seq<[usize; 3]>,
    has: Seq<[usize; 3]>,
    first: Option<int>,
)
    requires
        cured_so_far(
            before,
            nodes,
            kernel,
            ring0,
            live,
            had,
            has,
            first,
            if first is None {
                ring0.len() as int
            } else {
                0
            },
        ),
    ensures
        first is None ==> nodes == before && live == ring0 && has == had && forall|k: int|
            0 <= k < ring0.len() ==> !bowtie(before, kernel, #[trigger] ring0[k]),
        first matches Some(k) ==> first_bowtie(before, kernel, ring0, k) && has.len() > had.len()
            && has[had.len() as int] == patch(before, ring0[k]),
{
    reveal(cured_so_far);
}

} // verus!
