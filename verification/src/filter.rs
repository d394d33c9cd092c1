//! The filter that takes collinear and duplicate points out of a ring.

use vstd::prelude::*;
use crate::geometry::{area, coincide, equals, sound, turn_at};
use crate::kernel::{Kernel, Sign};
use crate::ring::{
    all_unchained, coherent, has_ring, is_cycle, lemma_removed_cycle, lemma_removed_fields,
    lemma_removed_threaded, lemma_ring_unique, lemma_rotated_cycle, lemma_wound_removed,
    lemma_wound_rotated, lemma_wound_same, pred, removed, ring, rotated, same_links, succ, threaded,
    unchained, wound, Node, Rings,
};

verus! {

/// Node `p` adds nothing to the outline of its ring: it lies on the next node,
/// or on the line through its two neighbours. A node that stands for a hole
/// collapsed to a point is never taken for such a node.
pub open spec fn degenerate<K: Kernel>(nodes: Seq<Node>, kernel: &K, p: usize) -> bool {
    let node = nodes[p as int];
    &&& !node.steiner
    &&& (coincide(nodes, kernel, p as int, node.next as int) || turn_at(
        nodes,
        kernel,
        node.prev as int,
        p as int,
        node.next as int,
    ) == Sign::Zero)
}

/// No node of the ring `c` is degenerate.
pub open spec fn clean<K: Kernel>(nodes: Seq<Node>, kernel: &K, c: Seq<usize>) -> bool {
    forall|k: int| 0 <= k < c.len() ==> !degenerate(nodes, kernel, #[trigger] c[k])
}

/// How the arena `after` came from `before` where only nodes of the ring `c` were
/// taken out of it: no node was made, no node changed what it stands for, and
/// the links of the nodes off the ring are as they were.
pub open spec fn shrunk(before: Seq<Node>, after: Seq<Node>, c: Seq<usize>) -> bool {
    &&& after.len() == before.len()
    &&& forall|j: int|
        0 <= j < before.len() ==> {
            &&& (#[trigger] after[j]).i == before[j].i
            &&& after[j].steiner == before[j].steiner
            &&& after[j].z == before[j].z
        }
    &&& forall|j: int|
        0 <= j < before.len() && !c.contains(j as usize) ==> same_links(
            before[j],
            #[trigger] after[j],
        )
}

/// What holds of the arena while nodes of the ring `ring0` are being taken out of
/// it: `live` is what is left of the ring, and `zs` the z-order list.
#[verifier::opaque]
pub open spec fn thinned<K: Kernel>(
    before: Seq<Node>,
    nodes: Seq<Node>,
    kernel: &K,
    ring0: Seq<usize>,
    live: Seq<usize>,
    threads: bool,
    zs: Seq<usize>,
) -> bool {
    &&& sound(nodes, kernel)
    &&& is_cycle(nodes, live)
    &&& live.len() <= ring0.len()
    &&& forall|x: usize| #[trigger] live.contains(x) ==> ring0.contains(x)
    &&& wound(ring0, live)
    &&& shrunk(before, nodes, ring0)
    &&& (threads ==> threaded(nodes, live, zs))
    &&& (all_unchained(before) ==> all_unchained(nodes))
}

/// The z-order list after node `p` has left it.
pub open spec fn without(zs: Seq<usize>, p: usize) -> Seq<usize> {
    if zs.contains(p) {
        zs.remove(zs.index_of(p))
    } else {
        zs
    }
}

/// Position in `live.remove(k)` of the node before position `k` of `live`.
pub open spec fn before_cut(live: Seq<usize>, k: int) -> int {
    if k > 0 {
        k - 1
    } else {
        live.len() - 2
    }
}

/// A ring read from another node still has the z-order links sound.
pub proof fn lemma_rotated_threaded(nodes: Seq<Node>, c: Seq<usize>, k: int, zs: Seq<usize>)
    requires
        is_cycle(nodes, c),
        0 <= k < c.len(),
        threaded(nodes, c, zs),
    ensures
        threaded(nodes, rotated(c, k), zs),
{
    lemma_rotated_cycle(nodes, c, k);
    let r = rotated(c, k);
    assert forall|j: int| 0 <= j < r.len() implies zs.contains(#[trigger] r[j]) || unchained(
        nodes[r[j] as int],
    ) by {
        assert(r.contains(r[j]));
        assert(c.contains(r[j]));
        let q = c.index_of(r[j]);
        assert(zs.contains(c[q]) || unchained(nodes[c[q] as int]));
    }
}

/// Every node of the ring `ring0` that stands for a hole collapsed to a point is
/// still on what is left of the ring.
pub open spec fn keeps_steiner(before: Seq<Node>, ring0: Seq<usize>, live: Seq<usize>) -> bool {
    forall|x: usize| #[trigger] ring0.contains(x) && before[x as int].steiner ==> live.contains(x)
}

/// Taking a node that stands for no collapsed hole out of what is left of a ring
/// leaves the nodes that do.
pub proof fn lemma_keeps_steiner<K: Kernel>(
    before: Seq<Node>,
    nodes: Seq<Node>,
    kernel: &K,
    ring0: Seq<usize>,
    live: Seq<usize>,
    threads: bool,
    zs: Seq<usize>,
    k: int,
    at: int,
)
    requires
        thinned(before, nodes, kernel, ring0, live, threads, zs),
        is_cycle(before, ring0),
        keeps_steiner(before, ring0, live),
        0 <= k < live.len(),
        live.len() >= 2,
        0 <= at < live.len() - 1,
        !nodes[live[k] as int].steiner,
    ensures
        keeps_steiner(before, ring0, rotated(live.remove(k), at)),
{
    reveal(thinned);
    let cut = live.remove(k);
    lemma_removed_cycle(nodes, live, k);
    lemma_rotated_cycle(removed(nodes, live[k] as int), cut, at);
    let turned = rotated(cut, at);
    assert forall|x: usize|
        #[trigger] ring0.contains(x) && before[x as int].steiner implies turned.contains(x) by {
        assert(live.contains(x));
        let q = live.index_of(x);
        let j = ring0.index_of(x);
        assert(ring0[j] < before.len());
        assert(nodes[x as int].steiner == before[x as int].steiner);
        assert(q != k);
        let qq = if q < k { q } else { q - 1 };
        assert(cut[qq] == live[q]);
        assert(cut.contains(x));
    }
}

/// Taking one node out of what is left of a ring, and reading the rest from the
/// node at position `at`.
pub proof fn lemma_thinned_step<K: Kernel>(
    before: Seq<Node>,
    nodes: Seq<Node>,
    kernel: &K,
    ring0: Seq<usize>,
    live: Seq<usize>,
    threads: bool,
    zs: Seq<usize>,
    k: int,
    at: int,
)
    requires
        thinned(before, nodes, kernel, ring0, live, threads, zs),
        0 <= k < live.len(),
        live.len() >= 2,
        0 <= at < live.len() - 1,
    ensures
        thinned(
            before,
            removed(nodes, live[k] as int),
            kernel,
            ring0,
            rotated(live.remove(k), at),
            threads,
            without(zs, live[k]),
        ),
        rotated(live.remove(k), at).len() == live.len() - 1,
        rotated(live.remove(k), at)[0] == live.remove(k)[at],
        live.remove(k)[before_cut(live, k)] == nodes[live[k] as int].prev,
        is_cycle(removed(nodes, live[k] as int), live.remove(k)),
{
    reveal(thinned);
    let p = live[k];
    let cut = live.remove(k);
    let after = removed(nodes, p as int);
    let turned = rotated(cut, at);
    let n = live.len() as int;
    lemma_removed_cycle(nodes, live, k);
    lemma_removed_fields(nodes, p as int);
    assert(nodes[live[k] as int].next == live[succ(k, n)]);
    assert(nodes[live[k] as int].prev == live[pred(k, n)]);
    assert(cut[before_cut(live, k)] == nodes[p as int].prev);
    lemma_rotated_cycle(after, cut, at);
    lemma_wound_removed(ring0, live, k);
    lemma_wound_rotated(ring0, cut, at);
    if threads {
        lemma_removed_threaded(nodes, live, k, zs);
        lemma_rotated_threaded(after, cut, at, without(zs, p));
    }
    assert forall|x: usize| #[trigger] turned.contains(x) implies ring0.contains(x) by {
        assert(cut.contains(x));
        let q = cut.index_of(x);
        let qq = if q < k { q } else { q + 1 };
        assert(cut[q] == live[qq]);
        assert(live.contains(x));
    }
    assert(shrunk(before, after, ring0)) by {
        assert(live.contains(live[succ(k, n)]));
        assert(live.contains(live[pred(k, n)]));
        assert(ring0.contains(live[succ(k, n)]));
        assert(ring0.contains(live[pred(k, n)]));
        assert forall|j: int| 0 <= j < before.len() && !ring0.contains(j as usize) implies same_links(
            before[j],
            #[trigger] after[j],
        ) by {
            assert(same_links(before[j], nodes[j]));
            assert(j != nodes[p as int].next);
            assert(j != nodes[p as int].prev);
        }
    }
    assert(sound(after, kernel)) by {
        assert forall|j: int| 0 <= j < after.len() implies (#[trigger] after[j]).i
            < kernel.count() by {
            assert(nodes[j].i < kernel.count());
        }
    }
    if all_unchained(before) {
        assert forall|j: int| 0 <= j < after.len() implies unchained(#[trigger] after[j]) by {
            assert(unchained(nodes[j]));
            assert(unchained(nodes[p as int]));
        }
    }
}

/// What is left of a ring, read from its node at position `shift`.
pub proof fn lemma_thinned_start<K: Kernel>(
    nodes: Seq<Node>,
    kernel: &K,
    ring0: Seq<usize>,
    shift: int,
    threads: bool,
    zs: Seq<usize>,
)
    requires
        sound(nodes, kernel),
        is_cycle(nodes, ring0),
        0 <= shift < ring0.len(),
        threads ==> threaded(nodes, ring0, zs),
    ensures
        thinned(nodes, nodes, kernel, ring0, rotated(ring0, shift), threads, zs),
{
    reveal(thinned);
    let live = rotated(ring0, shift);
    lemma_rotated_cycle(nodes, ring0, shift);
    lemma_wound_same(ring0);
    lemma_wound_rotated(ring0, ring0, shift);
    if threads {
        lemma_rotated_threaded(nodes, ring0, shift, zs);
    }
}

/// What is left of a ring is a ring in a sound arena, and part of the ring.
pub proof fn lemma_thinned_live<K: Kernel>(
    before: Seq<Node>,
    nodes: Seq<Node>,
    kernel: &K,
    ring0: Seq<usize>,
    live: Seq<usize>,
    threads: bool,
    zs: Seq<usize>,
)
    requires
        thinned(before, nodes, kernel, ring0, live, threads, zs),
    ensures
        sound(nodes, kernel),
        is_cycle(nodes, live),
        live.len() <= ring0.len(),
        forall|k: int| 0 <= k < live.len() ==> ring0.contains(#[trigger] live[k]),
{
    reveal(thinned);
    assert forall|k: int| 0 <= k < live.len() implies ring0.contains(#[trigger] live[k]) by {
        assert(live.contains(live[k]));
    }
}

/// The filtering walk from the node `p` to the node `end`, `fuel` steps of it at
/// most: the arena that it leaves and the node at which it ends, or nothing
/// where it has not ended yet.
///
/// At each step: a degenerate node is removed, unless it is alone on its ring,
/// where the walk ends; the walk then starts again at the node before it, to
/// end there, or is over if that node is alone. From any other node the walk
/// goes on to the next, and is over when that is its end.
pub open spec fn filter_walk<K: Kernel>(
    nodes: Seq<Node>,
    kernel: &K,
    p: usize,
    end: usize,
    fuel: nat,
) -> Option<(Seq<Node>, usize)>
    decreases fuel,
{
    if fuel == 0 {
        None
    } else if degenerate(nodes, kernel, p) {
        if nodes[p as int].next == p {
            Some((nodes, end))
        } else {
            let after = removed(nodes, p as int);
            let back = nodes[p as int].prev;
            if after[back as int].next == back {
                Some((after, back))
            } else {
                filter_walk(after, kernel, back, back, (fuel - 1) as nat)
            }
        }
    } else {
        let next = nodes[p as int].next;
        if next == end {
            Some((nodes, end))
        } else {
            filter_walk(nodes, kernel, next, end, (fuel - 1) as nat)
        }
    }
}

/// After `k` steps the filtering walk from `start` to `end` stands at the node
/// `p` of the arena `nodes`, to end at `stop`.
#[verifier::opaque]
pub open spec fn filtering<K: Kernel>(
    before: Seq<Node>,
    kernel: &K,
    start: usize,
    end: usize,
    k: nat,
    nodes: Seq<Node>,
    p: usize,
    stop: usize,
) -> bool {
    forall|f: nat| #[trigger]
        filter_walk(before, kernel, start, end, k + f) == filter_walk(nodes, kernel, p, stop, f)
}

/// Before its first step the filtering walk stands where it starts.
proof fn lemma_filtering_start<K: Kernel>(before: Seq<Node>, kernel: &K, start: usize, end: usize)
    ensures
        filtering(before, kernel, start, end, 0, before, start, end),
{
    reveal(filtering);
    assert forall|f: nat| #[trigger]
        filter_walk(before, kernel, start, end, 0 + f) == filter_walk(
            before,
            kernel,
            start,
            end,
            f,
        ) by {
        assert(0 + f == f);
    }
}

/// One step of the filtering walk.
proof fn lemma_filtering_step<K: Kernel>(
    before: Seq<Node>,
    kernel: &K,
    start: usize,
    end: usize,
    k: nat,
    nodes: Seq<Node>,
    p: usize,
    stop: usize,
)
    requires
        filtering(before, kernel, start, end, k, nodes, p, stop),
    ensures
        filter_walk(before, kernel, start, end, k + 1) == filter_walk(nodes, kernel, p, stop, 1),
        degenerate(nodes, kernel, p) && nodes[p as int].next != p && removed(
            nodes,
            p as int,
        )[nodes[p as int].prev as int].next != nodes[p as int].prev ==> filtering(
            before,
            kernel,
            start,
            end,
            k + 1,
            removed(nodes, p as int),
            nodes[p as int].prev,
            nodes[p as int].prev,
        ),
        !degenerate(nodes, kernel, p) && nodes[p as int].next != stop ==> filtering(
            before,
            kernel,
            start,
            end,
            k + 1,
            nodes,
            nodes[p as int].next,
            stop,
        ),
{
    reveal(filtering);
    assert(filter_walk(before, kernel, start, end, k + 1) == filter_walk(nodes, kernel, p, stop, 1));
    let after = removed(nodes, p as int);
    let back = nodes[p as int].prev;
    let next = nodes[p as int].next;
    if degenerate(nodes, kernel, p) && next != p && after[back as int].next != back {
        assert forall|f: nat| #[trigger]
            filter_walk(before, kernel, start, end, (k + 1) + f) == filter_walk(
                after,
                kernel,
                back,
                back,
                f,
            ) by {
            assert((k + 1) + f == k + (f + 1));
            assert(filter_walk(before, kernel, start, end, k + (f + 1)) == filter_walk(
                nodes,
                kernel,
                p,
                stop,
                f + 1,
            ));
            assert(((f + 1) - 1) as nat == f);
        }
    }
    if !degenerate(nodes, kernel, p) && next != stop {
        assert forall|f: nat| #[trigger]
            filter_walk(before, kernel, start, end, (k + 1) + f) == filter_walk(
                nodes,
                kernel,
                next,
                stop,
                f,
            ) by {
            assert((k + 1) + f == k + (f + 1));
            assert(filter_walk(before, kernel, start, end, k + (f + 1)) == filter_walk(
                nodes,
                kernel,
                p,
                stop,
                f + 1,
            ));
            assert(((f + 1) - 1) as nat == f);
        }
    }
}

/// How the arena `after` came from `before` by work on the ring `c` alone: nodes
/// may have been made, no node has changed what it stands for, and the ring
/// links of the nodes off the ring are as they were.
#[verifier::opaque]
pub open spec fn worked<K: Kernel>(
    before: Seq<Node>,
    after: Seq<Node>,
    kernel: &K,
    c: Seq<usize>,
) -> bool {
    &&& sound(after, kernel)
    &&& after.len() >= before.len()
    &&& forall|j: int|
        0 <= j < before.len() ==> {
            &&& (#[trigger] after[j]).i == before[j].i
            &&& after[j].steiner == before[j].steiner
        }
    &&& forall|j: int|
        0 <= j < before.len() && !c.contains(j as usize) ==> same_links(
            before[j],
            #[trigger] after[j],
        )
}

/// Work on a ring leaves a sound arena that is no smaller, and every node with
/// its point.
pub proof fn lemma_worked_facts<K: Kernel>(
    before: Seq<Node>,
    after: Seq<Node>,
    kernel: &K,
    c: Seq<usize>,
)
    requires
        worked(before, after, kernel, c),
    ensures
        sound(after, kernel),
        after.len() >= before.len(),
        forall|j: int| 0 <= j < before.len() ==> (#[trigger] after[j]).i == before[j].i,
{
    reveal(worked);
}

/// No work is work.
pub proof fn lemma_worked_none<K: Kernel>(nodes: Seq<Node>, kernel: &K, c: Seq<usize>)
    requires
        sound(nodes, kernel),
    ensures
        worked(nodes, nodes, kernel, c),
{
    reveal(worked);
}

/// Work on a ring is work on any ring that has its nodes.
pub proof fn lemma_worked_wider<K: Kernel>(
    before: Seq<Node>,
    after: Seq<Node>,
    kernel: &K,
    c: Seq<usize>,
    d: Seq<usize>,
)
    requires
        worked(before, after, kernel, c),
        forall|x: usize| #[trigger] c.contains(x) ==> d.contains(x),
    ensures
        worked(before, after, kernel, d),
{
    reveal(worked);
    assert forall|j: int| 0 <= j < before.len() && !d.contains(j as usize) implies same_links(
        before[j],
        #[trigger] after[j],
    ) by {
        assert(!c.contains(j as usize));
    }
}

/// Work on a ring, and then on a ring made of its nodes and of new ones, is work
/// on the first ring.
pub proof fn lemma_worked_twice<K: Kernel>(
    s0: Seq<Node>,
    s1: Seq<Node>,
    s2: Seq<Node>,
    kernel: &K,
    c0: Seq<usize>,
    c1: Seq<usize>,
)
    requires
        worked(s0, s1, kernel, c0),
        worked(s1, s2, kernel, c1),
        forall|x: usize| #[trigger] c1.contains(x) ==> c0.contains(x) || x >= s0.len(),
    ensures
        worked(s0, s2, kernel, c0),
{
    reveal(worked);
    assert forall|j: int| 0 <= j < s0.len() implies {
        &&& (#[trigger] s2[j]).i == s0[j].i
        &&& s2[j].steiner == s0[j].steiner
    } by {
        assert(s1[j].i == s0[j].i);
    }
    assert forall|j: int| 0 <= j < s0.len() && !c0.contains(j as usize) implies same_links(
        s0[j],
        #[trigger] s2[j],
    ) by {
        assert(same_links(s0[j], s1[j]));
        assert(!c1.contains(j as usize));
        assert(same_links(s1[j], s2[j]));
    }
}

/// Taking nodes out of a ring is work on the ring.
pub proof fn lemma_shrunk_worked<K: Kernel>(
    before: Seq<Node>,
    after: Seq<Node>,
    kernel: &K,
    c: Seq<usize>,
)
    requires
        sound(after, kernel),
        shrunk(before, after, c),
    ensures
        worked(before, after, kernel, c),
{
    reveal(worked);
}

/// A ring that work on another ring has no node of is still a ring.
pub proof fn lemma_other_ring<K: Kernel>(
    before: Seq<Node>,
    after: Seq<Node>,
    kernel: &K,
    c: Seq<usize>,
    other: Seq<usize>,
)
    requires
        worked(before, after, kernel, c),
        is_cycle(before, other),
        forall|x: usize| #[trigger] other.contains(x) ==> !c.contains(x),
    ensures
        is_cycle(after, other),
{
    reveal(worked);
    assert forall|k: int| 0 <= k < other.len() implies same_links(
        before[#[trigger] other[k] as int],
        after[other[k] as int],
    ) by {
        assert(other.contains(other[k]));
        assert(other[k] < before.len());
        assert(other[k] as int as usize == other[k]);
    }
    crate::ring::lemma_cycle_frame(before, after, other);
}

/// What a filtering walk from `start` to `end` leaves, where `r` is the node it
/// ended at.
#[verifier::opaque]
pub open spec fn filtered<K: Kernel>(
    before: Seq<Node>,
    after: Seq<Node>,
    kernel: &K,
    start: usize,
    end: usize,
    r: usize,
) -> bool {
    let was = ring(before, start);
    let is = ring(after, r);
    &&& sound(after, kernel)
    &&& shrunk(before, after, was)
    &&& has_ring(after, r)
    &&& is.len() <= was.len()
    &&& forall|x: usize| #[trigger] is.contains(x) ==> was.contains(x)
    &&& wound(was, is)
    &&& forall|x: usize| #[trigger] was.contains(x) && before[x as int].steiner ==> is.contains(x)
    &&& (coherent(before, was) ==> coherent(after, is))
    &&& (all_unchained(before) ==> all_unchained(after))
    &&& (start == end || is.len() < was.len() ==> is.len() == 1 || clean(after, kernel, is))
    &&& (clean(before, kernel, was) || was.len() == 1 ==> after == before && r == end)
    &&& exists|fuel: nat| #[trigger]
        filter_walk(before, kernel, start, end, fuel) == Some((after, r))
}

/// What is left of a ring can be read from any of its nodes, with sound z-order
/// links where it had them.
pub proof fn lemma_thinned_ring<K: Kernel>(
    before: Seq<Node>,
    nodes: Seq<Node>,
    kernel: &K,
    ring0: Seq<usize>,
    live: Seq<usize>,
    threads: bool,
    zs: Seq<usize>,
    k: int,
)
    requires
        thinned(before, nodes, kernel, ring0, live, threads, zs),
        0 <= k < live.len(),
    ensures
        has_ring(nodes, live[k]),
        ring(nodes, live[k]) == rotated(live, k),
        threads ==> coherent(nodes, ring(nodes, live[k])),
        shrunk(before, nodes, ring0),
        all_unchained(before) ==> all_unchained(nodes),
        forall|x: usize| live.contains(x) ==> ring0.contains(x),
{
    reveal(thinned);
    lemma_rotated_cycle(nodes, live, k);
    lemma_ring_unique(nodes, rotated(live, k), live[k]);
    if threads {
        lemma_rotated_threaded(nodes, live, k, zs);
    }
}

/// A node of what is left of a ring is on a ring, with sound z-order links where
/// the ring had them.
pub proof fn lemma_thinned_at<K: Kernel>(
    before: Seq<Node>,
    nodes: Seq<Node>,
    kernel: &K,
    ring0: Seq<usize>,
    live: Seq<usize>,
    threads: bool,
    zs: Seq<usize>,
    k: int,
)
    requires
        thinned(before, nodes, kernel, ring0, live, threads, zs),
        0 <= k < live.len(),
    ensures
        has_ring(nodes, live[k]),
        ring(nodes, live[k]) == rotated(live, k),
        threads ==> coherent(nodes, ring(nodes, live[k])),
        all_unchained(before) ==> all_unchained(nodes),
{
    lemma_thinned_ring(before, nodes, kernel, ring0, live, threads, zs, k);
}

/// Taking nodes out of a ring is work on the ring.
pub proof fn lemma_thinned_worked<K: Kernel>(
    before: Seq<Node>,
    nodes: Seq<Node>,
    kernel: &K,
    ring0: Seq<usize>,
    live: Seq<usize>,
    threads: bool,
    zs: Seq<usize>,
)
    requires
        thinned(before, nodes, kernel, ring0, live, threads, zs),
    ensures
        worked(before, nodes, kernel, ring0),
        forall|x: usize| live.contains(x) ==> ring0.contains(x),
{
    reveal(thinned);
    lemma_shrunk_worked(before, nodes, kernel, ring0);
}

/// The end of a filtering walk.
pub proof fn lemma_filtered<K: Kernel>(
    before: Seq<Node>,
    after: Seq<Node>,
    kernel: &K,
    start: usize,
    end: usize,
    live: Seq<usize>,
    zs: Seq<usize>,
    fuel: nat,
)
    requires
        has_ring(before, start),
        thinned(
            before,
            after,
            kernel,
            ring(before, start),
            live,
            coherent(before, ring(before, start)),
            zs,
        ),
        filter_walk(before, kernel, start, end, fuel) == Some((after, live[0])),
        keeps_steiner(before, ring(before, start), live),
        start == end || live.len() < ring(before, start).len() ==> live.len() == 1 || clean(
            after,
            kernel,
            live,
        ),
        clean(before, kernel, ring(before, start)) || ring(before, start).len() == 1 ==> after
            == before && live[0] == end,
    ensures
        filtered(before, after, kernel, start, end, live[0]),
{
    reveal(thinned);
    reveal(filtered);
    lemma_ring_unique(after, live, live[0]);
    if coherent(before, ring(before, start)) {
        assert(threaded(after, live, zs));
    }
}

/// What filtering leaves for the work that follows it.
pub proof fn lemma_filtered_facts<K: Kernel>(
    before: Seq<Node>,
    after: Seq<Node>,
    kernel: &K,
    start: usize,
    end: usize,
    r: usize,
)
    requires
        filtered(before, after, kernel, start, end, r),
    ensures
        sound(after, kernel),
        after.len() == before.len(),
        worked(before, after, kernel, ring(before, start)),
        has_ring(after, r),
        ring(after, r).len() <= ring(before, start).len(),
        ring(after, r).len() >= 1,
        forall|x: usize| #[trigger] ring(after, r).contains(x) ==> ring(before, start).contains(x),
        coherent(before, ring(before, start)) ==> coherent(after, ring(after, r)),
        all_unchained(before) ==> all_unchained(after),
{
    reveal(filtered);
    lemma_shrunk_worked(before, after, kernel, ring(before, start));
}

/// Filtering is idempotent: a ring that a walk round it has filtered is left as
/// it is by any further walk, which ends where it is told to.
pub proof fn lemma_filter_twice<K: Kernel>(
    s0: Seq<Node>,
    s1: Seq<Node>,
    s2: Seq<Node>,
    kernel: &K,
    start: usize,
    once: usize,
    end: usize,
    twice: usize,
)
    requires
        filtered(s0, s1, kernel, start, start, once),
        filtered(s1, s2, kernel, once, end, twice),
    ensures
        s2 == s1,
        twice == end,
        ring(s2, once) == ring(s1, once),
{
    reveal(filtered);
}

/// What the filtering walk has looked at: `changed` tells whether a node has been
/// removed, and `full` whether the walk is one that goes round the whole ring.
/// On such a walk no node behind the one at which it starts anew, up to position
/// `kp`, is degenerate.
#[verifier::opaque]
pub open spec fn looked_at<K: Kernel>(
    before: Seq<Node>,
    nodes: Seq<Node>,
    kernel: &K,
    ring0: Seq<usize>,
    live: Seq<usize>,
    start: usize,
    end: usize,
    stop: usize,
    kp: int,
    changed: bool,
) -> bool {
    &&& (changed <==> live.len() < ring0.len())
    &&& (start == end || changed ==> forall|q: int|
        0 <= q < kp && q < live.len() ==> !degenerate(nodes, kernel, #[trigger] live[q]))
    &&& (!changed ==> nodes == before && stop == end)
    &&& (changed ==> !clean(before, kernel, ring0))
}

/// The node at which the walk stands is not degenerate.
proof fn lemma_looked_on<K: Kernel>(
    before: Seq<Node>,
    nodes: Seq<Node>,
    kernel: &K,
    ring0: Seq<usize>,
    live: Seq<usize>,
    start: usize,
    end: usize,
    stop: usize,
    kp: int,
    changed: bool,
)
    requires
        looked_at(before, nodes, kernel, ring0, live, start, end, stop, kp, changed),
        0 <= kp < live.len(),
        !degenerate(nodes, kernel, live[kp]),
    ensures
        looked_at(before, nodes, kernel, ring0, live, start, end, stop, kp + 1, changed),
{
    reveal(looked_at);
}

/// The node at which the walk stands is degenerate, and is removed.
proof fn lemma_looked_cut<K: Kernel>(
    before: Seq<Node>,
    nodes: Seq<Node>,
    kernel: &K,
    ring0: Seq<usize>,
    live: Seq<usize>,
    start: usize,
    end: usize,
    stop: usize,
    kp: int,
    changed: bool,
    after: Seq<Node>,
    rest: Seq<usize>,
    back: usize,
)
    requires
        looked_at(before, nodes, kernel, ring0, live, start, end, stop, kp, changed),
        0 <= kp < live.len(),
        live.len() <= ring0.len(),
        ring0.contains(live[kp]),
        degenerate(nodes, kernel, live[kp]),
        rest.len() == live.len() - 1,
    ensures
        looked_at(before, after, kernel, ring0, rest, start, end, back, 0, true),
{
    reveal(looked_at);
}

/// What the walk has looked at when it ends.
proof fn lemma_looked_over<K: Kernel>(
    before: Seq<Node>,
    nodes: Seq<Node>,
    kernel: &K,
    ring0: Seq<usize>,
    live: Seq<usize>,
    start: usize,
    end: usize,
    stop: usize,
    kp: int,
    changed: bool,
)
    requires
        looked_at(before, nodes, kernel, ring0, live, start, end, stop, kp, changed),
        1 <= live.len() <= ring0.len(),
        kp >= live.len() || live.len() == 1,
        live[0] == stop,
    ensures
        start == end || live.len() < ring0.len() ==> live.len() == 1 || clean(nodes, kernel, live),
        clean(before, kernel, ring0) || ring0.len() == 1 ==> nodes == before && live[0] == end,
{
    reveal(looked_at);
}

/// Eliminates collinear and duplicate points.
///
/// Walks the ring from `start` until it reaches `end`. A degenerate node is
/// removed, and the walk then steps back to the node before it and goes once
/// more round the whole ring. The node at which the walk ends is returned.
///
/// After a walk that went round the whole ring, which is every walk that starts
/// at its own end and every walk that removed a node, no node of the ring is
/// degenerate, or the ring is down to a single node. On a ring without
/// degenerate nodes nothing changes and `end` is returned, so filtering a
/// filtered ring leaves it as it is.
pub fn filter_points<K: Kernel>(rings: &mut Rings, kernel: &K, start: usize, end: usize) -> (r:
    usize)
    requires
        sound(old(rings)@, kernel),
        has_ring(old(rings)@, start),
        ring(old(rings)@, start).contains(end),
    ensures
        filtered(old(rings)@, final(rings)@, kernel, start, end, r),
{
    let ghost before = rings@;
    let ghost ring0 = ring(before, start);
    let ghost shift = ring0.index_of(end);
    let ghost mut live = rotated(ring0, shift);
    let ghost mut kp: int = if shift == 0 { 0 } else { ring0.len() - shift };
    let ghost mut changed = false;
    let ghost threads = coherent(before, ring0);
    let ghost mut zs: Seq<usize> = if threads {
        choose|zs: Seq<usize>| threaded(before, ring0, zs)
    } else {
        Seq::empty()
    };
    let ghost mut steps: nat = 0;
    proof {
        lemma_thinned_start(before, kernel, ring0, shift, threads, zs);
        lemma_rotated_cycle(before, ring0, shift);
        assert(live[kp] == start);
        assert(keeps_steiner(before, ring0, live));
        lemma_filtering_start(before, kernel, start, end);
        assert(looked_at(before, before, kernel, ring0, live, start, end, end, kp, false)) by {
            reveal(looked_at);
        }
    }
    let mut p = start;
    let mut stop = end;
    loop
        invariant
            thinned(before, rings@, kernel, ring0, live, threads, zs),
            filtering(before, kernel, start, end, steps, rings@, p, stop),
            looked_at(before, rings@, kernel, ring0, live, start, end, stop, kp, changed),
            keeps_steiner(before, ring0, live),
            sound(rings@, kernel),
            is_cycle(rings@, live),
            0 <= kp < live.len(),
            live.len() <= ring0.len(),
            p == live[kp],
            stop == live[0],
            ring0 == ring(before, start),
            has_ring(before, start),
            before == old(rings)@,
            threads == coherent(before, ring0),
        decreases live.len(), live.len() - kp,
    {
        let ghost n = live.len() as int;
        let ghost mid = rings@;
        let next = rings.next(p);
        let prev = rings.prev(p);
        proof {
            assert(mid[live[kp] as int].next == live[succ(kp, n)]);
            assert(mid[live[kp] as int].prev == live[pred(kp, n)]);
            lemma_filtering_step(before, kernel, start, end, steps, mid, p, stop);
        }
        if !rings.is_steiner(p) && (equals(rings, kernel, p, next) || area(
            rings,
            kernel,
            prev,
            p,
            next,
        ) == Sign::Zero) {
            if next == p {
                proof {
                    assert(n == 1) by {
                        if n > 1 {
                            assert(live[succ(kp, n)] != live[kp]);
                        }
                    }
                    lemma_looked_over(before, mid, kernel, ring0, live, start, end, stop, kp, changed);
                    lemma_filtered(before, mid, kernel, start, end, live, zs, steps + 1);
                }
                return stop;
            }
            proof {
                assert(n >= 2) by {
                    if n == 1 {
                        assert(succ(kp, 1) == kp);
                    }
                }
                let at = before_cut(live, kp);
                let rest = rotated(live.remove(kp), at);
                let after = removed(mid, p as int);
                lemma_thinned_live(before, mid, kernel, ring0, live, threads, zs);
                lemma_thinned_step(before, mid, kernel, ring0, live, threads, zs, kp, at);
                lemma_keeps_steiner(before, mid, kernel, ring0, live, threads, zs, kp, at);
                lemma_thinned_live(before, after, kernel, ring0, rest, threads, without(zs, p));
                lemma_looked_cut(
                    before,
                    mid,
                    kernel,
                    ring0,
                    live,
                    start,
                    end,
                    stop,
                    kp,
                    changed,
                    after,
                    rest,
                    prev,
                );
                assert(after[rest[0] as int].next == rest[succ(0, n - 1)]);
                if n - 1 > 1 {
                    assert(rest[1] != rest[0]);
                    steps = steps + 1;
                }
                zs = without(zs, p);
                live = rest;
                kp = 0;
                changed = true;
            }
            rings.remove(p);
            stop = prev;
            p = stop;
            if p == rings.next(p) {
                proof {
                    lemma_looked_over(
                        before,
                        rings@,
                        kernel,
                        ring0,
                        live,
                        start,
                        end,
                        stop,
                        kp,
                        changed,
                    );
                    lemma_filtered(before, rings@, kernel, start, end, live, zs, steps + 1);
                }
                return stop;
            }
        } else {
            proof {
                lemma_looked_on(before, mid, kernel, ring0, live, start, end, stop, kp, changed);
                kp = kp + 1;
            }
            p = next;
            if p == stop {
                proof {
                    assert(kp == n) by {
                        if kp < n {
                            assert(live[kp] != live[0]);
                        }
                    }
                    lemma_looked_over(before, mid, kernel, ring0, live, start, end, stop, kp, changed);
                    lemma_filtered(before, mid, kernel, start, end, live, zs, steps + 1);
                }
                return stop;
            }
            proof {
                steps = steps + 1;
            }
        }
    }
}

} // verus!
