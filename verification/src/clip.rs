//! The ear clipping loop and its three stages.

use vstd::prelude::*;
use crate::cure::{cure_local_intersections, cured, lemma_cured_facts};
use crate::curve::{curve_indexed, index_curve, indexes};
use crate::ear::{ear_at, is_ear};
use crate::filter::{
    filter_points, filtered, lemma_filtered_facts, lemma_other_ring, lemma_thinned_at,
    lemma_thinned_live, lemma_thinned_start, lemma_thinned_step, lemma_thinned_worked,
    lemma_worked_facts, lemma_worked_none, lemma_worked_twice, lemma_worked_wider, thinned, without,
    worked,
};
use crate::geometry::sound;
use crate::kernel::{HashParameters, Kernel};
use crate::ring::{
    all_unchained, coherent, has_ring, is_cycle, lemma_cycle_frame, lemma_removed_cycle,
    lemma_removed_fields, lemma_ring_unique, lemma_rotated_cycle, linked, pred, removed, ring,
    rotated, same_links, succ, threaded, unchained, Node, Rings,
};
use crate::split::{
    diagonal_at, find_diagonal, first_diagonal, halve, halved, halved_by, none_before,
};
use crate::triangle::{corner, in_range, lemma_joined, lemma_pushed};

verus! {

/// The three stages of ear clipping. A ring on which a stage finds no ear is
/// handed to the next one.
#[derive(Clone, Copy, Debug, PartialEq, Eq, Structural)]
pub enum Pass {
    /// Clip ears; where none is left, filter the ring.
    Clip,
    /// Clip ears; where none is left, cure local self-intersections.
    Cure,
    /// Clip ears; where none is left, split the ring in two.
    Split,
}

impl Pass {
    /// How many stages come after this one.
    pub open spec fn left(self) -> nat {
        match self {
            Pass::Clip => 2,
            Pass::Cure => 1,
            Pass::Split => 0,
        }
    }
}

/// What clipping the ring `c` has left: the work was on the ring alone, the
/// triangles that were there are there, the new ones name points of the kernel,
/// and there are no more of them than a ring of that size can have.
#[verifier::opaque]
pub open spec fn clipped<K: Kernel>(
    before: Seq<Node>,
    after: Seq<Node>,
    kernel: &K,
    c: Seq<usize>,
    had: Seq<[usize; 3]>,
    has: Seq<[usize; 3]>,
) -> bool {
    &&& worked(before, after, kernel, c)
    &&& has.len() >= had.len()
    &&& has.subrange(0, had.len() as int) == had
    &&& in_range(has, had.len() as int, kernel.count())
    &&& (c.len() >= 2 ==> has.len() - had.len() <= c.len() - 2)
    &&& (c.len() < 2 ==> has.len() == had.len())
}

/// What clipping leaves, clause by clause.
pub proof fn lemma_clipped_facts<K: Kernel>(
    before: Seq<Node>,
    after: Seq<Node>,
    kernel: &K,
    c: Seq<usize>,
    had: Seq<[usize; 3]>,
    has: Seq<[usize; 3]>,
)
    requires
        clipped(before, after, kernel, c, had, has),
    ensures
        worked(before, after, kernel, c),
        has.len() >= had.len(),
        has.subrange(0, had.len() as int) == had,
        in_range(has, had.len() as int, kernel.count()),
        c.len() >= 2 ==> has.len() - had.len() <= c.len() - 2,
        c.len() < 2 ==> has.len() == had.len(),
{
    reveal(clipped);
}

/// Work that took a node of the ring for every triangle, and left two, is
/// clipping.
pub proof fn lemma_clipped_work<K: Kernel>(
    before: Seq<Node>,
    after: Seq<Node>,
    kernel: &K,
    c: Seq<usize>,
    had: Seq<[usize; 3]>,
    has: Seq<[usize; 3]>,
)
    requires
        worked(before, after, kernel, c),
        has.len() >= had.len(),
        has.subrange(0, had.len() as int) == had,
        in_range(has, had.len() as int, kernel.count()),
        c.len() >= 2 ==> has.len() - had.len() <= c.len() - 2,
        c.len() < 2 ==> has.len() == had.len(),
    ensures
        clipped(before, after, kernel, c, had, has),
{
    reveal(clipped);
}

/// Clipping a ring, and then a ring that is no larger and made of its nodes and
/// of new ones, is clipping the first ring, if the first clipping took a node
/// for every triangle.
pub proof fn lemma_clipped_twice<K: Kernel>(
    s0: Seq<Node>,
    s1: Seq<Node>,
    s2: Seq<Node>,
    kernel: &K,
    c0: Seq<usize>,
    c1: Seq<usize>,
    t0: Seq<[usize; 3]>,
    t1: Seq<[usize; 3]>,
    t2: Seq<[usize; 3]>,
)
    requires
        worked(s0, s1, kernel, c0),
        t1.len() >= t0.len(),
        t1.subrange(0, t0.len() as int) == t0,
        in_range(t1, t0.len() as int, kernel.count()),
        clipped(s1, s2, kernel, c1, t1, t2),
        forall|x: usize| #[trigger] c1.contains(x) ==> c0.contains(x) || x >= s0.len(),
        c1.len() + (t1.len() - t0.len()) <= c0.len(),
        c1.len() >= 2 || t1.len() - t0.len() <= c0.len() - 2,
        c0.len() >= 2,
    ensures
        clipped(s0, s2, kernel, c0, t0, t2),
{
    reveal(clipped);
    lemma_worked_twice(s0, s1, s2, kernel, c0, c1);
    lemma_joined(t0, t1, t2, kernel.count());
}

/// What the two halves of a ring cut between its nodes `a` and `b` have been
/// through: each has been filtered around the cut, and then the first has been
/// clipped, and then the second.
pub open spec fn halves_clipped<K: Kernel>(
    before: Seq<Node>,
    after: Seq<Node>,
    kernel: &K,
    a: usize,
    b: usize,
    had: Seq<[usize; 3]>,
    has: Seq<[usize; 3]>,
) -> bool {
    exists|cut: Seq<Node>, a2: usize, b2: usize, mid: Seq<Node>, got: Seq<[usize; 3]>|
        {
            &&& #[trigger] halved_by(before, cut, kernel, a, b, a2, b2)
            &&& #[trigger] clipped(cut, mid, kernel, ring(cut, a2), had, got)
            &&& clipped(mid, after, kernel, ring(cut, b2), got, has)
        }
}

/// What splitting the ring `c` has done: nothing where the ring has no valid
/// diagonal; else the ring has been cut along its first valid diagonal, of
/// whose ends copies have been made, and both halves have been filtered and
/// clipped.
pub open spec fn split_at<K: Kernel>(
    before: Seq<Node>,
    after: Seq<Node>,
    kernel: &K,
    c: Seq<usize>,
    had: Seq<[usize; 3]>,
    has: Seq<[usize; 3]>,
) -> bool {
    &&& (c.len() < 3 || none_before(before, kernel, c, c.len() as int, 0) ==> after == before
        && has == had)
    &&& (c.len() >= 3 ==> forall|ka: int, off: int| #[trigger]
        first_diagonal(before, kernel, c, ka, off) ==> {
            &&& after.len() >= before.len() + 2
            &&& after[before.len() as int].i == before[c[ka] as int].i
            &&& after[before.len() as int + 1].i == before[rotated(c, ka)[off] as int].i
            &&& halves_clipped(before, after, kernel, c[ka], rotated(c, ka)[off], had, has)
        })
}

/// The ring of the second half is still there once the first has been clipped.
proof fn lemma_split_second<K: Kernel>(
    s0: Seq<Node>,
    s3: Seq<Node>,
    s4: Seq<Node>,
    kernel: &K,
    c: Seq<usize>,
    j: int,
    a2: usize,
    c2: usize,
    hash: Option<HashParameters>,
    t0: Seq<[usize; 3]>,
    t4: Seq<[usize; 3]>,
)
    requires
        halved(s0, s3, kernel, c, j, a2, c2),
        clipped(s3, s4, kernel, ring(s3, a2), t0, t4),
        hash matches Some(h) ==> h.within(kernel.count()),
        hash is None ==> all_unchained(s4),
    ensures
        ready(s4, kernel, hash, c2, false),
        ring(s4, c2) == ring(s3, c2),
{
    reveal(halved);
    lemma_clipped_facts(s3, s4, kernel, ring(s3, a2), t0, t4);
    lemma_worked_facts(s3, s4, kernel, ring(s3, a2));
    lemma_other_ring(s3, s4, kernel, ring(s3, a2), ring(s3, c2));
    lemma_ring_unique(s4, ring(s3, c2), c2);
}

/// The two halves of a split ring have been clipped, one after the other.
proof fn lemma_split_clipped<K: Kernel>(
    s0: Seq<Node>,
    s3: Seq<Node>,
    s4: Seq<Node>,
    s5: Seq<Node>,
    kernel: &K,
    c: Seq<usize>,
    j: int,
    a2: usize,
    c2: usize,
    t0: Seq<[usize; 3]>,
    t4: Seq<[usize; 3]>,
    t5: Seq<[usize; 3]>,
)
    requires
        2 <= j <= c.len() - 2,
        halved(s0, s3, kernel, c, j, a2, c2),
        clipped(s3, s4, kernel, ring(s3, a2), t0, t4),
        clipped(s4, s5, kernel, ring(s3, c2), t4, t5),
    ensures
        clipped(s0, s5, kernel, c, t0, t5),
        s5.len() >= s0.len() + 2,
        s5[s0.len() as int].i == s0[c[0] as int].i,
        s5[s0.len() as int + 1].i == s0[c[j] as int].i,
{
    reveal(halved);
    let ra = ring(s3, a2);
    let rc = ring(s3, c2);
    lemma_clipped_facts(s3, s4, kernel, ra, t0, t4);
    lemma_clipped_facts(s4, s5, kernel, rc, t4, t5);
    lemma_worked_twice(s0, s3, s4, kernel, c, ra);
    lemma_worked_twice(s0, s4, s5, kernel, c, rc);
    lemma_joined(t0, t4, t5, kernel.count());
    lemma_worked_facts(s3, s4, kernel, ra);
    lemma_worked_facts(s4, s5, kernel, rc);
    let m = s0.len() as int;
    assert(s4[m].i == s3[m].i && s4[m + 1].i == s3[m + 1].i);
    assert(s5[m].i == s4[m].i && s5[m + 1].i == s4[m + 1].i);
    lemma_clipped_work(s0, s5, kernel, c, t0, t5);
}

/// The first half of a split ring is ready to be clipped, and smaller than the
/// ring.
proof fn lemma_split_first<K: Kernel>(
    s0: Seq<Node>,
    s3: Seq<Node>,
    kernel: &K,
    c: Seq<usize>,
    j: int,
    a2: usize,
    c2: usize,
    hash: Option<HashParameters>,
)
    requires
        2 <= j <= c.len() - 2,
        halved(s0, s3, kernel, c, j, a2, c2),
        hash matches Some(h) ==> h.within(kernel.count()),
        hash is None ==> all_unchained(s0),
    ensures
        ready(s3, kernel, hash, a2, false),
        ring(s3, a2).len() < c.len(),
        ring(s3, c2).len() < c.len(),
{
    reveal(halved);
    lemma_worked_facts(s0, s3, kernel, c);
}

/// Tries to split the ring of `start` in two and to triangulate the halves
/// independently. The first valid diagonal found is taken; both halves are
/// filtered around the cut and then clipped, each from its first stage on. Where
/// the ring has no valid diagonal, nothing is done.
pub fn split_earcut<K: Kernel>(
    rings: &mut Rings,
    kernel: &K,
    hash: &Option<HashParameters>,
    start: usize,
    indices: &mut Vec<[usize; 3]>,
)
    requires
        ready(old(rings)@, kernel, *hash, start, false),
    ensures
        clipped(
            old(rings)@,
            final(rings)@,
            kernel,
            ring(old(rings)@, start),
            old(indices)@,
            final(indices)@,
        ),
        *hash is None ==> all_unchained(final(rings)@),
        split_at(
            old(rings)@,
            final(rings)@,
            kernel,
            ring(old(rings)@, start),
            old(indices)@,
            final(indices)@,
        ),
    decreases ring(old(rings)@, start).len(), 0nat,
{
    let ghost s0 = rings@;
    let ghost t0 = indices@;
    let ghost c = ring(s0, start);
    let ghost n = c.len() as int;
    let second = rings.next(start);
    assert(s0[c[0] as int].next == c[succ(0, n)]);
    assert(s0[c[succ(0, n)] as int].next == c[succ(succ(0, n), n)]);
    if rings.next(second) == start {
        proof {
            assert(n < 3) by {
                if n >= 3 {
                    assert(c[2] != c[0]);
                }
            }
            lemma_still(s0, kernel, c, t0);
        }
        return ;
    }
    assert(n >= 3) by {
        if n == 2 {
            assert(succ(succ(0, n), n) == 0);
        }
        if n == 1 {
            assert(succ(succ(0, n), n) == 0);
        }
    }
    let (found, Ghost(ka), Ghost(off)) = find_diagonal(rings, kernel, start);
    let (a, b) = match found {
        None => {
            proof {
                lemma_still(s0, kernel, c, t0);
                assert forall|i: int, j: int| #[trigger]
                    first_diagonal(s0, kernel, c, i, j) implies false by {
                    assert(diagonal_at(s0, kernel, c, i, j));
                }
            }
            return ;
        },
        Some(pair) => pair,
    };
    let ghost rot = rotated(c, ka);
    proof {
        lemma_rotated_cycle(s0, c, ka);
        assert forall|i: int, j: int| #[trigger] first_diagonal(s0, kernel, c, i, j) implies i == ka
            && j == off by {
            assert(diagonal_at(s0, kernel, c, i, j));
            assert(diagonal_at(s0, kernel, c, ka, off));
        }
        assert(!none_before(s0, kernel, c, n, 0)) by {
            assert(diagonal_at(s0, kernel, c, ka, off));
        }
    }
    let (a2, c2) = halve(rings, kernel, a, b, Ghost(rot), Ghost(off));
    let ghost s3 = rings@;
    proof {
        lemma_split_first(s0, s3, kernel, rot, off, a2, c2, *hash);
    }
    earcut_linked(rings, kernel, hash, a2, indices, Pass::Clip);
    let ghost s4 = rings@;
    let ghost t4 = indices@;
    proof {
        lemma_split_second(s0, s3, s4, kernel, rot, off, a2, c2, *hash, t0, t4);
    }
    earcut_linked(rings, kernel, hash, c2, indices, Pass::Clip);
    proof {
        lemma_split_clipped(s0, s3, s4, rings@, kernel, rot, off, a2, c2, t0, t4, indices@);
        lemma_clipped_wider(s0, rings@, kernel, rot, c, t0, indices@);
        assert(halves_clipped(s0, rings@, kernel, a, b, t0, indices@)) by {
            assert(halved_by(s0, s3, kernel, a, b, a2, c2));
            assert(clipped(s3, s4, kernel, ring(s3, a2), t0, t4));
            assert(clipped(s4, rings@, kernel, ring(s3, c2), t4, indices@));
        }
    }
}

/// Nothing done is clipping.
proof fn lemma_still<K: Kernel>(nodes: Seq<Node>, kernel: &K, c: Seq<usize>, t: Seq<[usize; 3]>)
    requires
        sound(nodes, kernel),
    ensures
        clipped(nodes, nodes, kernel, c, t, t),
{
    lemma_worked_none(nodes, kernel, c);
    assert(t.subrange(0, t.len() as int) =~= t);
    lemma_clipped_work(nodes, nodes, kernel, c, t, t);
}

/// Clipping a ring is clipping the same ring read from another node.
proof fn lemma_clipped_wider<K: Kernel>(
    before: Seq<Node>,
    after: Seq<Node>,
    kernel: &K,
    c: Seq<usize>,
    d: Seq<usize>,
    had: Seq<[usize; 3]>,
    has: Seq<[usize; 3]>,
)
    requires
        clipped(before, after, kernel, c, had, has),
        forall|x: usize| #[trigger] c.contains(x) ==> d.contains(x),
        c.len() == d.len(),
    ensures
        clipped(before, after, kernel, d, had, has),
{
    reveal(clipped);
    lemma_worked_wider(before, after, kernel, c, d);
}

/// What handing the ring of `ear` to the stage after `pass` has left: the ring
/// has been filtered, or cured, and what was left of it clipped; or it has been
/// split.
pub open spec fn handed<K: Kernel>(
    before: Seq<Node>,
    after: Seq<Node>,
    kernel: &K,
    ear: usize,
    pass: Pass,
    had: Seq<[usize; 3]>,
    has: Seq<[usize; 3]>,
) -> bool {
    match pass {
        Pass::Clip => exists|mid: Seq<Node>, e: usize|
            {
                &&& #[trigger] filtered(before, mid, kernel, ear, ear, e)
                &&& clipped(mid, after, kernel, ring(mid, e), had, has)
            },
        Pass::Cure => exists|mid: Seq<Node>, e: usize, cut: Seq<[usize; 3]>|
            {
                &&& #[trigger] cured(before, mid, kernel, ear, e, had, cut)
                &&& clipped(mid, after, kernel, ring(mid, e), cut, has)
            },
        Pass::Split => split_at(before, after, kernel, ring(before, ear), had, has),
    }
}

/// Hands a ring on which no ear was found to the next stage: after the first
/// stage the ring is filtered and clipped once more, after the second it is
/// cured of local self-intersections and clipped once more, after the third it
/// is split.
fn hand_on<K: Kernel>(
    rings: &mut Rings,
    kernel: &K,
    hash: &Option<HashParameters>,
    ear: usize,
    indices: &mut Vec<[usize; 3]>,
    pass: Pass,
)
    requires
        ready(old(rings)@, kernel, *hash, ear, true),
        ring(old(rings)@, ear).len() >= 3,
    ensures
        clipped(
            old(rings)@,
            final(rings)@,
            kernel,
            ring(old(rings)@, ear),
            old(indices)@,
            final(indices)@,
        ),
        handed(old(rings)@, final(rings)@, kernel, ear, pass, old(indices)@, final(indices)@),
        *hash is None ==> all_unchained(final(rings)@),
    decreases ring(old(rings)@, ear).len(), 2 * pass.left() + 1,
{
    let ghost s0 = rings@;
    let ghost t0 = indices@;
    let ghost c = ring(s0, ear);
    match pass {
        Pass::Clip => {
            let e = filter_points(rings, kernel, ear, ear);
            let ghost s1 = rings@;
            proof {
                lemma_filtered_facts(s0, s1, kernel, ear, ear, e);
                assert(t0.subrange(0, t0.len() as int) =~= t0);
            }
            earcut_linked(rings, kernel, hash, e, indices, Pass::Cure);
            proof {
                lemma_clipped_twice(s0, s1, rings@, kernel, c, ring(s1, e), t0, t0, indices@);
                assert(filtered(s0, s1, kernel, ear, ear, e) && clipped(
                    s1,
                    rings@,
                    kernel,
                    ring(s1, e),
                    t0,
                    indices@,
                ));
            }
        },
        Pass::Cure => {
            let e = cure_local_intersections(rings, kernel, ear, indices);
            let ghost s1 = rings@;
            let ghost t1 = indices@;
            proof {
                lemma_cured_facts(s0, s1, kernel, ear, e, t0, t1);
            }
            earcut_linked(rings, kernel, hash, e, indices, Pass::Split);
            proof {
                lemma_clipped_twice(s0, s1, rings@, kernel, c, ring(s1, e), t0, t1, indices@);
                assert(cured(s0, s1, kernel, ear, e, t0, t1) && clipped(
                    s1,
                    rings@,
                    kernel,
                    ring(s1, e),
                    t1,
                    indices@,
                ));
            }
        },
        Pass::Split => {
            split_earcut(rings, kernel, hash, ear, indices);
        },
    }
}

/// How a walk round a ring in search of ears ends.
pub enum Walk {
    /// The ring is down to two nodes or fewer.
    Done,
    /// The walk has come back to this node without finding an ear.
    Stuck(usize),
    /// The walk has not ended yet.
    Going,
}

/// The walk in search of ears, `fuel` steps of it at most, from the node `cur`
/// on, where `stop` is the node at which it gives up: the arena and the
/// triangles that it leaves, and how it ends.
///
/// At each step: a ring of two nodes or fewer is done. Where the node is an ear,
/// its triangle is added and the node removed, and the walk starts again two
/// nodes on. Where it is none, the walk goes on to the next node, and is stuck
/// if that is where it is to give up.
pub open spec fn walked<K: Kernel>(
    nodes: Seq<Node>,
    kernel: &K,
    hash: Option<HashParameters>,
    out: Seq<[usize; 3]>,
    cur: usize,
    stop: usize,
    fuel: nat,
) -> (Seq<Node>, Seq<[usize; 3]>, Walk)
    decreases fuel,
{
    let prev = nodes[cur as int].prev;
    let next = nodes[cur as int].next;
    if prev == next {
        (nodes, out, Walk::Done)
    } else if fuel == 0 {
        (nodes, out, Walk::Going)
    } else if ear_at(nodes, kernel, hash, cur) {
        let after = removed(nodes, cur as int);
        let on = after[next as int].next;
        walked(after, kernel, hash, out.push(corner(nodes, cur)), on, on, (fuel - 1) as nat)
    } else if next == stop {
        (nodes, out, Walk::Stuck(next))
    } else {
        walked(nodes, kernel, hash, out, next, stop, (fuel - 1) as nat)
    }
}

/// After `k` steps the walk from `base` stands at the node `cur` of the arena
/// `nodes`, with the triangles `out`.
#[verifier::opaque]
pub open spec fn walking<K: Kernel>(
    base: Seq<Node>,
    kernel: &K,
    hash: Option<HashParameters>,
    had: Seq<[usize; 3]>,
    ear: usize,
    k: nat,
    nodes: Seq<Node>,
    out: Seq<[usize; 3]>,
    cur: usize,
    stop: usize,
) -> bool {
    forall|f: nat| #[trigger]
        walked(base, kernel, hash, had, ear, ear, k + f) == walked(
            nodes,
            kernel,
            hash,
            out,
            cur,
            stop,
            f,
        )
}

/// Before its first step the walk stands where it starts.
proof fn lemma_walking_start<K: Kernel>(
    base: Seq<Node>,
    kernel: &K,
    hash: Option<HashParameters>,
    had: Seq<[usize; 3]>,
    ear: usize,
)
    ensures
        walking(base, kernel, hash, had, ear, 0, base, had, ear, ear),
{
    reveal(walking);
    assert forall|f: nat| #[trigger]
        walked(base, kernel, hash, had, ear, ear, 0 + f) == walked(
            base,
            kernel,
            hash,
            had,
            ear,
            ear,
            f,
        ) by {
        assert(0 + f == f);
    }
}

/// The walk cuts an ear.
proof fn lemma_walking_cut<K: Kernel>(
    base: Seq<Node>,
    kernel: &K,
    hash: Option<HashParameters>,
    had: Seq<[usize; 3]>,
    ear: usize,
    k: nat,
    nodes: Seq<Node>,
    out: Seq<[usize; 3]>,
    cur: usize,
    stop: usize,
)
    requires
        walking(base, kernel, hash, had, ear, k, nodes, out, cur, stop),
        nodes[cur as int].prev != nodes[cur as int].next,
        ear_at(nodes, kernel, hash, cur),
    ensures
        walking(
            base,
            kernel,
            hash,
            had,
            ear,
            k + 1,
            removed(nodes, cur as int),
            out.push(corner(nodes, cur)),
            removed(nodes, cur as int)[nodes[cur as int].next as int].next,
            removed(nodes, cur as int)[nodes[cur as int].next as int].next,
        ),
{
    reveal(walking);
    let after = removed(nodes, cur as int);
    let on = after[nodes[cur as int].next as int].next;
    assert forall|f: nat| #[trigger]
        walked(base, kernel, hash, had, ear, ear, (k + 1) + f) == walked(
            after,
            kernel,
            hash,
            out.push(corner(nodes, cur)),
            on,
            on,
            f,
        ) by {
        assert((k + 1) + f == k + (f + 1));
        assert(walked(base, kernel, hash, had, ear, ear, k + (f + 1)) == walked(
            nodes,
            kernel,
            hash,
            out,
            cur,
            stop,
            f + 1,
        ));
        assert(((f + 1) - 1) as nat == f);
    }
}

/// The walk passes a node that is no ear.
proof fn lemma_walking_on<K: Kernel>(
    base: Seq<Node>,
    kernel: &K,
    hash: Option<HashParameters>,
    had: Seq<[usize; 3]>,
    ear: usize,
    k: nat,
    nodes: Seq<Node>,
    out: Seq<[usize; 3]>,
    cur: usize,
    stop: usize,
)
    requires
        walking(base, kernel, hash, had, ear, k, nodes, out, cur, stop),
        nodes[cur as int].prev != nodes[cur as int].next,
        !ear_at(nodes, kernel, hash, cur),
    ensures
        nodes[cur as int].next != stop ==> walking(
            base,
            kernel,
            hash,
            had,
            ear,
            k + 1,
            nodes,
            out,
            nodes[cur as int].next,
            stop,
        ),
        nodes[cur as int].next == stop ==> walked(base, kernel, hash, had, ear, ear, k + 1) == (
            nodes,
            out,
            Walk::Stuck(stop),
        ),
{
    reveal(walking);
    let next = nodes[cur as int].next;
    assert(walked(base, kernel, hash, had, ear, ear, k + 1) == walked(
        nodes,
        kernel,
        hash,
        out,
        cur,
        stop,
        1,
    ));
    if next != stop {
        assert forall|f: nat| #[trigger]
            walked(base, kernel, hash, had, ear, ear, (k + 1) + f) == walked(
                nodes,
                kernel,
                hash,
                out,
                next,
                stop,
                f,
            ) by {
            assert((k + 1) + f == k + (f + 1));
            assert(walked(base, kernel, hash, had, ear, ear, k + (f + 1)) == walked(
                nodes,
                kernel,
                hash,
                out,
                cur,
                stop,
                f + 1,
            ));
            assert(((f + 1) - 1) as nat == f);
        }
    }
}

/// The walk ends on a ring of two nodes or fewer.
proof fn lemma_walking_done<K: Kernel>(
    base: Seq<Node>,
    kernel: &K,
    hash: Option<HashParameters>,
    had: Seq<[usize; 3]>,
    ear: usize,
    k: nat,
    nodes: Seq<Node>,
    out: Seq<[usize; 3]>,
    cur: usize,
    stop: usize,
)
    requires
        walking(base, kernel, hash, had, ear, k, nodes, out, cur, stop),
        nodes[cur as int].prev == nodes[cur as int].next,
    ensures
        walked(base, kernel, hash, had, ear, ear, k) == (nodes, out, Walk::Done),
{
    reveal(walking);
    assert(walked(base, kernel, hash, had, ear, ear, k + 0) == walked(
        nodes,
        kernel,
        hash,
        out,
        cur,
        stop,
        0,
    ));
}

/// A ring that the walk in search of ears clips to its end gives two triangles
/// fewer than it has nodes: each ear takes one node for one triangle, and two
/// nodes are left.
pub proof fn lemma_clipped_out<K: Kernel>(
    nodes: Seq<Node>,
    kernel: &K,
    hash: Option<HashParameters>,
    c: Seq<usize>,
    k: int,
    stop: usize,
    out: Seq<[usize; 3]>,
    fuel: nat,
)
    requires
        linked(nodes),
        is_cycle(nodes, c),
        c.len() >= 2,
        0 <= k < c.len(),
        walked(nodes, kernel, hash, out, c[k], stop, fuel).2 is Done,
    ensures
        walked(nodes, kernel, hash, out, c[k], stop, fuel).1.len() == out.len() + c.len() - 2,
    decreases fuel,
{
    let n = c.len() as int;
    let cur = c[k];
    let prev = nodes[cur as int].prev;
    let next = nodes[cur as int].next;
    assert(nodes[c[k] as int].next == c[succ(k, n)]);
    assert(nodes[c[k] as int].prev == c[pred(k, n)]);
    if prev == next {
        if n >= 3 {
            assert(c[succ(k, n)] != c[pred(k, n)]);
        }
    } else if fuel > 0 {
        if n == 2 {
            assert(succ(k, n) == pred(k, n));
        }
        if ear_at(nodes, kernel, hash, cur) {
            let after = removed(nodes, cur as int);
            let on = after[next as int].next;
            let rest = c.remove(k);
            lemma_removed_cycle(nodes, c, k);
            lemma_removed_fields(nodes, cur as int);
            let at = if succ(k, n) < k { succ(k, n) } else { succ(k, n) - 1 };
            assert(rest[at] == next);
            assert(after[rest[at] as int].next == rest[succ(at, n - 1)]);
            lemma_clipped_out(
                after,
                kernel,
                hash,
                rest,
                succ(at, n - 1),
                on,
                out.push(corner(nodes, cur)),
                (fuel - 1) as nat,
            );
        } else if next != stop {
            lemma_clipped_out(nodes, kernel, hash, c, succ(k, n), stop, out, (fuel - 1) as nat);
        }
    }
}

/// What clipping the ring of `ear` has left, step by step: the walk in search of
/// ears has been made from the arena in which clipping starts, to its end.
/// Where it ended on a ring of two nodes or fewer, nothing else has been done.
/// Where it got stuck, the ring was handed on to the next stage from there.
pub open spec fn walked_out<K: Kernel>(
    base: Seq<Node>,
    after: Seq<Node>,
    kernel: &K,
    hash: Option<HashParameters>,
    ear: usize,
    pass: Pass,
    had: Seq<[usize; 3]>,
    has: Seq<[usize; 3]>,
    fuel: nat,
) -> bool {
    let (mid, cut, end) = walked(base, kernel, hash, had, ear, ear, fuel);
    match end {
        Walk::Done => after == mid && has == cut,
        Walk::Stuck(e) => handed(mid, after, kernel, e, pass, cut, has),
        Walk::Going => false,
    }
}

/// Position `k` is the first of the ring `c` at which there is an ear.
pub open spec fn first_ear<K: Kernel>(
    nodes: Seq<Node>,
    kernel: &K,
    hash: Option<HashParameters>,
    c: Seq<usize>,
    k: int,
) -> bool {
    &&& 0 <= k < c.len()
    &&& ear_at(nodes, kernel, hash, c[k])
    &&& forall|j: int| 0 <= j < k ==> !ear_at(nodes, kernel, hash, #[trigger] c[j])
}

/// Where the ring `c` has an ear, the first triangle that was added is that of
/// its first ear.
#[verifier::opaque]
pub open spec fn first_cut<K: Kernel>(
    base: Seq<Node>,
    kernel: &K,
    hash: Option<HashParameters>,
    c: Seq<usize>,
    had: Seq<[usize; 3]>,
    has: Seq<[usize; 3]>,
) -> bool {
    c.len() >= 3 ==> forall|k: int|
        first_ear(base, kernel, hash, c, k) ==> has.len() > had.len() && has[had.len() as int]
            == corner(base, #[trigger] c[k])
}

/// The main ear slicing loop, which triangulates the ring of `ear`.
///
/// Ears are cut off one by one; after each, the walk skips a node. Once the walk
/// has gone round the ring without finding an ear, the ring is handed to the
/// next stage: it is filtered, then cured of local self-intersections, then
/// split. A pass that begins with a spatial index first indexes the ring.
pub fn earcut_linked<K: Kernel>(
    rings: &mut Rings,
    kernel: &K,
    hash: &Option<HashParameters>,
    ear: usize,
    indices: &mut Vec<[usize; 3]>,
    pass: Pass,
)
    requires
        ready(old(rings)@, kernel, *hash, ear, pass != Pass::Clip),
    ensures
        clipped(
            old(rings)@,
            final(rings)@,
            kernel,
            ring(old(rings)@, ear),
            old(indices)@,
            final(indices)@,
        ),
        *hash is None ==> all_unchained(final(rings)@),
        exists|base: Seq<Node>, fuel: nat|
            {
                &&& entry_state(old(rings)@, base, kernel, *hash, pass, ear)
                &&& first_cut(
                    base,
                    kernel,
                    *hash,
                    ring(old(rings)@, ear),
                    old(indices)@,
                    final(indices)@,
                )
                &&& #[trigger] walked_out(
                    base,
                    final(rings)@,
                    kernel,
                    *hash,
                    ear,
                    pass,
                    old(indices)@,
                    final(indices)@,
                    fuel,
                )
            },
    decreases ring(old(rings)@, ear).len(), 2 * pass.left() + 2,
{
    let ghost s0 = rings@;
    let ghost had = indices@;
    let ghost c = ring(s0, ear);
    let ghost threads = *hash is Some;
    if let Some(h) = hash {
        if pass == Pass::Clip {
            index_curve(rings, kernel, h, ear);
        }
    }
    let ghost base = rings@;
    let ghost mut zs: Seq<usize> = Seq::empty();
    proof {
        lemma_entry(s0, base, kernel, *hash, pass, ear);
        zs = choose|zs: Seq<usize>| threads ==> threaded(base, c, zs);
        lemma_thinned_start(base, kernel, c, 0, threads, zs);
        assert(rotated(c, 0) =~= c);
        assert(indices@.subrange(0, had.len() as int) =~= had);
        assert(scanned_so_far(base, base, kernel, *hash, c, c, had, had, None, 0)) by {
            reveal(scanned_so_far);
        }
        lemma_walking_start(base, kernel, *hash, had, ear);
    }
    let ghost mut live = c;
    let ghost mut ke: int = 0;
    let ghost mut first: Option<int> = None;
    let ghost mut steps: nat = 0;
    let ghost mut fuel: nat = 0;
    let mut cur = ear;
    let mut stop = ear;
    loop
        invariant_except_break
            thinned(base, rings@, kernel, c, live, threads, zs),
            sound(rings@, kernel),
            is_cycle(rings@, live),
            0 <= ke < live.len(),
            cur == live[ke],
            stop == live[0],
            indices@.len() >= had.len(),
            indices@.subrange(0, had.len() as int) == had,
            in_range(indices@, had.len() as int, kernel.count()),
            live.len() + (indices@.len() - had.len()) == c.len(),
            indices@.len() > had.len() ==> live.len() >= 2,
            scanned_so_far(base, rings@, kernel, *hash, c, live, had, indices@, first, ke),
            walking(base, kernel, *hash, had, ear, steps, rings@, indices@, cur, stop),
        invariant
            worked(s0, base, kernel, c),
            c == ring(old(rings)@, ear),
            s0 == old(rings)@,
            had == old(indices)@,
            threads == (*hash is Some),
            *hash is None ==> all_unchained(base),
            *hash matches Some(h) ==> h.within(kernel.count()),
        ensures
            clipped(s0, rings@, kernel, c, had, indices@),
            *hash is None ==> all_unchained(rings@),
            first_cut(base, kernel, *hash, c, had, indices@),
            walked_out(base, rings@, kernel, *hash, ear, pass, had, indices@, fuel),
        decreases live.len(), live.len() - ke,
    {
        let ghost n = live.len() as int;
        let ghost mid = rings@;
        let ghost t_mid = indices@;
        let prev = rings.prev(cur);
        let next = rings.next(cur);
        proof {
            assert(mid[live[ke] as int].next == live[succ(ke, n)]);
            assert(mid[live[ke] as int].prev == live[pred(ke, n)]);
            lemma_thinned_at(base, mid, kernel, c, live, threads, zs, ke);
        }
        if prev == next {
            proof {
                assert(n <= 2) by {
                    if n >= 3 {
                        assert(live[succ(ke, n)] != live[pred(ke, n)]);
                    }
                }
                lemma_clip_end(s0, base, mid, kernel, *hash, c, live, threads, zs, had, t_mid, first, ke);
                lemma_walking_done(base, kernel, *hash, had, ear, steps, mid, t_mid, cur, stop);
                fuel = steps;
            }
            break ;
        }
        assert(n >= 3) by {
            if n == 2 {
                assert(succ(ke, n) == pred(ke, n));
            }
        }
        if is_ear(rings, kernel, hash, cur) {
            let pp = rings.index(prev);
            let pe = rings.index(cur);
            let pn = rings.index(next);
            proof {
                lemma_pushed(had, indices@, [pp, pe, pn], kernel.count());
                assert([pp, pe, pn] == corner(mid, cur));
                let found = if first is None { Some(ke) } else { first };
                lemma_scan_cut(
                    base,
                    mid,
                    kernel,
                    *hash,
                    c,
                    live,
                    had,
                    t_mid,
                    first,
                    ke,
                    removed(mid, cur as int),
                    rotated(live.remove(ke), after_cut(ke, n)),
                    found,
                );
                lemma_ear_step(base, mid, kernel, c, live, threads, zs, ke);
                lemma_walking_cut(base, kernel, *hash, had, ear, steps, mid, t_mid, cur, stop);
                steps = steps + 1;
                first = found;
                zs = without(zs, cur);
                live = rotated(live.remove(ke), after_cut(ke, n));
                ke = 0;
            }
            indices.push([pp, pe, pn]);
            rings.remove(cur);
            cur = rings.next(next);
            stop = cur;
            continue ;
        }
        proof {
            lemma_walking_on(base, kernel, *hash, had, ear, steps, mid, t_mid, cur, stop);
        }
        cur = next;
        if cur == stop {
            proof {
                fuel = steps + 1;
                assert(ke + 1 == n) by {
                    if ke + 1 < n {
                        assert(live[ke + 1] != live[0]);
                    }
                }
                lemma_scan_on(base, mid, kernel, *hash, c, live, had, t_mid, first, ke);
                lemma_clip_hand(s0, base, mid, kernel, *hash, c, live, threads, zs, had, t_mid, first);
            }
            hand_on(rings, kernel, hash, cur, indices, pass);
            proof {
                lemma_clipped_twice(s0, mid, rings@, kernel, c, live, had, t_mid, indices@);
                lemma_clipped_facts(mid, rings@, kernel, live, t_mid, indices@);
                lemma_first_kept(base, kernel, *hash, c, had, t_mid, indices@);
            }
            break ;
        }
        proof {
            lemma_scan_on(base, mid, kernel, *hash, c, live, had, t_mid, first, ke);
            ke = ke + 1;
            steps = steps + 1;
        }
    }
    assert(entry_state(old(rings)@, base, kernel, *hash, pass, ear) && first_cut(
        base,
        kernel,
        *hash,
        c,
        had,
        indices@,
    ) && walked_out(base, rings@, kernel, *hash, ear, pass, had, indices@, fuel));
}

/// What the search for ears has seen so far: until the first ear is cut nothing
/// has changed, and no node passed was an ear; from then on the first triangle
/// is that of the first ear of the ring.
#[verifier::opaque]
pub open spec fn scanned_so_far<K: Kernel>(
    base: Seq<Node>,
    nodes: Seq<Node>,
    kernel: &K,
    hash: Option<HashParameters>,
    c: Seq<usize>,
    live: Seq<usize>,
    had: Seq<[usize; 3]>,
    has: Seq<[usize; 3]>,
    first: Option<int>,
    ke: int,
) -> bool {
    match first {
        None => nodes == base && live == c && has == had && forall|j: int|
            0 <= j < ke ==> !ear_at(base, kernel, hash, #[trigger] c[j]),
        Some(k) => first_ear(base, kernel, hash, c, k) && has.len() > had.len()
            && has[had.len() as int] == corner(base, c[k]),
    }
}

/// The node at which the search stands is no ear.
proof fn lemma_scan_on<K: Kernel>(
    base: Seq<Node>,
    nodes: Seq<Node>,
    kernel: &K,
    hash: Option<HashParameters>,
    c: Seq<usize>,
    live: Seq<usize>,
    had: Seq<[usize; 3]>,
    has: Seq<[usize; 3]>,
    first: Option<int>,
    ke: int,
)
    requires
        scanned_so_far(base, nodes, kernel, hash, c, live, had, has, first, ke),
        0 <= ke < live.len(),
        !ear_at(nodes, kernel, hash, live[ke]),
    ensures
        scanned_so_far(base, nodes, kernel, hash, c, live, had, has, first, ke + 1),
{
    reveal(scanned_so_far);
}

/// The node at which the search stands is an ear, and is cut off.
proof fn lemma_scan_cut<K: Kernel>(
    base: Seq<Node>,
    nodes: Seq<Node>,
    kernel: &K,
    hash: Option<HashParameters>,
    c: Seq<usize>,
    live: Seq<usize>,
    had: Seq<[usize; 3]>,
    has: Seq<[usize; 3]>,
    first: Option<int>,
    ke: int,
    after: Seq<Node>,
    rest: Seq<usize>,
    next: Option<int>,
)
    requires
        scanned_so_far(base, nodes, kernel, hash, c, live, had, has, first, ke),
        0 <= ke < live.len(),
        has.len() >= had.len(),
        ear_at(nodes, kernel, hash, live[ke]),
        next == (if first is None {
            Some(ke)
        } else {
            first
        }),
    ensures
        scanned_so_far(
            base,
            after,
            kernel,
            hash,
            c,
            rest,
            had,
            has.push(corner(nodes, live[ke])),
            next,
            0,
        ),
{
    reveal(scanned_so_far);
}

/// The search has ended on a ring of two nodes or fewer.
proof fn lemma_clip_end<K: Kernel>(
    s0: Seq<Node>,
    base: Seq<Node>,
    mid: Seq<Node>,
    kernel: &K,
    hash: Option<HashParameters>,
    c: Seq<usize>,
    live: Seq<usize>,
    threads: bool,
    zs: Seq<usize>,
    had: Seq<[usize; 3]>,
    has: Seq<[usize; 3]>,
    first: Option<int>,
    ke: int,
)
    requires
        worked(s0, base, kernel, c),
        thinned(base, mid, kernel, c, live, threads, zs),
        scanned_so_far(base, mid, kernel, hash, c, live, had, has, first, ke),
        1 <= live.len() <= 2,
        has.len() >= had.len(),
        has.subrange(0, had.len() as int) == had,
        in_range(has, had.len() as int, kernel.count()),
        live.len() + (has.len() - had.len()) == c.len(),
        has.len() > had.len() ==> live.len() >= 2,
        hash is None ==> all_unchained(base),
    ensures
        clipped(s0, mid, kernel, c, had, has),
        hash is None ==> all_unchained(mid),
        first_cut(base, kernel, hash, c, had, has),
{
    reveal(scanned_so_far);
    lemma_thinned_worked(base, mid, kernel, c, live, threads, zs);
    lemma_thinned_at(base, mid, kernel, c, live, threads, zs, 0);
    lemma_worked_twice(s0, base, mid, kernel, c, c);
    lemma_clipped_work(s0, mid, kernel, c, had, has);
    lemma_first_cut(base, kernel, hash, c, had, has, first, ke);
}

/// The search has gone round a ring of three nodes or more without finding an
/// ear.
proof fn lemma_clip_hand<K: Kernel>(
    s0: Seq<Node>,
    base: Seq<Node>,
    mid: Seq<Node>,
    kernel: &K,
    hash: Option<HashParameters>,
    c: Seq<usize>,
    live: Seq<usize>,
    threads: bool,
    zs: Seq<usize>,
    had: Seq<[usize; 3]>,
    has: Seq<[usize; 3]>,
    first: Option<int>,
)
    requires
        worked(s0, base, kernel, c),
        thinned(base, mid, kernel, c, live, threads, zs),
        scanned_so_far(base, mid, kernel, hash, c, live, had, has, first, live.len() as int),
        live.len() >= 3,
        has.len() >= had.len(),
        threads == (hash is Some),
        hash is None ==> all_unchained(base),
        hash matches Some(h) ==> h.within(kernel.count()),
    ensures
        ready(mid, kernel, hash, live[0], true),
        ring(mid, live[0]) == live,
        worked(s0, mid, kernel, c),
        forall|x: usize| #[trigger] live.contains(x) ==> c.contains(x) || x >= s0.len(),
        first_cut(base, kernel, hash, c, had, has),
{
    reveal(scanned_so_far);
    lemma_thinned_worked(base, mid, kernel, c, live, threads, zs);
    lemma_thinned_at(base, mid, kernel, c, live, threads, zs, 0);
    lemma_thinned_live(base, mid, kernel, c, live, threads, zs);
    assert(rotated(live, 0) =~= live);
    lemma_worked_twice(s0, base, mid, kernel, c, c);
    lemma_first_cut(base, kernel, hash, c, had, has, first, live.len() as int);
}

/// Where the node two behind position `k` of a ring of `n` nodes stands once the
/// node at `k` has been taken out.
pub open spec fn after_cut(k: int, n: int) -> int {
    let j = succ(succ(k, n), n);
    if j < k {
        j
    } else {
        j - 1
    }
}

/// Cutting an ear off what is left of a ring of three nodes or more, and going
/// on two nodes behind it.
proof fn lemma_ear_step<K: Kernel>(
    before: Seq<Node>,
    nodes: Seq<Node>,
    kernel: &K,
    ring0: Seq<usize>,
    live: Seq<usize>,
    threads: bool,
    zs: Seq<usize>,
    k: int,
)
    requires
        thinned(before, nodes, kernel, ring0, live, threads, zs),
        0 <= k < live.len(),
        live.len() >= 3,
    ensures
        ({
            let n = live.len() as int;
            let after = removed(nodes, live[k] as int);
            let rest = rotated(live.remove(k), after_cut(k, n));
            &&& thinned(before, after, kernel, ring0, rest, threads, without(zs, live[k]))
            &&& sound(after, kernel)
            &&& is_cycle(after, rest)
            &&& rest.len() == n - 1
            &&& rest[0] == after[live[succ(k, n)] as int].next
        }),
{
    let n = live.len() as int;
    let at = after_cut(k, n);
    let j2 = succ(succ(k, n), n);
    lemma_thinned_live(before, nodes, kernel, ring0, live, threads, zs);
    assert(nodes[live[k] as int].next == live[succ(k, n)]);
    assert(nodes[live[k] as int].prev == live[pred(k, n)]);
    assert(nodes[live[succ(k, n)] as int].next == live[j2]);
    lemma_thinned_step(before, nodes, kernel, ring0, live, threads, zs, k, at);
    lemma_removed_fields(nodes, live[k] as int);
    assert(live.remove(k)[at] == live[j2]);
    assert(live[succ(k, n)] != live[pred(k, n)]);
    lemma_thinned_live(
        before,
        removed(nodes, live[k] as int),
        kernel,
        ring0,
        rotated(live.remove(k), at),
        threads,
        without(zs, live[k]),
    );
}

/// The arena `base` is the one in which ears are looked for when clipping starts
/// from `before`: the same, or, where a pass with a spatial index begins, the
/// one with the ring of `ear` indexed.
pub open spec fn entry_state<K: Kernel>(
    before: Seq<Node>,
    base: Seq<Node>,
    kernel: &K,
    hash: Option<HashParameters>,
    pass: Pass,
    ear: usize,
) -> bool {
    match hash {
        Some(h) => if pass == Pass::Clip {
            curve_indexed(before, base, kernel, h, ear)
        } else {
            base == before
        },
        None => base == before,
    }
}

/// What ear clipping needs of the arena and the spatial index.
pub open spec fn ready<K: Kernel>(
    nodes: Seq<Node>,
    kernel: &K,
    hash: Option<HashParameters>,
    ear: usize,
    indexed: bool,
) -> bool {
    &&& sound(nodes, kernel)
    &&& has_ring(nodes, ear)
    &&& match hash {
        None => all_unchained(nodes),
        Some(h) => h.within(kernel.count()) && (indexed ==> coherent(nodes, ring(nodes, ear))),
    }
}

/// The arena in which ears are looked for has the ring that clipping started
/// with, and the z-order links that the loop needs.
proof fn lemma_entry<K: Kernel>(
    s0: Seq<Node>,
    base: Seq<Node>,
    kernel: &K,
    hash: Option<HashParameters>,
    pass: Pass,
    ear: usize,
)
    requires
        ready(s0, kernel, hash, ear, pass != Pass::Clip),
        entry_state(s0, base, kernel, hash, pass, ear),
    ensures
        sound(base, kernel),
        is_cycle(base, ring(s0, ear)),
        ring(s0, ear)[0] == ear,
        worked(s0, base, kernel, ring(s0, ear)),
        hash is None ==> all_unchained(base),
        hash is Some ==> exists|zs: Seq<usize>| threaded(base, ring(s0, ear), zs),
{
    reveal(worked);
    let c = ring(s0, ear);
    match hash {
        None => {},
        Some(h) => {
            if pass == Pass::Clip {
                assert(curve_indexed(s0, base, kernel, h, ear));
                assert forall|k: int| 0 <= k < c.len() implies same_links(
                    s0[#[trigger] c[k] as int],
                    base[c[k] as int],
                ) by {
                    assert(base[c[k] as int].i == s0[c[k] as int].i);
                }
                lemma_cycle_frame(s0, base, c);
                let zs = choose|zs: Seq<usize>| indexes(base, c, zs);
                assert(threaded(base, c, zs)) by {
                    assert forall|k: int| 0 <= k < c.len() implies zs.contains(#[trigger] c[k])
                        || unchained(base[c[k] as int]) by {
                        assert(c.contains(c[k]));
                    }
                }
                assert(sound(base, kernel)) by {
                    assert forall|j: int| 0 <= j < base.len() implies (#[trigger] base[j]).i
                        < kernel.count() by {
                        assert(s0[j].i < kernel.count());
                    }
                }
            }
        },
    }
}

/// The first triangle is that of the first ear, once an ear has been cut or the
/// whole ring has been looked at.
proof fn lemma_first_cut<K: Kernel>(
    base: Seq<Node>,
    kernel: &K,
    hash: Option<HashParameters>,
    c: Seq<usize>,
    had: Seq<[usize; 3]>,
    has: Seq<[usize; 3]>,
    first: Option<int>,
    seen: int,
)
    requires
        first is None ==> (seen >= c.len() || c.len() < 3) && forall|j: int|
            0 <= j < seen ==> !ear_at(base, kernel, hash, #[trigger] c[j]),
        first matches Some(k) ==> first_ear(base, kernel, hash, c, k) && has.len() > had.len()
            && has[had.len() as int] == corner(base, c[k]),
    ensures
        first_cut(base, kernel, hash, c, had, has),
{
    reveal(first_cut);
    if c.len() >= 3 {
        assert forall|k: int| first_ear(base, kernel, hash, c, k) implies has.len() > had.len()
            && has[had.len() as int] == corner(base, #[trigger] c[k]) by {
            match first {
                None => {
                    assert(!ear_at(base, kernel, hash, c[k]));
                },
                Some(f) => {
                    if k < f {
                        assert(!ear_at(base, kernel, hash, c[k]));
                    }
                    if f < k {
                        assert(!ear_at(base, kernel, hash, c[f]));
                    }
                },
            }
        }
    }
}

/// More triangles behind the first leave the first as it is.
proof fn lemma_first_kept<K: Kernel>(
    base: Seq<Node>,
    kernel: &K,
    hash: Option<HashParameters>,
    c: Seq<usize>,
    had: Seq<[usize; 3]>,
    t1: Seq<[usize; 3]>,
    t2: Seq<[usize; 3]>,
)
    requires
        first_cut(base, kernel, hash, c, had, t1),
        t2.len() >= t1.len(),
        t1.len() >= had.len(),
        t2.subrange(0, t1.len() as int) == t1,
    ensures
        first_cut(base, kernel, hash, c, had, t2),
{
    reveal(first_cut);
    if c.len() >= 3 {
        assert forall|k: int| first_ear(base, kernel, hash, c, k) implies t2.len() > had.len()
            && t2[had.len() as int] == corner(base, #[trigger] c[k]) by {
            assert(t1[had.len() as int] == corner(base, c[k]));
            assert(t2.subrange(0, t1.len() as int)[had.len() as int] == t2[had.len() as int]);
        }
    }
}

} // verus!
