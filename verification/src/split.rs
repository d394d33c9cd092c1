//! The search for a diagonal along which a ring can be cut in two.

use vstd::prelude::*;
use crate::filter::{
    filter_points, filtered, lemma_filtered_facts, lemma_other_ring, lemma_worked_facts,
    lemma_worked_twice, lemma_worked_wider, worked,
};
use crate::geometry::{is_valid_diagonal, sound, valid_diagonal};
use crate::kernel::Kernel;
use crate::ring::{
    all_unchained, bridged, cut_half, has_ring, is_cycle, kept_half, lemma_bridged_fields,
    lemma_bridged_split, lemma_ring_unique, lemma_rotated_cycle, on_ring, pred, ring, rotated,
    same_links, succ, unchained, Node, Rings,
};

verus! {

/// The nodes at position `ka` of the ring `c` and `off` steps behind it stand for
/// different points and are the ends of a valid diagonal.
pub open spec fn diagonal_at<K: Kernel>(
    nodes: Seq<Node>,
    kernel: &K,
    c: Seq<usize>,
    ka: int,
    off: int,
) -> bool {
    let a = c[ka];
    let b = rotated(c, ka)[off];
    nodes[a as int].i != nodes[b as int].i && valid_diagonal(nodes, kernel, a, b)
}

/// The pair of position `ka` and offset `off` is one that the search for a
/// diagonal of a ring of `n` nodes looks at: the two nodes are no neighbours.
pub open spec fn diagonal_pair(n: int, ka: int, off: int) -> bool {
    0 <= ka < n && 2 <= off <= n - 2
}

/// No pair that the search looks at before the pair of `ka` and `off` gives a
/// valid diagonal.
pub open spec fn none_before<K: Kernel>(
    nodes: Seq<Node>,
    kernel: &K,
    c: Seq<usize>,
    ka: int,
    off: int,
) -> bool {
    forall|i: int, j: int|
        diagonal_pair(c.len() as int, i, j) && (i < ka || (i == ka && j < off)) ==> !#[trigger] diagonal_at(
            nodes,
            kernel,
            c,
            i,
            j,
        )
}

/// The pair of `ka` and `off` is the first that gives a valid diagonal.
pub open spec fn first_diagonal<K: Kernel>(
    nodes: Seq<Node>,
    kernel: &K,
    c: Seq<usize>,
    ka: int,
    off: int,
) -> bool {
    &&& diagonal_pair(c.len() as int, ka, off)
    &&& diagonal_at(nodes, kernel, c, ka, off)
    &&& none_before(nodes, kernel, c, ka, off)
}

/// Looks for a valid diagonal of the ring of `start`, which has three nodes or
/// more: for each node in turn, from `start` on, among the nodes that are not
/// its neighbours, from the one two steps behind it on.
pub(crate) fn find_diagonal<K: Kernel>(rings: &Rings, kernel: &K, start: usize) -> (r: (
    Option<(usize, usize)>,
    Ghost<int>,
    Ghost<int>,
))
    requires
        sound(rings@, kernel),
        has_ring(rings@, start),
        ring(rings@, start).len() >= 3,
    ensures
        ({
            let c = ring(rings@, start);
            match r.0 {
                None => none_before(rings@, kernel, c, c.len() as int, 0),
                Some((a, b)) => first_diagonal(rings@, kernel, c, r.1@, r.2@) && a == c[r.1@]
                    && b == rotated(c, r.1@)[r.2@],
            }
        }),
{
    let ghost c = ring(rings@, start);
    let ghost n = c.len() as int;
    let ghost mut ka: int = 0;
    let mut a = start;
    loop
        invariant
            sound(rings@, kernel),
            on_ring(rings@, c, start),
            c == ring(rings@, start),
            n == c.len(),
            n >= 3,
            0 <= ka < n,
            a == c[ka],
            none_before(rings@, kernel, c, ka, 0),
        decreases n - ka,
    {
        let ghost d = rotated(c, ka);
        proof {
            lemma_rotated_cycle(rings@, c, ka);
            lemma_ring_unique(rings@, d, a);
            assert(rings@[d[0] as int].next == d[succ(0, n)]);
            assert(rings@[d[1] as int].next == d[succ(1, n)]);
            assert(rings@[d[0] as int].prev == d[pred(0, n)]);
        }
        let last = rings.prev(a);
        let mut b = rings.next(rings.next(a));
        let ghost mut off: int = 2;
        while b != last
            invariant
                sound(rings@, kernel),
                is_cycle(rings@, d),
                d == rotated(c, ka),
                c == ring(rings@, start),
                has_ring(rings@, a),
                n == c.len(),
                n == d.len(),
                n >= 3,
                0 <= ka < n,
                a == c[ka],
                a == d[0],
                last == d[n - 1],
                2 <= off <= n - 1,
                b == d[off],
                none_before(rings@, kernel, c, ka, off),
            decreases n - off,
        {
            assert(off < n - 1) by {
                if off == n - 1 {
                }
            }
            if rings.index(a) != rings.index(b) && is_valid_diagonal(rings, kernel, a, b) {
                assert(diagonal_at(rings@, kernel, c, ka, off));
                return (Some((a, b)), Ghost(ka), Ghost(off));
            }
            assert(!diagonal_at(rings@, kernel, c, ka, off));
            assert(rings@[d[off] as int].next == d[succ(off, n)]);
            b = rings.next(b);
            proof {
                off = off + 1;
            }
        }
        proof {
            assert(off == n - 1) by {
                if off < n - 1 {
                    assert(d[off] != d[n - 1]);
                }
            }
        }
        assert(rings@[c[ka] as int].next == c[succ(ka, n)]);
        a = rings.next(a);
        proof {
            ka = ka + 1;
        }
        if a == start {
            assert(ka == n) by {
                if ka < n {
                    assert(c[ka] != c[0]);
                }
            }
            return (None, Ghost(0), Ghost(0));
        }
    }
}


/// What a bridge between two nodes of a ring that are no neighbours leaves.
pub proof fn lemma_split_state<K: Kernel>(nodes: Seq<Node>, kernel: &K, c: Seq<usize>, j: int)
    requires
        sound(nodes, kernel),
        is_cycle(nodes, c),
        2 <= j < c.len(),
        nodes.len() + 2 <= usize::MAX,
    ensures
        ({
            let after = bridged(nodes, c[0] as int, c[j] as int);
            let m = nodes.len() as usize;
            let kept = kept_half(c, j);
            let cut = cut_half(c, j, m);
            &&& sound(after, kernel)
            &&& worked(nodes, after, kernel, c)
            &&& (all_unchained(nodes) ==> all_unchained(after))
            &&& after.len() == nodes.len() + 2
            &&& after[m as int].i == nodes[c[0] as int].i
            &&& after[m + 1].i == nodes[c[j] as int].i
            &&& is_cycle(after, kept)
            &&& is_cycle(after, cut)
            &&& kept.len() == c.len() - j + 1
            &&& cut.len() == j + 1
            &&& kept[0] == c[0]
            &&& kept[1] == c[j]
            &&& cut[0] == m
            &&& cut[j] == m + 1
            &&& (forall|x: usize| #[trigger] kept.contains(x) ==> c.contains(x))
            &&& (forall|x: usize| #[trigger] cut.contains(x) ==> c.contains(x) || x >= m)
            &&& (forall|x: usize| #[trigger] kept.contains(x) ==> !cut.contains(x))
        }),
{
    reveal(worked);
    let a = c[0] as int;
    let b = c[j] as int;
    let n = c.len() as int;
    let after = bridged(nodes, a, b);
    let m = nodes.len() as usize;
    let kept = kept_half(c, j);
    let cut = cut_half(c, j, m);
    lemma_bridged_fields(nodes, a, b);
    lemma_bridged_split(nodes, c, j);
    assert(nodes[c[0] as int].next == c[succ(0, n)]);
    assert(nodes[c[j] as int].prev == c[pred(j, n)]);
    assert forall|k: int| 1 <= k < kept.len() implies kept[k] == c[k + j - 1] by {}
    assert forall|k: int| 1 <= k < j implies cut[k] == c[k] by {}
    assert forall|x: usize| #[trigger] kept.contains(x) implies c.contains(x) by {
        let k = kept.index_of(x);
        if k >= 1 {
            assert(kept[k] == c[k + j - 1]);
        }
    }
    assert forall|x: usize| #[trigger] cut.contains(x) implies c.contains(x) || x >= m by {
        let k = cut.index_of(x);
        if 1 <= k < j {
            assert(cut[k] == c[k]);
        }
    }
    assert forall|x: usize| #[trigger] kept.contains(x) implies !cut.contains(x) by {
        if cut.contains(x) {
            let k = kept.index_of(x);
            let l = cut.index_of(x);
            assert(x < m) by {
                assert(c.contains(x));
                let q = c.index_of(x);
                assert(c[q] < nodes.len());
            }
            assert(1 <= l < j);
            assert(cut[l] == c[l]);
            if k >= 1 {
                assert(kept[k] == c[k + j - 1]);
            }
        }
    }
    assert(worked(nodes, after, kernel, c)) by {
        assert(c.contains(c[0]));
        assert(c.contains(c[j]));
        assert(c.contains(c[succ(0, n)]));
        assert(c.contains(c[pred(j, n)]));
        assert forall|i: int| 0 <= i < nodes.len() && !c.contains(i as usize) implies same_links(
            nodes[i],
            #[trigger] after[i],
        ) by {
            assert(i != a && i != b);
            assert(i != nodes[a].next);
            assert(i != nodes[b].prev);
        }
        assert forall|i: int| 0 <= i < after.len() implies (#[trigger] after[i]).i
            < kernel.count() by {
            if i < nodes.len() {
                assert(nodes[i].i < kernel.count());
            } else {
                assert(nodes[a].i < kernel.count());
                assert(nodes[b].i < kernel.count());
            }
        }
    }
    if all_unchained(nodes) {
        assert forall|i: int| 0 <= i < after.len() implies unchained(#[trigger] after[i]) by {
            if i < nodes.len() {
                assert(unchained(nodes[i]));
            }
        }
    }
}

/// What cutting the ring `c` between its nodes at positions 0 and `j`, and
/// filtering both halves, has left: `a` is a node of the half that kept the two
/// nodes, `b` one of the half that got their copies.
#[verifier::opaque]
pub open spec fn halved<K: Kernel>(
    before: Seq<Node>,
    after: Seq<Node>,
    kernel: &K,
    c: Seq<usize>,
    j: int,
    a: usize,
    b: usize,
) -> bool {
    let m = before.len() as int;
    &&& worked(before, after, kernel, c)
    &&& after.len() == before.len() + 2
    &&& after[m].i == before[c[0] as int].i
    &&& after[m + 1].i == before[c[j] as int].i
    &&& has_ring(after, a)
    &&& has_ring(after, b)
    &&& (forall|x: usize| #[trigger] ring(after, a).contains(x) ==> c.contains(x))
    &&& (forall|x: usize| #[trigger] ring(after, b).contains(x) ==> c.contains(x) || x >= m)
    &&& (forall|x: usize| #[trigger] ring(after, b).contains(x) ==> !ring(after, a).contains(x))
    &&& 1 <= ring(after, a).len() <= c.len() - j + 1
    &&& 1 <= ring(after, b).len() <= j + 1
    &&& (all_unchained(before) ==> all_unchained(after))
}

/// Cuts the ring `c` in two by a bridge between its nodes at positions 0 and `j`,
/// and filters collinear points around the cut on both sides. Returns a node of
/// each half.
pub(crate) fn halve<K: Kernel>(
    rings: &mut Rings,
    kernel: &K,
    a: usize,
    b: usize,
    Ghost(c): Ghost<Seq<usize>>,
    Ghost(j): Ghost<int>,
) -> (r: (usize, usize))
    requires
        sound(old(rings)@, kernel),
        is_cycle(old(rings)@, c),
        2 <= j <= c.len() - 2,
        a == c[0],
        b == c[j],
    ensures
        halved(old(rings)@, final(rings)@, kernel, c, j, r.0, r.1),
        halved_by(old(rings)@, final(rings)@, kernel, a, b, r.0, r.1),
{
    let ghost s0 = rings@;
    let ghost m = s0.len() as usize;
    let ghost kept = kept_half(c, j);
    let ghost cut = cut_half(c, j, m);
    let node = rings.split_polygon(a, b);
    let ghost s1 = rings@;
    proof {
        lemma_split_state(s0, kernel, c, j);
        lemma_ring_unique(s1, kept, a);
        assert(s1[kept[0] as int].next == kept[succ(0, kept.len() as int)]);
        assert(kept.contains(kept[1]));
    }
    let after_a = rings.next(a);
    let a2 = filter_points(rings, kernel, a, after_a);
    let ghost s2 = rings@;
    let ghost ra = ring(s2, a2);
    let ghost turned = rotated(cut, j);
    proof {
        lemma_filtered_facts(s1, s2, kernel, a, after_a, a2);
        lemma_other_ring(s1, s2, kernel, kept, cut);
        lemma_rotated_cycle(s2, cut, j);
        lemma_ring_unique(s2, turned, node);
        assert(s2[turned[0] as int].next == turned[succ(0, turned.len() as int)]);
        assert(turned.contains(turned[succ(0, turned.len() as int)]));
        lemma_worked_twice(s0, s1, s2, kernel, c, kept);
    }
    let after_node = rings.next(node);
    let c2 = filter_points(rings, kernel, node, after_node);
    let ghost s3 = rings@;
    proof {
        lemma_filtered_facts(s2, s3, kernel, node, after_node, c2);
        lemma_worked_wider(s2, s3, kernel, turned, cut);
        assert forall|x: usize| #[trigger] ra.contains(x) implies !cut.contains(x) by {
            assert(kept.contains(x));
        }
        lemma_other_ring(s2, s3, kernel, cut, ra);
        lemma_ring_unique(s3, ra, a2);
        lemma_worked_twice(s0, s2, s3, kernel, c, cut);
        lemma_worked_facts(s1, s2, kernel, kept);
        lemma_worked_facts(s2, s3, kernel, cut);
        let rc = ring(s3, c2);
        assert forall|x: usize| #[trigger] rc.contains(x) implies (c.contains(x) || x >= m)
            && !ra.contains(x) by {
            assert(turned.contains(x));
            assert(cut.contains(x));
            if ra.contains(x) {
                assert(kept.contains(x));
            }
        }
        assert(s3[m as int].i == s1[m as int].i) by {
            assert(s2[m as int].i == s1[m as int].i);
        }
        assert(s3[m + 1].i == s1[m + 1].i) by {
            assert(s2[m + 1].i == s1[m + 1].i);
        }
        assert(after_a == b);
        assert(node == m + 1 && after_node == m);
        assert(filtered(bridged(s0, a as int, b as int), s2, kernel, a, b, a2) && filtered(
            s2,
            s3,
            kernel,
            (s0.len() + 1) as usize,
            s0.len() as usize,
            c2,
        ));
        reveal(halved);
    }
    (a2, c2)
}

/// What cutting a ring between its nodes `a` and `b` has left, where `a2` and
/// `b2` are the nodes returned: the two have been bridged, the half that kept
/// them filtered from `a` to `b`, and the half that got their copies filtered
/// from the copy of `b` to that of `a`.
pub open spec fn halved_by<K: Kernel>(
    before: Seq<Node>,
    after: Seq<Node>,
    kernel: &K,
    a: usize,
    b: usize,
    a2: usize,
    b2: usize,
) -> bool {
    exists|mid: Seq<Node>|
        {
            &&& #[trigger] filtered(bridged(before, a as int, b as int), mid, kernel, a, b, a2)
            &&& filtered(
                mid,
                after,
                kernel,
                (before.len() + 1) as usize,
                before.len() as usize,
                b2,
            )
        }
}

} // verus!
