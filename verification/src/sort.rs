//! Merge sort of the z-order list, on its links alone.

use vstd::prelude::*;
use crate::ring::{
    has_list, is_chain, lemma_distinct_bounded, lemma_list_unique, linked, on_list, Node, Rings,
};

verus! {

/// The z-order values of the nodes, one for each node of the arena.
pub open spec fn z_values(nodes: Seq<Node>) -> Seq<u32> {
    Seq::new(nodes.len(), |j: int| nodes[j].z)
}

/// Node `x` goes before node `y` in the sorted list: its z-order value is the
/// lesser, or the two are the same and `x` stood before `y` in the list `was`.
pub open spec fn goes_before(zv: Seq<u32>, was: Seq<usize>, x: usize, y: usize) -> bool {
    zv[x as int] < zv[y as int] || (zv[x as int] == zv[y as int] && was.index_of(x) < was.index_of(
        y,
    ))
}

/// From position `lo` up to position `hi`, the nodes of `c` stand in ascending
/// order of their z-order values `zv`, and nodes of the same value in the order
/// in which they stood in the list `was`.
pub open spec fn ordered(zv: Seq<u32>, was: Seq<usize>, c: Seq<usize>, lo: int, hi: int) -> bool {
    forall|u: int, v: int|
        lo <= u < v < hi ==> goes_before(zv, was, #[trigger] c[u], #[trigger] c[v])
}

/// The nodes of `c` from position `lo` up to position `hi` are those that stood
/// at these positions in the list `was`.
pub open spec fn from_block(was: Seq<usize>, c: Seq<usize>, lo: int, hi: int) -> bool {
    forall|u: int| lo <= u < hi ==> lo <= was.index_of(#[trigger] c[u]) < hi
}

/// Where run `r` ends, in a list of `n` nodes whose runs start at `cuts`.
pub open spec fn run_end(cuts: Seq<int>, r: int, n: int) -> int {
    if r + 1 < cuts.len() {
        cuts[r + 1]
    } else {
        n
    }
}

/// The list `c` is made of runs that start at the positions `cuts`: each run is
/// in order, holds the nodes that stood at its positions in the list `was`, and
/// is `w` nodes long, but for the last, which may be shorter.
#[verifier::opaque]
pub open spec fn in_runs(
    zv: Seq<u32>,
    was: Seq<usize>,
    c: Seq<usize>,
    cuts: Seq<int>,
    w: int,
) -> bool {
    &&& cuts.len() >= 1
    &&& cuts[0] == 0
    &&& forall|r: int| 0 <= r < cuts.len() - 1 ==> #[trigger] cuts[r + 1] == cuts[r] + w
    &&& 0 < c.len() - cuts.last() <= w
    &&& forall|r: int|
        0 <= r < cuts.len() ==> ordered(
            zv,
            was,
            c,
            #[trigger] cuts[r],
            run_end(cuts, r, c.len() as int),
        ) && from_block(was, c, cuts[r], run_end(cuts, r, c.len() as int))
}

/// The `next_z` links of the nodes at the positions from `lo` up to `hi` of the
/// list `src` are those of the list.
pub open spec fn intact(nodes: Seq<Node>, src: Seq<usize>, lo: int, hi: int) -> bool {
    forall|u: int|
        lo <= u < hi ==> (#[trigger] nodes[src[u] as int]).next_z == (if u + 1 < src.len() {
            Some(src[u + 1])
        } else {
            None
        })
}

/// The nodes of `out` are linked into a list, but for the `next_z` link of the
/// last one, which is still open.
pub open spec fn strung(nodes: Seq<Node>, out: Seq<usize>) -> bool {
    forall|k: int|
        0 <= k < out.len() ==> {
            &&& (#[trigger] nodes[out[k] as int]).prev_z == (if k > 0 {
                Some(out[k - 1])
            } else {
                None
            })
            &&& (k + 1 < out.len() ==> nodes[out[k] as int].next_z == Some(out[k + 1]))
        }
}

/// Node `x` stands in `src` at a position below `a`, or from `t` up to `b`.
pub open spec fn drawn(src: Seq<usize>, a: int, t: int, b: int, x: usize) -> bool {
    exists|u: int| (0 <= u < a || t <= u < b) && 0 <= u < src.len() && src[u] == x
}

/// The state of a merge: the nodes of `src` below position `a` and from `t` up
/// to `b` have been moved to the list `out`, the others still hang together as
/// they did in `src`.
#[verifier::opaque]
pub open spec fn weaving(
    nodes: Seq<Node>,
    zv: Seq<u32>,
    src: Seq<usize>,
    out: Seq<usize>,
    a: int,
    t: int,
    b: int,
) -> bool {
    &&& linked(nodes)
    &&& zv == z_values(nodes)
    &&& src.no_duplicates()
    &&& forall|u: int| 0 <= u < src.len() ==> (#[trigger] src[u]) < nodes.len()
    &&& 0 <= a <= t <= b <= src.len()
    &&& intact(nodes, src, a, t)
    &&& intact(nodes, src, b, src.len() as int)
    &&& strung(nodes, out)
    &&& out.no_duplicates()
    &&& out.len() == a + b - t
    &&& forall|x: usize| #[trigger] out.contains(x) <==> drawn(src, a, t, b, x)
}

/// The last node of a list, if there is one.
pub open spec fn last_of(out: Seq<usize>) -> Option<usize> {
    if out.len() > 0 {
        Some(out.last())
    } else {
        None
    }
}

/// The arena after node `e` has been hung behind `tail`.
pub open spec fn hung(nodes: Seq<Node>, tail: Option<usize>, e: int) -> Seq<Node> {
    let s = match tail {
        Some(t) => nodes.update(t as int, Node { next_z: Some(e as usize), ..nodes[t as int] }),
        None => nodes,
    };
    s.update(e, Node { prev_z: tail, ..s[e] })
}

/// Only z-order links differ between the two arenas.
pub open spec fn relinked(before: Seq<Node>, after: Seq<Node>) -> bool {
    &&& after.len() == before.len()
    &&& forall|j: int|
        0 <= j < before.len() ==> {
            &&& (#[trigger] after[j]).i == before[j].i
            &&& after[j].prev == before[j].prev
            &&& after[j].next == before[j].next
            &&& after[j].z == before[j].z
            &&& after[j].steiner == before[j].steiner
        }
}

/// Moving the node at position `u` of `src`, which is `a` or `b`, to the end of
/// the list under construction.
proof fn lemma_weave_step(
    nodes: Seq<Node>,
    zv: Seq<u32>,
    src: Seq<usize>,
    out: Seq<usize>,
    a: int,
    t: int,
    b: int,
    from_p: bool,
    e: usize,
)
    requires
        weaving(nodes, zv, src, out, a, t, b),
        from_p ==> a < t && e == src[a],
        !from_p ==> b < src.len() && e == src[b],
    ensures
        weaving(
            hung(nodes, last_of(out), e as int),
            zv,
            src,
            out.push(e),
            if from_p { a + 1 } else { a },
            t,
            if from_p { b } else { b + 1 },
        ),
        relinked(nodes, hung(nodes, last_of(out), e as int)),
        e < nodes.len(),
        last_of(out) matches Some(l) ==> l < nodes.len(),
        !out.contains(e),
        forall|j: int|
            0 <= j < nodes.len() && !src.contains(j as usize) ==> (#[trigger] hung(
                nodes,
                last_of(out),
                e as int,
            )[j]) == nodes[j],
{
    reveal(weaving);
    let u = if from_p { a } else { b };
    let tail = last_of(out);
    let after = hung(nodes, tail, e as int);
    let out2 = out.push(e);
    let a2 = if from_p { a + 1 } else { a };
    let b2 = if from_p { b } else { b + 1 };
    assert(src[u] < nodes.len());
    // the node is not on the list yet
    assert(!out.contains(e)) by {
        if out.contains(e) {
            assert(drawn(src, a, t, b, e));
            let v = choose|v: int| (0 <= v < a || t <= v < b) && 0 <= v < src.len() && src[v] == e;
            assert(v != u);
        }
    }
    if out.len() > 0 {
        let l = out.last();
        assert(out.contains(l));
        assert(drawn(src, a, t, b, l));
        let v = choose|v: int| (0 <= v < a || t <= v < b) && 0 <= v < src.len() && src[v] == l;
        assert(src[v] < nodes.len());
        assert(l != e);
    }
    assert(after.len() == nodes.len());
    assert(src.contains(src[u]));
    if out.len() > 0 {
        let l = out.last();
        let v = choose|v: int| (0 <= v < a || t <= v < b) && 0 <= v < src.len() && src[v] == l;
        assert(src.contains(src[v]));
    }
    assert(relinked(nodes, after));
    assert(linked(after));
    assert(z_values(after) =~= zv);
    // the nodes that are left keep their links
    assert forall|w: int| (a2 <= w < t || b2 <= w < src.len()) implies (#[trigger] after[src[w] as int]).next_z
        == (if w + 1 < src.len() {
        Some(src[w + 1])
    } else {
        None
    }) by {
        assert(src[w] != e);
        if out.len() > 0 {
            let l = out.last();
            let v = choose|v: int| (0 <= v < a || t <= v < b) && 0 <= v < src.len() && src[v] == l;
            assert(src[w] != src[v]);
        }
        assert(nodes[src[w] as int].next_z == (if w + 1 < src.len() {
            Some(src[w + 1])
        } else {
            None
        }));
    }
    assert(intact(after, src, a2, t));
    assert(intact(after, src, b2, src.len() as int));
    // the list is one longer
    assert forall|k: int| 0 <= k < out2.len() implies {
        &&& (#[trigger] after[out2[k] as int]).prev_z == (if k > 0 {
            Some(out2[k - 1])
        } else {
            None
        })
        &&& (k + 1 < out2.len() ==> after[out2[k] as int].next_z == Some(out2[k + 1]))
    } by {
        if k < out.len() {
            assert(out2[k] == out[k]);
            assert(out.contains(out[k]));
            assert(out[k] != e);
            assert(nodes[out[k] as int].prev_z == (if k > 0 {
                Some(out[k - 1])
            } else {
                None
            }));
            if k + 1 < out.len() {
                assert(out[k] != out.last());
            }
        }
    }
    assert(out2.no_duplicates()) by {
        assert forall|i: int, j: int| 0 <= i < out2.len() && 0 <= j < out2.len() && i != j implies out2[i]
            != out2[j] by {
            if i < out.len() {
                assert(out.contains(out[i]));
            }
            if j < out.len() {
                assert(out.contains(out[j]));
            }
        }
    }
    assert forall|x: usize| #[trigger] out2.contains(x) <==> drawn(src, a2, t, b2, x) by {
        if out2.contains(x) {
            let k = out2.index_of(x);
            if k < out.len() {
                assert(out.contains(out[k]));
                assert(drawn(src, a, t, b, x));
                let v = choose|v: int|
                    (0 <= v < a || t <= v < b) && 0 <= v < src.len() && src[v] == x;
                assert((0 <= v < a2 || t <= v < b2) && 0 <= v < src.len() && src[v] == x);
            } else {
                assert((0 <= u < a2 || t <= u < b2) && 0 <= u < src.len() && src[u] == x);
            }
        }
        if drawn(src, a2, t, b2, x) {
            let v = choose|v: int|
                (0 <= v < a2 || t <= v < b2) && 0 <= v < src.len() && src[v] == x;
            if v == u {
                assert(out2[out.len() as int] == x);
            } else {
                assert((0 <= v < a || t <= v < b) && 0 <= v < src.len() && src[v] == x);
                assert(drawn(src, a, t, b, x));
                assert(out.contains(x));
                let k = out.index_of(x);
                assert(out2[k] == x);
            }
        }
    }
}

/// Starting a merge: nothing has been moved yet.
proof fn lemma_weave_start(nodes: Seq<Node>, src: Seq<usize>)
    requires
        linked(nodes),
        is_chain(nodes, src),
    ensures
        weaving(nodes, z_values(nodes), src, Seq::empty(), 0, 0, 0),
{
    reveal(weaving);
    let out = Seq::<usize>::empty();
    assert forall|x: usize| #[trigger] out.contains(x) <==> drawn(src, 0, 0, 0, x) by {}
}

/// Between two merges: what has been moved is a stretch from the start, and the
/// next run may end anywhere behind it.
proof fn lemma_weave_shift(
    nodes: Seq<Node>,
    zv: Seq<u32>,
    src: Seq<usize>,
    out: Seq<usize>,
    t: int,
    b: int,
    t2: int,
)
    requires
        weaving(nodes, zv, src, out, t, t, b),
        b <= t2 <= src.len(),
    ensures
        weaving(nodes, zv, src, out, b, t2, t2),
{
    reveal(weaving);
    assert forall|x: usize| #[trigger] out.contains(x) <==> drawn(src, b, t2, t2, x) by {
        if out.contains(x) {
            assert(drawn(src, t, t, b, x));
            let v = choose|v: int| (0 <= v < t || t <= v < b) && 0 <= v < src.len() && src[v] == x;
            assert((0 <= v < b || t2 <= v < t2) && 0 <= v < src.len() && src[v] == x);
        }
        if drawn(src, b, t2, t2, x) {
            let v = choose|v: int|
                (0 <= v < b || t2 <= v < t2) && 0 <= v < src.len() && src[v] == x;
            assert((0 <= v < t || t <= v < b) && 0 <= v < src.len() && src[v] == x);
        }
    }
}

/// What a merge in progress lets one read.
proof fn lemma_weave_facts(
    nodes: Seq<Node>,
    zv: Seq<u32>,
    src: Seq<usize>,
    out: Seq<usize>,
    a: int,
    t: int,
    b: int,
)
    requires
        weaving(nodes, zv, src, out, a, t, b),
    ensures
        linked(nodes),
        zv == z_values(nodes),
        0 <= a <= t <= b <= src.len(),
        out.len() == a + b - t,
        forall|u: int| 0 <= u < src.len() ==> (#[trigger] src[u]) < nodes.len(),
        intact(nodes, src, a, t),
        intact(nodes, src, b, src.len() as int),
        out.len() > 0 ==> out.last() < nodes.len(),
{
    reveal(weaving);
    if out.len() > 0 {
        let l = out.last();
        assert(out.contains(l));
        assert(drawn(src, a, t, b, l));
    }
}

/// Closing the list once every node has been moved to it.
proof fn lemma_weave_done(
    nodes: Seq<Node>,
    zv: Seq<u32>,
    src: Seq<usize>,
    out: Seq<usize>,
)
    requires
        weaving(nodes, zv, src, out, src.len() as int, src.len() as int, src.len() as int),
        src.len() > 0,
    ensures
        out.len() == src.len(),
        out.last() < nodes.len(),
        is_chain(
            nodes.update(
                out.last() as int,
                Node { next_z: None, ..nodes[out.last() as int] },
            ),
            out,
        ),
        forall|x: usize| out.contains(x) <==> src.contains(x),
{
    reveal(weaving);
    let n = src.len() as int;
    let l = out.last();
    assert(out.contains(l));
    assert(drawn(src, n, n, n, l));
    let after = nodes.update(l as int, Node { next_z: None, ..nodes[l as int] });
    assert forall|k: int| 0 <= k < out.len() implies (#[trigger] out[k]) < after.len() by {
        assert(out.contains(out[k]));
        assert(drawn(src, n, n, n, out[k]));
    }
    assert forall|k: int| 0 <= k < out.len() implies {
        &&& (#[trigger] after[out[k] as int]).next_z == (if k + 1 < out.len() {
            Some(out[k + 1])
        } else {
            None
        })
        &&& after[out[k] as int].prev_z == (if k > 0 {
            Some(out[k - 1])
        } else {
            None
        })
    } by {
        assert(nodes[out[k] as int].prev_z == (if k > 0 {
            Some(out[k - 1])
        } else {
            None
        }));
        if k + 1 < out.len() {
            assert(out[k] != out.last());
        }
    }
    assert forall|x: usize| out.contains(x) <==> src.contains(x) by {
        if out.contains(x) {
            assert(drawn(src, n, n, n, x));
        }
        if src.contains(x) {
            let v = src.index_of(x);
            assert((0 <= v < n || n <= v < n) && 0 <= v < src.len() && src[v] == x);
            assert(drawn(src, n, n, n, x));
        }
    }
}


/// Hangs node `e` behind `tail` on the list under construction.
fn hang(rings: &mut Rings, tail: Option<usize>, e: usize)
    requires
        e < old(rings)@.len(),
        tail matches Some(t) ==> t < old(rings)@.len(),
    ensures
        final(rings)@ == hung(old(rings)@, tail, e as int),
{
    if let Some(t) = tail {
        rings.nodes[t].next_z = Some(e);
    }
    rings.nodes[e].prev_z = tail;
}

/// The node at position `u` of `src`, if there is one.
pub open spec fn at(src: Seq<usize>, u: int) -> Option<usize> {
    if 0 <= u < src.len() {
        Some(src[u])
    } else {
        None
    }
}

/// The lesser of two numbers.
pub open spec fn least(a: int, b: int) -> int {
    if a <= b {
        a
    } else {
        b
    }
}

/// Steps `in_size` nodes down the list from `p`, or to its end. Returns the number
/// of steps made and the node reached.
fn run_length(
    rings: &Rings,
    p: usize,
    in_size: usize,
    Ghost(src): Ghost<Seq<usize>>,
    Ghost(s): Ghost<int>,
) -> (r: (usize, Option<usize>))
    requires
        linked(rings@),
        0 <= s < src.len(),
        p == src[s],
        intact(rings@, src, s, src.len() as int),
        forall|u: int| 0 <= u < src.len() ==> (#[trigger] src[u]) < rings@.len(),
        in_size >= 1,
    ensures
        r.0 == least(in_size as int, src.len() - s),
        r.1 == at(src, s + r.0),
{
    let mut q = p;
    let mut p_size: usize = 0;
    loop
        invariant
            linked(rings@),
            0 <= s < src.len(),
            intact(rings@, src, s, src.len() as int),
            forall|u: int| 0 <= u < src.len() ==> (#[trigger] src[u]) < rings@.len(),
            p_size < in_size,
            s + p_size < src.len(),
            q == src[s + p_size],
        decreases in_size - p_size,
    {
        p_size += 1;
        assert(rings@[src[s + p_size - 1] as int].next_z == at(src, s + p_size));
        match rings.next_z(q) {
            None => {
                return (p_size, None);
            },
            Some(next) => {
                if p_size == in_size {
                    return (p_size, Some(next));
                }
                q = next;
            },
        }
    }
}

/// The order of the sorted list carries over.
proof fn lemma_goes_on(zv: Seq<u32>, was: Seq<usize>, x: usize, y: usize, z: usize)
    requires
        goes_before(zv, was, x, y),
        goes_before(zv, was, y, z),
    ensures
        goes_before(zv, was, x, z),
{
}

/// Merges the run of `p_size` nodes that starts at `p` with the run of up to
/// `in_size` nodes that starts at `q`, onto the list that ends at `tail`. Returns
/// the node behind the second run, the new end of the list, and its head.
fn merge_pair(
    rings: &mut Rings,
    p: usize,
    q: Option<usize>,
    p_size: usize,
    in_size: usize,
    tail: Option<usize>,
    head: Option<usize>,
    Ghost(was): Ghost<Seq<usize>>,
    Ghost(src): Ghost<Seq<usize>>,
    Ghost(out): Ghost<Seq<usize>>,
) -> (r: (Option<usize>, usize, usize, Ghost<Seq<usize>>))
    requires
        weaving(
            old(rings)@,
            z_values(old(rings)@),
            src,
            out,
            out.len() as int,
            out.len() + p_size,
            out.len() + p_size,
        ),
        p_size >= 1,
        in_size >= 1,
        out.len() + p_size <= src.len(),
        p == src[out.len() as int],
        q == at(src, out.len() + p_size),
        tail == last_of(out),
        head == at(out, 0),
        ordered(z_values(old(rings)@), was, src, out.len() as int, out.len() + p_size),
        ordered(
            z_values(old(rings)@),
            was,
            src,
            out.len() + p_size,
            least(out.len() + p_size + in_size, src.len() as int),
        ),
        from_block(was, src, out.len() as int, out.len() + p_size),
        from_block(
            was,
            src,
            out.len() + p_size,
            least(out.len() + p_size + in_size, src.len() as int),
        ),
    ensures
        ({
            let e2 = least(out.len() + p_size + in_size, src.len() as int);
            let (next, last, first, grown) = r;
            &&& weaving(final(rings)@, z_values(old(rings)@), src, grown@, e2, e2, e2)
            &&& grown@.len() == e2
            &&& grown@.subrange(0, out.len() as int) == out
            &&& ordered(z_values(old(rings)@), was, grown@, out.len() as int, e2)
            &&& from_block(was, grown@, out.len() as int, e2)
            &&& next == at(src, e2)
            &&& last == grown@.last()
            &&& first == grown@[0]
            &&& relinked(old(rings)@, final(rings)@)
            &&& forall|j: int|
                0 <= j < old(rings)@.len() && !src.contains(j as usize) ==> (#[trigger] final(rings)@[j])
                    == old(rings)@[j]
        }),
{
    let ghost zv = z_values(rings@);
    let ghost s = out.len() as int;
    let ghost t = s + p_size;
    let ghost e2 = least(t + in_size, src.len() as int);
    let ghost n = src.len() as int;
    let ghost mut a = s;
    let ghost mut b = t;
    let ghost mut cur = out;
    let mut pp = Some(p);
    let mut qq = q;
    let mut p_left = p_size;
    let mut q_left = in_size;
    let mut tail = tail;
    let mut head = head;
    while p_left > 0 || (q_left > 0 && qq.is_some())
        invariant
            weaving(rings@, zv, src, cur, a, t, b),
            zv == z_values(old(rings)@),
            s == out.len(),
            t == s + p_size,
            n == src.len(),
            e2 == least(t + in_size, n),
            s <= a <= t <= b <= e2,
            p_left == t - a,
            q_left == in_size - (b - t),
            a < t ==> pp == Some(src[a]),
            qq == at(src, b),
            tail == last_of(cur),
            head == at(cur, 0),
            cur.len() == a + b - t,
            cur.subrange(0, s) == out,
            ordered(zv, was, src, s, t),
            ordered(zv, was, src, t, e2),
            from_block(was, src, s, t),
            from_block(was, src, t, e2),
            ordered(zv, was, cur, s, cur.len() as int),
            forall|u: int| s <= u < cur.len() ==> s <= was.index_of(#[trigger] cur[u]) < e2,
            cur.len() > s && a < t ==> goes_before(zv, was, cur.last(), src[a]),
            cur.len() > s && b < e2 ==> goes_before(zv, was, cur.last(), src[b]),
            relinked(old(rings)@, rings@),
            forall|j: int|
                0 <= j < old(rings)@.len() && !src.contains(j as usize) ==> (#[trigger] rings@[j])
                    == old(rings)@[j],
        decreases (t - a) + (e2 - b),
    {
        proof {
            lemma_weave_facts(rings@, zv, src, cur, a, t, b);
        }
        let from_p = p_left != 0 && (q_left == 0 || match (pp, qq) {
            (Some(x), Some(y)) => rings.z(x) <= rings.z(y),
            _ => true,
        });
        let e: usize;
        let ghost before = rings@;
        if from_p {
            e = pp.unwrap();
            assert(rings@[src[a] as int].next_z == at(src, a + 1));
            pp = rings.next_z(e);
            p_left -= 1;
        } else {
            e = qq.unwrap();
            assert(rings@[src[b] as int].next_z == at(src, b + 1));
            qq = rings.next_z(e);
            q_left -= 1;
        }
        proof {
            lemma_weave_step(rings@, zv, src, cur, a, t, b, from_p, e);
        }
        hang(rings, tail, e);
        if head.is_none() {
            head = Some(e);
        }
        tail = Some(e);
        proof {
            let grown = cur.push(e);
            assert(grown.subrange(0, s) =~= cur.subrange(0, s));
            assert forall|u: int, v: int| s <= u < v < grown.len() implies goes_before(
                zv,
                was,
                #[trigger] grown[u],
                #[trigger] grown[v],
            ) by {
                if v < cur.len() {
                    assert(grown[u] == cur[u] && grown[v] == cur[v]);
                } else {
                    assert(grown[u] == cur[u]);
                    if u < cur.len() - 1 {
                        assert(goes_before(zv, was, cur[u], cur[cur.len() - 1]));
                        lemma_goes_on(zv, was, cur[u], cur.last(), e);
                    }
                }
            }
            assert forall|u: int| s <= u < grown.len() implies s <= was.index_of(
                #[trigger] grown[u],
            ) < e2 by {
                if u < cur.len() {
                    assert(grown[u] == cur[u]);
                } else if from_p {
                    assert(s <= was.index_of(src[a]) < t);
                } else {
                    assert(t <= was.index_of(src[b]) < e2);
                }
            }
            if from_p {
                if a + 1 < t {
                    assert(goes_before(zv, was, src[a], src[a + 1]));
                }
                if b < e2 {
                    assert(was.index_of(src[a]) < t);
                    assert(t <= was.index_of(src[b]));
                }
                a = a + 1;
            } else {
                if b + 1 < e2 {
                    assert(goes_before(zv, was, src[b], src[b + 1]));
                }
                b = b + 1;
            }
            cur = grown;
            assert forall|j: int|
                0 <= j < old(rings)@.len() && !src.contains(j as usize) implies (#[trigger] rings@[j])
                == old(rings)@[j] by {
                assert(rings@[j] == before[j]);
            }
        }
    }
    proof {
        assert(a == t && b == e2);
        lemma_weave_shift(rings@, zv, src, cur, t, e2, e2);
        lemma_weave_facts(rings@, zv, src, cur, e2, e2, e2);
    }
    (qq, tail.unwrap(), head.unwrap(), Ghost(cur))
}

/// Run `m` of the merged list starts where run `2 * m` of the list it was merged
/// from did.
pub open spec fn paired(cuts: Seq<int>, joined: Seq<int>) -> bool {
    forall|m: int|
        0 <= m < joined.len() ==> 2 * m < cuts.len() && #[trigger] joined[m] == cuts[2 * m]
}

/// The runs of a list start at ascending positions.
proof fn lemma_cuts_ascend(
    zv: Seq<u32>,
    was: Seq<usize>,
    c: Seq<usize>,
    cuts: Seq<int>,
    w: int,
    i: int,
    j: int,
)
    requires
        in_runs(zv, was, c, cuts, w),
        w >= 1,
        0 <= i <= j < cuts.len(),
    ensures
        cuts[i] <= cuts[j],
        i < j ==> cuts[i] + w <= cuts[j],
    decreases j - i,
{
    reveal(in_runs);
    if i < j {
        lemma_cuts_ascend(zv, was, c, cuts, w, i, j - 1);
        assert(cuts[(j - 1) + 1] == cuts[j - 1] + w);
    }
}

/// A stretch of a list that is in order stays so when the list grows at its end.
proof fn lemma_ordered_prefix(
    zv: Seq<u32>,
    was: Seq<usize>,
    out: Seq<usize>,
    grown: Seq<usize>,
    lo: int,
    hi: int,
)
    requires
        ordered(zv, was, out, lo, hi),
        from_block(was, out, lo, hi),
        0 <= lo,
        hi <= out.len() <= grown.len(),
        grown.subrange(0, out.len() as int) == out,
    ensures
        ordered(zv, was, grown, lo, hi),
        from_block(was, grown, lo, hi),
{
    assert forall|u: int| lo <= u < hi implies grown[u] == out[u] by {
        assert(grown.subrange(0, out.len() as int)[u] == grown[u]);
    }
    assert forall|u: int, v: int| lo <= u < v < hi implies goes_before(
        zv,
        was,
        #[trigger] grown[u],
        #[trigger] grown[v],
    ) by {
        assert(goes_before(zv, was, out[u], out[v]));
    }
    assert forall|u: int| lo <= u < hi implies lo <= was.index_of(#[trigger] grown[u]) < hi by {
        assert(lo <= was.index_of(out[u]) < hi);
    }
}

/// The two runs that the next merge takes.
proof fn lemma_pass_next(
    zv: Seq<u32>,
    was: Seq<usize>,
    src: Seq<usize>,
    cuts: Seq<int>,
    w: int,
    out: Seq<usize>,
    joined: Seq<int>,
    merges: int,
    r: int,
)
    requires
        w >= 1,
        in_runs(zv, was, src, cuts, w),
        passing(zv, was, src, cuts, out, joined, merges, r),
        out.len() < src.len(),
    ensures
        r < cuts.len(),
        merges < src.len(),
        ({
            let s = out.len() as int;
            let n = src.len() as int;
            let t = s + least(w, n - s);
            let e2 = least(t + w, n);
            &&& s < t <= e2 <= n
            &&& e2 == run_start(cuts, r + 2, n)
            &&& ordered(zv, was, src, s, t)
            &&& ordered(zv, was, src, t, e2)
            &&& from_block(was, src, s, t)
            &&& from_block(was, src, t, e2)
        }),
{
    let s = out.len() as int;
    let n = src.len() as int;
    lemma_passing_facts(zv, was, src, cuts, w, out, joined, merges, r);
    reveal(in_runs);
    reveal(passing);
    assert(s == cuts[r]);
    lemma_cuts_ascend(zv, was, src, cuts, w, r, cuts.len() - 1);
    assert(ordered(zv, was, src, cuts[r], run_end(cuts, r, n)));
    if r + 1 < cuts.len() {
        assert(cuts[r + 1] == cuts[r] + w);
        lemma_cuts_ascend(zv, was, src, cuts, w, r + 1, cuts.len() - 1);
        assert(ordered(zv, was, src, cuts[r + 1], run_end(cuts, r + 1, n)));
    }
    if r + 2 < cuts.len() {
        assert(cuts[(r + 1) + 1] == cuts[r + 1] + w);
        lemma_cuts_ascend(zv, was, src, cuts, w, r + 2, cuts.len() - 1);
    }
}

/// A pass has merged no more pairs than it has moved nodes.
proof fn lemma_passing_facts(
    zv: Seq<u32>,
    was: Seq<usize>,
    src: Seq<usize>,
    cuts: Seq<int>,
    w: int,
    out: Seq<usize>,
    joined: Seq<int>,
    merges: int,
    r: int,
)
    requires
        w >= 1,
        in_runs(zv, was, src, cuts, w),
        passing(zv, was, src, cuts, out, joined, merges, r),
    ensures
        0 <= merges <= out.len() <= src.len(),
        out.len() < src.len() ==> r < cuts.len(),
{
    reveal(in_runs);
    reveal(passing);
    let n = src.len() as int;
    lemma_cuts_ascend(zv, was, src, cuts, w, 0, cuts.len() - 1);
    if r < cuts.len() {
        lemma_cuts_ascend(zv, was, src, cuts, w, r, cuts.len() - 1);
    }
    if merges > 0 {
        assert(joined[merges - 1] == cuts[2 * (merges - 1)]);
        lemma_cuts_count(zv, was, src, cuts, w, 2 * (merges - 1));
        if r < cuts.len() {
            lemma_cuts_count(zv, was, src, cuts, w, r);
        } else {
            lemma_cuts_ascend(zv, was, src, cuts, w, 2 * (merges - 1), cuts.len() - 1);
        }
    }
}

/// Run `i` starts at position `i` at the earliest.
proof fn lemma_cuts_count(
    zv: Seq<u32>,
    was: Seq<usize>,
    c: Seq<usize>,
    cuts: Seq<int>,
    w: int,
    i: int,
)
    requires
        in_runs(zv, was, c, cuts, w),
        w >= 1,
        0 <= i < cuts.len(),
    ensures
        cuts[i] >= i,
    decreases i,
{
    reveal(in_runs);
    if i > 0 {
        lemma_cuts_count(zv, was, c, cuts, w, i - 1);
        assert(cuts[(i - 1) + 1] == cuts[i - 1] + w);
    }
}

/// Before the first merge of a pass.
proof fn lemma_pass_start(zv: Seq<u32>, was: Seq<usize>, src: Seq<usize>, cuts: Seq<int>, w: int)
    requires
        in_runs(zv, was, src, cuts, w),
    ensures
        passing(zv, was, src, cuts, Seq::empty(), Seq::empty(), 0, 0),
{
    reveal(in_runs);
    reveal(passing);
}

/// A list of single nodes is a list of runs of one node.
proof fn lemma_runs_start(zv: Seq<u32>, c: Seq<usize>)
    requires
        c.len() > 0,
        c.no_duplicates(),
    ensures
        in_runs(zv, c, c, Seq::new(c.len(), |r: int| r), 1),
{
    reveal(in_runs);
    let cuts = Seq::new(c.len(), |r: int| r);
    assert forall|r: int| 0 <= r < cuts.len() implies ordered(
        zv,
        c,
        c,
        #[trigger] cuts[r],
        run_end(cuts, r, c.len() as int),
    ) && from_block(c, c, cuts[r], run_end(cuts, r, c.len() as int)) by {
        assert(c.contains(c[r]));
        assert(c[c.index_of(c[r])] == c[r]);
    }
}

/// Where run `r` of a list starts, and the end of the list for the run behind the
/// last.
pub open spec fn run_start(cuts: Seq<int>, r: int, n: int) -> int {
    if r < cuts.len() {
        cuts[r]
    } else {
        n
    }
}

/// What one pass over the list has done so far: `merges` pairs of runs have been
/// merged into the runs of `out`, which start at `joined`.
#[verifier::opaque]
pub open spec fn passing(
    zv: Seq<u32>,
    was: Seq<usize>,
    src: Seq<usize>,
    cuts: Seq<int>,
    out: Seq<usize>,
    joined: Seq<int>,
    merges: int,
    r: int,
) -> bool {
    &&& joined.len() == merges
    &&& paired(cuts, joined)
    &&& 0 <= r <= cuts.len()
    &&& r == least(2 * merges, cuts.len() as int)
    &&& out.len() == run_start(cuts, r, src.len() as int)
    &&& forall|m: int|
        0 <= m < joined.len() ==> ordered(
            zv,
            was,
            out,
            #[trigger] joined[m],
            run_end(joined, m, out.len() as int),
        ) && from_block(was, out, joined[m], run_end(joined, m, out.len() as int))
}

/// One pair of runs more has been merged.
proof fn lemma_pass_step(
    zv: Seq<u32>,
    was: Seq<usize>,
    src: Seq<usize>,
    cuts: Seq<int>,
    w: int,
    out: Seq<usize>,
    joined: Seq<int>,
    merges: int,
    r: int,
    grown: Seq<usize>,
)
    requires
        w >= 1,
        in_runs(zv, was, src, cuts, w),
        passing(zv, was, src, cuts, out, joined, merges, r),
        r < cuts.len(),
        grown.len() == run_start(cuts, r + 2, src.len() as int),
        grown.subrange(0, out.len() as int) == out,
        ordered(zv, was, grown, out.len() as int, grown.len() as int),
        from_block(was, grown, out.len() as int, grown.len() as int),
    ensures
        passing(
            zv,
            was,
            src,
            cuts,
            grown,
            joined.push(out.len() as int),
            merges + 1,
            least(r + 2, cuts.len() as int),
        ),
        out.len() < grown.len(),
{
    let s = out.len() as int;
    let n = src.len() as int;
    let joined2 = joined.push(s);
    lemma_passing_facts(zv, was, src, cuts, w, out, joined, merges, r);
    assert(r == 2 * merges && s == cuts[r]) by {
        reveal(passing);
    }
    assert(cuts.last() < n) by {
        reveal(in_runs);
    }
    if r + 2 < cuts.len() {
        lemma_cuts_ascend(zv, was, src, cuts, w, r, r + 2);
    } else {
        lemma_cuts_ascend(zv, was, src, cuts, w, r, cuts.len() - 1);
    }
    assert(paired(cuts, joined2)) by {
        reveal(passing);
        assert forall|m: int| 0 <= m < joined2.len() implies 2 * m < cuts.len()
            && #[trigger] joined2[m] == cuts[2 * m] by {
            if m < joined.len() {
                assert(joined2[m] == joined[m]);
            }
        }
    }
    assert forall|m: int| 0 <= m < joined2.len() implies ordered(
        zv,
        was,
        grown,
        #[trigger] joined2[m],
        run_end(joined2, m, grown.len() as int),
    ) && from_block(was, grown, joined2[m], run_end(joined2, m, grown.len() as int)) by {
        if m < joined.len() {
            reveal(passing);
            assert(joined2[m] == joined[m]);
            let lo = joined[m];
            let hi = run_end(joined, m, s);
            assert(run_end(joined2, m, grown.len() as int) == hi);
            assert(ordered(zv, was, out, lo, hi));
            assert(from_block(was, out, lo, hi));
            assert(joined[m] == cuts[2 * m]);
            lemma_cuts_count(zv, was, src, cuts, w, 2 * m);
            assert(hi <= s) by {
                if m + 1 < joined.len() {
                    assert(joined[m + 1] == cuts[2 * (m + 1)]);
                    lemma_cuts_ascend(zv, was, src, cuts, w, 2 * (m + 1), r);
                }
            }
            lemma_ordered_prefix(zv, was, out, grown, lo, hi);
        }
    }
    reveal(passing);
}

/// The end of a pass: the merged runs are twice as long.
proof fn lemma_pass_done(
    zv: Seq<u32>,
    was: Seq<usize>,
    src: Seq<usize>,
    cuts: Seq<int>,
    w: int,
    out: Seq<usize>,
    joined: Seq<int>,
    merges: int,
    r: int,
)
    requires
        w >= 1,
        src.len() > 0,
        in_runs(zv, was, src, cuts, w),
        passing(zv, was, src, cuts, out, joined, merges, r),
        out.len() == src.len(),
    ensures
        in_runs(zv, was, out, joined, 2 * w),
        merges >= 1,
        merges <= 1 ==> ordered(zv, was, out, 0, out.len() as int),
        merges > 1 ==> 2 * w < src.len(),
{
    reveal(in_runs);
    reveal(passing);
    let n = src.len() as int;
    if r < cuts.len() {
        lemma_cuts_ascend(zv, was, src, cuts, w, r, cuts.len() - 1);
    }
    assert(r == cuts.len());
    assert(joined[0] == cuts[2 * 0int]);
    assert forall|m: int| 0 <= m < joined.len() - 1 implies #[trigger] joined[m + 1] == joined[m] + 2
        * w by {
        assert(joined[m] == cuts[2 * m]);
        assert(joined[m + 1] == cuts[2 * (m + 1)]);
        assert(cuts[(2 * m) + 1] == cuts[2 * m] + w);
        assert(cuts[(2 * m + 1) + 1] == cuts[2 * m + 1] + w);
    }
    let top = merges - 1;
    assert(joined[top] == cuts[2 * top]);
    if 2 * top + 1 < cuts.len() {
        assert(cuts[(2 * top) + 1] == cuts[2 * top] + w);
    }
    if merges > 1 {
        assert(joined[0int + 1] == joined[0] + 2 * w);
        assert(joined[1] == cuts[2 * 1int]);
        lemma_cuts_ascend(zv, was, src, cuts, w, 2, cuts.len() - 1);
    } else {
        assert(ordered(zv, was, out, joined[0], run_end(joined, 0, out.len() as int)));
    }
}

/// Merges the runs of `in_size` nodes of the list at `list` in pairs. Returns the
/// new head of the list and the number of pairs merged.
fn merge_pass(
    rings: &mut Rings,
    list: usize,
    in_size: usize,
    Ghost(was): Ghost<Seq<usize>>,
    Ghost(src): Ghost<Seq<usize>>,
    Ghost(cuts): Ghost<Seq<int>>,
) -> (r: (usize, usize, Ghost<Seq<usize>>, Ghost<Seq<int>>))
    requires
        linked(old(rings)@),
        on_list(old(rings)@, src, list),
        in_size >= 1,
        in_runs(z_values(old(rings)@), was, src, cuts, in_size as int),
    ensures
        ({
            let (head, merges, out, joined) = r;
            &&& linked(final(rings)@)
            &&& on_list(final(rings)@, out@, head)
            &&& out@.len() == src.len()
            &&& in_runs(z_values(old(rings)@), was, out@, joined@, 2 * in_size)
            &&& merges >= 1
            &&& (merges <= 1 ==> ordered(z_values(old(rings)@), was, out@, 0, out@.len() as int))
            &&& (merges > 1 ==> 2 * in_size < src.len())
            &&& relinked(old(rings)@, final(rings)@)
            &&& forall|x: usize| out@.contains(x) <==> src.contains(x)
            &&& forall|j: int|
                0 <= j < old(rings)@.len() && !src.contains(j as usize) ==> (#[trigger] final(rings)@[j])
                    == old(rings)@[j]
        }),
{
    let ghost zv = z_values(rings@);
    let ghost n = src.len() as int;
    let ghost w = in_size as int;
    let ghost mut out: Seq<usize> = Seq::empty();
    let ghost mut joined: Seq<int> = Seq::empty();
    let ghost mut run: int = 0;
    let mut p = Some(list);
    let mut tail: Option<usize> = None;
    let mut head: Option<usize> = None;
    let mut merges: usize = 0;
    proof {
        lemma_weave_start(rings@, src);
        lemma_distinct_bounded(src, rings@.len());
        assert(rings.nodes.len() == rings@.len());
        lemma_pass_start(zv, was, src, cuts, w);
    }
    while p.is_some()
        invariant
            weaving(rings@, zv, src, out, out.len() as int, out.len() as int, out.len() as int),
            zv == z_values(old(rings)@),
            n == src.len(),
            n > 0,
            n <= usize::MAX,
            w == in_size,
            w >= 1,
            in_runs(zv, was, src, cuts, w),
            passing(zv, was, src, cuts, out, joined, merges as int, run),
            out.len() <= n,
            p == at(src, out.len() as int),
            tail == last_of(out),
            head == at(out, 0),
            relinked(old(rings)@, rings@),
            forall|j: int|
                0 <= j < old(rings)@.len() && !src.contains(j as usize) ==> (#[trigger] rings@[j])
                    == old(rings)@[j],
        decreases n - out.len(),
    {
        let ghost s = out.len() as int;
        let first = p.unwrap();
        proof {
            lemma_weave_facts(rings@, zv, src, out, s, s, s);
            lemma_pass_next(zv, was, src, cuts, w, out, joined, merges as int, run);
        }
        merges += 1;
        let (p_size, q) = run_length(rings, first, in_size, Ghost(src), Ghost(s));
        let ghost t = s + p_size;
        proof {
            lemma_weave_shift(rings@, zv, src, out, s, s, t);
        }
        let ghost before = rings@;
        let (next, last, front, grown) = merge_pair(
            rings,
            first,
            q,
            p_size,
            in_size,
            tail,
            head,
            Ghost(was),
            Ghost(src),
            Ghost(out),
        );
        proof {
            lemma_pass_step(zv, was, src, cuts, w, out, joined, (merges - 1) as int, run, grown@);
            joined = joined.push(s);
            run = least(run + 2, cuts.len() as int);
            if out.len() > 0 {
                assert(grown@.subrange(0, s)[0] == grown@[0]);
            }
            assert forall|j: int|
                0 <= j < old(rings)@.len() && !src.contains(j as usize) implies (#[trigger] rings@[j])
                == old(rings)@[j] by {
                assert(rings@[j] == before[j]);
            }
            out = grown@;
        }
        p = next;
        tail = Some(last);
        head = Some(front);
    }
    proof {
        lemma_weave_facts(
            rings@,
            zv,
            src,
            out,
            out.len() as int,
            out.len() as int,
            out.len() as int,
        );
        assert(out.len() == n);
        lemma_weave_done(rings@, zv, src, out);
        lemma_pass_done(zv, was, src, cuts, w, out, joined, merges as int, run);
    }
    let last = tail.unwrap();
    let ghost before = rings@;
    rings.nodes[last].next_z = None;
    proof {
        assert(rings@ == before.update(
            out.last() as int,
            Node { next_z: None, ..before[out.last() as int] },
        ));
        assert forall|j: int|
            0 <= j < old(rings)@.len() && !src.contains(j as usize) implies (#[trigger] rings@[j])
            == old(rings)@[j] by {
            assert(out.contains(out.last()));
            assert(rings@[j] == before[j]);
        }
    }
    (head.unwrap(), merges, Ghost(out), Ghost(joined))
}

/// The list that `head` now heads is the list that `list` headed, in ascending
/// order of the z-order values, and nodes of the same value in the order in
/// which they stood; nothing but the z-order links of its nodes has changed.
pub open spec fn sorted_list(before: Seq<Node>, after: Seq<Node>, list: usize, head: usize) -> bool {
    let was = crate::ring::list(before, list);
    let is = crate::ring::list(after, head);
    &&& linked(after)
    &&& relinked(before, after)
    &&& has_list(after, head)
    &&& is.len() == was.len()
    &&& ordered(z_values(after), was, is, 0, is.len() as int)
    &&& forall|x: usize| is.contains(x) <==> was.contains(x)
    &&& forall|j: int|
        0 <= j < before.len() && !was.contains(j as usize) ==> (#[trigger] after[j]) == before[j]
}

/// Sorts the z-order list that starts at `list` by z-order value, with a merge
/// sort that works on the links alone. Returns the new head of the list.
pub fn sort_linked(rings: &mut Rings, list: usize) -> (head: usize)
    requires
        linked(old(rings)@),
        has_list(old(rings)@, list),
    ensures
        sorted_list(old(rings)@, final(rings)@, list, head),
{
    let ghost zs = crate::ring::list(rings@, list);
    let ghost zv = z_values(rings@);
    let ghost n = zs.len() as int;
    let ghost mut cur = zs;
    let ghost mut cuts: Seq<int> = Seq::new(zs.len(), |r: int| r);
    let mut head = list;
    let mut in_size: usize = 1;
    proof {
        lemma_distinct_bounded(zs, rings@.len());
        assert(rings.nodes.len() == rings@.len());
        lemma_runs_start(zv, zs);
    }
    loop
        invariant_except_break
            in_runs(zv, zs, cur, cuts, in_size as int),
        invariant
            linked(rings@),
            on_list(rings@, cur, head),
            zv == z_values(old(rings)@),
            zv == z_values(rings@),
            zs == crate::ring::list(old(rings)@, list),
            n == zs.len(),
            cur.len() == n,
            n <= usize::MAX,
            in_size >= 1,
            relinked(old(rings)@, rings@),
            forall|x: usize| cur.contains(x) <==> zs.contains(x),
            forall|j: int|
                0 <= j < old(rings)@.len() && !zs.contains(j as usize) ==> (#[trigger] rings@[j])
                    == old(rings)@[j],
        ensures
            ordered(zv, zs, cur, 0, cur.len() as int),
        decreases n - in_size,
    {
        let ghost before = rings@;
        let ghost src = cur;
        let (h, merges, out, joined) = merge_pass(
            rings,
            head,
            in_size,
            Ghost(zs),
            Ghost(cur),
            Ghost(cuts),
        );
        head = h;
        proof {
            cur = out@;
            cuts = joined@;
            assert(z_values(rings@) =~= zv);
            assert forall|j: int|
                0 <= j < old(rings)@.len() && !zs.contains(j as usize) implies (#[trigger] rings@[j])
                == old(rings)@[j] by {
                assert(!src.contains(j as usize));
                assert(rings@[j] == before[j]);
            }
        }
        if merges <= 1 {
            break ;
        }
        in_size = in_size * 2;
    }
    proof {
        lemma_list_unique(rings@, cur, head);
    }
    head
}

} // verus!
