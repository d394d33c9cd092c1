//! From the rings of a polygon to its triangles.

use vstd::prelude::*;
use crate::clip::{
    clipped, earcut_linked, entry_state, first_cut, lemma_clipped_facts, walked_out, Pass,
};
use crate::filter::filtered;
use crate::geometry::{equals, sound};
use crate::holes::{
    apart, bridge, eliminate_holes, get_leftmost, hole_step, holed, holes_done, holes_trace,
    pending,
};
use crate::kernel::{HashParameters, Kernel, Sign};
use crate::ring::{
    all_unchained, has_ring, is_cycle, lemma_appended_alone, lemma_appended_cycle,
    lemma_appended_fields, lemma_distinct_bounded, lemma_removed_cycle, lemma_removed_fields,
    lemma_ring_unique, lemma_rotated_cycle, ring, rotated, same_links, succ, unchained, Node, Rings,
};
use crate::triangle::in_range;
use crate::zorder::{bounds, first_least, xs, INDEX_THRESHOLD};

verus! {

/// The ring is laid out in the order of the input: that is so where its winding
/// is the one asked for.
pub open spec fn forward<K: Kernel>(kernel: &K, first: usize, len: usize, clockwise: bool) -> bool {
    clockwise == (kernel.winding(first, len) == Sign::Positive)
}

/// The point that the node made at step `k` stands for, in a ring of the `len`
/// points from `first` on.
pub open spec fn point_at<K: Kernel>(
    kernel: &K,
    first: usize,
    len: usize,
    clockwise: bool,
    k: int,
) -> int {
    if forward(kernel, first, len, clockwise) {
        first + k
    } else {
        first + len - 1 - k
    }
}

/// The last point of the ring, in the order in which it is laid out, lies on the
/// first, so that the ring is given closed.
pub open spec fn closed<K: Kernel>(kernel: &K, first: usize, len: usize, clockwise: bool) -> bool {
    let p = point_at(kernel, first, len, clockwise, 0) as usize;
    let q = point_at(kernel, first, len, clockwise, len - 1) as usize;
    len >= 2 && kernel.x(p) == kernel.x(q) && kernel.y(p) == kernel.y(q)
}

/// The handles of `n` nodes made one after the other from `m` on.
pub open spec fn handles(m: int, n: int) -> Seq<usize> {
    Seq::new(n as nat, |k: int| (m + k) as usize)
}

/// What linking the `len` points from `first` on into a ring leaves, where `r` is
/// the node returned.
///
/// Without points there is no ring. Else one node has been made for each point,
/// in the order of the input where the ring winds as asked, in reverse where it
/// does not. They form a ring in that order, without the last where it lies on
/// the first. The node returned is the last one that is on the ring.
pub open spec fn listed<K: Kernel>(
    before: Seq<Node>,
    after: Seq<Node>,
    kernel: &K,
    first: usize,
    len: usize,
    clockwise: bool,
    r: Option<usize>,
) -> bool {
    let m = before.len() as int;
    if len == 0 {
        after == before && r is None
    } else {
        &&& after.len() == m + len
        &&& forall|j: int| 0 <= j < m ==> #[trigger] after[j] == before[j]
        &&& forall|k: int|
            0 <= k < len ==> {
                &&& (#[trigger] after[m + k]).i == point_at(kernel, first, len, clockwise, k)
                &&& unchained(after[m + k])
                &&& !after[m + k].steiner
                &&& after[m + k].z == 0
            }
        &&& if closed(kernel, first, len, clockwise) {
            &&& r == Some(m as usize)
            &&& is_cycle(after, handles(m, len - 1))
            &&& after[m + len - 1].prev == m + len - 2
            &&& after[m + len - 1].next == m
        } else {
            r == Some((m + len - 1) as usize) && is_cycle(after, handles(m, len as int))
        }
    }
}

/// Creates a circular doubly linked list from the `len` points from `first` on,
/// in the winding order asked for: `clockwise` for an outer ring, the other way
/// round for a hole.
pub fn linked_list<K: Kernel>(
    rings: &mut Rings,
    kernel: &K,
    first: usize,
    len: usize,
    clockwise: bool,
) -> (r: Option<usize>)
    requires
        sound(old(rings)@, kernel),
        first + len <= kernel.count(),
    ensures
        listed(old(rings)@, final(rings)@, kernel, first, len, clockwise, r),
        sound(final(rings)@, kernel),
        all_unchained(old(rings)@) ==> all_unchained(final(rings)@),
        final(rings)@.len() == old(rings)@.len() + len,
{
    if len == 0 {
        return None;
    }
    let ghost before = rings@;
    let ghost m = before.len() as int;
    let ahead = clockwise == (kernel.ring_winding(first, len) == Sign::Positive);
    let mut last: Option<usize> = None;
    let mut k: usize = 0;
    assert(rings.nodes.len() == rings@.len());
    while k < len
        invariant
            0 <= k <= len,
            len > 0,
            first + len <= kernel.count(),
            m == before.len(),
            before == old(rings)@,
            ahead == forward(kernel, first, len, clockwise),
            sound(rings@, kernel),
            rings@.len() == m + k,
            m + k <= usize::MAX,
            forall|j: int| 0 <= j < m ==> #[trigger] rings@[j] == before[j],
            forall|j: int|
                0 <= j < k ==> {
                    &&& (#[trigger] rings@[m + j]).i == point_at(kernel, first, len, clockwise, j)
                    &&& unchained(rings@[m + j])
                    &&& !rings@[m + j].steiner
                    &&& rings@[m + j].z == 0
                },
            k == 0 ==> last is None,
            k > 0 ==> last == Some((m + k - 1) as usize) && is_cycle(rings@, handles(m, k as int)),
            all_unchained(before) ==> all_unchained(rings@),
        decreases len - k,
    {
        let i = if ahead {
            first + k
        } else {
            first + (len - 1 - k)
        };
        let ghost mid = rings@;
        proof {
            if k > 0 {
                assert(handles(m, k as int).last() == (m + k - 1) as usize);
            }
        }
        let node = rings.append(last, i);
        proof {
            lemma_appended_fields(mid, last, i);
            if k == 0 {
                lemma_appended_alone(mid, i);
                assert(handles(m, 1) =~= seq![mid.len() as usize]);
            } else {
                let c = handles(m, k as int);
                lemma_appended_cycle(mid, c, i);
                assert(handles(m, k + 1) =~= c.push(mid.len() as usize));
                assert(mid[c[k - 1] as int].next == c[succ(k - 1, k as int)]);
            }
            assert forall|j: int| 0 <= j < m implies #[trigger] rings@[j] == before[j] by {
                assert(mid[j] == before[j]);
                if k > 0 {
                    let c = handles(m, k as int);
                    assert(c[0] == m as usize);
                    assert(c[k - 1] == (m + k - 1) as usize);
                }
            }
            assert forall|j: int| 0 <= j < k + 1 implies {
                &&& (#[trigger] rings@[m + j]).i == point_at(kernel, first, len, clockwise, j)
                &&& unchained(rings@[m + j])
                &&& !rings@[m + j].steiner
                &&& rings@[m + j].z == 0
            } by {
                if j < k {
                    assert(mid[m + j].i == point_at(kernel, first, len, clockwise, j));
                }
            }
            assert(sound(rings@, kernel)) by {
                assert forall|j: int| 0 <= j < rings@.len() implies (#[trigger] rings@[j]).i
                    < kernel.count() by {
                    if j < mid.len() {
                        assert(mid[j].i < kernel.count());
                    }
                }
            }
            if all_unchained(before) {
                assert forall|j: int| 0 <= j < rings@.len() implies unchained(
                    #[trigger] rings@[j],
                ) by {
                    if j < mid.len() {
                        assert(unchained(mid[j]));
                    }
                }
            }
        }
        last = Some(node);
        k += 1;
    }
    let tail = last.unwrap();
    assert(tail == m + (len - 1));
    let ghost c = handles(m, len as int);
    let ghost full = rings@;
    assert(full[c[len - 1] as int].next == c[succ(len - 1, len as int)]);
    let head = rings.next(tail);
    assert(full[m + 0].i == point_at(kernel, first, len, clockwise, 0));
    assert(full[m + (len - 1)].i == point_at(kernel, first, len, clockwise, len - 1));
    if head != tail && equals(rings, kernel, tail, head) {
        proof {
            lemma_removed_cycle(full, c, len - 1);
            lemma_removed_fields(full, tail as int);
            assert(c.remove(len - 1) =~= handles(m, len - 1));
            assert(full[c[len - 1] as int].prev == c[crate::ring::pred(len - 1, len as int)]);
        }
        rings.remove(tail);
        proof {
            assert(tail == m + (len - 1));
            assert(unchained(full[m + (len - 1)]));
            assert(full[tail as int].next == c[0]);
            assert(full[tail as int].prev == c[len - 2]);
            assert(c[0] == m && c[len - 2] == m + len - 2);
            assert forall|j: int| 0 <= j < m implies #[trigger] rings@[j] == before[j] by {
                assert(full[j] == before[j]);
            }
            assert forall|j: int| 0 <= j < len implies {
                &&& (#[trigger] rings@[m + j]).i == point_at(kernel, first, len, clockwise, j)
                &&& unchained(rings@[m + j])
                &&& !rings@[m + j].steiner
                &&& rings@[m + j].z == 0
            } by {
                assert(full[m + j].i == point_at(kernel, first, len, clockwise, j));
                assert(unchained(full[tail as int]));
            }
            assert(sound(rings@, kernel)) by {
                assert forall|j: int| 0 <= j < rings@.len() implies (#[trigger] rings@[j]).i
                    < kernel.count() by {
                    assert(full[j].i < kernel.count());
                }
            }
            if all_unchained(before) {
                assert forall|j: int| 0 <= j < rings@.len() implies unchained(
                    #[trigger] rings@[j],
                ) by {
                    assert(unchained(full[j]));
                    assert(unchained(full[tail as int]));
                }
            }
        }
        return Some(head);
    }
    proof {
        if len >= 2 {
            assert(c[0] != c[len - 1]);
        }
    }
    last
}


/// The abscissa of node `p`, by its order key.
pub open spec fn abscissa<K: Kernel>(nodes: Seq<Node>, kernel: &K, p: usize) -> int {
    kernel.x(nodes[p as int].i) as int
}

/// The nodes of `queue` stand from left to right.
pub open spec fn ascending<K: Kernel>(nodes: Seq<Node>, kernel: &K, queue: Seq<usize>) -> bool {
    forall|i: int, j: int|
        0 <= i <= j < queue.len() ==> abscissa(nodes, kernel, #[trigger] queue[i]) <= abscissa(
            nodes,
            kernel,
            #[trigger] queue[j],
        )
}

/// The positions `from` show where the nodes of `sorted` stood in `queue`: every
/// node of `queue` is there once, from left to right, and nodes of the same
/// abscissa in the order in which they stood.
pub open spec fn sorted_from<K: Kernel>(
    nodes: Seq<Node>,
    kernel: &K,
    queue: Seq<usize>,
    sorted: Seq<usize>,
    from: Seq<int>,
) -> bool {
    &&& from.len() == queue.len()
    &&& sorted.len() == queue.len()
    &&& from.no_duplicates()
    &&& forall|j: int|
        0 <= j < from.len() ==> 0 <= #[trigger] from[j] < queue.len() && sorted[j] == queue[from[j]]
    &&& forall|i: int, j: int|
        0 <= i < j < sorted.len() ==> {
            ||| abscissa(nodes, kernel, #[trigger] sorted[i]) < abscissa(
                nodes,
                kernel,
                #[trigger] sorted[j],
            )
            ||| (abscissa(nodes, kernel, sorted[i]) == abscissa(nodes, kernel, sorted[j])
                && from[i] < from[j])
        }
}

/// The nodes of `sorted` are those of `queue`, from left to right, and nodes of
/// the same abscissa in the order in which they stood in `queue`.
pub open spec fn stably_sorted<K: Kernel>(
    nodes: Seq<Node>,
    kernel: &K,
    queue: Seq<usize>,
    sorted: Seq<usize>,
) -> bool {
    exists|from: Seq<int>| sorted_from(nodes, kernel, queue, sorted, from)
}

/// Orders the leftmost nodes of the holes from left to right. Nodes of the same
/// abscissa keep the order in which they were given.
pub fn sort_holes<K: Kernel>(rings: &Rings, kernel: &K, queue: &Vec<usize>) -> (sorted: Vec<usize>)
    requires
        sound(rings@, kernel),
        forall|k: int| 0 <= k < queue@.len() ==> (#[trigger] queue@[k]) < rings@.len(),
    ensures
        stably_sorted(rings@, kernel, queue@, sorted@),
        ascending(rings@, kernel, sorted@),
        sorted@.to_multiset() == queue@.to_multiset(),
        sorted@.len() == queue@.len(),
{
    let mut sorted: Vec<usize> = Vec::new();
    let mut k: usize = 0;
    let ghost mut from: Seq<int> = Seq::empty();
    proof {
        assert(queue@.take(0) =~= Seq::<usize>::empty());
    }
    while k < queue.len()
        invariant
            0 <= k <= queue@.len(),
            sound(rings@, kernel),
            forall|j: int| 0 <= j < queue@.len() ==> (#[trigger] queue@[j]) < rings@.len(),
            forall|j: int| 0 <= j < sorted@.len() ==> (#[trigger] sorted@[j]) < rings@.len(),
            ascending(rings@, kernel, sorted@),
            sorted@.to_multiset() == queue@.take(k as int).to_multiset(),
            sorted@.len() == k,
            from.len() == k,
            from.no_duplicates(),
            forall|j: int|
                0 <= j < from.len() ==> 0 <= #[trigger] from[j] < k && sorted@[j] == queue@[from[j]],
            forall|i: int, j: int|
                0 <= i < j < sorted@.len() ==> {
                    ||| abscissa(rings@, kernel, #[trigger] sorted@[i]) < abscissa(
                        rings@,
                        kernel,
                        #[trigger] sorted@[j],
                    )
                    ||| (abscissa(rings@, kernel, sorted@[i]) == abscissa(
                        rings@,
                        kernel,
                        sorted@[j],
                    ) && from[i] < from[j])
                },
        decreases queue@.len() - k,
    {
        let hole = queue[k];
        let x = kernel.x_key(rings.index(hole));
        let mut pos = sorted.len();
        while pos > 0 && kernel.x_key(rings.index(sorted[pos - 1])) > x
            invariant
                0 <= pos <= sorted@.len(),
                sound(rings@, kernel),
                forall|j: int| 0 <= j < sorted@.len() ==> (#[trigger] sorted@[j]) < rings@.len(),
                hole < rings@.len(),
                x == abscissa(rings@, kernel, hole),
                forall|j: int|
                    pos <= j < sorted@.len() ==> abscissa(rings@, kernel, #[trigger] sorted@[j]) > x,
            decreases pos,
        {
            pos -= 1;
        }
        let ghost before = sorted@;
        let ghost came = from;
        sorted.insert(pos, hole);
        proof {
            from = came.insert(pos as int, k as int);
            vstd::seq_lib::to_multiset_insert(before, pos as int, hole);
            assert(queue@.take(k + 1) =~= queue@.take(k as int).push(hole));
            vstd::seq_lib::to_multiset_build(queue@.take(k as int), hole);
            assert forall|j: int| 0 <= j < sorted@.len() && j != pos implies sorted@[j] == before[if j
                < pos {
                j
            } else {
                j - 1
            }] && from[j] == came[if j < pos {
                j
            } else {
                j - 1
            }] by {}
            assert forall|i: int, j: int| 0 <= i <= j < sorted@.len() implies abscissa(
                rings@,
                kernel,
                #[trigger] sorted@[i],
            ) <= abscissa(rings@, kernel, #[trigger] sorted@[j]) by {
                let ii = if i < pos { i } else { i - 1 };
                let jj = if j < pos { j } else { j - 1 };
                if i != pos && j != pos {
                    assert(abscissa(rings@, kernel, before[ii]) <= abscissa(
                        rings@,
                        kernel,
                        before[jj],
                    ));
                }
                if i < pos && j == pos {
                    assert(abscissa(rings@, kernel, before[i]) <= abscissa(
                        rings@,
                        kernel,
                        before[pos - 1],
                    ));
                }
            }
            assert forall|i: int, j: int| 0 <= i < j < sorted@.len() implies {
                ||| abscissa(rings@, kernel, #[trigger] sorted@[i]) < abscissa(
                    rings@,
                    kernel,
                    #[trigger] sorted@[j],
                )
                ||| (abscissa(rings@, kernel, sorted@[i]) == abscissa(rings@, kernel, sorted@[j])
                    && from[i] < from[j])
            } by {
                let ii = if i < pos { i } else { i - 1 };
                let jj = if j < pos { j } else { j - 1 };
                if i != pos && j != pos {
                    assert(abscissa(rings@, kernel, before[ii]) < abscissa(
                        rings@,
                        kernel,
                        before[jj],
                    ) || (abscissa(rings@, kernel, before[ii]) == abscissa(
                        rings@,
                        kernel,
                        before[jj],
                    ) && came[ii] < came[jj]));
                }
                if j == pos {
                    assert(abscissa(rings@, kernel, before[i]) <= abscissa(
                        rings@,
                        kernel,
                        before[pos - 1],
                    ));
                    assert(came[i] < k);
                }
            }
            assert forall|j: int| 0 <= j < sorted@.len() implies (#[trigger] sorted@[j])
                < rings@.len() by {
                if j != pos {
                    let jj = if j < pos { j } else { j - 1 };
                    assert(sorted@[j] == before[jj]);
                }
            }
            assert(from.no_duplicates()) by {
                assert forall|i: int, j: int| 0 <= i < from.len() && 0 <= j < from.len() && i
                    != j implies from[i] != from[j] by {
                    let ii = if i < pos { i } else { i - 1 };
                    let jj = if j < pos { j } else { j - 1 };
                    if i != pos {
                        assert(came[ii] < k);
                    }
                    if j != pos {
                        assert(came[jj] < k);
                    }
                }
            }
            assert forall|j: int| 0 <= j < from.len() implies 0 <= #[trigger] from[j] < k + 1
                && sorted@[j] == queue@[from[j]] by {
                if j != pos {
                    let jj = if j < pos { j } else { j - 1 };
                    assert(came[jj] < k);
                }
            }
        }
        k += 1;
    }
    proof {
        assert(queue@.take(queue@.len() as int) =~= queue@);
        assert(sorted_from(rings@, kernel, queue@, sorted@, from));
    }
    sorted
}

/// Number of points of the first `k` rings of the given sizes.
pub open spec fn total(sizes: Seq<usize>, k: int) -> int
    decreases k,
{
    if k <= 0 {
        0
    } else {
        total(sizes, k - 1) + sizes[k - 1]
    }
}

/// The first rings have no more points than all of them.
pub proof fn lemma_total_grows(sizes: Seq<usize>, j: int, k: int)
    requires
        0 <= j <= k <= sizes.len(),
    ensures
        0 <= total(sizes, j) <= total(sizes, k),
    decreases k,
{
    if j < k {
        lemma_total_grows(sizes, j, k - 1);
    } else if k > 0 {
        lemma_total_grows(sizes, k - 1, k - 1);
    }
}


/// What triangulation leaves where the polygon has no hole and is too small for
/// the spatial index: the first triangle is that of the first ear of the outer
/// ring, if the ring has an ear.
pub open spec fn plain_cut<K: Kernel>(kernel: &K, sizes: Seq<usize>, triangles: Seq<[usize; 3]>) -> bool {
    sizes.len() == 1 && sizes[0] <= INDEX_THRESHOLD ==> forall|nodes: Seq<Node>, head: usize| #[trigger]
        listed(Seq::empty(), nodes, kernel, 0, sizes[0], true, Some(head)) ==> first_cut(
            nodes,
            kernel,
            None,
            ring(nodes, head),
            Seq::empty(),
            triangles,
        )
}

/// The arena with node `p` marked as a hole that is a single point.
pub open spec fn marked(nodes: Seq<Node>, p: usize) -> Seq<Node> {
    nodes.update(p as int, Node { steiner: true, ..nodes[p as int] })
}

/// What linking the hole of the `len` points from `first` on leaves: without
/// points nothing has changed; else the ring has been linked against the
/// clock, marked where it is a single point, and its leftmost node has joined
/// the queue.
pub open spec fn hole_listed<K: Kernel>(
    before: Seq<Node>,
    after: Seq<Node>,
    kernel: &K,
    first: usize,
    len: usize,
    queue: Seq<usize>,
    grown: Seq<usize>,
) -> bool {
    if len == 0 {
        after == before && grown == queue
    } else {
        exists|mid: Seq<Node>, list: usize|
            {
                &&& #[trigger] listed(before, mid, kernel, first, len, false, Some(list))
                &&& after == (if mid[list as int].next == list {
                    marked(mid, list)
                } else {
                    mid
                })
                &&& exists|w: int| #[trigger]
                    first_least(xs(after, kernel, ring(after, list)), w) && grown == queue.push(
                        ring(after, list)[w],
                    )
            }
    }
}

/// The arenas `states` and the queues `queues` are those that linking the holes
/// of a polygon with rings of the given sizes goes through, one hole after the
/// other, from the arena that holds the outer ring.
pub open spec fn holes_listed<K: Kernel>(
    kernel: &K,
    sizes: Seq<usize>,
    states: Seq<Seq<Node>>,
    queues: Seq<Seq<usize>>,
) -> bool {
    &&& states.len() == sizes.len()
    &&& queues.len() == sizes.len()
    &&& queues[0] == Seq::<usize>::empty()
    &&& forall|k: int|
        1 <= k < sizes.len() ==> #[trigger] hole_listed(
            states[k - 1],
            states[k],
            kernel,
            total(sizes, k) as usize,
            sizes[k],
            queues[k - 1],
            queues[k],
        )
}

/// The spatial index that a polygon of `vertices` vertices is clipped with: none
/// for a small one, else the bounding box of the ring of `head`.
pub open spec fn boxed<K: Kernel>(
    nodes: Seq<Node>,
    kernel: &K,
    head: usize,
    vertices: usize,
    hash: Option<HashParameters>,
) -> bool {
    match hash {
        None => vertices <= INDEX_THRESHOLD,
        Some(h) => vertices > INDEX_THRESHOLD && h.within(kernel.count()) && bounds(
            nodes,
            kernel,
            ring(nodes, head),
            h,
        ),
    }
}

/// The triangles are those that clipping the ring of `head` gives, from its first
/// stage on, with the spatial index that the number of vertices asks for.
pub open spec fn clipped_from<K: Kernel>(
    nodes: Seq<Node>,
    kernel: &K,
    head: usize,
    vertices: usize,
    triangles: Seq<[usize; 3]>,
) -> bool {
    exists|hash: Option<HashParameters>, base: Seq<Node>, after: Seq<Node>, fuel: nat|
        {
            &&& boxed(nodes, kernel, head, vertices, hash)
            &&& entry_state(nodes, base, kernel, hash, Pass::Clip, head)
            &&& #[trigger] walked_out(
                base,
                after,
                kernel,
                hash,
                head,
                Pass::Clip,
                Seq::empty(),
                triangles,
                fuel,
            )
        }
}

/// The triangles are those of the polygon whose points are those of `kernel`, in
/// rings of the given sizes: the outer ring has been linked clockwise into an
/// empty arena, the holes have been linked behind it, ordered from left to
/// right and bridged into the outer ring, and the ring that was left has been
/// clipped.
pub open spec fn triangulated<K: Kernel>(
    kernel: &K,
    sizes: Seq<usize>,
    triangles: Seq<[usize; 3]>,
) -> bool {
    if sizes.len() == 0 || sizes[0] == 0 {
        triangles.len() == 0
    } else {
        exists|
            states: Seq<Seq<Node>>,
            queues: Seq<Seq<usize>>,
            head: usize,
            sorted: Seq<usize>,
            merged: Seq<Node>,
            last: usize,
        |
            {
                &&& listed(Seq::empty(), states[0], kernel, 0, sizes[0], true, Some(head))
                &&& #[trigger] holes_listed(kernel, sizes, states, queues)
                &&& stably_sorted(states.last(), kernel, queues.last(), sorted)
                &&& #[trigger] holes_done(states.last(), merged, kernel, sorted, head, last)
                &&& clipped_from(merged, kernel, last, kernel.count(), triangles)
            }
    }
}

/// A ring that has been linked can be read from the node returned.
proof fn lemma_listed_ring<K: Kernel>(
    before: Seq<Node>,
    after: Seq<Node>,
    kernel: &K,
    first: usize,
    len: usize,
    clockwise: bool,
    node: usize,
)
    requires
        listed(before, after, kernel, first, len, clockwise, Some(node)),
        before.len() + len <= usize::MAX,
    ensures
        len > 0,
        has_ring(after, node),
        ring(after, node).len() <= len,
        forall|x: usize| #[trigger]
            ring(after, node).contains(x) ==> before.len() <= x < before.len() + len,
        forall|j: int| 0 <= j < before.len() ==> #[trigger] after[j] == before[j],
        (ring(after, node).len() == 1) == (after[node as int].next == node),
{
    let m = before.len() as int;
    let c = if closed(kernel, first, len, clockwise) {
        handles(m, len - 1)
    } else {
        handles(m, len as int)
    };
    let k = if closed(kernel, first, len, clockwise) { 0 } else { len - 1 };
    assert(c[k] == node);
    lemma_rotated_cycle(after, c, k);
    lemma_ring_unique(after, rotated(c, k), node);
    let r = ring(after, node);
    assert forall|x: usize| #[trigger] r.contains(x) implies m <= x < m + len by {
        assert(c.contains(x));
        let q = c.index_of(x);
        assert(c[q] == (m + q) as usize);
    }
    assert(after[r[0] as int].next == r[succ(0, r.len() as int)]);
    if r.len() > 1 {
        assert(r[1] != r[0]);
    }
}

/// Two arenas that differ in marks alone have the same rings.
proof fn lemma_marked(before: Seq<Node>, after: Seq<Node>, p: usize)
    requires
        after.len() == before.len(),
        forall|j: int| 0 <= j < before.len() ==> same_links(before[j], #[trigger] after[j]) || j == p,
        p < before.len(),
        after[p as int].prev == before[p as int].prev,
        after[p as int].next == before[p as int].next,
    ensures
        forall|c: Seq<usize>| #[trigger] is_cycle(before, c) ==> is_cycle(after, c),
{
    assert forall|c: Seq<usize>| #[trigger] is_cycle(before, c) implies is_cycle(after, c) by {
        assert forall|k: int| 0 <= k < c.len() implies {
            &&& (#[trigger] after[c[k] as int]).next == c[succ(k, c.len() as int)]
            &&& after[c[k] as int].prev == c[crate::ring::pred(k, c.len() as int)]
        } by {
            assert(before[c[k] as int].next == c[succ(k, c.len() as int)]);
        }
    }
}

/// A new ring of new nodes waits with the holes that wait already.
proof fn lemma_pending_more<K: Kernel>(
    before: Seq<Node>,
    after: Seq<Node>,
    kernel: &K,
    queue: Seq<usize>,
    head: usize,
    hole: usize,
)
    requires
        pending(before, kernel, queue, 0, head, before.len() as int),
        sound(after, kernel),
        after.len() >= before.len(),
        forall|j: int|
            0 <= j < before.len() ==> (#[trigger] after[j]).prev == before[j].prev && after[j].next
                == before[j].next,
        has_ring(after, hole),
        forall|x: usize| #[trigger] ring(after, hole).contains(x) ==> before.len() <= x,
    ensures
        pending(after, kernel, queue.push(hole), 0, head, after.len() as int),
{
    reveal(pending);
    let q2 = queue.push(hole);
    assert forall|c: Seq<usize>| #[trigger] is_cycle(before, c) implies is_cycle(after, c) by {
        assert forall|k: int| 0 <= k < c.len() implies {
            &&& (#[trigger] after[c[k] as int]).next == c[succ(k, c.len() as int)]
            &&& after[c[k] as int].prev == c[crate::ring::pred(k, c.len() as int)]
        } by {
            assert(before[c[k] as int].next == c[succ(k, c.len() as int)]);
        }
    }
    lemma_ring_unique(after, ring(before, head), head);
    assert forall|j: int| 0 <= j < queue.len() implies has_ring(after, #[trigger] queue[j]) && ring(
        after,
        queue[j],
    ) == ring(before, queue[j]) by {
        lemma_ring_unique(after, ring(before, queue[j]), queue[j]);
    }
    let d = ring(after, hole);
    assert forall|x: usize| #[trigger] ring(before, head).contains(x) implies x < before.len() by {
        let c = ring(before, head);
        let k = c.index_of(x);
        assert(c[k] < before.len());
    }
    assert forall|x: usize| #[trigger] d.contains(x) implies x < after.len() by {
        let k = d.index_of(x);
        assert(d[k] < after.len());
    }
    assert forall|j: int| 0 <= j < q2.len() implies {
        &&& has_ring(after, #[trigger] q2[j])
        &&& apart(ring(after, q2[j]), ring(after, head))
        &&& forall|x: usize| #[trigger] ring(after, q2[j]).contains(x) ==> x < after.len()
    } by {
        if j < queue.len() {
            assert(q2[j] == queue[j]);
            assert(apart(ring(before, queue[j]), ring(before, head)));
        }
    }
    assert forall|j: int, l: int| 0 <= j < q2.len() && 0 <= l < q2.len() && j != l implies apart(
        ring(after, #[trigger] q2[j]),
        ring(after, #[trigger] q2[l]),
    ) by {
        if j < queue.len() {
            assert(q2[j] == queue[j]);
        }
        if l < queue.len() {
            assert(q2[l] == queue[l]);
        }
        if j < queue.len() && l < queue.len() {
            assert(apart(ring(before, queue[j]), ring(before, queue[l])));
        }
    }
}

/// No hole waits yet.
proof fn lemma_pending_none<K: Kernel>(nodes: Seq<Node>, kernel: &K, head: usize)
    requires
        sound(nodes, kernel),
        has_ring(nodes, head),
    ensures
        pending(nodes, kernel, Seq::<usize>::empty(), 0, head, nodes.len() as int),
{
    reveal(pending);
}

/// The holes that wait may be taken in any order.
proof fn lemma_pending_any_order<K: Kernel>(
    nodes: Seq<Node>,
    kernel: &K,
    queue: Seq<usize>,
    sorted: Seq<usize>,
    head: usize,
    bound: int,
)
    requires
        pending(nodes, kernel, queue, 0, head, bound),
        sorted.to_multiset() == queue.to_multiset(),
    ensures
        pending(nodes, kernel, sorted, 0, head, bound),
        forall|k: int| 0 <= k < queue.len() ==> (#[trigger] queue[k]) < nodes.len(),
{
    reveal(pending);
    assert forall|k: int| 0 <= k < queue.len() implies (#[trigger] queue[k]) < nodes.len() by {
        let c = ring(nodes, queue[k]);
        assert(c[0] == queue[k]);
        assert(c.contains(c[0]));
    }
    assert(queue.no_duplicates()) by {
        assert forall|i: int, j: int| 0 <= i < queue.len() && 0 <= j < queue.len() && i
            != j implies queue[i] != queue[j] by {
            let c = ring(nodes, queue[i]);
            assert(c[0] == queue[i]);
            assert(c.contains(c[0]));
            assert(apart(ring(nodes, queue[i]), ring(nodes, queue[j])));
        }
    }
    queue.lemma_multiset_has_no_duplicates();
    sorted.lemma_multiset_has_no_duplicates_conv();
    assert forall|j: int| 0 <= j < sorted.len() implies queue.contains(#[trigger] sorted[j]) by {
        assert(sorted.contains(sorted[j]));
        vstd::seq_lib::to_multiset_contains(sorted, sorted[j]);
        vstd::seq_lib::to_multiset_contains(queue, sorted[j]);
    }
    assert forall|j: int| 0 <= j < sorted.len() implies {
        &&& has_ring(nodes, #[trigger] sorted[j])
        &&& apart(ring(nodes, sorted[j]), ring(nodes, head))
        &&& forall|x: usize| #[trigger] ring(nodes, sorted[j]).contains(x) ==> x < bound
    } by {
        let q = queue.index_of(sorted[j]);
        assert(queue[q] == sorted[j]);
    }
    assert forall|j: int, l: int|
        0 <= j < sorted.len() && 0 <= l < sorted.len() && j != l implies apart(
        ring(nodes, #[trigger] sorted[j]),
        ring(nodes, #[trigger] sorted[l]),
    ) by {
        let qj = queue.index_of(sorted[j]);
        let ql = queue.index_of(sorted[l]);
        assert(queue[qj] == sorted[j]);
        assert(queue[ql] == sorted[l]);
        assert(sorted[j] != sorted[l]);
        assert(apart(ring(nodes, queue[qj]), ring(nodes, queue[ql])));
    }
}

/// Triangulates a polygon with holes. The points are those of `kernel`; the
/// first `sizes[0]` of them are the outer ring, the next `sizes[1]` the first
/// hole, and so on. Returns the triangles, each as three indices of points.
///
/// Each ring is linked into a list, the outer one clockwise, the holes the other
/// way round. The holes are bridged into the outer ring from left to right, and
/// the one ring that is left is clipped.
pub fn earcut_with<K: Kernel>(kernel: &K, sizes: &Vec<usize>) -> (triangles: Vec<[usize; 3]>)
    requires
        total(sizes@, sizes@.len() as int) == kernel.count(),
    ensures
        in_range(triangles@, 0, kernel.count()),
        sizes@.len() == 0 || sizes@[0] == 0 ==> triangles@.len() == 0,
        sizes@.len() > 0 ==> triangles@.len() + 2 <= kernel.count() + 2 * (sizes@.len() - 1)
            || triangles@.len() == 0,
        plain_cut(kernel, sizes@, triangles@),
        triangulated(kernel, sizes@, triangles@),
{
    let mut indices: Vec<[usize; 3]> = Vec::new();
    if sizes.len() == 0 {
        return indices;
    }
    let mut rings = Rings::new();
    proof {
        lemma_total_grows(sizes@, 1, sizes@.len() as int);
        assert(total(sizes@, 1) == sizes@[0]) by {
            assert(total(sizes@, 0) == 0);
        }
    }
    let outer = sizes[0];
    let ghost s0 = rings@;
    let mut head = match linked_list(&mut rings, kernel, 0, outer, true) {
        None => {
            return indices;
        },
        Some(head) => head,
    };
    let ghost s1 = rings@;
    let ghost head1 = head;
    proof {
        assert(s0 =~= Seq::<Node>::empty());
        lemma_listed_ring(s0, s1, kernel, 0, outer, true, head);
        lemma_pending_none(s1, kernel, head);
    }
    let mut vertices = outer;
    let mut queue: Vec<usize> = Vec::new();
    let mut k: usize = 1;
    let ghost mut states: Seq<Seq<Node>> = seq![s1];
    let ghost mut queues: Seq<Seq<usize>> = seq![Seq::<usize>::empty()];
    while k < sizes.len()
        invariant
            1 <= k <= sizes@.len(),
            states.len() == k,
            queues.len() == k,
            states[0] == s1,
            queues[0] == Seq::<usize>::empty(),
            states[k - 1] == rings@,
            queues[k - 1] == queue@,
            forall|j: int|
                1 <= j < k ==> #[trigger] hole_listed(
                    states[j - 1],
                    states[j],
                    kernel,
                    total(sizes@, j) as usize,
                    sizes@[j],
                    queues[j - 1],
                    queues[j],
                ),
            vertices == total(sizes@, k as int),
            total(sizes@, sizes@.len() as int) == kernel.count(),
            rings@.len() == vertices,
            sound(rings@, kernel),
            all_unchained(rings@),
            pending(rings@, kernel, queue@, 0, head, rings@.len() as int),
            queue@.len() <= k - 1,
            k == 1 ==> rings@ == s1,
        decreases sizes@.len() - k,
    {
        let size = sizes[k];
        let ghost before = rings@;
        proof {
            lemma_total_grows(sizes@, k + 1, sizes@.len() as int);
            assert(rings.nodes.len() == rings@.len());
        }
        if let Some(list) = linked_list(&mut rings, kernel, vertices, size, false) {
            let ghost linked = rings@;
            proof {
                lemma_listed_ring(before, linked, kernel, vertices, size, false, list);
            }
            if list == rings.next(list) {
                rings.mark_steiner(list);
                proof {
                    lemma_marked(linked, rings@, list);
                    lemma_ring_unique(rings@, ring(linked, list), list);
                    assert(sound(rings@, kernel)) by {
                        assert forall|j: int| 0 <= j < rings@.len() implies (#[trigger] rings@[j]).i
                            < kernel.count() by {
                            assert(linked[j].i < kernel.count());
                        }
                    }
                    assert forall|j: int| 0 <= j < rings@.len() implies unchained(
                        #[trigger] rings@[j],
                    ) by {
                        assert(unchained(linked[j]));
                    }
                }
            }
            let leftmost = get_leftmost(&rings, kernel, list);
            proof {
                let c = ring(rings@, list);
                let w = choose|w: int| first_least(xs(rings@, kernel, c), w) && leftmost == c[w];
                lemma_rotated_cycle(rings@, c, w);
                lemma_ring_unique(rings@, rotated(c, w), leftmost);
                assert forall|x: usize| #[trigger] ring(rings@, leftmost).contains(
                    x,
                ) implies before.len() <= x by {
                    assert(c.contains(x));
                    assert(ring(linked, list).contains(x));
                }
                assert forall|j: int| 0 <= j < before.len() implies (#[trigger] rings@[j]).prev
                    == before[j].prev && rings@[j].next == before[j].next by {
                    assert(linked[j] == before[j]);
                    assert(ring(linked, list).contains(list));
                }
                lemma_pending_more(before, rings@, kernel, queue@, head, leftmost);
                assert(listed(before, linked, kernel, vertices, size, false, Some(list)));
                assert(first_least(xs(rings@, kernel, ring(rings@, list)), w));
                assert(hole_listed(
                    before,
                    rings@,
                    kernel,
                    vertices,
                    size,
                    queue@,
                    queue@.push(leftmost),
                ));
            }
            queue.push(leftmost);
        }
        proof {
            let grown = states.push(rings@);
            let lined = queues.push(queue@);
            assert forall|j: int| 1 <= j < k + 1 implies #[trigger] hole_listed(
                grown[j - 1],
                grown[j],
                kernel,
                total(sizes@, j) as usize,
                sizes@[j],
                lined[j - 1],
                lined[j],
            ) by {
                if j < k {
                    assert(hole_listed(
                        states[j - 1],
                        states[j],
                        kernel,
                        total(sizes@, j) as usize,
                        sizes@[j],
                        queues[j - 1],
                        queues[j],
                    ));
                }
            }
            states = grown;
            queues = lined;
        }
        vertices += size;
        k += 1;
    }
    proof {
        lemma_pending_any_order(rings@, kernel, queue@, queue@, head, rings@.len() as int);
    }
    let sorted = sort_holes(&rings, kernel, &queue);
    proof {
        lemma_pending_any_order(rings@, kernel, queue@, sorted@, head, rings@.len() as int);
    }
    let ghost s2 = rings@;
    head = eliminate_holes(&mut rings, kernel, &sorted, head);
    let hash = HashParameters::new(&rings, kernel, head, vertices);
    let ghost s3 = rings@;
    proof {
        lemma_total_grows(sizes@, 0, sizes@.len() as int);
    }
    earcut_linked(&mut rings, kernel, &hash, head, &mut indices, Pass::Clip);
    proof {
        let c = ring(s3, head);
        assert(boxed(s3, kernel, head, vertices, hash));
        assert(clipped_from(s3, kernel, head, kernel.count(), indices@));
        assert(holes_listed(kernel, sizes@, states, queues));
        assert(triangulated(kernel, sizes@, indices@)) by {
            assert(listed(Seq::empty(), states[0], kernel, 0, sizes@[0], true, Some(head1)));
            assert(holes_done(states.last(), s3, kernel, sorted@, head1, head));
        }
        lemma_clipped_facts(s3, rings@, kernel, c, Seq::empty(), indices@);
        lemma_distinct_bounded(c, s3.len());
        if sizes@.len() == 1 && sizes@[0] <= INDEX_THRESHOLD {
            assert(sorted@.len() == 0);
            assert(s3 == s1 && head == head1);
            assert forall|nodes: Seq<Node>, node: usize| #[trigger]
                listed(Seq::empty(), nodes, kernel, 0, sizes@[0], true, Some(node)) implies first_cut(
                nodes,
                kernel,
                None,
                ring(nodes, node),
                Seq::empty(),
                indices@,
            ) by {
                lemma_listed_same(s1, nodes, kernel, sizes@[0], head1, node);
            }
        }
    }
    indices
}

/// Linking a ring into an empty arena has one outcome.
pub proof fn lemma_listed_same<K: Kernel>(
    a: Seq<Node>,
    b: Seq<Node>,
    kernel: &K,
    len: usize,
    p: usize,
    q: usize,
)
    requires
        listed(Seq::empty(), a, kernel, 0, len, true, Some(p)),
        listed(Seq::empty(), b, kernel, 0, len, true, Some(q)),
    ensures
        p == q,
        a == b,
{
    let c = if closed(kernel, 0, len, true) {
        handles(0, len - 1)
    } else {
        handles(0, len as int)
    };
    assert forall|j: int| 0 <= j < a.len() implies a[j] == b[j] by {
        assert(a[0 + j].i == b[0 + j].i);
        assert(unchained(a[0 + j]) && unchained(b[0 + j]));
        if j < c.len() {
            assert(c[j] == j as usize);
            assert(a[c[j] as int].next == c[succ(j, c.len() as int)]);
            assert(b[c[j] as int].next == c[succ(j, c.len() as int)]);
        }
    }
    assert(a =~= b);
}


/// Number of the first `k` holes of `queue` that found a bridge to the outer ring,
/// in the course of bridging that went through the arenas `states` and the nodes
/// `heads`.
pub open spec fn bridged_holes<K: Kernel>(
    kernel: &K,
    queue: Seq<usize>,
    states: Seq<Seq<Node>>,
    heads: Seq<usize>,
    k: int,
) -> int
    decreases k,
{
    if k <= 0 {
        0
    } else {
        bridged_holes(kernel, queue, states, heads, k - 1) + if bridge(
            states[k - 1],
            kernel,
            ring(states[k - 1], heads[k - 1]),
            queue[k - 1],
        ) is Some {
            1int
        } else {
            0int
        }
    }
}

/// Every hole that finds a bridge adds two nodes to the arena, and no other does.
pub proof fn lemma_bridges_counted<K: Kernel>(
    kernel: &K,
    queue: Seq<usize>,
    states: Seq<Seq<Node>>,
    heads: Seq<usize>,
    k: int,
)
    requires
        holes_trace(kernel, queue, states, heads),
        0 <= k <= queue.len(),
    ensures
        states[k].len() == states[0].len() + 2 * bridged_holes(kernel, queue, states, heads, k),
        0 <= bridged_holes(kernel, queue, states, heads, k) <= k,
    decreases k,
{
    if k > 0 {
        lemma_bridges_counted(kernel, queue, states, heads, k - 1);
        let before = states[k - 1];
        let after = states[k];
        assert(hole_step(before, after, kernel, queue[k - 1], heads[k - 1], heads[(k - 1) + 1]));
        let (mid, r) = choose|mid: Seq<Node>, r: usize|
            {
                &&& #[trigger] holed(before, mid, kernel, queue[k - 1], heads[k - 1], r)
                &&& if ring(mid, r).contains(heads[k - 1]) {
                    filtered(
                        mid,
                        after,
                        kernel,
                        heads[k - 1],
                        mid[heads[k - 1] as int].next,
                        heads[(k - 1) + 1],
                    )
                } else {
                    after == mid && heads[(k - 1) + 1] == r
                }
            };
        reveal(filtered);
        assert(after.len() == mid.len());
        match bridge(before, kernel, ring(before, heads[k - 1]), queue[k - 1]) {
            None => {
                assert(mid == before);
            },
            Some(m) => {
                let joined = crate::ring::bridged(before, m as int, queue[k - 1] as int);
                crate::ring::lemma_bridged_fields(before, m as int, queue[k - 1] as int);
                assert(joined.len() == before.len() + 2);
                assert(mid.len() == joined.len());
            },
        }
    }
}

/// The bound on the number of triangles: a polygon of `n` nodes, `h` of whose
/// holes have been bridged into the outer ring, gives `n + 2 * h - 2` triangles
/// at most.
pub proof fn lemma_triangle_bound<K: Kernel>(
    kernel: &K,
    queue: Seq<usize>,
    states: Seq<Seq<Node>>,
    heads: Seq<usize>,
    after: Seq<Node>,
    had: Seq<[usize; 3]>,
    has: Seq<[usize; 3]>,
)
    requires
        holes_trace(kernel, queue, states, heads),
        has_ring(states.last(), heads.last()),
        clipped(states.last(), after, kernel, ring(states.last(), heads.last()), had, has),
    ensures
        has.len() == had.len() || has.len() - had.len() + 2 <= states[0].len() + 2 * bridged_holes(
            kernel,
            queue,
            states,
            heads,
            queue.len() as int,
        ),
{
    let last = states.last();
    let c = ring(last, heads.last());
    lemma_bridges_counted(kernel, queue, states, heads, queue.len() as int);
    lemma_clipped_facts(last, after, kernel, c, had, has);
    lemma_distinct_bounded(c, last.len());
}

} // verus!
