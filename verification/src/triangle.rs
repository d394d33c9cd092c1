//! The triangles that clipping adds to the output.

use vstd::prelude::*;
use crate::ring::Node;

verus! {

/// The triangle cut off at node `p`: its neighbours and itself, by their points.
pub open spec fn corner(nodes: Seq<Node>, p: usize) -> [usize; 3] {
    [
        nodes[nodes[p as int].prev as int].i,
        nodes[p as int].i,
        nodes[nodes[p as int].next as int].i,
    ]
}

/// Every triangle from position `from` on names points below `count`.
pub open spec fn in_range(out: Seq<[usize; 3]>, from: int, count: usize) -> bool {
    forall|t: int|
        from <= t < out.len() ==> (#[trigger] out[t])[0] < count && out[t][1] < count
            && out[t][2] < count
}

/// The triangles of two stretches of work, one after the other.
pub proof fn lemma_joined(t0: Seq<[usize; 3]>, t1: Seq<[usize; 3]>, t2: Seq<[usize; 3]>, count: usize)
    requires
        t1.len() >= t0.len(),
        t1.subrange(0, t0.len() as int) == t0,
        in_range(t1, t0.len() as int, count),
        t2.len() >= t1.len(),
        t2.subrange(0, t1.len() as int) == t1,
        in_range(t2, t1.len() as int, count),
    ensures
        t2.subrange(0, t0.len() as int) == t0,
        in_range(t2, t0.len() as int, count),
{
    assert(t2.subrange(0, t0.len() as int) =~= t0) by {
        assert forall|t: int| 0 <= t < t0.len() implies t2[t] == t0[t] by {
            assert(t2.subrange(0, t1.len() as int)[t] == t1[t]);
            assert(t1.subrange(0, t0.len() as int)[t] == t0[t]);
        }
    }
    assert forall|t: int| t0.len() <= t < t2.len() implies (#[trigger] t2[t])[0] < count && t2[t][1]
        < count && t2[t][2] < count by {
        if t < t1.len() {
            assert(t2.subrange(0, t1.len() as int)[t] == t1[t]);
            assert(t1[t][0] < count);
        }
    }
}

/// One triangle more, of points of the kernel.
pub proof fn lemma_pushed(had: Seq<[usize; 3]>, has: Seq<[usize; 3]>, t: [usize; 3], count: usize)
    requires
        has.len() >= had.len(),
        has.subrange(0, had.len() as int) == had,
        in_range(has, had.len() as int, count),
        t[0] < count,
        t[1] < count,
        t[2] < count,
    ensures
        has.push(t).subrange(0, had.len() as int) == had,
        in_range(has.push(t), had.len() as int, count),
        has.len() > had.len() ==> has.push(t)[had.len() as int] == has[had.len() as int],
{
    assert(has.push(t).subrange(0, had.len() as int) =~= has.subrange(0, had.len() as int));
    assert forall|j: int| had.len() <= j < has.push(t).len() implies (#[trigger] has.push(t)[j])[0]
        < count && has.push(t)[j][1] < count && has.push(t)[j][2] < count by {
        if j < has.len() {
            assert(has.push(t)[j] == has[j]);
            assert(has[j][0] < count);
        }
    }
}

} // verus!
