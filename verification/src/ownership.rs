//! Every node of a built tree belongs to one parent at most: no subtree is
//! shared between two branches or between the two sides of one.

use vstd::prelude::*;
use crate::round_trip::{
    extends, lemma_bucket_in, lemma_leaves_plain, lemma_merge_step_keeps, lemma_merged_keeps,
    lemma_merged_len,
};
use crate::tree::{
    arena_of, bucket_of, greatest, leading_bit, leaves_of, lemma_greatest, linked, merge_step,
    merged, pending_in, top_of, Node,
};

verus! {

/// The node at `child` is a child of the node at `parent`.
pub open spec fn is_child_of(nodes: Seq<Node>, child: usize, parent: int) -> bool {
    nodes[parent].left == Some(child) || nodes[parent].right == Some(child)
}

/// No node is the child of two nodes, and none is both children of one.
pub open spec fn exclusive(nodes: Seq<Node>) -> bool {
    &&& forall|i: int, j: int, c: usize|
        0 <= i < nodes.len() && 0 <= j < nodes.len() && #[trigger] is_child_of(nodes, c, i)
            && #[trigger] is_child_of(nodes, c, j) ==> i == j
    &&& forall|i: int|
        0 <= i < nodes.len() && (#[trigger] nodes[i]).left is Some ==> nodes[i].left
            != nodes[i].right
}

/// None of the listed nodes is the child of any node.
pub open spec fn orphans(nodes: Seq<Node>, listed: Seq<usize>) -> bool {
    forall|i: int, k: int|
        0 <= i < nodes.len() && 0 <= k < listed.len() ==> !#[trigger] is_child_of(
            nodes,
            listed[k],
            i,
        )
}

/// The two lists name no node in common.
pub open spec fn apart(a: Seq<usize>, b: Seq<usize>) -> bool {
    forall|k: int, l: int| 0 <= k < a.len() && 0 <= l < b.len() ==> a[k] != b[l]
}

/// A round of the merge shares nothing: the two nodes it joins had no parent
/// and are not the same node, and the nodes that stand by keep having none.
pub proof fn lemma_merge_step_exclusive(nodes: Seq<Node>, pending: Seq<usize>, others: Seq<usize>)
    requires
        pending.len() >= 2,
        pending_in(nodes, pending),
        pending_in(nodes, others),
        linked(nodes),
        nodes.len() < usize::MAX,
        exclusive(nodes),
        orphans(nodes, pending),
        orphans(nodes, others),
        pending.no_duplicates(),
        apart(pending, others),
    ensures
        exclusive(merge_step(nodes, pending).0),
        orphans(merge_step(nodes, pending).0, merge_step(nodes, pending).1),
        orphans(merge_step(nodes, pending).0, others),
        merge_step(nodes, pending).1.no_duplicates(),
        apart(merge_step(nodes, pending).1, others),
{
    lemma_greatest(nodes, pending);
    let p = greatest(nodes, pending);
    pending.remove_ensures(p);
    let rest = pending.remove(p);
    lemma_greatest(nodes, rest);
    let q = greatest(nodes, rest);
    rest.remove_ensures(q);
    let rest2 = rest.remove(q);
    let next = merge_step(nodes, pending);
    lemma_merge_step_keeps(nodes, pending);
    let first = pending[p];
    let q_at = if q < p {
        q
    } else {
        q + 1
    };
    let second = pending[q_at];
    assert(rest[q] == second);
    assert(first != second);
    let parent_at = nodes.len() as int;
    assert(next.0[parent_at].left == Some(second));
    assert(next.0[parent_at].right == Some(first));
    assert forall|i: int, c: usize| 0 <= i < nodes.len() implies (#[trigger] is_child_of(
        next.0,
        c,
        i,
    ) == is_child_of(nodes, c, i)) by {
        assert(next.0[i] == nodes[i]);
    }
    assert forall|c: usize| #[trigger]
        is_child_of(next.0, c, parent_at) implies c == first || c == second by {}
    assert forall|i: int| 0 <= i < nodes.len() implies !is_child_of(nodes, first, i)
        && !is_child_of(nodes, second, i) by {
        assert(!is_child_of(nodes, pending[p], i));
        assert(!is_child_of(nodes, pending[q_at], i));
    }
    assert forall|i: int, j: int, c: usize|
        0 <= i < next.0.len() && 0 <= j < next.0.len() && #[trigger] is_child_of(next.0, c, i)
            && #[trigger] is_child_of(next.0, c, j) implies i == j by {
        if i < nodes.len() && j < nodes.len() {
            assert(is_child_of(nodes, c, i) && is_child_of(nodes, c, j));
        } else if i < nodes.len() {
            assert(is_child_of(nodes, c, i));
        } else if j < nodes.len() {
            assert(is_child_of(nodes, c, j));
        }
    }
    assert forall|i: int| 0 <= i < next.0.len() && (#[trigger] next.0[i]).left is Some implies
        next.0[i].left != next.0[i].right by {
        if i < nodes.len() {
            assert(next.0[i] == nodes[i]);
        }
    }
    // Where each node that stays pending stood before the round.
    assert forall|m: int| 0 <= m < rest2.len() implies exists|k: int|
        0 <= k < pending.len() && k != p && k != q_at && #[trigger] rest2[m] == pending[k] by {
        let a = if m < q {
            m
        } else {
            m + 1
        };
        let k = if a < p {
            a
        } else {
            a + 1
        };
        assert(rest2[m] == rest[a]);
        assert(rest[a] == pending[k]);
    }
    assert forall|i: int, m: int| 0 <= i < next.0.len() && 0 <= m < next.1.len() implies
        !#[trigger] is_child_of(next.0, next.1[m], i) by {
        if m < rest2.len() {
            let k = choose|k: int|
                0 <= k < pending.len() && k != p && k != q_at && rest2[m] == pending[k];
            assert(next.1[m] == pending[k]);
            if i < nodes.len() {
                assert(!is_child_of(nodes, pending[k], i));
            }
        } else {
            assert(next.1[m] == parent_at);
            if i < nodes.len() {
                assert(crate::tree::child_precedes(nodes[i].left, i));
                assert(crate::tree::child_precedes(nodes[i].right, i));
            }
        }
    }
    assert forall|i: int, l: int| 0 <= i < next.0.len() && 0 <= l < others.len() implies
        !#[trigger] is_child_of(next.0, others[l], i) by {
        if i < nodes.len() {
            assert(!is_child_of(nodes, others[l], i));
        } else {
            assert(pending[p] != others[l]);
            assert(pending[q_at] != others[l]);
        }
    }
    assert forall|m: int, n: int|
        0 <= m < next.1.len() && 0 <= n < next.1.len() && m != n implies next.1[m]
        != next.1[n] by {
        if m < rest2.len() {
            let a = if m < q {
                m
            } else {
                m + 1
            };
            let k = if a < p {
                a
            } else {
                a + 1
            };
            assert(rest2[m] == rest[a]);
            assert(rest[a] == pending[k]);
            if n < rest2.len() {
                let b = if n < q {
                    n
                } else {
                    n + 1
                };
                let l = if b < p {
                    b
                } else {
                    b + 1
                };
                assert(rest2[n] == rest[b]);
                assert(rest[b] == pending[l]);
                assert(k != l);
            }
        } else {
            let b = if n < q {
                n
            } else {
                n + 1
            };
            let l = if b < p {
                b
            } else {
                b + 1
            };
            assert(rest2[n] == rest[b]);
            assert(rest[b] == pending[l]);
        }
    }
    assert forall|m: int, l: int| 0 <= m < next.1.len() && 0 <= l < others.len() implies next.1[m]
        != others[l] by {
        if m < rest2.len() {
            let k = choose|k: int|
                0 <= k < pending.len() && k != p && k != q_at && rest2[m] == pending[k];
            assert(pending[k] != others[l]);
        } else {
            assert(others[l] < nodes.len());
        }
    }
}

/// The merge shares nothing, and the nodes that stand by stay without a
/// parent and apart from the node it ends with.
pub proof fn lemma_merged_exclusive(nodes: Seq<Node>, pending: Seq<usize>, others: Seq<usize>)
    requires
        pending_in(nodes, pending),
        pending_in(nodes, others),
        linked(nodes),
        nodes.len() + pending.len() <= usize::MAX + 1,
        exclusive(nodes),
        orphans(nodes, pending),
        orphans(nodes, others),
        pending.no_duplicates(),
        apart(pending, others),
    ensures
        exclusive(merged(nodes, pending).0),
        orphans(merged(nodes, pending).0, merged(nodes, pending).1),
        orphans(merged(nodes, pending).0, others),
        apart(merged(nodes, pending).1, others),
    decreases pending.len(),
{
    if pending.len() >= 2 {
        lemma_merge_step_keeps(nodes, pending);
        lemma_merge_step_exclusive(nodes, pending, others);
        let next = merge_step(nodes, pending);
        assert(pending_in(next.0, others));
        lemma_merged_exclusive(next.0, next.1, others);
    }
}

/// Each half of the leaves names every leaf once at most, and only leaves
/// whose code starts with the bit of that half.
pub proof fn lemma_bucket_distinct(leaves: Seq<Node>, bit: bool)
    requires
        leaves.len() <= usize::MAX,
    ensures
        bucket_of(leaves, bit).no_duplicates(),
        forall|k: int|
            0 <= k < bucket_of(leaves, bit).len() ==> leading_bit(
                leaves[(#[trigger] bucket_of(leaves, bit)[k]) as int].code,
            ) == bit,
    decreases leaves.len(),
{
    if leaves.len() > 0 {
        let shorter = leaves.drop_last();
        lemma_bucket_distinct(shorter, bit);
        lemma_bucket_in(shorter, bit);
        let before = bucket_of(shorter, bit);
        assert forall|k: int| 0 <= k < before.len() implies leading_bit(
            leaves[(#[trigger] before[k]) as int].code,
        ) == bit by {
            assert(shorter[before[k] as int] == leaves[before[k] as int]);
        }
    }
}

/// In the arena of a tree no node has two parents, and no branch has the
/// same node on both sides: every node owns its children alone.
pub proof fn lemma_arena_exclusive(lengths: Seq<u8>)
    requires
        arena_of(lengths).len() <= usize::MAX,
    ensures
        exclusive(arena_of(lengths)),
        linked(arena_of(lengths)),
{
    let n = lengths.len() as int;
    let leaves = leaves_of(lengths, n);
    lemma_leaves_plain(lengths, n);
    let bl = bucket_of(leaves, false);
    let bh = bucket_of(leaves, true);
    lemma_merged_len(leaves, bl);
    lemma_merged_len(merged(leaves, bl).0, bh);
    lemma_bucket_in(leaves, false);
    lemma_bucket_in(leaves, true);
    lemma_bucket_distinct(leaves, false);
    lemma_bucket_distinct(leaves, true);
    assert(linked(leaves));
    assert(exclusive(leaves));
    assert(orphans(leaves, bl));
    assert(orphans(leaves, bh));
    assert(apart(bl, bh));
    let low = merged(leaves, bl);
    lemma_merged_keeps(leaves, bl);
    lemma_merged_exclusive(leaves, bl, bh);
    assert(pending_in(low.0, bh));
    assert(apart(bh, low.1));
    let high = merged(low.0, bh);
    lemma_merged_keeps(low.0, bh);
    lemma_merged_exclusive(low.0, bh, low.1);
    let arena = arena_of(lengths);
    let root_at = high.0.len() as int;
    assert(extends(arena, high.0));
    assert(arena[root_at].left == top_of(low.1));
    assert(arena[root_at].right == top_of(high.1));
    assert forall|i: int, c: usize| 0 <= i < high.0.len() implies (#[trigger] is_child_of(
        arena,
        c,
        i,
    ) == is_child_of(high.0, c, i)) by {
        assert(arena[i] == high.0[i]);
    }
    assert forall|c: usize| #[trigger] is_child_of(arena, c, root_at) implies (low.1.len() == 1
        && c == low.1[0]) || (high.1.len() == 1 && c == high.1[0]) by {}
    assert forall|i: int, j: int, c: usize|
        0 <= i < arena.len() && 0 <= j < arena.len() && #[trigger] is_child_of(arena, c, i)
            && #[trigger] is_child_of(arena, c, j) implies i == j by {
        if i < root_at && j < root_at {
            assert(is_child_of(high.0, c, i) && is_child_of(high.0, c, j));
        } else if i < root_at {
            assert(is_child_of(high.0, c, i));
        } else if j < root_at {
            assert(is_child_of(high.0, c, j));
        }
    }
    assert forall|i: int| 0 <= i < arena.len() && (#[trigger] arena[i]).left is Some implies
        arena[i].left != arena[i].right by {
        if i < root_at {
            assert(arena[i] == high.0[i]);
        }
    }
    assert forall|i: int| 0 <= i < arena.len() implies crate::tree::child_precedes(
        (#[trigger] arena[i]).left,
        i,
    ) && crate::tree::child_precedes(arena[i].right, i) by {
        if i < root_at {
            assert(arena[i] == high.0[i]);
        }
    }
}

} // verus!
