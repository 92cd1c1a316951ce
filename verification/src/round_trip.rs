//! When a tree decodes every code to its symbol: whenever each round of the
//! merge joins two nodes whose codes differ in their last bit only.

use vstd::prelude::*;
use crate::canonical::{canonical_code, count_of, first_code};
use crate::code::{bit_of, Code};
use crate::tree::{
    arena_of, branch_over, bucket_of, greatest, leading_bit, leaf_of, leaves_of, lemma_greatest,
    linked, merge_step, merged, pending_in, Node, PrefixTree,
};

verus! {

/// The child of a node in the direction of a bit: right for a set bit.
pub open spec fn child_toward(node: Node, bit: bool) -> Option<usize> {
    if bit {
        node.right
    } else {
        node.left
    }
}

/// From the node at `at`, the low `rem` bits of the leaf's code, taken from
/// the most significant down, lead through branches to the leaf.
pub open spec fn reaches(nodes: Seq<Node>, at: int, leaf: int, rem: nat) -> bool
    decreases rem,
{
    if rem == 0 {
        at == leaf
    } else {
        nodes[at].value is None && match child_toward(
            nodes[at],
            bit_of(nodes[leaf].code.buffer, rem - 1),
        ) {
            Some(c) => reaches(nodes, c as int, leaf, (rem - 1) as nat),
            None => false,
        }
    }
}

/// The leaf lies under the node at `at`: the node's code is the start of the
/// leaf's code, and the rest of the leaf's code leads from the node to it.
pub open spec fn under(nodes: Seq<Node>, at: int, leaf: int) -> bool {
    let rem = nodes[leaf].code.length - nodes[at].code.length;
    &&& 0 <= at < nodes.len()
    &&& 0 <= rem < 32
    &&& nodes[leaf].code.buffer >> (rem as u32) == nodes[at].code.buffer
    &&& reaches(nodes, at, leaf, rem as nat)
}

/// Two nodes that belong under one branch: their codes have the same length
/// of at least two bits and differ in the last bit only, which is set in
/// `first` and clear in `second`.
pub open spec fn siblings(first: Node, second: Node) -> bool {
    &&& first.code.length >= 2
    &&& second.code.length == first.code.length
    &&& second.code.buffer & 1 == 0
    &&& second.code.buffer | 1 == first.code.buffer
}

/// Every round of the merge joins two siblings.
pub open spec fn joins_siblings(nodes: Seq<Node>, pending: Seq<usize>) -> bool
    decreases pending.len(),
    via joins_siblings_decreases
{
    if pending.len() < 2 {
        true
    } else {
        let p = greatest(nodes, pending);
        let rest = pending.remove(p);
        let q = greatest(nodes, rest);
        siblings(nodes[pending[p] as int], nodes[rest[q] as int]) && joins_siblings(
            merge_step(nodes, pending).0,
            merge_step(nodes, pending).1,
        )
    }
}

#[via_fn]
proof fn joins_siblings_decreases(nodes: Seq<Node>, pending: Seq<usize>) {
    if pending.len() >= 2 {
        crate::tree::lemma_merge_step_len(nodes, pending);
    }
}

/// The merge joins siblings in every round, and the node it ends with has a
/// code of one bit.
pub open spec fn merges_soundly(nodes: Seq<Node>, pending: Seq<usize>) -> bool {
    let end = merged(nodes, pending);
    joins_siblings(nodes, pending) && (pending.len() > 0 ==> end.0[end.1[0] as int].code.length
        == 1)
}

/// The lengths fit a code, and the merge of each half of the leaves is sound.
pub open spec fn decodable(lengths: Seq<u8>) -> bool {
    let leaves = leaves_of(lengths, lengths.len() as int);
    let low = merged(leaves, bucket_of(leaves, false));
    &&& forall|i: int| 0 <= i < lengths.len() ==> #[trigger] lengths[i] <= 32
    &&& merges_soundly(leaves, bucket_of(leaves, false))
    &&& merges_soundly(low.0, bucket_of(leaves, true))
}

/// The low `rem` bits of `buffer` as traversal directions, the most
/// significant first.
pub open spec fn low_bits(buffer: u32, rem: nat) -> Seq<u8> {
    Seq::new(
        rem,
        |i: int|
            if bit_of(buffer, rem - 1 - i) {
                1u8
            } else {
                0u8
            },
    )
}

/// The bits of a code as traversal directions, in the order in which they
/// were appended.
pub open spec fn code_bits(code: Code) -> Seq<u8> {
    low_bits(code.buffer, code.length as nat)
}

/// `more` holds the nodes of `nodes`, at the same positions, and then others.
pub open spec fn extends(more: Seq<Node>, nodes: Seq<Node>) -> bool {
    nodes.len() <= more.len() && forall|i: int| 0 <= i < nodes.len() ==> more[i] == nodes[i]
}

/// A path in an arena is still there when the arena has grown.
pub proof fn lemma_reaches_extends(
    nodes: Seq<Node>,
    more: Seq<Node>,
    at: int,
    leaf: int,
    rem: nat,
)
    requires
        linked(nodes),
        extends(more, nodes),
        0 <= at < nodes.len(),
        0 <= leaf < nodes.len(),
        reaches(nodes, at, leaf, rem),
    ensures
        reaches(more, at, leaf, rem),
    decreases rem,
{
    if rem > 0 {
        let c = child_toward(nodes[at], bit_of(nodes[leaf].code.buffer, rem - 1))->0;
        assert(nodes[at] == more[at]);
        lemma_reaches_extends(nodes, more, c as int, leaf, (rem - 1) as nat);
    }
}

/// A round of the merge keeps the arena linked and the pending positions
/// inside it, and only adds to the arena.
pub proof fn lemma_merge_step_keeps(nodes: Seq<Node>, pending: Seq<usize>)
    requires
        pending.len() >= 2,
        pending_in(nodes, pending),
        linked(nodes),
        nodes.len() < usize::MAX,
    ensures
        pending_in(merge_step(nodes, pending).0, merge_step(nodes, pending).1),
        linked(merge_step(nodes, pending).0),
        extends(merge_step(nodes, pending).0, nodes),
        merge_step(nodes, pending).0.len() == nodes.len() + 1,
        merge_step(nodes, pending).1.len() == pending.len() - 1,
{
    lemma_greatest(nodes, pending);
    let p = greatest(nodes, pending);
    pending.remove_ensures(p);
    let rest = pending.remove(p);
    lemma_greatest(nodes, rest);
    let q = greatest(nodes, rest);
    rest.remove_ensures(q);
    let rest2 = rest.remove(q);
    let next = merge_step(nodes, pending);
    assert forall|k: int| 0 <= k < rest.len() implies #[trigger] rest[k] < nodes.len() by {
        if k < p {
            assert(rest[k] == pending[k]);
        } else {
            assert(rest[k] == pending[k + 1]);
        }
    }
    assert forall|k: int| 0 <= k < next.1.len() implies #[trigger] next.1[k] < next.0.len() by {
        if k < rest2.len() {
            if k < q {
                assert(rest2[k] == rest[k]);
            } else {
                assert(rest2[k] == rest[k + 1]);
            }
        }
    }
    assert forall|i: int| 0 <= i < next.0.len() implies crate::tree::child_precedes(
        (#[trigger] next.0[i]).left,
        i,
    ) && crate::tree::child_precedes(next.0[i].right, i) by {
        if i < nodes.len() {
            assert(next.0[i] == nodes[i]);
        } else {
            assert(pending[p] < nodes.len());
            assert(rest[q] < nodes.len());
        }
    }
}

/// The merge adds one node for each pending node but one, and ends with one
/// pending node, or with none where none was pending.
pub proof fn lemma_merged_len(nodes: Seq<Node>, pending: Seq<usize>)
    ensures
        merged(nodes, pending).0.len() == nodes.len() + if pending.len() > 0 {
            pending.len() - 1
        } else {
            0
        },
        merged(nodes, pending).1.len() == if pending.len() > 0 {
            1nat
        } else {
            0nat
        },
    decreases pending.len(),
{
    if pending.len() >= 2 {
        crate::tree::lemma_merge_step_len(nodes, pending);
        let next = merge_step(nodes, pending);
        lemma_merged_len(next.0, next.1);
    }
}

/// The merge keeps the arena linked and only adds to it, and ends with at
/// most one pending node, with one where any was pending.
pub proof fn lemma_merged_keeps(nodes: Seq<Node>, pending: Seq<usize>)
    requires
        pending_in(nodes, pending),
        linked(nodes),
        nodes.len() + pending.len() <= usize::MAX + 1,
    ensures
        pending_in(merged(nodes, pending).0, merged(nodes, pending).1),
        linked(merged(nodes, pending).0),
        extends(merged(nodes, pending).0, nodes),
        merged(nodes, pending).1.len() <= 1,
        pending.len() > 0 ==> merged(nodes, pending).1.len() == 1,
        merged(nodes, pending).0.len() + merged(nodes, pending).1.len() <= nodes.len()
            + pending.len(),
    decreases pending.len(),
{
    if pending.len() >= 2 {
        lemma_merge_step_keeps(nodes, pending);
        let next = merge_step(nodes, pending);
        lemma_merged_keeps(next.0, next.1);
    }
}

/// A leaf that lies under one of the pending nodes lies under the node that
/// a merge of siblings ends with.
pub proof fn lemma_merge_keeps_leaf(nodes: Seq<Node>, pending: Seq<usize>, leaf: int, k: int)
    requires
        pending_in(nodes, pending),
        linked(nodes),
        nodes.len() + pending.len() <= usize::MAX + 1,
        0 <= leaf < nodes.len(),
        nodes[leaf].code.length <= 32,
        0 <= k < pending.len(),
        under(nodes, pending[k] as int, leaf),
        joins_siblings(nodes, pending),
    ensures
        merged(nodes, pending).1.len() == 1,
        under(merged(nodes, pending).0, merged(nodes, pending).1[0] as int, leaf),
        merged(nodes, pending).0[leaf] == nodes[leaf],
    decreases pending.len(),
{
    if pending.len() >= 2 {
        lemma_greatest(nodes, pending);
        let p = greatest(nodes, pending);
        pending.remove_ensures(p);
        let rest = pending.remove(p);
        lemma_greatest(nodes, rest);
        let q = greatest(nodes, rest);
        rest.remove_ensures(q);
        let rest2 = rest.remove(q);
        let next = merge_step(nodes, pending);
        lemma_merge_step_keeps(nodes, pending);
        let first_at = pending[p];
        let second_at = rest[q];
        let first = nodes[first_at as int];
        let second = nodes[second_at as int];
        let parent_at = nodes.len() as int;
        let parent = next.0[parent_at];
        assert(parent == branch_over(first, first_at, second_at));
        assert(siblings(first, second));
        let at = pending[k] as int;
        let rem = (nodes[leaf].code.length - nodes[at].code.length) as nat;
        let x: u32 = nodes[leaf].code.buffer;
        let r: u32 = rem as u32;
        let f: u32 = first.code.buffer;
        let s: u32 = second.code.buffer;
        assert(next.0[leaf] == nodes[leaf]);
        assert(next.0[at] == nodes[at]);
        lemma_reaches_extends(nodes, next.0, at, leaf, rem);
        let kr = if k < p {
            k
        } else {
            k - 1
        };
        let moved: int;
        if k == p || kr == q {
            assert(nodes[at].code.length >= 2);
            assert(rem <= 30);
            let y: u32 = if k == p {
                f
            } else {
                s
            };
            let r1: u32 = (r + 1) as u32;
            assert(x >> r == y);
            assert(x >> r1 == f >> 1u32 && (y == f ==> (x >> r) & 1 == 1) && (y == s ==> (x >> r)
                & 1 == 0)) by (bit_vector)
                requires
                    r <= 30,
                    r1 == r + 1,
                    s & 1 == 0,
                    s | 1 == f,
                    x >> r == y,
                    y == f || y == s,
            ;
            assert(bit_of(x, rem as int) == (k == p));
            assert(child_toward(parent, bit_of(x, rem as int)) == Some(at as usize));
            assert(reaches(next.0, parent_at, leaf, rem + 1));
            assert(under(next.0, parent_at, leaf));
            moved = next.1.len() - 1;
        } else {
            moved = if kr < q {
                kr
            } else {
                kr - 1
            };
            assert(rest[kr] == pending[k]);
            assert(rest2[moved] == rest[kr]);
            assert(next.1[moved] == pending[k]);
        }
        lemma_merge_keeps_leaf(next.0, next.1, leaf, moved);
    }
}

/// The leaves have no children and a symbol each.
pub proof fn lemma_leaves_plain(lengths: Seq<u8>, n: int)
    requires
        n <= lengths.len(),
    ensures
        leaves_of(lengths, n).len() <= if n < 0 {
            0
        } else {
            n
        },
        forall|j: int|
            0 <= j < leaves_of(lengths, n).len() ==> (#[trigger] leaves_of(lengths, n)[j]).left
                is None && leaves_of(lengths, n)[j].right is None,
    decreases n,
{
    if n > 0 {
        lemma_leaves_plain(lengths, n - 1);
    }
}

/// Where the leaf of a symbol in use stands among the leaves.
pub proof fn lemma_leaf_position(lengths: Seq<u8>, n: int, symbol: int) -> (j: int)
    requires
        0 <= symbol < n <= lengths.len(),
        lengths[symbol] != 0,
    ensures
        0 <= j < leaves_of(lengths, n).len(),
        leaves_of(lengths, n)[j] == leaf_of(lengths, symbol),
    decreases n,
{
    if symbol == n - 1 {
        leaves_of(lengths, n - 1).len() as int
    } else {
        lemma_leaf_position(lengths, n - 1, symbol)
    }
}

/// Each half of the leaves names positions among the leaves.
pub proof fn lemma_bucket_in(leaves: Seq<Node>, bit: bool)
    requires
        leaves.len() <= usize::MAX,
    ensures
        pending_in(leaves, bucket_of(leaves, bit)),
        bucket_of(leaves, bit).len() <= leaves.len(),
    decreases leaves.len(),
{
    if leaves.len() > 0 {
        lemma_bucket_in(leaves.drop_last(), bit);
    }
}

/// Where a leaf stands in the half that its leading bit selects.
pub proof fn lemma_bucket_position(leaves: Seq<Node>, bit: bool, j: int) -> (k: int)
    requires
        leaves.len() <= usize::MAX,
        0 <= j < leaves.len(),
        leading_bit(leaves[j].code) == bit,
    ensures
        0 <= k < bucket_of(leaves, bit).len(),
        bucket_of(leaves, bit)[k] == j,
    decreases leaves.len(),
{
    if j == leaves.len() - 1 {
        bucket_of(leaves.drop_last(), bit).len() as int
    } else {
        assert(leaves.drop_last()[j] == leaves[j]);
        lemma_bucket_position(leaves.drop_last(), bit, j)
    }
}

/// A path to a leaf is a decode: fed the bits of the path, the traversal
/// yields nothing until the last bit, which yields the leaf's symbol.
pub proof fn lemma_reaches_decodes(
    tree: PrefixTree,
    at: usize,
    leaf: int,
    rem: nat,
    symbol: usize,
)
    requires
        rem >= 1,
        reaches(tree.nodes@, at as int, leaf, rem),
        tree.nodes@[leaf].value == Some(symbol),
    ensures
        tree.decodes_from(at, low_bits(tree.nodes@[leaf].code.buffer, rem), symbol),
    decreases rem,
{
    let buffer = tree.nodes@[leaf].code.buffer;
    let bits = low_bits(buffer, rem);
    let c = child_toward(tree.nodes@[at as int], bit_of(buffer, rem - 1))->0;
    assert(tree.child(at, bits[0]) == Some(c));
    if rem > 1 {
        assert(reaches(tree.nodes@, c as int, leaf, (rem - 1) as nat));
        assert(tree.nodes@[c as int].value is None);
        assert(tree.step(at, bits[0]) == (c, None::<usize>));
        lemma_reaches_decodes(tree, c, leaf, (rem - 1) as nat, symbol);
        assert(bits.skip(1) =~= low_bits(buffer, (rem - 1) as nat));
    } else {
        assert(reaches(tree.nodes@, c as int, leaf, 0));
        assert(tree.step(at, bits[0]).1 == Some(symbol));
    }
}

/// Round trip: where the merge of each half of the leaves is sound, the bits
/// of the canonical code of a symbol in use, fed to the traversal from the
/// root in the order from the most significant down, yield no symbol before
/// the last bit and that symbol on the last bit.
pub proof fn lemma_round_trip(tree: PrefixTree, lengths: Seq<u8>, symbol: int)
    requires
        tree.nodes@ == arena_of(lengths),
        tree.root == tree.nodes@.len() - 1,
        tree.nodes@.len() <= usize::MAX,
        decodable(lengths),
        0 <= symbol < lengths.len(),
        lengths[symbol] != 0,
    ensures
        tree.decodes(code_bits(leaf_of(lengths, symbol).code), symbol as usize),
{
    let n = lengths.len() as int;
    let leaves = leaves_of(lengths, n);
    let j = lemma_leaf_position(lengths, n, symbol);
    lemma_leaves_plain(lengths, n);
    assert(linked(leaves));
    let bl = bucket_of(leaves, false);
    let bh = bucket_of(leaves, true);
    let low = merged(leaves, bl);
    let high = merged(low.0, bh);
    lemma_merged_len(leaves, bl);
    lemma_merged_len(low.0, bh);
    lemma_bucket_in(leaves, false);
    lemma_bucket_in(leaves, true);
    lemma_merged_keeps(leaves, bl);
    assert(pending_in(low.0, bh));
    lemma_merged_keeps(low.0, bh);
    let nodes = tree.nodes@;
    let root = tree.root as int;
    let leaf = leaves[j];
    let len = lengths[symbol] as nat;
    assert(leaf.code.length == len);
    assert(extends(nodes, high.0));
    assert(nodes[j] == leaf);
    let x: u32 = leaf.code.buffer;
    assert(x >> 0u32 == x) by (bit_vector);
    let top: int;
    if leading_bit(leaf.code) {
        let k = lemma_bucket_position(leaves, true, j);
        assert(reaches(low.0, j, j, 0));
        assert(under(low.0, bh[k] as int, j));
        lemma_merge_keeps_leaf(low.0, bh, j, k);
        top = high.1[0] as int;
    } else {
        let k = lemma_bucket_position(leaves, false, j);
        assert(reaches(leaves, j, j, 0));
        assert(under(leaves, bl[k] as int, j));
        lemma_merge_keeps_leaf(leaves, bl, j, k);
        top = low.1[0] as int;
        lemma_reaches_extends(low.0, high.0, top, j, (len - 1) as nat);
    }
    assert(high.0[top].code.length == 1);
    lemma_reaches_extends(high.0, nodes, top, j, (len - 1) as nat);
    assert(child_toward(nodes[root], bit_of(x, len - 1)) == Some(top as usize));
    assert(reaches(nodes, root, j, len));
    lemma_reaches_decodes(tree, tree.root, j, len, symbol as usize);
}

/// The hypothesis of the round trip can be met: the table of one symbol of
/// length one and two of length two merges soundly.
pub proof fn lemma_three_symbols_decodable()
    ensures
        decodable(seq![1u8, 2u8, 2u8]),
{
    let lengths = seq![1u8, 2u8, 2u8];
    let two = seq![1u8, 2u8];
    let one = seq![1u8];
    let none = Seq::<u8>::empty();
    assert(lengths.drop_last() =~= two);
    assert(two.drop_last() =~= one);
    assert(one.drop_last() =~= none);
    assert(lengths.take(0) =~= none);
    assert(lengths.take(1) =~= one);
    assert(lengths.take(2) =~= two);
    assert(count_of(none, 1) == 0 && count_of(none, 2) == 0);
    assert(count_of(one, 1) == 1 && count_of(one, 2) == 0);
    assert(count_of(two, 1) == 1 && count_of(two, 2) == 1);
    assert(count_of(lengths, 1) == 1 && count_of(lengths, 2) == 2);
    assert(first_code(lengths, 0) == 0);
    assert(first_code(lengths, 1) == 0);
    assert(first_code(lengths, 2) == 2);
    assert(canonical_code(lengths, 0) == 0);
    assert(canonical_code(lengths, 1) == 2);
    assert(canonical_code(lengths, 2) == 3);
    let l0 = leaf_of(lengths, 0);
    let l1 = leaf_of(lengths, 1);
    let l2 = leaf_of(lengths, 2);
    assert(leaves_of(lengths, 0) =~= Seq::<Node>::empty());
    assert(leaves_of(lengths, 1) =~= seq![l0]);
    assert(leaves_of(lengths, 2) =~= seq![l0, l1]);
    let leaves = leaves_of(lengths, 3);
    assert(leaves =~= seq![l0, l1, l2]);
    assert(!bit_of(0u32, 0) && bit_of(2u32, 1) && bit_of(3u32, 1)) by {
        assert((0u32 >> 0u32) & 1 == 0 && (2u32 >> 1u32) & 1 == 1 && (3u32 >> 1u32) & 1 == 1)
            by (bit_vector);
    }
    assert(!leading_bit(l0.code) && leading_bit(l1.code) && leading_bit(l2.code));
    let s2 = leaves.drop_last();
    let s1 = s2.drop_last();
    let s0 = s1.drop_last();
    assert(s2 =~= seq![l0, l1] && s1 =~= seq![l0] && s0 =~= Seq::<Node>::empty());
    assert(bucket_of(s0, false) =~= Seq::<usize>::empty());
    assert(bucket_of(s0, true) =~= Seq::<usize>::empty());
    assert(bucket_of(s1, false) =~= seq![0usize]);
    assert(bucket_of(s1, true) =~= Seq::<usize>::empty());
    assert(bucket_of(s2, false) =~= seq![0usize]);
    assert(bucket_of(s2, true) =~= seq![1usize]);
    let bl = bucket_of(leaves, false);
    let bh = bucket_of(leaves, true);
    assert(bl =~= seq![0usize]);
    assert(bh =~= seq![1usize, 2usize]);
    assert(merged(leaves, bl) == (leaves, bl));
    assert(joins_siblings(leaves, bl));
    assert(merges_soundly(leaves, bl));
    assert(bh.drop_last() =~= seq![1usize]);
    assert(greatest(leaves, bh.drop_last()) == 0);
    assert(greatest(leaves, bh) == 1);
    let rest = bh.remove(1);
    assert(rest =~= seq![1usize]);
    assert(greatest(leaves, rest) == 0);
    assert(rest.remove(0) =~= Seq::<usize>::empty());
    assert(2u32 & 1 == 0 && 2u32 | 1 == 3u32 && 3u32 >> 1u32 == 1u32) by (bit_vector);
    assert(siblings(l2, l1));
    let next = merge_step(leaves, bh);
    assert(next.1 =~= seq![3usize]);
    assert(next.0 == leaves.push(branch_over(l2, 2, 1)));
    assert(merged(next.0, next.1) == next);
    assert(joins_siblings(next.0, next.1));
    assert(merged(leaves, bh) == next);
    assert(joins_siblings(leaves, bh));
    assert(next.0[3].code.length == 1);
    assert(merges_soundly(leaves, bh));
}

} // verus!
