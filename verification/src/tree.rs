//! The decode tree of a prefix code, kept as a flat arena of nodes that refer
//! to their children by position, and the merge that builds it bottom-up.

use vstd::prelude::*;
use crate::canonical::{assign_codes, assigned_code, canonical_code};
use crate::code::{bit_at, bit_of, normalized_bit, Code};
use crate::ownership::{exclusive, lemma_arena_exclusive};

verus! {

/// A node of the decode tree. A leaf carries the symbol it decodes to and that
/// symbol's code; a branch carries no symbol and refers to its children by
/// their positions in the arena.
#[derive(Clone, Copy, Debug)]
pub struct Node {
    pub value: Option<usize>,
    pub significance: u64,
    pub code: Code,
    pub left: Option<usize>,
    pub right: Option<usize>,
}

impl Node {
    /// A branch with no children, an empty code and significance zero.
    pub fn new() -> (node: Self)
        ensures
            node == (Node {
                value: None,
                significance: 0,
                code: Code { buffer: 0, length: 0 },
                left: None,
                right: None,
            }),
    {
        Self { value: None, significance: 0, code: Code::new(), left: None, right: None }
    }
}

/// A child, where there is one, stands before its parent in the arena.
pub open spec fn child_precedes(child: Option<usize>, parent: int) -> bool {
    match child {
        Some(c) => c < parent,
        None => true,
    }
}

/// Every node's children stand before it: the arena holds no cycle, and no
/// child lies outside it.
pub open spec fn linked(nodes: Seq<Node>) -> bool {
    forall|i: int|
        0 <= i < nodes.len() ==> child_precedes((#[trigger] nodes[i]).left, i) && child_precedes(
            nodes[i].right,
            i,
        )
}

/// Every pending position names a node of the arena.
pub open spec fn pending_in(nodes: Seq<Node>, pending: Seq<usize>) -> bool {
    forall|k: int| 0 <= k < pending.len() ==> #[trigger] pending[k] < nodes.len()
}

/// The significance of the node that the `k`-th pending position names.
pub open spec fn significance_at(nodes: Seq<Node>, pending: Seq<usize>, k: int) -> u64 {
    nodes[pending[k] as int].significance
}

/// `p` is where the pending node of greatest significance stands; among
/// several of that significance, the one that has waited longest.
pub open spec fn is_greatest(nodes: Seq<Node>, pending: Seq<usize>, p: int) -> bool {
    &&& 0 <= p < pending.len()
    &&& forall|k: int|
        0 <= k < pending.len() ==> significance_at(nodes, pending, k) <= significance_at(
            nodes,
            pending,
            p,
        )
    &&& forall|k: int|
        0 <= k < p ==> significance_at(nodes, pending, k) < significance_at(nodes, pending, p)
}

/// The position of the pending node of greatest significance.
pub open spec fn greatest(nodes: Seq<Node>, pending: Seq<usize>) -> int
    decreases pending.len(),
{
    if pending.len() <= 1 {
        0
    } else {
        let before = greatest(nodes, pending.drop_last());
        if significance_at(nodes, pending, pending.len() - 1) > significance_at(
            nodes,
            pending,
            before,
        ) {
            pending.len() - 1
        } else {
            before
        }
    }
}

/// `greatest` finds the greatest significance, and the first node that has it.
pub proof fn lemma_greatest(nodes: Seq<Node>, pending: Seq<usize>)
    requires
        pending.len() > 0,
    ensures
        is_greatest(nodes, pending, greatest(nodes, pending)),
    decreases pending.len(),
{
    if pending.len() > 1 {
        let shorter = pending.drop_last();
        lemma_greatest(nodes, shorter);
        let before = greatest(nodes, shorter);
        assert forall|k: int| 0 <= k < shorter.len() implies significance_at(nodes, shorter, k)
            == significance_at(nodes, pending, k) by {}
        assert(significance_at(nodes, shorter, before) == significance_at(nodes, pending, before));
        let p = greatest(nodes, pending);
        assert forall|k: int| 0 <= k < pending.len() implies significance_at(nodes, pending, k)
            <= significance_at(nodes, pending, p) by {
            if k < shorter.len() {
                assert(significance_at(nodes, shorter, k) <= significance_at(
                    nodes,
                    shorter,
                    before,
                ));
            }
        }
        assert forall|k: int| 0 <= k < p implies significance_at(nodes, pending, k)
            < significance_at(nodes, pending, p) by {
            if p == before {
                assert(significance_at(nodes, shorter, k) < significance_at(
                    nodes,
                    shorter,
                    before,
                ));
            } else {
                assert(significance_at(nodes, shorter, k) <= significance_at(
                    nodes,
                    shorter,
                    before,
                ));
            }
        }
    }
}

/// Takes the node of greatest significance out of the pending ones; the
/// others keep their order.
pub fn pop_greatest(nodes: &Vec<Node>, pending: &mut Vec<usize>) -> (at: usize)
    requires
        old(pending)@.len() > 0,
        pending_in(nodes@, old(pending)@),
    ensures
        is_greatest(nodes@, old(pending)@, greatest(nodes@, old(pending)@)),
        at == old(pending)@[greatest(nodes@, old(pending)@)],
        final(pending)@ == old(pending)@.remove(greatest(nodes@, old(pending)@)),
        final(pending)@.len() == old(pending)@.len() - 1,
        pending_in(nodes@, final(pending)@),
        at < nodes@.len(),
{
    let mut best: usize = 0;
    let mut i: usize = 1;
    assert(pending@.take(1).len() == 1);
    while i < pending.len()
        invariant
            1 <= i <= pending@.len(),
            pending_in(nodes@, pending@),
            best == greatest(nodes@, pending@.take(i as int)),
            0 <= best < i,
        decreases pending@.len() - i,
    {
        proof {
            assert(pending@.take(i + 1).drop_last() =~= pending@.take(i as int));
            assert(pending@.take(i + 1).len() == i + 1);
            assert(pending@.take(i + 1)[i as int] == pending@[i as int]);
            assert(pending@.take(i + 1)[best as int] == pending@[best as int]);
        }
        if nodes[pending[i]].significance > nodes[pending[best]].significance {
            best = i;
        }
        i = i + 1;
    }
    proof {
        assert(pending@.take(pending@.len() as int) =~= pending@);
        lemma_greatest(nodes@, pending@);
        pending@.remove_ensures(best as int);
    }
    pending.remove(best)
}

/// The branch that joins two pending nodes: the greater one, `first`, becomes
/// its right child and the other its left child. Its code is the code of
/// `first` without its last bit, and its significance is that code's value.
pub open spec fn branch_over(first: Node, first_at: usize, second_at: usize) -> Node {
    Node {
        value: None,
        significance: (first.code.buffer >> 1u32) as u64,
        code: Code {
            buffer: first.code.buffer >> 1u32,
            length: if first.code.length != 0 {
                (first.code.length - 1) as u8
            } else {
                0u8
            },
        },
        left: Some(second_at),
        right: Some(first_at),
    }
}

/// One round of the merge: the two pending nodes of greatest significance
/// leave, and the branch that joins them is added to the arena and waits in
/// their place.
pub open spec fn merge_step(nodes: Seq<Node>, pending: Seq<usize>) -> (Seq<Node>, Seq<usize>)
    recommends
        pending.len() >= 2,
{
    let p = greatest(nodes, pending);
    let rest = pending.remove(p);
    let q = greatest(nodes, rest);
    (
        nodes.push(branch_over(nodes[pending[p] as int], pending[p], rest[q])),
        rest.remove(q).push(nodes.len() as usize),
    )
}

/// The arena and the pending nodes once the merge has run until at most one
/// node is pending.
pub open spec fn merged(nodes: Seq<Node>, pending: Seq<usize>) -> (Seq<Node>, Seq<usize>)
    decreases pending.len(),
    via merged_decreases
{
    if pending.len() < 2 {
        (nodes, pending)
    } else {
        let next = merge_step(nodes, pending);
        merged(next.0, next.1)
    }
}

#[via_fn]
proof fn merged_decreases(nodes: Seq<Node>, pending: Seq<usize>) {
    if pending.len() >= 2 {
        lemma_merge_step_len(nodes, pending);
    }
}

/// A round of the merge leaves one pending node fewer and one node more.
pub proof fn lemma_merge_step_len(nodes: Seq<Node>, pending: Seq<usize>)
    requires
        pending.len() >= 2,
    ensures
        merge_step(nodes, pending).1.len() == pending.len() - 1,
        merge_step(nodes, pending).0.len() == nodes.len() + 1,
{
    lemma_greatest(nodes, pending);
    let p = greatest(nodes, pending);
    pending.remove_ensures(p);
    let rest = pending.remove(p);
    lemma_greatest(nodes, rest);
    rest.remove_ensures(greatest(nodes, rest));
}

/// The node that is left pending, if any.
pub open spec fn top_of(pending: Seq<usize>) -> Option<usize> {
    if pending.len() == 0 {
        None
    } else {
        Some(pending[0])
    }
}

/// Merges the pending nodes into one subtree and returns its root. While more
/// than one node is pending, the two of greatest significance are joined
/// under a new branch, which then waits in their place. With nothing pending
/// there is no subtree.
pub fn collect_from_heap(nodes: &mut Vec<Node>, heap: &mut Vec<usize>) -> (top: Option<usize>)
    requires
        pending_in(old(nodes)@, old(heap)@),
    ensures
        final(nodes)@ == merged(old(nodes)@, old(heap)@).0,
        top == top_of(merged(old(nodes)@, old(heap)@).1),
        top is Some <==> old(heap)@.len() > 0,
        final(heap)@.len() == 0,
        final(nodes)@.len() >= old(nodes)@.len(),
        final(nodes)@.take(old(nodes)@.len() as int) == old(nodes)@,
        old(heap)@.len() > 0 ==> final(nodes)@.len() == old(nodes)@.len() + old(heap)@.len() - 1,
        linked(old(nodes)@) ==> linked(final(nodes)@),
        child_precedes(top, final(nodes)@.len() as int),
{
    let ghost nodes_before = nodes@;
    let ghost heap_before = heap@;
    assert(nodes@.take(nodes@.len() as int) =~= nodes@);
    while heap.len() > 1
        invariant
            pending_in(nodes@, heap@),
            merged(nodes@, heap@) == merged(nodes_before, heap_before),
            nodes@.len() >= nodes_before.len(),
            nodes@.take(nodes_before.len() as int) == nodes_before,
            heap_before.len() > 0 ==> heap@.len() > 0 && nodes@.len() + heap@.len()
                == nodes_before.len() + heap_before.len(),
            heap_before.len() == 0 ==> heap@.len() == 0,
            linked(nodes_before) ==> linked(nodes@),
        decreases heap@.len(),
    {
        let ghost round_nodes = nodes@;
        let ghost round_heap = heap@;
        let first_at = pop_greatest(nodes, heap);
        let second_at = pop_greatest(nodes, heap);
        let first = nodes[first_at];
        let parent_code: u32 = first.code.buffer >> 1u32;
        let parent_len: u8 = if first.code.length != 0 {
            first.code.length - 1
        } else {
            0
        };
        let parent = Node {
            value: None,
            significance: parent_code as u64,
            code: Code::from(parent_code, parent_len),
            left: Some(second_at),
            right: Some(first_at),
        };
        let parent_at: usize = nodes.len();
        nodes.push(parent);
        heap.push(parent_at);
        proof {
            assert(parent == branch_over(round_nodes[first_at as int], first_at, second_at));
            assert(nodes@ == merge_step(round_nodes, round_heap).0);
            assert(heap@ == merge_step(round_nodes, round_heap).1);
            assert(nodes@.take(nodes_before.len() as int) =~= round_nodes.take(
                nodes_before.len() as int,
            ));
            assert(pending_in(nodes@, heap@)) by {
                assert forall|k: int| 0 <= k < heap@.len() implies #[trigger] heap@[k]
                    < nodes@.len() by {
                    if k < heap@.len() - 1 {
                        assert(heap@[k] == heap@.drop_last()[k]);
                    }
                }
            }
            if linked(round_nodes) {
                assert forall|i: int| 0 <= i < nodes@.len() implies child_precedes(
                    (#[trigger] nodes@[i]).left,
                    i,
                ) && child_precedes(nodes@[i].right, i) by {
                    if i < round_nodes.len() {
                        assert(nodes@[i] == round_nodes[i]);
                    }
                }
            }
        }
    }
    let top = heap.pop();
    proof {
        if heap_before.len() > 0 {
            assert(top == Some(merged(nodes_before, heap_before).1[0]));
        }
    }
    top
}

/// The leaf of a symbol in use: it carries the symbol, its canonical code with
/// the symbol's length, and the code's value as its significance.
pub open spec fn leaf_of(lengths: Seq<u8>, symbol: int) -> Node
    recommends
        0 <= symbol < lengths.len(),
{
    Node {
        value: Some(symbol as usize),
        significance: canonical_code(lengths, symbol) as u64,
        code: Code { buffer: canonical_code(lengths, symbol) as u32, length: lengths[symbol] },
        left: None,
        right: None,
    }
}

/// The leaves of the symbols in use among the first `n`, in ascending order
/// of the symbols.
pub open spec fn leaves_of(lengths: Seq<u8>, n: int) -> Seq<Node>
    recommends
        n <= lengths.len(),
    decreases n,
{
    if n <= 0 {
        Seq::empty()
    } else if lengths[n - 1] != 0 {
        leaves_of(lengths, n - 1).push(leaf_of(lengths, n - 1))
    } else {
        leaves_of(lengths, n - 1)
    }
}

/// The first bit of a code: its most significant bit in use.
pub open spec fn leading_bit(code: Code) -> bool {
    bit_of(code.buffer, code.length - 1)
}

/// The positions of the leaves whose code starts with `bit`, in ascending
/// order.
pub open spec fn bucket_of(leaves: Seq<Node>, bit: bool) -> Seq<usize>
    decreases leaves.len(),
{
    if leaves.len() == 0 {
        Seq::empty()
    } else if leading_bit(leaves.last().code) == bit {
        bucket_of(leaves.drop_last(), bit).push((leaves.len() - 1) as usize)
    } else {
        bucket_of(leaves.drop_last(), bit)
    }
}

/// The arena of the tree for the given lengths: the leaves, then the branches
/// that merge the leaves whose codes start with `0`, then those that merge
/// the leaves whose codes start with `1`, and last the root over the two
/// subtrees.
pub open spec fn arena_of(lengths: Seq<u8>) -> Seq<Node> {
    let leaves = leaves_of(lengths, lengths.len() as int);
    let low = merged(leaves, bucket_of(leaves, false));
    let high = merged(low.0, bucket_of(leaves, true));
    high.0.push(
        Node {
            value: None,
            significance: 0,
            code: Code { buffer: 0, length: 0 },
            left: top_of(low.1),
            right: top_of(high.1),
        },
    )
}

/// The decode tree of a prefix code, with the cursor of a decode in progress.
///
/// `nodes` is the arena; `root` and `current` are positions in it. `leaves`
/// holds a copy of every leaf, in ascending order of the symbols. The cursor
/// stands at the root between symbols and at a branch below it in the middle
/// of one.
#[derive(Debug)]
pub struct PrefixTree {
    pub nodes: Vec<Node>,
    pub root: usize,
    pub leaves: Vec<Node>,
    pub current: usize,
}

impl PrefixTree {
    /// The root and the cursor name nodes of the arena, and every child
    /// stands before its parent.
    pub open spec fn wf(self) -> bool {
        &&& self.root < self.nodes@.len()
        &&& self.current < self.nodes@.len()
        &&& linked(self.nodes@)
    }

    /// The child of the node at `at` in the direction of `bit`: left for `0`,
    /// right for anything else.
    pub open spec fn child(self, at: usize, bit: u8) -> Option<usize> {
        if normalized_bit(bit) == 0 {
            self.nodes@[at as int].left
        } else {
            self.nodes@[at as int].right
        }
    }

    /// One step of the traversal from the cursor `at`: where the cursor
    /// stands afterwards, and the symbol that the step decodes, if any.
    ///
    /// Without a child in the direction of `bit` the cursor stays. At a leaf
    /// the step yields the leaf's symbol and the cursor returns to the root.
    /// At a branch the cursor moves there.
    pub open spec fn step(self, at: usize, bit: u8) -> (usize, Option<usize>) {
        match self.child(at, bit) {
            None => (at, None),
            Some(next) => match self.nodes@[next as int].value {
                Some(symbol) => (self.root, Some(symbol)),
                None => (next, None),
            },
        }
    }

    /// Fed to the traversal one by one with the cursor at `at`, the bits
    /// yield no symbol until the last of them, which yields `symbol`.
    pub open spec fn decodes_from(self, at: usize, bits: Seq<u8>, symbol: usize) -> bool
        decreases bits.len(),
    {
        if bits.len() == 0 {
            false
        } else if bits.len() == 1 {
            self.step(at, bits[0]).1 == Some(symbol)
        } else {
            self.step(at, bits[0]).1 is None && self.decodes_from(
                self.step(at, bits[0]).0,
                bits.skip(1),
                symbol,
            )
        }
    }

    /// The bits decode to `symbol` when the traversal starts at the root.
    pub open spec fn decodes(self, bits: Seq<u8>, symbol: usize) -> bool {
        self.decodes_from(self.root, bits, symbol)
    }

    /// Builds the decode tree of the canonical prefix code with the given
    /// code lengths, one for each symbol; a length of zero marks a symbol
    /// that is not in use. The lengths are not checked to form a prefix code.
    ///
    /// The tree is rooted at the last node of the arena, the cursor starts
    /// at the root, and every node has one parent at most.
    pub fn from_lengths(code_lengths: &[u8]) -> (tree: Self)
        ensures
            tree.wf(),
            tree.leaves@ == leaves_of(code_lengths@, code_lengths@.len() as int),
            tree.nodes@ == arena_of(code_lengths@),
            tree.root == tree.nodes@.len() - 1,
            tree.current == tree.root,
            exclusive(tree.nodes@),
    {
        let codes = assign_codes(code_lengths);
        let mut nodes: Vec<Node> = Vec::new();
        let mut leaves: Vec<Node> = Vec::new();
        let mut nodes_left: Vec<usize> = Vec::new();
        let mut nodes_right: Vec<usize> = Vec::new();
        let mut symbol: usize = 0;
        while symbol < code_lengths.len()
            invariant
                symbol <= code_lengths@.len(),
                codes@.len() == code_lengths@.len(),
                forall|s: int|
                    0 <= s < code_lengths@.len() ==> codes@[s] == assigned_code(
                        code_lengths@,
                        s,
                    ),
                leaves@ == leaves_of(code_lengths@, symbol as int),
                nodes@ == leaves@,
                nodes_left@ == bucket_of(leaves@, false),
                nodes_right@ == bucket_of(leaves@, true),
                pending_in(nodes@, nodes_left@),
                pending_in(nodes@, nodes_right@),
                linked(nodes@),
            decreases code_lengths@.len() - symbol,
        {
            let ghost leaves_before = leaves@;
            match codes[symbol] {
                Some(code) => {
                    let node = Node {
                        value: Some(symbol),
                        significance: code as u64,
                        code: Code::from(code, code_lengths[symbol]),
                        left: None,
                        right: None,
                    };
                    assert(node == leaf_of(code_lengths@, symbol as int));
                    let at: usize = nodes.len();
                    leaves.push(node);
                    nodes.push(node);
                    assert(leaves@.drop_last() =~= leaves_before);
                    if bit_at(code, code_lengths[symbol] - 1) == 0 {
                        nodes_left.push(at);
                    } else {
                        nodes_right.push(at);
                    }
                },
                None => {},
            }
            symbol = symbol + 1;
        }
        let left = collect_from_heap(&mut nodes, &mut nodes_left);
        let right = collect_from_heap(&mut nodes, &mut nodes_right);
        let root = Node { value: None, significance: 0, code: Code::new(), left, right };
        let ghost below = nodes@;
        nodes.push(root);
        let root_at: usize = nodes.len() - 1;
        proof {
            assert forall|i: int| 0 <= i < nodes@.len() implies child_precedes(
                (#[trigger] nodes@[i]).left,
                i,
            ) && child_precedes(nodes@[i].right, i) by {
                if i < below.len() {
                    assert(nodes@[i] == below[i]);
                }
            }
        }
        proof {
            assert(nodes@ == arena_of(code_lengths@));
            lemma_arena_exclusive(code_lengths@);
        }
        Self { nodes, root: root_at, leaves, current: root_at }
    }

    /// Moves the cursor by one bit: left for `0`, right for anything else.
    ///
    /// Returns the decoded symbol when the move reaches a leaf; the cursor is
    /// then back at the root. Otherwise returns `None`: the cursor stands at
    /// the branch it reached, or has not moved where there was no child.
    pub fn walk(&mut self, direction: u8) -> (symbol: Option<usize>)
        requires
            old(self).wf(),
        ensures
            final(self).wf(),
            final(self).nodes == old(self).nodes,
            final(self).leaves == old(self).leaves,
            final(self).root == old(self).root,
            (final(self).current, symbol) == old(self).step(old(self).current, direction),
            symbol is Some ==> final(self).current == final(self).root,
            direction != 0 ==> old(self).step(old(self).current, direction) == old(self).step(
                old(self).current,
                1,
            ),
    {
        let here = self.nodes[self.current];
        let child = if direction == 0 {
            here.left
        } else {
            here.right
        };
        match child {
            Some(next) => {
                match self.nodes[next].value {
                    Some(value) => {
                        self.current = self.root;
                        Some(value)
                    },
                    None => {
                        self.current = next;
                        None
                    },
                }
            },
            None => None,
        }
    }
}

impl Default for Node {
    fn default() -> (node: Self)
        ensures
            node.value is None,
            node.significance == 0,
            node.code == (Code { buffer: 0, length: 0 }),
            node.left is None,
            node.right is None,
    {
        Node::new()
    }
}

} // verus!
