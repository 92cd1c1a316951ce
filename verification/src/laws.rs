//! What holds of every decode tree, whatever code it was built from.

use vstd::prelude::*;
use crate::tree::PrefixTree;

verus! {

/// After a step that decodes a symbol the cursor is at the root: the next
/// step goes as it would from the root, whatever path led to the symbol.
pub proof fn lemma_cursor_reset(tree: PrefixTree, at: usize, bit: u8, next: u8)
    requires
        tree.step(at, bit).1 is Some,
    ensures
        tree.step(at, bit).0 == tree.root,
        tree.step(tree.step(at, bit).0, next) == tree.step(tree.root, next),
{
}

/// Any direction other than `0` is taken as `1`.
pub proof fn lemma_direction_normalized(tree: PrefixTree, at: usize, bit: u8)
    requires
        bit != 0,
    ensures
        tree.step(at, bit) == tree.step(at, 1),
{
}

/// Of two bit sequences that decode from the same cursor, one of which
/// starts with the other, both are the same sequence and decode to the same
/// symbol.
pub proof fn lemma_decodes_from_prefix(
    tree: PrefixTree,
    at: usize,
    short: Seq<u8>,
    long: Seq<u8>,
    s1: usize,
    s2: usize,
)
    requires
        tree.decodes_from(at, short, s1),
        tree.decodes_from(at, long, s2),
        short.len() <= long.len(),
        long.take(short.len() as int) == short,
    ensures
        short == long,
        s1 == s2,
    decreases short.len(),
{
    assert(short[0] == long.take(short.len() as int)[0]);
    if short.len() == 1 {
        assert(long.len() == 1);
        assert(short =~= long);
    } else {
        let next = tree.step(at, short[0]).0;
        assert(long.skip(1).take(short.len() - 1) =~= long.take(short.len() as int).skip(1));
        lemma_decodes_from_prefix(tree, next, short.skip(1), long.skip(1), s1, s2);
        assert(short =~= seq![short[0]] + short.skip(1));
        assert(long =~= seq![long[0]] + long.skip(1));
    }
}

/// The code that a tree decodes is prefix-free: no bit sequence that decodes
/// to one symbol is the start of a bit sequence that decodes to another.
pub proof fn lemma_prefix_free(
    tree: PrefixTree,
    bits1: Seq<u8>,
    bits2: Seq<u8>,
    s1: usize,
    s2: usize,
)
    requires
        tree.decodes(bits1, s1),
        tree.decodes(bits2, s2),
        s1 != s2,
    ensures
        !(bits1.len() <= bits2.len() && bits2.take(bits1.len() as int) == bits1),
        !(bits2.len() <= bits1.len() && bits1.take(bits2.len() as int) == bits2),
{
    if bits1.len() <= bits2.len() && bits2.take(bits1.len() as int) == bits1 {
        lemma_decodes_from_prefix(tree, tree.root, bits1, bits2, s1, s2);
    }
    if bits2.len() <= bits1.len() && bits1.take(bits2.len() as int) == bits2 {
        lemma_decodes_from_prefix(tree, tree.root, bits2, bits1, s2, s1);
    }
}

} // verus!
