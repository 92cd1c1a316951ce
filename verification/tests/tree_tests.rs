use prefix_code::canonical::assign_codes;
use prefix_code::code::Code;
use prefix_code::fixed::FIXED_CODE_LENGTHS;
use prefix_code::tree::{collect_from_heap, pop_greatest, Node, PrefixTree};

fn leaf(symbol: usize, buffer: u32, length: u8) -> Node {
    Node {
        value: Some(symbol),
        significance: buffer as u64,
        code: Code::from(buffer, length),
        left: None,
        right: None,
    }
}

fn feed(tree: &mut PrefixTree, bits: u32, count: u8) -> Vec<Option<usize>> {
    let mut out = Vec::new();
    for k in (0..count).rev() {
        out.push(tree.walk(((bits >> k) & 1) as u8));
    }
    out
}

#[test]
fn test_prefix() {
    let code_lengths = [3, 3, 3, 3, 3, 2, 4, 4];

    let mut prefix_tree = PrefixTree::from_lengths(&code_lengths);

    let bits: u32 = 0b0100111001011100011101111;

    let mut results = Vec::new();

    for k in (0..25).rev() {
        let bit = ((bits >> k) & 1) as u8;
        if let Some(v) = prefix_tree.walk(bit) {
            results.push(v);
        }
    }

    assert_eq!(results, vec![0, 1, 2, 3, 4, 5, 6, 7])
}

#[test]
fn node_new_is_an_empty_branch() {
    for node in [Node::new(), Node::default()] {
        assert_eq!(node.value, None);
        assert_eq!(node.significance, 0);
        assert_eq!(node.code.buffer, 0);
        assert_eq!(node.code.length, 0);
        assert_eq!(node.left, None);
        assert_eq!(node.right, None);
    }
}

#[test]
fn leaves_are_in_symbol_order() {
    let tree = PrefixTree::from_lengths(&[3, 3, 0, 3, 3, 3, 2, 4, 4]);
    let symbols: Vec<Option<usize>> = tree.leaves.iter().map(|n| n.value).collect();
    assert_eq!(
        symbols,
        vec![Some(0), Some(1), Some(3), Some(4), Some(5), Some(6), Some(7), Some(8)]
    );
    let codes: Vec<(u32, u8)> = tree.leaves.iter().map(|n| (n.code.buffer, n.code.length)).collect();
    assert_eq!(
        codes,
        vec![(2, 3), (3, 3), (4, 3), (5, 3), (6, 3), (0, 2), (14, 4), (15, 4)]
    );
    for n in tree.leaves.iter() {
        assert_eq!(n.significance, n.code.buffer as u64);
        assert_eq!(n.left, None);
        assert_eq!(n.right, None);
    }
}

#[test]
fn tree_shape_of_three_symbols() {
    let tree = PrefixTree::from_lengths(&[1, 2, 2]);
    assert_eq!(tree.nodes.len(), 5);
    assert_eq!(tree.root, 4);
    assert_eq!(tree.current, 4);
    let root = tree.nodes[tree.root];
    assert_eq!(root.value, None);
    assert_eq!(root.significance, 0);
    assert_eq!(root.code.length, 0);
    assert_eq!(root.left, Some(0));
    assert_eq!(root.right, Some(3));
    let branch = tree.nodes[3];
    assert_eq!(branch.value, None);
    assert_eq!(branch.significance, 1);
    assert_eq!(branch.code.buffer, 1);
    assert_eq!(branch.code.length, 1);
    assert_eq!(branch.left, Some(1));
    assert_eq!(branch.right, Some(2));
}

#[test]
fn round_trip_small_table() {
    let lengths = [3u8, 3, 3, 3, 3, 2, 4, 4];
    let codes = assign_codes(&lengths);
    let mut tree = PrefixTree::from_lengths(&lengths);
    for symbol in 0..lengths.len() {
        let out = feed(&mut tree, codes[symbol].unwrap(), lengths[symbol]);
        let last = out.len() - 1;
        for early in &out[..last] {
            assert_eq!(*early, None);
        }
        assert_eq!(out[last], Some(symbol));
        assert_eq!(tree.current, tree.root);
    }
}

#[test]
fn round_trip_complete_tables() {
    let tables: [&[u8]; 5] = [
        &[1, 1],
        &[2, 2, 2, 2],
        &[1, 2, 3, 3],
        &[2, 2, 3, 3, 3, 3],
        &[1, 2, 0, 3, 0, 4, 4],
    ];
    for lengths in tables {
        let codes = assign_codes(lengths);
        let mut tree = PrefixTree::from_lengths(lengths);
        for symbol in 0..lengths.len() {
            if lengths[symbol] == 0 {
                continue;
            }
            let out = feed(&mut tree, codes[symbol].unwrap(), lengths[symbol]);
            let last = out.len() - 1;
            for early in &out[..last] {
                assert_eq!(*early, None);
            }
            assert_eq!(out[last], Some(symbol));
            assert_eq!(tree.current, tree.root);
        }
    }
}

#[test]
fn fixed_table_leaves() {
    let tree = PrefixTree::from_lengths(&FIXED_CODE_LENGTHS);
    assert_eq!(tree.leaves.len(), 288);
    assert_eq!(tree.nodes.len(), 288 + 286 + 1);
    assert_eq!(tree.root, tree.nodes.len() - 1);
    assert_eq!(tree.leaves[256].value, Some(256));
    assert_eq!(tree.leaves[256].code.buffer, 0);
    assert_eq!(tree.leaves[256].code.length, 7);
    assert_eq!(tree.leaves[287].code.buffer, 0b1100_0111);
}

#[test]
fn no_code_is_a_prefix_of_another() {
    let lengths = [3u8, 3, 3, 3, 3, 2, 4, 4];
    let codes = assign_codes(&lengths);
    let mut tree = PrefixTree::from_lengths(&lengths);
    for s1 in 0..lengths.len() {
        for s2 in 0..lengths.len() {
            if s1 == s2 || lengths[s1] > lengths[s2] {
                continue;
            }
            let head = codes[s2].unwrap() >> (lengths[s2] - lengths[s1]);
            assert_ne!(head, codes[s1].unwrap());
            tree.current = tree.root;
            let out = feed(&mut tree, codes[s2].unwrap(), lengths[s2]);
            assert_eq!(out[out.len() - 1], Some(s2));
            assert!(!out.contains(&Some(s1)));
        }
    }
}

#[test]
fn cursor_returns_to_root_after_a_symbol() {
    let mut tree = PrefixTree::from_lengths(&[3, 3, 3, 3, 3, 2, 4, 4]);
    assert_eq!(tree.walk(1), None);
    assert_ne!(tree.current, tree.root);
    assert_eq!(tree.walk(1), None);
    assert_eq!(tree.walk(1), None);
    assert_eq!(tree.walk(0), Some(6));
    assert_eq!(tree.current, tree.root);
    assert_eq!(tree.walk(0), None);
    assert_eq!(tree.walk(0), Some(5));
    assert_eq!(tree.current, tree.root);
}

#[test]
fn walk_normalizes_non_binary_directions() {
    for bit in [2u8, 9, 255] {
        let mut odd = PrefixTree::from_lengths(&[1, 2, 2]);
        let mut one = PrefixTree::from_lengths(&[1, 2, 2]);
        assert_eq!(odd.walk(bit), one.walk(1));
        assert_eq!(odd.current, one.current);
        assert_eq!(odd.walk(bit), one.walk(1));
        assert_eq!(odd.current, one.current);
        assert_eq!(odd.current, odd.root);
    }
    let mut tree = PrefixTree::from_lengths(&[1, 2, 2]);
    assert_eq!(tree.walk(7), None);
    assert_eq!(tree.walk(7), Some(2));
}

#[test]
fn walk_leaves_tree_and_leaves_untouched() {
    let mut tree = PrefixTree::from_lengths(&[1, 2, 2]);
    let nodes: Vec<(Option<usize>, Option<usize>, Option<usize>)> =
        tree.nodes.iter().map(|n| (n.value, n.left, n.right)).collect();
    tree.walk(1);
    tree.walk(0);
    tree.walk(0);
    let after: Vec<(Option<usize>, Option<usize>, Option<usize>)> =
        tree.nodes.iter().map(|n| (n.value, n.left, n.right)).collect();
    assert_eq!(nodes, after);
    assert_eq!(tree.leaves.len(), 3);
    assert_eq!(tree.root, 4);
}

#[test]
fn missing_child_parks_the_cursor() {
    let mut tree = PrefixTree::from_lengths(&[1]);
    assert_eq!(tree.nodes.len(), 2);
    assert_eq!(tree.nodes[tree.root].left, Some(0));
    assert_eq!(tree.nodes[tree.root].right, None);
    assert_eq!(tree.walk(1), None);
    assert_eq!(tree.current, tree.root);
    assert_eq!(tree.walk(0), Some(0));
    assert_eq!(tree.current, tree.root);
}

#[test]
fn empty_table_gives_a_bare_root() {
    let mut tree = PrefixTree::from_lengths(&[]);
    assert_eq!(tree.nodes.len(), 1);
    assert_eq!(tree.leaves.len(), 0);
    assert_eq!(tree.nodes[0].left, None);
    assert_eq!(tree.nodes[0].right, None);
    assert_eq!(tree.walk(0), None);
    assert_eq!(tree.walk(1), None);
    assert_eq!(tree.current, 0);
    let mut unused = PrefixTree::from_lengths(&[0, 0, 0]);
    assert_eq!(unused.nodes.len(), 1);
    assert_eq!(unused.walk(0), None);
}

#[test]
fn pop_greatest_takes_the_greatest_and_keeps_order() {
    let nodes = vec![leaf(0, 4, 3), leaf(1, 6, 3), leaf(2, 5, 3), leaf(3, 6, 3)];
    let mut pending = vec![0usize, 1, 2, 3];
    assert_eq!(pop_greatest(&nodes, &mut pending), 1);
    assert_eq!(pending, vec![0, 2, 3]);
    assert_eq!(pop_greatest(&nodes, &mut pending), 3);
    assert_eq!(pending, vec![0, 2]);
    assert_eq!(pop_greatest(&nodes, &mut pending), 2);
    assert_eq!(pop_greatest(&nodes, &mut pending), 0);
    assert!(pending.is_empty());
}

#[test]
fn collect_from_heap_merges_greatest_first() {
    let mut nodes = vec![
        leaf(0, 0b100, 3),
        leaf(1, 0b101, 3),
        leaf(2, 0b110, 3),
        leaf(3, 0b1110, 4),
        leaf(4, 0b1111, 4),
    ];
    let mut heap = vec![0usize, 1, 2, 3, 4];
    let top = collect_from_heap(&mut nodes, &mut heap);
    assert_eq!(top, Some(8));
    assert!(heap.is_empty());
    assert_eq!(nodes.len(), 9);
    let shape: Vec<(u64, u32, u8, Option<usize>, Option<usize>)> = nodes[5..]
        .iter()
        .map(|n| (n.significance, n.code.buffer, n.code.length, n.left, n.right))
        .collect();
    assert_eq!(
        shape,
        vec![
            (7, 7, 3, Some(3), Some(4)),
            (3, 3, 2, Some(2), Some(5)),
            (2, 2, 2, Some(0), Some(1)),
            (1, 1, 1, Some(7), Some(6)),
        ]
    );
    for n in &nodes[5..] {
        assert_eq!(n.value, None);
    }
}

#[test]
fn collect_from_heap_edge_cases() {
    let mut nodes: Vec<Node> = Vec::new();
    let mut heap: Vec<usize> = Vec::new();
    assert_eq!(collect_from_heap(&mut nodes, &mut heap), None);
    assert!(nodes.is_empty());

    let mut nodes = vec![leaf(0, 0, 1)];
    let mut heap = vec![0usize];
    assert_eq!(collect_from_heap(&mut nodes, &mut heap), Some(0));
    assert_eq!(nodes.len(), 1);
    assert!(heap.is_empty());

    let mut nodes = vec![leaf(0, 1, 0), leaf(1, 0, 0)];
    let mut heap = vec![0usize, 1];
    assert_eq!(collect_from_heap(&mut nodes, &mut heap), Some(2));
    assert_eq!(nodes[2].code.length, 0);
    assert_eq!(nodes[2].code.buffer, 0);
    assert_eq!(nodes[2].left, Some(1));
    assert_eq!(nodes[2].right, Some(0));
}

#[test]
fn nodes_compare_by_significance_only() {
    let small = leaf(7, 2, 3);
    let large = leaf(1, 5, 4);
    let mut twin = leaf(3, 5, 9);
    twin.left = Some(0);
    assert!(small < large);
    assert!(large > small);
    assert!(large == twin);
    assert!(small != large);
    assert_eq!(large.partial_cmp(&twin), Some(std::cmp::Ordering::Equal));
    assert_eq!(small.partial_cmp(&large), Some(std::cmp::Ordering::Less));
    assert_eq!(large.partial_cmp(&small), Some(std::cmp::Ordering::Greater));
}

#[test]
fn every_node_has_one_parent_at_most() {
    let tables: [&[u8]; 4] = [
        &[3, 3, 3, 3, 3, 2, 4, 4],
        &[1, 2, 2],
        &[3, 3, 3, 3, 3, 3, 3, 3],
        &FIXED_CODE_LENGTHS,
    ];
    for lengths in tables {
        let tree = PrefixTree::from_lengths(lengths);
        let mut parents = vec![0usize; tree.nodes.len()];
        for (at, node) in tree.nodes.iter().enumerate() {
            for child in [node.left, node.right].into_iter().flatten() {
                assert!(child < at);
                parents[child] += 1;
            }
        }
        assert_eq!(parents[tree.root], 0);
        for count in &parents[..tree.root] {
            assert_eq!(*count, 1);
        }
        assert_eq!(&tree.nodes[..tree.leaves.len()].len(), &tree.leaves.len());
        for (leaf, node) in tree.leaves.iter().zip(tree.nodes.iter()) {
            assert_eq!(leaf.value, node.value);
            assert_eq!(leaf.code.buffer, node.code.buffer);
            assert_eq!(leaf.code.length, node.code.length);
        }
    }
}
