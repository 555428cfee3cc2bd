use merkle_tree::{Digest, MerkleTree, MerkleTreeError, MerkleTreeLeaf, MerkleTreeNode, NodeStore};

/// A digest whose first byte is `tag` and whose rest is zero.
fn d(tag: u8) -> Digest {
    let mut bytes = [0u8; 32];
    bytes[0] = tag;
    Digest::new(bytes)
}

fn leaf_descriptor(node: Digest, accumulated_count: u64) -> MerkleTreeLeaf {
    MerkleTreeLeaf { node, accumulated_count, log2_size: Some(0) }
}

/// A perfect height-two tree over four leaves: internal nodes over the leaf
/// pairs, and a root over the internal nodes.
fn height_two_tree() -> MerkleTree {
    let nodes = vec![
        MerkleTreeNode::leaf(d(1)),
        MerkleTreeNode::leaf(d(2)),
        MerkleTreeNode::leaf(d(3)),
        MerkleTreeNode::leaf(d(4)),
        MerkleTreeNode::internal(d(11), d(1), d(2)),
        MerkleTreeNode::internal(d(12), d(3), d(4)),
        MerkleTreeNode::internal(d(13), d(11), d(12)),
    ];
    let leafs = vec![
        leaf_descriptor(d(1), 1),
        leaf_descriptor(d(2), 2),
        leaf_descriptor(d(3), 3),
        leaf_descriptor(d(4), 4),
    ];
    MerkleTree::new(2, d(13), leafs, NodeStore::from_nodes(nodes))
}

/// A single-leaf tree: the root is itself the leaf, height zero.
fn minimal_tree() -> MerkleTree {
    let nodes = vec![MerkleTreeNode::leaf(d(7))];
    let leafs = vec![leaf_descriptor(d(7), 1)];
    MerkleTree::new(0, d(7), leafs, NodeStore::from_nodes(nodes))
}

#[test]
fn digest_equality_is_by_bytes() {
    assert!(d(1).equals(&d(1)));
    assert!(!d(1).equals(&d(2)));
    assert_eq!(Digest::zeroed(), Digest::new([0u8; 32]));
}

#[test]
fn root_hash_returns_the_root() {
    let t = height_two_tree();
    assert_eq!(t.root_hash(), d(13));
}

#[test]
fn node_children_reads_the_table() {
    let t = height_two_tree();
    assert_eq!(t.node_children(d(12)), Ok(Some((d(3), d(4)))));
    assert_eq!(t.node_children(d(2)), Ok(None));
    assert_eq!(t.node_children(d(99)), Err(MerkleTreeError::MissingNode));
}

#[test]
fn root_children_reads_the_root() {
    let t = height_two_tree();
    assert_eq!(t.root_children(), Ok((d(11), d(12))));
}

#[test]
fn root_children_fails_on_single_leaf_root() {
    let t = minimal_tree();
    assert_eq!(t.root_children(), Err(MerkleTreeError::NotInternal));
}

#[test]
fn prove_leaf_returns_the_sibling_path() {
    let t = height_two_tree();
    // Index 2 descends right then left; the path files the sibling of the
    // branch taken at each level, bottom-up: first the sibling leaf, then
    // the sibling sub-tree.
    assert_eq!(t.prove_leaf(2), Ok((d(3), vec![d(4), d(11)])));
}

#[test]
fn prove_leaf_leftmost() {
    let t = height_two_tree();
    assert_eq!(t.prove_leaf(0), Ok((d(1), vec![d(2), d(12)])));
}

#[test]
fn proof_length_equals_height() {
    let t = height_two_tree();
    for index in 0..4u64 {
        let (_, path) = t.prove_leaf(index).unwrap();
        assert_eq!(path.len(), 2);
    }
}

#[test]
fn proof_path_recombines_to_the_root() {
    // Walking up from the leaf, each level's ancestor lists the ancestor
    // below and the path entry as its two children, ordered by the index
    // bit: exactly what a verifier confirms when it merges the pair.
    let t = height_two_tree();
    for index in 0..4u64 {
        let (leaf, path) = t.prove_leaf(index).unwrap();
        let mut ancestor = leaf;
        for (k, sibling) in path.iter().enumerate() {
            let pair = if (index >> k) & 1 == 1 {
                (*sibling, ancestor)
            } else {
                (ancestor, *sibling)
            };
            let parent = if k + 1 == path.len() {
                t.root_hash()
            } else {
                // Find the ancestor one level up by descending from the
                // root along the high bits of the index.
                let (l, r) = t.root_children().unwrap();
                if (index >> 1) & 1 == 1 { r } else { l }
            };
            assert_eq!(t.node_children(parent).unwrap(), Some(pair));
            ancestor = parent;
        }
        assert_eq!(ancestor, t.root_hash());
    }
}

#[test]
fn prove_leaf_is_deterministic() {
    let t = height_two_tree();
    for index in 0..4u64 {
        assert_eq!(t.prove_leaf(index), t.prove_leaf(index));
    }
}

#[test]
fn last_collects_left_siblings_bottom_up() {
    let t = height_two_tree();
    assert_eq!(t.last(), Ok((d(4), vec![d(3), d(11)])));
}

#[test]
fn last_is_deterministic() {
    let t = height_two_tree();
    assert_eq!(t.last(), t.last());
}

#[test]
fn last_equals_the_maximal_index_proof() {
    let t = height_two_tree();
    assert_eq!(t.last().unwrap(), t.prove_leaf(3).unwrap());
}

#[test]
fn minimal_tree_proves_its_root() {
    let t = minimal_tree();
    assert_eq!(t.prove_leaf(0), Ok((d(7), vec![])));
}

#[test]
fn minimal_tree_last_returns_the_root() {
    let t = minimal_tree();
    assert_eq!(t.last(), Ok((d(7), vec![])));
    assert_eq!(t.last(), t.prove_leaf(0));
}

#[test]
fn one_past_the_range_is_rejected() {
    let t = height_two_tree();
    assert_eq!(t.prove_leaf(4), Err(MerkleTreeError::IndexOutOfRange));
    assert_eq!(t.prove_leaf(u64::MAX), Err(MerkleTreeError::IndexOutOfRange));
    let m = minimal_tree();
    assert_eq!(m.prove_leaf(1), Err(MerkleTreeError::IndexOutOfRange));
}

#[test]
fn missing_root_is_fatal() {
    let nodes = vec![MerkleTreeNode::leaf(d(1))];
    let leafs = vec![leaf_descriptor(d(9), 1)];
    let t = MerkleTree::new(0, d(9), leafs, NodeStore::from_nodes(nodes));
    assert_eq!(t.prove_leaf(0), Err(MerkleTreeError::MissingNode));
    assert_eq!(t.last(), Err(MerkleTreeError::MissingNode));
}

#[test]
fn height_shorter_than_declared_is_fatal() {
    // The first leaf declares one extra level, but the root is a leaf
    // terminal: the descent meets it one level too early.
    let nodes = vec![MerkleTreeNode::leaf(d(7))];
    let leafs = vec![leaf_descriptor(d(7), 1)];
    let t = MerkleTree::new(1, d(7), leafs, NodeStore::from_nodes(nodes));
    assert_eq!(t.prove_leaf(0), Err(MerkleTreeError::NotInternal));
}

#[test]
fn undeclared_granularity_defaults_to_full_width() {
    // With no leaf descriptors the height defaults to the full width of the
    // index type, so a two-level table runs out of children mid-descent.
    let nodes = vec![
        MerkleTreeNode::leaf(d(1)),
        MerkleTreeNode::leaf(d(2)),
        MerkleTreeNode::internal(d(11), d(1), d(2)),
    ];
    let t = MerkleTree::new(0, d(11), Vec::new(), NodeStore::from_nodes(nodes));
    assert_eq!(t.prove_leaf(0), Err(MerkleTreeError::NotInternal));
}

#[test]
fn last_never_looks_left_siblings_up() {
    // Only the rightmost spine is on file; the left siblings are referenced
    // by the internal nodes but absent from the table, and `last` still
    // reports them, never looking them up.
    let nodes = vec![
        MerkleTreeNode::internal(d(20), d(21), d(22)),
        MerkleTreeNode::internal(d(22), d(23), d(24)),
        MerkleTreeNode::leaf(d(24)),
    ];
    let t = MerkleTree::new(0, d(20), Vec::new(), NodeStore::from_nodes(nodes));
    assert_eq!(t.last(), Ok((d(24), vec![d(23), d(21)])));
}

#[test]
fn last_fails_on_a_missing_right_child() {
    let nodes = vec![MerkleTreeNode::internal(d(20), d(21), d(22))];
    let t = MerkleTree::new(0, d(20), Vec::new(), NodeStore::from_nodes(nodes));
    assert_eq!(t.last(), Err(MerkleTreeError::MissingNode));
}

#[test]
fn declared_granularity_extends_the_height() {
    // The first leaf declares a two-level sub-tree and the tree itself adds
    // none: the height is two, so indexes zero through three are addressable
    // on the same four-leaf shape.
    let nodes = vec![
        MerkleTreeNode::leaf(d(1)),
        MerkleTreeNode::leaf(d(2)),
        MerkleTreeNode::leaf(d(3)),
        MerkleTreeNode::leaf(d(4)),
        MerkleTreeNode::internal(d(11), d(1), d(2)),
        MerkleTreeNode::internal(d(12), d(3), d(4)),
        MerkleTreeNode::internal(d(13), d(11), d(12)),
    ];
    let leafs = vec![MerkleTreeLeaf { node: d(1), accumulated_count: 4, log2_size: Some(2) }];
    let t = MerkleTree::new(0, d(13), leafs, NodeStore::from_nodes(nodes));
    assert_eq!(t.prove_leaf(3), Ok((d(4), vec![d(3), d(11)])));
    assert_eq!(t.prove_leaf(4), Err(MerkleTreeError::IndexOutOfRange));
}
