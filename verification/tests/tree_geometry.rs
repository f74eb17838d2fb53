use bao_tree::tree::{BaoTree, BlockSize, ByteNum, ChunkNum, TreeNode};

fn tree(size: u64, log: u8) -> BaoTree {
    BaoTree::new(ByteNum(size), BlockSize::from_chunk_log(log))
}

#[test]
fn block_size_bytes() {
    assert_eq!(BlockSize::from_chunk_log(0).bytes(), 1024);
    assert_eq!(BlockSize::from_chunk_log(4).bytes(), 16384);
    assert_eq!(BlockSize::from_chunk_log(4).chunk_log(), 4);
    assert_eq!(BlockSize::from_chunk_log(21).bytes(), 1 << 31);
    assert_eq!(BlockSize::zero(), BlockSize::from_chunk_log(0));
    assert_eq!(BlockSize::from_chunk_log(7).to_u32(), 7);
}

#[test]
fn block_size_from_bytes() {
    assert_eq!(BlockSize::from_bytes(1024), Some(BlockSize::from_chunk_log(0)));
    assert_eq!(BlockSize::from_bytes(16384), Some(BlockSize::from_chunk_log(4)));
    assert_eq!(BlockSize::from_bytes(1 << 63), Some(BlockSize::from_chunk_log(53)));
    assert_eq!(BlockSize::from_bytes(0), None);
    assert_eq!(BlockSize::from_bytes(512), None);
    assert_eq!(BlockSize::from_bytes(1025), None);
    assert_eq!(BlockSize::from_bytes(3072), None);
    assert_eq!(BlockSize::from_bytes(u64::MAX), None);
}

#[test]
fn byte_and_chunk_numbers() {
    assert_eq!(ByteNum(0).chunks(), ChunkNum(0));
    assert_eq!(ByteNum(1).chunks(), ChunkNum(1));
    assert_eq!(ByteNum(1024).chunks(), ChunkNum(1));
    assert_eq!(ByteNum(1025).chunks(), ChunkNum(2));
    assert_eq!(ByteNum(u64::MAX).chunks(), ChunkNum(1 << 54));
    assert_eq!(ByteNum(2047).full_chunks(), ChunkNum(1));
    assert_eq!(ChunkNum(3).to_bytes(), ByteNum(3072));
    assert_eq!(ByteNum(77).to_usize(), 77);
}

#[test]
fn counts_of_small_trees() {
    let t = tree(0, 0);
    assert_eq!((t.chunks().0, t.blocks(), t.filled_size()), (0, 1, 1));
    assert_eq!(t.root(), TreeNode::new(0, 0));
    let t = tree(1, 0);
    assert_eq!((t.chunks().0, t.blocks(), t.filled_size()), (1, 1, 1));
    let t = tree(2048, 0);
    assert_eq!((t.chunks().0, t.blocks(), t.filled_size()), (2, 2, 1));
    assert_eq!(t.root(), TreeNode::new(0, 0));
    let t = tree(2049, 0);
    assert_eq!((t.chunks().0, t.blocks(), t.filled_size()), (3, 3, 3));
    assert_eq!(t.root(), TreeNode::new(1, 0));
    let t = tree(4097, 0);
    assert_eq!((t.chunks().0, t.blocks(), t.filled_size()), (5, 5, 5));
    assert_eq!(t.root(), TreeNode::new(2, 0));
    let t = tree(80 * 1024, 4);
    assert_eq!((t.chunks().0, t.blocks(), t.filled_size()), (80, 5, 5));
    assert_eq!(t.chunk_group_chunks(), ChunkNum(16));
    assert_eq!(t.chunk_group_bytes(), ByteNum(16384));
    assert_eq!(t.outboard_hash_pairs(), 4);
    assert_eq!(BaoTree::outboard_size(ByteNum(80 * 1024), BlockSize::from_chunk_log(4)), 8 + 4 * 64);
    assert_eq!(t.size(), ByteNum(80 * 1024));
    assert_eq!(t.block_size(), BlockSize::from_chunk_log(4));
}

#[test]
fn node_numbers_and_ranges() {
    let leaf = TreeNode::new(0, 3);
    assert!(leaf.is_leaf());
    assert_eq!(leaf.level(), 0);
    assert_eq!(leaf.in_order(), 6);
    assert_eq!(leaf.block_range(), (6, 8));
    assert_eq!(leaf.mid(), 7);
    assert_eq!(leaf.half_span(), 1);
    assert_eq!(leaf.left_child(), None);
    assert_eq!(leaf.right_child(), None);
    assert_eq!(leaf.parent(), Some(TreeNode::new(1, 1)));
    assert!(!leaf.is_left_child());
    let node = TreeNode::new(2, 1);
    assert_eq!(node.in_order(), 11);
    assert_eq!((node.start(), node.mid(), node.end()), (8, 12, 16));
    assert_eq!(node.left_child(), Some(TreeNode::new(1, 2)));
    assert_eq!(node.right_child(), Some(TreeNode::new(1, 3)));
    assert_eq!(node.parent(), Some(TreeNode::new(3, 0)));
    assert_eq!(TreeNode::new(62, 0).parent(), None);
}

#[test]
fn children_within_a_tree() {
    // five blocks: three leaves, numbered 0, 2 and 4 in order
    let t = tree(4097, 0);
    let len = t.filled_size();
    let root = t.root();
    assert_eq!(root.left_child(), Some(TreeNode::new(1, 0)));
    assert_eq!(root.right_descendant(len), Some(TreeNode::new(0, 2)));
    assert_eq!(TreeNode::new(0, 2).restricted_parent(len), Some(root));
    assert_eq!(TreeNode::new(0, 1).restricted_parent(len), Some(TreeNode::new(1, 0)));
    assert_eq!(root.restricted_parent(len), None);
    assert_eq!(TreeNode::new(0, 0).right_descendant(len), None);
    assert!(t.contains_node(TreeNode::new(0, 2)));
    assert!(!t.contains_node(TreeNode::new(0, 3)));
    assert!(!t.contains_node(TreeNode::new(1, 1)));
    assert!(!t.contains_node(TreeNode::new(63, 0)));
}

#[test]
fn persisted_nodes_and_half_leaf() {
    let t = tree(4097, 0);
    assert!(t.is_persisted(TreeNode::new(0, 0)));
    assert!(t.is_persisted(TreeNode::new(0, 1)));
    assert!(!t.is_persisted(TreeNode::new(0, 2)));
    assert!(t.is_persisted(TreeNode::new(1, 0)));
    assert!(t.is_persisted(TreeNode::new(2, 0)));
    assert!(!t.is_persisted(TreeNode::new(1, 1)));
    // two blocks, the second one partial: the only leaf has a hash pair
    let t = tree(1500, 0);
    assert!(t.is_persisted(TreeNode::new(0, 0)));
    // one block: the only leaf has none
    let t = tree(1024, 0);
    assert!(!t.is_persisted(TreeNode::new(0, 0)));
}

#[test]
fn byte_ranges_of_leaves() {
    let t = tree(4097, 0);
    assert_eq!(
        t.leaf_byte_ranges3(TreeNode::new(0, 0)),
        (ByteNum(0), ByteNum(1024), ByteNum(2048))
    );
    assert_eq!(
        t.leaf_byte_ranges3(TreeNode::new(0, 2)),
        (ByteNum(4096), ByteNum(4097), ByteNum(4097))
    );
    assert_eq!(t.byte_range(t.root()), (ByteNum(0), ByteNum(4097)));
    assert_eq!(t.byte_range(TreeNode::new(1, 0)), (ByteNum(0), ByteNum(4096)));
    assert_eq!(t.chunk_num(TreeNode::new(0, 1)), ChunkNum(2));
    assert_eq!(t.block_chunk(5), ChunkNum(5));
    assert_eq!(t.block_byte(9), ByteNum(4097));
    let t = tree(80 * 1024, 4);
    assert_eq!(
        t.leaf_byte_ranges3(TreeNode::new(0, 2)),
        (ByteNum(65536), ByteNum(81920), ByteNum(81920))
    );
    assert_eq!(t.chunk_num(TreeNode::new(0, 1)), ChunkNum(32));
    let t = BaoTree::new_with_start_chunk(ByteNum(2048), BlockSize::zero(), ChunkNum(16));
    assert_eq!(
        t.leaf_byte_ranges3(TreeNode::new(0, 0)),
        (ByteNum(16384), ByteNum(17408), ByteNum(18432))
    );
    assert_eq!(t.chunk_num(TreeNode::new(0, 0)), ChunkNum(16));
}

#[test]
fn outboard_offsets() {
    let t = tree(4097, 0);
    // pre-order: root, its left child, the two leaves under that
    assert_eq!(t.pre_order_offset(TreeNode::new(2, 0)), Some(0));
    assert_eq!(t.pre_order_offset(TreeNode::new(1, 0)), Some(1));
    assert_eq!(t.pre_order_offset(TreeNode::new(0, 0)), Some(2));
    assert_eq!(t.pre_order_offset(TreeNode::new(0, 1)), Some(3));
    assert_eq!(t.pre_order_offset(TreeNode::new(0, 2)), None);
    // post-order: the two leaves, their parent, the root
    assert_eq!(t.post_order_offset(TreeNode::new(0, 0)), Some(0));
    assert_eq!(t.post_order_offset(TreeNode::new(0, 1)), Some(1));
    assert_eq!(t.post_order_offset(TreeNode::new(1, 0)), Some(2));
    assert_eq!(t.post_order_offset(TreeNode::new(2, 0)), Some(3));
    assert_eq!(t.post_order_offset(TreeNode::new(0, 2)), None);
    assert_eq!(t.post_order_offset(TreeNode::new(5, 9)), None);
}

#[test]
fn outboard_offsets_are_a_numbering() {
    for blocks in 1u64..40 {
        let t = tree(blocks * 1024, 0);
        let pairs = t.outboard_hash_pairs() as usize;
        let mut pre = vec![false; pairs];
        let mut post = vec![false; pairs];
        let mut count = 0;
        for level in 0u32..8 {
            for pos in 0u64..64 {
                let node = TreeNode::new(level, pos);
                assert_eq!(t.pre_order_offset(node).is_some(), t.is_persisted(node));
                assert_eq!(t.post_order_offset(node).is_some(), t.is_persisted(node));
                if let Some(o) = t.pre_order_offset(node) {
                    assert!(!pre[o as usize]);
                    pre[o as usize] = true;
                    count += 1;
                }
                if let Some(o) = t.post_order_offset(node) {
                    assert!(!post[o as usize]);
                    post[o as usize] = true;
                }
            }
        }
        assert_eq!(count, pairs);
    }
}
