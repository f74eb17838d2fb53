use bao_tree::iter::{
    BaoChunk, PostOrderChunkIter, PostOrderNodeIter, PreOrderChunkIter, PreOrderChunkIterRef,
    PreOrderNodeIter, PreOrderPartialIterRef, ResponseChunk, ResponseIterRef,
};
use bao_tree::ranges::ChunkRanges;
use bao_tree::tree::{BaoTree, BlockSize, ByteNum, ChunkNum, TreeNode};
use range_collections::RangeSet2;

fn tree(size: u64, log: u8) -> BaoTree {
    BaoTree::new(ByteNum(size), BlockSize::from_chunk_log(log))
}

fn n(level: u32, pos: u64) -> TreeNode {
    TreeNode::new(level, pos)
}

fn parent(node: TreeNode, is_root: bool, left: bool, right: bool) -> BaoChunk {
    BaoChunk::Parent { node, is_root, left, right, ranges: () }
}

fn leaf(start: u64, size: usize, is_root: bool) -> BaoChunk {
    BaoChunk::Leaf { start_chunk: ChunkNum(start), size, is_root, ranges: () }
}

fn post_order_nodes(t: BaoTree) -> Vec<TreeNode> {
    let mut it = PostOrderNodeIter::new(t);
    let mut res = Vec::new();
    while let Some(node) = it.next() {
        res.push(node);
    }
    res
}

fn pre_order_nodes(t: BaoTree) -> Vec<TreeNode> {
    let mut it = PreOrderNodeIter::new(t);
    let mut res = Vec::new();
    while let Some(node) = it.next() {
        res.push(node);
    }
    res
}

fn post_order_chunks(t: BaoTree) -> Vec<BaoChunk> {
    let mut it = PostOrderChunkIter::new(t);
    let mut res = Vec::new();
    while let Some(c) = it.next() {
        res.push(c);
    }
    res
}

fn pre_order_chunks(t: BaoTree, ranges: &RangeSet2<u64>, skip: u8) -> Vec<BaoChunk> {
    let mut it = PreOrderChunkIterRef::new(t, ranges, skip);
    let mut res = Vec::new();
    while let Some(c) = it.next() {
        res.push(c.map_ranges(|_| ()));
    }
    res
}

fn response_chunks(t: BaoTree, ranges: &RangeSet2<u64>) -> Vec<ResponseChunk> {
    let mut it = ResponseIterRef::new(t, ranges, 0);
    let mut res = Vec::new();
    while let Some(c) = it.next() {
        res.push(c);
    }
    res
}

#[test]
fn nodes_in_post_order() {
    assert_eq!(post_order_nodes(tree(0, 0)), vec![n(0, 0)]);
    assert_eq!(post_order_nodes(tree(2049, 0)), vec![n(0, 0), n(0, 1), n(1, 0)]);
    assert_eq!(
        post_order_nodes(tree(4097, 0)),
        vec![n(0, 0), n(0, 1), n(1, 0), n(0, 2), n(2, 0)]
    );
    assert_eq!(
        post_order_nodes(tree(7 * 1024, 0)),
        vec![n(0, 0), n(0, 1), n(1, 0), n(0, 2), n(0, 3), n(1, 1), n(2, 0)]
    );
}

#[test]
fn nodes_in_pre_order() {
    assert_eq!(pre_order_nodes(tree(0, 0)), vec![n(0, 0)]);
    assert_eq!(
        pre_order_nodes(tree(4097, 0)),
        vec![n(2, 0), n(1, 0), n(0, 0), n(0, 1), n(0, 2)]
    );
    assert_eq!(
        pre_order_nodes(tree(7 * 1024, 0)),
        vec![n(2, 0), n(1, 0), n(0, 0), n(0, 1), n(1, 1), n(0, 2), n(0, 3)]
    );
}

#[test]
fn traversals_visit_every_node_once() {
    for blocks in 1u64..70 {
        let t = tree(blocks * 1024 - 3, 0);
        let post = post_order_nodes(t);
        let pre = pre_order_nodes(t);
        assert_eq!(post.len() as u64, t.filled_size());
        assert_eq!(pre.len() as u64, t.filled_size());
        let mut a: Vec<u64> = post.iter().map(|x| x.in_order()).collect();
        let mut b: Vec<u64> = pre.iter().map(|x| x.in_order()).collect();
        a.sort();
        b.sort();
        let all: Vec<u64> = (0..t.filled_size()).collect();
        assert_eq!(a, all);
        assert_eq!(b, all);
    }
}

#[test]
fn chunks_in_post_order_with_half_leaf() {
    // 4097 bytes: five chunks, the fifth alone in the last leaf
    let chunks = post_order_chunks(tree(4097, 0));
    assert_eq!(
        chunks,
        vec![
            leaf(0, 1024, false),
            leaf(1, 1024, false),
            parent(n(0, 0), false, true, true),
            leaf(2, 1024, false),
            leaf(3, 1024, false),
            parent(n(0, 1), false, true, true),
            parent(n(1, 0), false, true, true),
            leaf(4, 1, false),
            parent(n(2, 0), true, true, true),
        ]
    );
    assert_eq!(chunks[0].size(), 1024);
    assert_eq!(chunks[2].size(), 64);
    assert_eq!(chunks[7].size(), 1);
}

#[test]
fn chunks_in_post_order_of_tiny_blobs() {
    assert_eq!(post_order_chunks(tree(0, 0)), vec![leaf(0, 0, true)]);
    assert_eq!(post_order_chunks(tree(1024, 0)), vec![leaf(0, 1024, true)]);
    assert_eq!(
        post_order_chunks(tree(1025, 0)),
        vec![leaf(0, 1024, false), leaf(1, 1, false), parent(n(0, 0), true, true, true)]
    );
    assert_eq!(post_order_chunks(tree(16384, 4)), vec![leaf(0, 16384, true)]);
}

#[test]
fn chunks_in_pre_order_for_all() {
    let all = RangeSet2::from(0u64..);
    assert_eq!(
        pre_order_chunks(tree(4097, 0), &all, 0),
        vec![
            parent(n(2, 0), true, true, true),
            parent(n(1, 0), false, true, true),
            parent(n(0, 0), false, true, true),
            leaf(0, 1024, false),
            leaf(1, 1024, false),
            parent(n(0, 1), false, true, true),
            leaf(2, 1024, false),
            leaf(3, 1024, false),
            leaf(4, 1, false),
        ]
    );
    assert_eq!(pre_order_chunks(tree(0, 0), &all, 0), vec![leaf(0, 0, true)]);
    assert_eq!(pre_order_chunks(tree(1, 0), &all, 0), vec![leaf(0, 1, true)]);
}

#[test]
fn chunks_in_pre_order_for_a_range() {
    let ranges = RangeSet2::from(3u64..4);
    assert_eq!(
        pre_order_chunks(tree(4097, 0), &ranges, 0),
        vec![
            parent(n(2, 0), true, true, false),
            parent(n(1, 0), false, false, true),
            parent(n(0, 1), false, false, true),
            leaf(3, 1024, false),
        ]
    );
    let ranges = RangeSet2::from(4u64..);
    assert_eq!(
        pre_order_chunks(tree(4097, 0), &ranges, 0),
        vec![parent(n(2, 0), true, false, true), leaf(4, 1, false)]
    );
    let none: RangeSet2<u64> = RangeSet2::empty();
    assert_eq!(pre_order_chunks(tree(4097, 0), &none, 0), vec![]);
}

#[test]
fn chunks_in_pre_order_with_skip_level() {
    let all = RangeSet2::from(0u64..);
    // with a skip level of 1 the traversal stops at the left child of the root
    assert_eq!(
        pre_order_chunks(tree(4097, 0), &all, 1),
        vec![parent(n(2, 0), true, true, true), leaf(0, 4096, false), leaf(4, 1, false)]
    );
    assert_eq!(pre_order_chunks(tree(4097, 0), &all, 2), vec![leaf(0, 4097, true)]);
}

#[test]
fn partial_nodes_know_their_ranges() {
    let ranges = RangeSet2::from(1u64..3);
    let mut it = PreOrderPartialIterRef::new(tree(4097, 0), &ranges, 0);
    assert_eq!(*it.tree(), tree(4097, 0));
    let root = it.next().unwrap();
    assert_eq!(root.node, n(2, 0));
    assert!(root.is_root);
    assert!(!root.full);
    assert!(!root.query_leaf);
    assert!(!root.is_half_leaf);
    assert_eq!(root.ranges.boundaries(), &[1, 3]);
    assert_eq!(root.l_ranges.boundaries(), &[1, 3]);
    assert!(root.r_ranges.is_empty());
    let next = it.next().unwrap();
    assert_eq!(next.node, n(1, 0));
    assert!(!next.is_root);
    assert_eq!(next.l_ranges.boundaries(), &[1]);
    assert_eq!(next.r_ranges.boundaries(), &[1, 3]);
    let next = it.next().unwrap();
    assert_eq!(next.node, n(0, 0));
    assert!(next.query_leaf);
    assert!(next.l_ranges.is_empty());
    assert_eq!(next.r_ranges.boundaries(), &[1]);
    let next = it.next().unwrap();
    assert_eq!(next.node, n(0, 1));
    assert_eq!(next.ranges.boundaries(), &[1, 3]);
    assert_eq!(next.l_ranges.boundaries(), &[1]);
    assert!(next.r_ranges.is_empty());
    assert!(it.next().is_none());
    assert!(it.next().is_none());
}

#[test]
fn owning_traversal_is_the_borrowing_one() {
    let ranges = RangeSet2::from(2u64..7);
    let t = tree(9000, 1);
    let expected = pre_order_chunks(t, &ranges, 0);
    let mut it = PreOrderChunkIter::new(t, ChunkRanges::from_range(ChunkNum(2), ChunkNum(7)));
    assert_eq!(*it.tree(), t);
    let mut res = Vec::new();
    while let Some(c) = it.next() {
        res.push(c);
    }
    assert_eq!(res, expected);
    assert!(!expected.is_empty());
}

#[test]
fn response_for_whole_blocks() {
    let all = RangeSet2::from(0u64..);
    let t = tree(80 * 1024, 4);
    let chunks = response_chunks(t, &all);
    assert_eq!(
        chunks,
        vec![
            ResponseChunk::Parent { node: Some(n(2, 0)), is_root: true, left: true, right: true },
            ResponseChunk::Parent { node: Some(n(1, 0)), is_root: false, left: true, right: true },
            ResponseChunk::Parent { node: Some(n(0, 0)), is_root: false, left: true, right: true },
            ResponseChunk::Leaf { start_chunk: ChunkNum(0), size: 16384, is_root: false },
            ResponseChunk::Leaf { start_chunk: ChunkNum(16), size: 16384, is_root: false },
            ResponseChunk::Parent { node: Some(n(0, 1)), is_root: false, left: true, right: true },
            ResponseChunk::Leaf { start_chunk: ChunkNum(32), size: 16384, is_root: false },
            ResponseChunk::Leaf { start_chunk: ChunkNum(48), size: 16384, is_root: false },
            ResponseChunk::Leaf { start_chunk: ChunkNum(64), size: 16384, is_root: false },
        ]
    );
}

#[test]
fn response_drills_into_a_block() {
    // chunks 3 and 4 of the first block of 16 chunks
    let ranges = RangeSet2::from(3u64..5);
    let t = tree(80 * 1024, 4);
    let chunks = response_chunks(t, &ranges);
    let inner = |left: bool, right: bool| ResponseChunk::Parent {
        node: None,
        is_root: false,
        left,
        right,
    };
    assert_eq!(
        chunks,
        vec![
            ResponseChunk::Parent { node: Some(n(2, 0)), is_root: true, left: true, right: false },
            ResponseChunk::Parent { node: Some(n(1, 0)), is_root: false, left: true, right: false },
            ResponseChunk::Parent { node: Some(n(0, 0)), is_root: false, left: true, right: false },
            // the tree of the 16 chunks of the block: chunks 0..16, 0..8, 0..4, 2..4
            inner(true, false),
            inner(true, true),
            inner(false, true),
            inner(false, true),
            ResponseChunk::Leaf { start_chunk: ChunkNum(3), size: 1024, is_root: false },
            // chunks 4..8, 4..6
            inner(true, false),
            inner(true, false),
            ResponseChunk::Leaf { start_chunk: ChunkNum(4), size: 1024, is_root: false },
        ]
    );
}

#[test]
fn response_drills_into_a_later_block() {
    // chunk 35 lies in the third block, which starts at chunk 32
    let ranges = RangeSet2::from(35u64..36);
    let t = tree(80 * 1024, 4);
    let chunks = response_chunks(t, &ranges);
    let leaves: Vec<ResponseChunk> = chunks
        .iter()
        .filter(|c| matches!(c, ResponseChunk::Leaf { .. }))
        .cloned()
        .collect();
    assert_eq!(
        leaves,
        vec![ResponseChunk::Leaf { start_chunk: ChunkNum(35), size: 1024, is_root: false }]
    );
    // three nodes of the tree of blocks, four levels within the block, and the chunk
    assert_eq!(chunks.len(), 3 + 4 + 1);
}

#[test]
fn default_and_empty_chunk() {
    let c: BaoChunk = BaoChunk::default();
    assert_eq!(c, leaf(0, 0, true));
    let e: BaoChunk = BaoChunk::empty(());
    assert_eq!(e, leaf(0, 0, false));
    let mapped = parent(n(1, 0), true, false, true).map_ranges(|_| 7u8);
    assert_eq!(
        mapped,
        BaoChunk::Parent { node: n(1, 0), is_root: true, left: false, right: true, ranges: 7u8 }
    );
}

#[test]
fn data_comes_in_the_order_of_the_blob() {
    for log in 0u8..3 {
        for size in [0u64, 1, 1024, 1025, 4097, 10_000, 70_000] {
            let chunks = (size + 1023) / 1024;
            for (start, end) in [(0u64, 1u64), (1, 3), (2, 9), (5, 6), (0, 100)] {
                let mut ranges = RangeSet2::from(start..end);
                ranges |= RangeSet2::from(end + 2..end + 4);
                let mut next = 0u64;
                for c in pre_order_chunks(tree(size, log), &ranges, 0) {
                    if let BaoChunk::Leaf { start_chunk, size: len, .. } = c {
                        assert!(next <= start_chunk.0);
                        next = start_chunk.0 + (len as u64 + 1023) / 1024;
                        assert!(next <= chunks);
                    }
                }
            }
        }
    }
}
