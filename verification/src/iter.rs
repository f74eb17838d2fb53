//! Traversals of the hash tree.
//!
//! A traversal is a value with a `next` method. Its view is the sequence of
//! the items that it has still to hand out; `next` hands out the first of
//! them.
use vstd::prelude::*;
use range_collections::RangeSetRef;
use crate::ranges::{
    boundaries, is_all, is_all_spec, is_empty, range_boundaries, split, split_left, split_right,
    ChunkRanges,
};
use crate::stack::{ChunkBuffer, NodeStack};
use crate::tree::{
    lemma_block_byte, lemma_block_chunk_bound, lemma_children_contained, lemma_children_wf,
    lemma_contains_bounds, lemma_left_child_parent, lemma_node_bounds, lemma_restricted_parent,
    lemma_right_descendant_parent, lemma_root_covers, lemma_root_has_no_parent, lemma_tree_bounds,
    BaoTree, BlockSize, ByteNum, ChunkNum, TreeNode,
};

verus! {

/// A directive of a response stream: what to expect next.
#[derive(Debug, Clone, Copy, PartialEq, Eq, Structural)]
pub enum ResponseChunk {
    /// Expect a hash pair of 64 bytes.
    Parent {
        /// The node of the pair, where it is a node of the tree of blocks.
        node: Option<TreeNode>,
        /// True if the pair is hashed as a root.
        is_root: bool,
        /// True if the left hash is needed for what follows.
        left: bool,
        /// True if the right hash is needed for what follows.
        right: bool,
    },
    /// Expect `size` bytes of data.
    Leaf {
        /// The number of the first chunk of the data.
        start_chunk: ChunkNum,
        /// The number of bytes of data.
        size: usize,
        /// True if the data is hashed as a root.
        is_root: bool,
    },
}

/// A directive of a traversal: what to read or write next. `R` is what is
/// known of the part of the query that reaches the directive.
#[derive(Debug, Clone, Copy, PartialEq, Eq)]
pub enum BaoChunk<R = ()> {
    /// A hash pair of 64 bytes.
    Parent {
        /// The node of the pair.
        node: TreeNode,
        /// True if the pair is hashed as a root.
        is_root: bool,
        /// True if the left hash is needed for what follows.
        left: bool,
        /// True if the right hash is needed for what follows.
        right: bool,
        /// The part of the query that reaches the node.
        ranges: R,
    },
    /// `size` bytes of data.
    Leaf {
        /// The number of the first chunk of the data.
        start_chunk: ChunkNum,
        /// The number of bytes of data.
        size: usize,
        /// True if the data is hashed as a root.
        is_root: bool,
        /// The part of the query that reaches the data.
        ranges: R,
    },
}

/// A node that a traversal by ranges visits, with what the traversal knows
/// of it.
#[derive(Debug, PartialEq, Eq)]
pub struct NodeInfo<'a> {
    /// The node.
    pub node: TreeNode,
    /// The part of the query that reaches the node.
    pub ranges: &'a RangeSetRef<u64>,
    /// The part of the query that reaches the left half of the node.
    pub l_ranges: &'a RangeSetRef<u64>,
    /// The part of the query that reaches the right half of the node.
    pub r_ranges: &'a RangeSetRef<u64>,
    /// True if the query has the node and all that follows it.
    pub full: bool,
    /// True if the traversal does not descend below the node.
    pub query_leaf: bool,
    /// True if the node is hashed as a root.
    pub is_root: bool,
    /// True if the node is a leaf whose right block holds no data.
    pub is_half_leaf: bool,
}

/// What a [`NodeInfo`] holds, with the boundaries of its ranges.
pub ghost struct NodeInfoView {
    pub node: TreeNode,
    pub ranges: Seq<u64>,
    pub l_ranges: Seq<u64>,
    pub r_ranges: Seq<u64>,
    pub full: bool,
    pub query_leaf: bool,
    pub is_root: bool,
    pub is_half_leaf: bool,
}

impl<'a> View for NodeInfo<'a> {
    type V = NodeInfoView;

    open spec fn view(&self) -> NodeInfoView {
        NodeInfoView {
            node: self.node,
            ranges: range_boundaries(self.ranges),
            l_ranges: range_boundaries(self.l_ranges),
            r_ranges: range_boundaries(self.r_ranges),
            full: self.full,
            query_leaf: self.query_leaf,
            is_root: self.is_root,
            is_half_leaf: self.is_half_leaf,
        }
    }
}

/// What a traversal by ranges knows of `node` when the ranges with the
/// boundaries `ranges` reach it.
pub open spec fn node_info(
    tree: BaoTree,
    node: TreeNode,
    ranges: Seq<u64>,
    max_skip_level: u8,
    is_root: bool,
) -> NodeInfoView {
    let mid = tree.block_chunk_spec(node.mid_spec()) as u64;
    let start = tree.block_chunk_spec(node.start_spec()) as u64;
    let full = ranges.len() == 1 && ranges[0] <= start;
    NodeInfoView {
        node,
        ranges,
        l_ranges: split_left(ranges, mid),
        r_ranges: split_right(ranges, mid),
        full,
        query_leaf: node.level == 0 || (full && node.level <= max_skip_level),
        is_root,
        is_half_leaf: !tree.is_persisted_spec(node),
    }
}

/// The nodes under `node` that the ranges with the boundaries `ranges`
/// reach, in pre-order: none where the ranges are empty; else the node, and
/// unless the traversal stops at it, the nodes under its left child that the
/// part of the ranges below its middle reaches, then those under its right
/// child that the rest reaches.
pub open spec fn partial_nodes(
    tree: BaoTree,
    node: TreeNode,
    ranges: Seq<u64>,
    max_skip_level: u8,
    is_root: bool,
) -> Seq<NodeInfoView>
    decreases node.level,
{
    if ranges.len() == 0 {
        Seq::empty()
    } else {
        let info = node_info(tree, node, ranges, max_skip_level, is_root);
        if info.query_leaf {
            seq![info]
        } else {
            match node.right_descendant_spec(tree.filled_size_spec()) {
                Some(r) if r.level < node.level => seq![info] + partial_nodes(
                    tree,
                    node.left_child_spec(),
                    info.l_ranges,
                    max_skip_level,
                    false,
                ) + partial_nodes(tree, r, info.r_ranges, max_skip_level, false),
                _ => seq![info],
            }
        }
    }
}

/// The nodes that a stack of nodes and ranges stands for: those that the
/// ranges of the top item reach under its node, then those of the item below
/// it and so on. The first of all these nodes is the root if `is_root` is
/// true.
pub open spec fn stack_nodes(
    tree: BaoTree,
    stack: Seq<(TreeNode, Seq<u64>)>,
    max_skip_level: u8,
    is_root: bool,
) -> Seq<NodeInfoView>
    decreases stack.len(),
{
    if stack.len() == 0 {
        Seq::empty()
    } else {
        let (node, ranges) = stack.last();
        if ranges.len() == 0 {
            stack_nodes(tree, stack.drop_last(), max_skip_level, is_root)
        } else {
            partial_nodes(tree, node, ranges, max_skip_level, is_root) + stack_nodes(
                tree,
                stack.drop_last(),
                max_skip_level,
                false,
            )
        }
    }
}

/// A traversal in pre-order of the nodes of a tree that a set of chunk ranges
/// reaches.
pub struct PreOrderPartialIterRef<'a> {
    /// The tree.
    tree: BaoTree,
    /// The number of nodes of the tree.
    tree_filled_size: u64,
    /// The highest level at which the traversal stops at a node that the
    /// query has in full.
    max_skip_level: u8,
    /// True until the first node is handed out, if the tree is hashed as a
    /// root.
    is_root: bool,
    /// The nodes still to visit.
    stack: NodeStack<'a>,
}

impl<'a> View for PreOrderPartialIterRef<'a> {
    type V = Seq<NodeInfoView>;

    closed spec fn view(&self) -> Seq<NodeInfoView> {
        stack_nodes(self.tree, self.stack@, self.max_skip_level, self.is_root)
    }
}

impl<'a> PreOrderPartialIterRef<'a> {
    /// The tree of the traversal.
    pub closed spec fn tree_spec(&self) -> BaoTree {
        self.tree
    }

    /// The skip level of the traversal.
    pub closed spec fn max_skip_level_spec(&self) -> u8 {
        self.max_skip_level
    }

    /// The traversal is over a well-formed tree and has nodes of that tree
    /// still to visit.
    pub closed spec fn wf(&self) -> bool {
        &&& self.tree.wf()
        &&& self.tree_filled_size == self.tree.filled_size_spec()
        &&& forall|i: int| 0 <= i < self.stack@.len() ==> self.tree.contains(#[trigger] self.stack@[i].0)
        &&& self.is_root ==> self.tree.is_root && forall|i: int|
            0 <= i < self.stack@.len() ==> (#[trigger] self.stack@[i]).0 == self.tree.root_spec()
    }

    /// The traversal of the nodes of `tree` that `ranges` reaches.
    pub fn new(tree: BaoTree, ranges: &'a RangeSetRef<u64>, max_skip_level: u8) -> (it: Self)
        requires
            tree.wf(),
        ensures
            it.wf(),
            it.tree_spec() == tree,
            it.max_skip_level_spec() == max_skip_level,
            it@ == partial_nodes(
                tree,
                tree.root_spec(),
                range_boundaries(ranges),
                max_skip_level,
                tree.is_root,
            ),
    {
        let mut stack = NodeStack::new();
        stack.push(tree.root(), ranges);
        let it = PreOrderPartialIterRef {
            tree,
            tree_filled_size: tree.filled_size(),
            max_skip_level,
            stack,
            is_root: tree.is_root,
        };
        proof {
            let s = it.stack@;
            assert(s.drop_last() =~= Seq::empty());
            assert(s.last() == (tree.root_spec(), range_boundaries(ranges)));
            let p = partial_nodes(
                tree,
                tree.root_spec(),
                range_boundaries(ranges),
                max_skip_level,
                tree.is_root,
            );
            assert(stack_nodes(tree, s.drop_last(), max_skip_level, false) =~= Seq::empty());
            assert(stack_nodes(tree, s.drop_last(), max_skip_level, tree.is_root) =~= Seq::empty());
            assert(p + Seq::<NodeInfoView>::empty() =~= p);
        }
        it
    }

    /// The tree of the traversal.
    pub fn tree(&self) -> (t: &BaoTree)
        ensures
            *t == self.tree_spec(),
    {
        &self.tree
    }

    /// Hands out the next node of the traversal, or nothing at its end.
    pub fn next(&mut self) -> (r: Option<NodeInfo<'a>>)
        requires
            old(self).wf(),
        ensures
            final(self).wf(),
            final(self).tree_spec() == old(self).tree_spec(),
            final(self).max_skip_level_spec() == old(self).max_skip_level_spec(),
            match r {
                Some(info) => old(self)@.len() > 0 && info@ == old(self)@[0] && final(self)@ == old(
                    self,
                )@.skip(1),
                None => old(self)@.len() == 0 && final(self)@.len() == 0,
            },
            r matches Some(info) ==> (info.is_root ==> old(self).tree_spec().is_root && info.node
                == old(self).tree_spec().root_spec()),
            r matches Some(info) ==> old(self).tree_spec().contains(info.node) && info@.ranges.len()
                > 0 && info@ == node_info(
                old(self).tree_spec(),
                info.node,
                info@.ranges,
                old(self).max_skip_level_spec(),
                info.is_root,
            ),
    {
        let tree = self.tree;
        loop
            invariant
                self.wf(),
                self.tree == tree,
                self.tree == old(self).tree,
                self.max_skip_level == old(self).max_skip_level,
                self@ == old(self)@,
            decreases self.stack@.len(),
        {
            let ghost before = self.stack@;
            let ghost root_before = self.is_root;
            let (node, ranges) = match self.stack.pop() {
                Some(top) => top,
                None => {
                    return None;
                },
            };
            if is_empty(ranges) {
                continue ;
            }
            proof {
                lemma_contains_bounds(tree, node);
                lemma_node_bounds(node);
                lemma_tree_bounds(tree);
                lemma_block_chunk_bound(tree, node.mid_spec());
                lemma_block_chunk_bound(tree, node.start_spec());
            }
            // the middle chunk of the node
            let mid = tree.block_chunk(node.mid());
            // the start chunk of the node
            let start = tree.block_chunk(node.start());
            // check if the node is fully included
            let b = boundaries(ranges);
            let full = b.len() == 1 && b[0] <= start.0;
            // split the ranges into left and right
            let (l_ranges, r_ranges) = split(ranges, mid.0);
            // we can't recurse if the node is a leaf
            // we don't want to recurse if the node is full and below the minimum level
            let query_leaf = node.is_leaf() || (full && node.level() <= self.max_skip_level as u32);
            let ghost rest = self.stack@;
            // recursion is just pushing the children onto the stack
            if !query_leaf {
                proof {
                    lemma_children_contained(tree, node);
                }
                let l = node.left_child().unwrap();
                let r = node.right_descendant(self.tree_filled_size).unwrap();
                // push right first so we pop left first
                self.stack.push(r, r_ranges);
                self.stack.push(l, l_ranges);
            }
            let is_root = self.is_root;
            self.is_root = false;
            let is_half_leaf = !tree.is_persisted(node);
            let info = NodeInfo {
                node,
                ranges,
                l_ranges,
                r_ranges,
                full,
                query_leaf,
                is_root,
                is_half_leaf,
            };
            proof {
                let msl = self.max_skip_level;
                let iv = node_info(tree, node, range_boundaries(ranges), msl, is_root);
                assert(info@ == iv);
                let below = stack_nodes(tree, rest, msl, false);
                assert(before.drop_last() == rest);
                assert(old(self)@ == partial_nodes(tree, node, range_boundaries(ranges), msl, is_root)
                    + below);
                if !query_leaf {
                    let l = node.left_child_spec();
                    let r = node.right_descendant_spec(tree.filled_size_spec())->0;
                    let with_right = rest.push((r, iv.r_ranges));
                    let with_both = with_right.push((l, iv.l_ranges));
                    assert(self.stack@ == with_both);
                    assert(with_both.drop_last() == with_right);
                    assert(with_right.drop_last() == rest);
                    let pl = partial_nodes(tree, l, iv.l_ranges, msl, false);
                    let pr = partial_nodes(tree, r, iv.r_ranges, msl, false);
                    assert(stack_nodes(tree, with_right, msl, false) == pr + below);
                    assert(stack_nodes(tree, with_both, msl, false) == pl + (pr + below));
                    assert((seq![iv] + pl + pr + below).skip(1) =~= pl + (pr + below));
                    assert((seq![iv] + pl + pr + below)[0] == iv);
                } else {
                    assert((seq![iv] + below).skip(1) =~= below);
                }
            }
            return Some(info);
        }
    }
}


impl<'a> View for BaoChunk<&'a RangeSetRef<u64>> {
    type V = BaoChunk<Seq<u64>>;

    open spec fn view(&self) -> BaoChunk<Seq<u64>> {
        match *self {
            BaoChunk::Parent { node, is_root, left, right, ranges } => BaoChunk::Parent {
                node,
                is_root,
                left,
                right,
                ranges: range_boundaries(ranges),
            },
            BaoChunk::Leaf { start_chunk, size, is_root, ranges } => BaoChunk::Leaf {
                start_chunk,
                size,
                is_root,
                ranges: range_boundaries(ranges),
            },
        }
    }
}

impl<T> BaoChunk<T> {
    /// A leaf without data.
    pub fn empty(ranges: T) -> (c: Self)
        ensures
            c == (BaoChunk::Leaf { size: 0, is_root: false, start_chunk: ChunkNum(0), ranges }),
    {
        BaoChunk::Leaf { size: 0, is_root: false, start_chunk: ChunkNum(0), ranges }
    }

    /// The directive without what is known of the query.
    pub open spec fn plain(self) -> BaoChunk<()> {
        match self {
            BaoChunk::Parent { node, is_root, left, right, .. } => BaoChunk::Parent {
                node,
                is_root,
                left,
                right,
                ranges: (),
            },
            BaoChunk::Leaf { start_chunk, size, is_root, .. } => BaoChunk::Leaf {
                start_chunk,
                size,
                is_root,
                ranges: (),
            },
        }
    }

    /// The part of the query that reaches the directive.
    pub open spec fn ranges_spec(self) -> T {
        match self {
            BaoChunk::Parent { ranges, .. } => ranges,
            BaoChunk::Leaf { ranges, .. } => ranges,
        }
    }

    /// The directive with `f` applied to what is known of the query.
    pub fn map_ranges<U, F: Fn(T) -> U>(self, f: F) -> (c: BaoChunk<U>)
        requires
            f.requires((self.ranges_spec(),)),
        ensures
            c.plain() == self.plain(),
            f.ensures((self.ranges_spec(),), c.ranges_spec()),
    {
        match self {
            BaoChunk::Parent { is_root, left, right, node, ranges } => BaoChunk::Parent {
                is_root,
                left,
                right,
                node,
                ranges: f(ranges),
            },
            BaoChunk::Leaf { size, is_root, start_chunk, ranges } => BaoChunk::Leaf {
                size,
                is_root,
                start_chunk,
                ranges: f(ranges),
            },
        }
    }
}

impl BaoChunk<()> {
    /// The number of bytes of the directive: 64 for a hash pair, and the
    /// number of bytes of data for a leaf.
    pub open spec fn size_spec(self) -> nat {
        match self {
            BaoChunk::Parent { .. } => 64,
            BaoChunk::Leaf { size, .. } => size as nat,
        }
    }

    /// The number of bytes of the directive.
    pub fn size(&self) -> (r: usize)
        ensures
            r == self.size_spec(),
    {
        match self {
            BaoChunk::Parent { .. } => 64,
            BaoChunk::Leaf { size, .. } => *size,
        }
    }
}

impl<T: Default> Default for BaoChunk<T> {
    fn default() -> (c: Self)
        ensures
            c.plain() == (BaoChunk::<()>::Leaf {
                is_root: true,
                size: 0,
                start_chunk: ChunkNum(0),
                ranges: (),
            }),
    {
        BaoChunk::Leaf { is_root: true, size: 0, start_chunk: ChunkNum(0), ranges: T::default() }
    }
}

/// The directives for a node that a traversal by ranges visits: unless the
/// node is a leaf whose right block holds no data, a hash pair, or a leaf
/// over the whole node where the traversal stops above level 0; then, for a
/// leaf, the data of each of its blocks that the query reaches.
pub open spec fn chunk_items(tree: BaoTree, info: NodeInfoView) -> Seq<BaoChunk<Seq<u64>>> {
    let node = info.node;
    let s = tree.block_byte_spec(node.start_spec());
    let m = tree.block_byte_spec(node.mid_spec());
    let e = tree.block_byte_spec(node.end_spec());
    let l_start = tree.block_chunk_spec(node.start_spec());
    let r_start = l_start + tree.block_size.chunks_spec();
    let head = if info.is_half_leaf {
        Seq::empty()
    } else if info.query_leaf && node.level != 0 {
        seq![
            BaoChunk::Leaf {
                start_chunk: ChunkNum(l_start as u64),
                is_root: info.is_root,
                size: (e - s) as usize,
                ranges: info.ranges,
            },
        ]
    } else {
        seq![
            BaoChunk::Parent {
                node,
                is_root: info.is_root,
                left: info.l_ranges.len() > 0,
                right: info.r_ranges.len() > 0,
                ranges: info.ranges,
            },
        ]
    };
    let left = if node.level == 0 && info.l_ranges.len() > 0 {
        seq![
            BaoChunk::Leaf {
                start_chunk: ChunkNum(l_start as u64),
                is_root: info.is_root && info.is_half_leaf,
                size: (m - s) as usize,
                ranges: info.l_ranges,
            },
        ]
    } else {
        Seq::empty()
    };
    let right = if node.level == 0 && info.r_ranges.len() > 0 && !info.is_half_leaf {
        seq![
            BaoChunk::Leaf {
                start_chunk: ChunkNum(r_start as u64),
                is_root: false,
                size: (e - m) as usize,
                ranges: info.r_ranges,
            },
        ]
    } else {
        Seq::empty()
    };
    head + left + right
}

/// The directives for a sequence of nodes, one node after the other.
pub open spec fn infos_chunks(tree: BaoTree, infos: Seq<NodeInfoView>) -> Seq<BaoChunk<Seq<u64>>>
    decreases infos.len(),
{
    if infos.len() == 0 {
        Seq::empty()
    } else {
        chunk_items(tree, infos[0]) + infos_chunks(tree, infos.skip(1))
    }
}

/// The directives of the traversal in pre-order of the parts of `tree` that
/// the ranges with the boundaries `ranges` reach.
pub open spec fn pre_order_chunks(tree: BaoTree, ranges: Seq<u64>, max_skip_level: u8) -> Seq<
    BaoChunk<Seq<u64>>,
> {
    infos_chunks(
        tree,
        partial_nodes(tree, tree.root_spec(), ranges, max_skip_level, tree.is_root),
    )
}

/// The directives that wait on the small stack of a traversal, the next one
/// first.
pub open spec fn pending_chunks<T>(stack: Seq<T>, index: usize) -> Seq<T> {
    if index == 0 {
        Seq::empty()
    } else if index == 1 {
        seq![stack[0]]
    } else {
        seq![stack[1], stack[0]]
    }
}

/// The bytes between the starts of two blocks of a tree are at most the
/// bytes of the blocks between them.
pub proof fn lemma_block_byte_diff(tree: BaoTree, a: nat, b: nat)
    requires
        tree.wf(),
        a <= b,
    ensures
        tree.block_byte_spec(a) <= tree.block_byte_spec(b) <= tree.start_chunk.0 * 1024
            + tree.size.0,
        tree.block_byte_spec(b) - tree.block_byte_spec(a) <= (b - a) * tree.block_bytes(),
{
    let bb = tree.block_bytes() as int;
    let ai = a as int;
    let bi = b as int;
    assert(ai * bb <= bi * bb && bi * bb - ai * bb == (bi - ai) * bb && (bi - ai) * bb >= 0)
        by (nonlinear_arith)
        requires
            0 <= ai <= bi,
            bb >= 0,
    ;
}

/// True if a directive is one for `tree`: a hash pair of a node that an
/// outboard of the tree keeps, or data within the blob.
pub open spec fn chunk_fits<R>(tree: BaoTree, c: BaoChunk<R>) -> bool {
    match c {
        BaoChunk::Parent { node, .. } => tree.is_persisted_spec(node),
        BaoChunk::Leaf { start_chunk, size, is_root, .. } => tree.start_chunk.0 <= start_chunk.0
            && start_chunk.0 * 1024 + size <= tree.start_chunk.0 * 1024 + tree.size.0 && (is_root
            ==> start_chunk.0 == tree.start_chunk.0),
    }
}

/// True if a directive of a traversal by ranges is hashed as a root only
/// in a tree whose root is.
pub open spec fn root_fits<R>(tree: BaoTree, c: BaoChunk<R>) -> bool {
    match c {
        BaoChunk::Parent { is_root, .. } => is_root ==> tree.is_root,
        BaoChunk::Leaf { is_root, .. } => is_root ==> tree.is_root,
    }
}

/// The blocks of a node of a tree start at whole chunks.
pub proof fn lemma_node_chunks(tree: BaoTree, node: TreeNode)
    requires
        tree.wf(),
        tree.contains(node),
    ensures
        tree.block_byte_spec(node.start_spec()) == 1024 * tree.block_chunk_spec(node.start_spec()),
        node.mid_spec() < tree.blocks_spec() ==> tree.block_byte_spec(node.mid_spec()) == 1024
            * tree.block_chunk_spec(node.mid_spec()),
        tree.block_chunk_spec(node.mid_spec()) == tree.block_chunk_spec(node.start_spec())
            + node.half_span_spec() * tree.block_size.chunks_spec(),
        tree.start_chunk.0 <= tree.block_chunk_spec(node.start_spec()),
        node.level == 0 ==> tree.block_chunk_spec(node.mid_spec()) == tree.block_chunk_spec(
            node.start_spec(),
        ) + tree.block_size.chunks_spec(),
{
    vstd::arithmetic::power2::lemma2_to64();
    assert(1 * tree.block_size.chunks_spec() == tree.block_size.chunks_spec()) by (nonlinear_arith);
    lemma_contains_bounds(tree, node);
    lemma_node_bounds(node);
    lemma_tree_bounds(tree);
    lemma_block_byte(tree, node.start_spec());
    lemma_block_byte(tree, node.mid_spec());
    let bb = tree.block_bytes() as int;
    let c = tree.block_size.chunks_spec() as int;
    let st = node.start_spec() as int;
    let mid = node.mid_spec() as int;
    let h = node.half_span_spec() as int;
    assert(st * bb == 1024 * (st * c) && mid * bb == 1024 * (mid * c) && mid * c == st * c + h * c
        && st * c >= 0) by (nonlinear_arith)
        requires
            bb == 1024 * c,
            mid == st + h,
            st >= 0,
            c >= 0,
    ;
}

/// A traversal in pre-order of the directives for the parts of a tree that a
/// set of chunk ranges reaches.
pub struct PreOrderChunkIterRef<'a> {
    inner: PreOrderPartialIterRef<'a>,
    // stack with 2 elements, since we can only have 2 items in flight
    stack: [BaoChunk<&'a RangeSetRef<u64>>; 2],
    index: usize,
}

impl<'a> View for PreOrderChunkIterRef<'a> {
    type V = Seq<BaoChunk<Seq<u64>>>;

    closed spec fn view(&self) -> Seq<BaoChunk<Seq<u64>>> {
        pending_chunks(self.stack@.map_values(|c: BaoChunk<&'a RangeSetRef<u64>>| c@), self.index)
            + infos_chunks(self.inner.tree_spec(), self.inner@)
    }
}

impl<'a> PreOrderChunkIterRef<'a> {
    /// The tree of the traversal.
    pub closed spec fn tree_spec(&self) -> BaoTree {
        self.inner.tree_spec()
    }

    /// The traversal is over a well-formed tree, and the data under a node at
    /// which it may stop can be addressed in memory.
    pub closed spec fn wf(&self) -> bool {
        &&& self.inner.wf()
        &&& self.index <= 2
        &&& self.inner.tree_spec().wf()
        &&& (self.inner.max_skip_level_spec() == 0 || self.inner.tree_spec().size.0 <= usize::MAX)
        &&& (self.index >= 1 ==> chunk_fits(self.inner.tree_spec(), self.stack@[0]) && root_fits(
            self.inner.tree_spec(),
            self.stack@[0],
        ))
        &&& (self.index >= 2 ==> chunk_fits(self.inner.tree_spec(), self.stack@[1]) && root_fits(
            self.inner.tree_spec(),
            self.stack@[1],
        ))
    }

    /// The traversal of the parts of `tree` that `ranges` reaches. It stops
    /// at a node up to the level `max_skip_level` that the query has with all
    /// that follows it.
    pub fn new(tree: BaoTree, ranges: &'a RangeSetRef<u64>, max_skip_level: u8) -> (it: Self)
        requires
            tree.wf(),
            max_skip_level == 0 || tree.size.0 <= usize::MAX,
        ensures
            it.wf(),
            it.tree_spec() == tree,
            it@ == pre_order_chunks(tree, range_boundaries(ranges), max_skip_level),
    {
        let it = PreOrderChunkIterRef {
            inner: PreOrderPartialIterRef::new(tree, ranges, max_skip_level),
            stack: [BaoChunk::empty(ranges), BaoChunk::empty(ranges)],
            index: 0,
        };
        assert(it@ =~= pre_order_chunks(tree, range_boundaries(ranges), max_skip_level));
        it
    }

    /// The tree of the traversal.
    pub fn tree(&self) -> (t: &BaoTree)
        ensures
            *t == self.tree_spec(),
    {
        self.inner.tree()
    }

    fn push(&mut self, item: BaoChunk<&'a RangeSetRef<u64>>)
        requires
            old(self).index < 2,
        ensures
            final(self).index == old(self).index + 1,
            final(self).inner == old(self).inner,
            final(self).stack@ == old(self).stack@.update(old(self).index as int, item),
    {
        self.stack[self.index] = item;
        self.index += 1;
    }

    fn pop(&mut self) -> (r: Option<BaoChunk<&'a RangeSetRef<u64>>>)
        requires
            old(self).index <= 2,
        ensures
            final(self).inner == old(self).inner,
            final(self).stack == old(self).stack,
            match r {
                Some(item) => old(self).index > 0 && final(self).index == old(self).index - 1
                    && item == old(self).stack@[final(self).index as int],
                None => old(self).index == 0 && final(self).index == 0,
            },
    {
        if self.index > 0 {
            self.index -= 1;
            Some(self.stack[self.index])
        } else {
            None
        }
    }

    /// Puts the directives for a node on the small stack, but for the first
    /// of them where the node has a hash pair or stands for its data as a
    /// whole: that one is returned.
    fn expand(&mut self, info: NodeInfo<'a>) -> (r: Option<BaoChunk<&'a RangeSetRef<u64>>>)
        requires
            old(self).wf(),
            old(self).index == 0,
            old(self).inner.tree_spec().contains(info.node),
            info.is_root ==> old(self).inner.tree_spec().is_root && info.node == old(
                self,
            ).inner.tree_spec().root_spec(),
            info@ == node_info(
                old(self).inner.tree_spec(),
                info.node,
                info@.ranges,
                old(self).inner.max_skip_level_spec(),
                info.is_root,
            ),
        ensures
            final(self).wf(),
            final(self).inner == old(self).inner,
            match r {
                Some(c) => seq![c@] + pending_chunks(
                    final(self).stack@.map_values(|c: BaoChunk<&'a RangeSetRef<u64>>| c@),
                    final(self).index,
                ) == chunk_items(old(self).inner.tree_spec(), info@) && chunk_fits(
                    old(self).inner.tree_spec(),
                    c,
                ) && root_fits(old(self).inner.tree_spec(), c),
                None => pending_chunks(
                    final(self).stack@.map_values(|c: BaoChunk<&'a RangeSetRef<u64>>| c@),
                    final(self).index,
                ) == chunk_items(old(self).inner.tree_spec(), info@) && final(self).index <= 1,
            },
    {
        let NodeInfo { node, is_root, is_half_leaf, ranges, l_ranges, r_ranges, query_leaf, .. } =
            info;
        let tree = *self.inner.tree();
        let ghost iv = info@;
        proof {
            lemma_root_covers(tree);
            lemma_contains_bounds(tree, node);
            lemma_node_bounds(node);
            lemma_tree_bounds(tree);
            lemma_block_byte_diff(tree, node.start_spec(), node.mid_spec());
            lemma_block_byte_diff(tree, node.mid_spec(), node.end_spec());
            lemma_block_byte_diff(tree, node.start_spec(), node.end_spec());
            lemma_block_chunk_bound(tree, node.start_spec());
            vstd::arithmetic::power2::lemma2_to64();
            lemma_node_chunks(tree, node);
        }
        if node.is_leaf() {
            let (s, m, e) = tree.leaf_byte_ranges3(node);
            let l_start_chunk = tree.chunk_num(node);
            let r_start_chunk = ChunkNum(l_start_chunk.0 + tree.chunk_group_chunks().0);
            if !is_empty(r_ranges) && !is_half_leaf {
                let right = BaoChunk::Leaf {
                    is_root: false,
                    start_chunk: r_start_chunk,
                    size: (e.0 - m.0) as usize,
                    ranges: r_ranges,
                };
                assert(m.0 == 1024 * r_start_chunk.0);
                assert(chunk_fits(tree, right));
                self.push(right);
            }
            if !is_empty(l_ranges) {
                let left = BaoChunk::Leaf {
                    is_root: is_root && is_half_leaf,
                    start_chunk: l_start_chunk,
                    size: (m.0 - s.0) as usize,
                    ranges: l_ranges,
                };
                assert(s.0 == 1024 * l_start_chunk.0);
                assert(chunk_fits(tree, left));
                self.push(left);
            }
        }
        assert(self.wf());
        // the last leaf is a special case, since it does not have a parent if it is <= half full
        if !is_half_leaf {
            let chunk = if query_leaf && !node.is_leaf() {
                // the node is a leaf for the purpose of this query despite not being a leaf,
                // so we need to return a BaoChunk::Leaf spanning the whole node
                let (start, end) = tree.byte_range(node);
                let start_chunk = tree.chunk_num(node);
                let size = (end.0 - start.0) as usize;
                BaoChunk::Leaf { start_chunk, is_root, size, ranges }
            } else {
                // the node is not a leaf, so we need to return a BaoChunk::Parent
                BaoChunk::Parent {
                    is_root,
                    left: !is_empty(l_ranges),
                    right: !is_empty(r_ranges),
                    node,
                    ranges,
                }
            };
            proof {
                let views_now = self.stack@.map_values(|c: BaoChunk<&'a RangeSetRef<u64>>| c@);
                let pending = pending_chunks(views_now, self.index);
                let items = chunk_items(tree, iv);
                assert(items =~= seq![chunk@] + pending);
            }
            Some(chunk)
        } else {
            proof {
                let views_now = self.stack@.map_values(|c: BaoChunk<&'a RangeSetRef<u64>>| c@);
                let pending = pending_chunks(views_now, self.index);
                let items = chunk_items(tree, iv);
                assert(items =~= pending);
            }
            None
        }
    }

    /// Hands out the next directive of the traversal, or nothing at its end.
    pub fn next(&mut self) -> (r: Option<BaoChunk<&'a RangeSetRef<u64>>>)
        requires
            old(self).wf(),
        ensures
            final(self).wf(),
            final(self).tree_spec() == old(self).tree_spec(),
            match r {
                Some(c) => old(self)@.len() > 0 && c@ == old(self)@[0] && final(self)@ == old(
                    self,
                )@.skip(1) && chunk_fits(old(self).tree_spec(), c) && root_fits(
                    old(self).tree_spec(),
                    c,
                ),
                None => old(self)@.len() == 0 && final(self)@.len() == 0,
            },
    {
        loop
            invariant
                self.wf(),
                self.inner.tree_spec() == old(self).inner.tree_spec(),
                self.inner.max_skip_level_spec() == old(self).inner.max_skip_level_spec(),
                self@ == old(self)@,
            decreases 2 * self.inner@.len() + self.index,
        {
            let ghost views = self.stack@.map_values(|c: BaoChunk<&'a RangeSetRef<u64>>| c@);
            let ghost tail = infos_chunks(self.inner.tree_spec(), self.inner@);
            let ghost index0 = self.index;
            if let Some(item) = self.pop() {
                proof {
                    let waiting = pending_chunks(views, index0);
                    let pending = pending_chunks(views, self.index);
                    assert(waiting[0] == item@);
                    assert(waiting.skip(1) =~= pending);
                    assert((waiting + tail).skip(1) =~= pending + tail);
                }
                return Some(item);
            }
            let info = match self.inner.next() {
                Some(info) => info,
                None => {
                    assert(self@ =~= Seq::empty());
                    return None;
                },
            };
            let ghost tree = self.inner.tree_spec();
            let ghost iv = info@;
            let ghost tail_now = infos_chunks(tree, self.inner@);
            assert(tail == chunk_items(tree, iv) + tail_now);
            if let Some(chunk) = self.expand(info) {
                proof {
                    let views_now = self.stack@.map_values(|c: BaoChunk<&'a RangeSetRef<u64>>| c@);
                    let pending = pending_chunks(views_now, self.index);
                    assert((seq![chunk@] + pending + tail_now).skip(1) =~= pending + tail_now);
                }
                return Some(chunk);
            }
        }
    }
}

/// The directive of a response stream for a directive within a block.
pub open spec fn inner_response(c: BaoChunk<Seq<u64>>) -> ResponseChunk {
    match c {
        BaoChunk::Parent { is_root, left, right, .. } => ResponseChunk::Parent {
            node: None,
            is_root,
            left,
            right,
        },
        BaoChunk::Leaf { start_chunk, size, is_root, .. } => ResponseChunk::Leaf {
            start_chunk,
            size,
            is_root,
        },
    }
}

/// True if a directive of a response asks for data within the blob of
/// `tree`, and for its hash as a root only for data that starts where the
/// blob starts.
pub open spec fn response_fits(tree: BaoTree, c: ResponseChunk) -> bool {
    match c {
        ResponseChunk::Parent { .. } => true,
        ResponseChunk::Leaf { start_chunk, size, is_root } => start_chunk.0 * 1024 + size
            <= tree.start_chunk.0 * 1024 + tree.size.0 && (is_root ==> start_chunk.0
            == tree.start_chunk.0),
    }
}

/// The node that a hash pair within a block is told by. Such a pair belongs
/// to no node of the tree of blocks; this node lies beyond every tree, so
/// that no outboard keeps a hash pair for it.
pub open spec fn inner_node_spec() -> TreeNode {
    TreeNode { level: 0, pos: 0x3fff_ffff_ffff_ffff }
}

/// The node that a hash pair within a block is told by.
pub fn inner_node() -> (n: TreeNode)
    ensures
        n == inner_node_spec(),
{
    TreeNode { level: 0, pos: 0x3fff_ffff_ffff_ffff }
}

/// The node that a hash pair within a block is told by is a node of no
/// tree.
pub proof fn lemma_inner_node(tree: BaoTree)
    requires
        tree.wf(),
    ensures
        !tree.contains(inner_node_spec()),
        !tree.is_persisted_spec(inner_node_spec()),
{
    crate::tree::lemma_tree_bounds(tree);
    vstd::arithmetic::power2::lemma2_to64();
    vstd::arithmetic::power2::lemma2_to64_rest();
}

/// A directive of a response as a directive for the verifier: a hash pair
/// within a block is told by the node that is a node of no tree.
pub open spec fn verifier_chunk(c: ResponseChunk) -> BaoChunk<Seq<u64>> {
    match c {
        ResponseChunk::Parent { node, is_root, left, right } => BaoChunk::Parent {
            node: match node {
                Some(n) => n,
                None => inner_node_spec(),
            },
            is_root,
            left,
            right,
            ranges: Seq::empty(),
        },
        ResponseChunk::Leaf { start_chunk, size, is_root } => BaoChunk::Leaf {
            start_chunk,
            size,
            is_root,
            ranges: Seq::empty(),
        },
    }
}

/// The directives of a response as directives for the verifier.
pub open spec fn verifier_chunks(cs: Seq<ResponseChunk>) -> Seq<BaoChunk<Seq<u64>>> {
    cs.map_values(|c: ResponseChunk| verifier_chunk(c))
}

/// The directive of a response for a directive of the traversal of the
/// tree of blocks that is taken as it is.
pub open spec fn plain_response(c: BaoChunk<Seq<u64>>) -> ResponseChunk {
    match c {
        BaoChunk::Parent { node, is_root, left, right, .. } => ResponseChunk::Parent {
            node: Some(node),
            is_root,
            left,
            right,
        },
        BaoChunk::Leaf { start_chunk, size, is_root, .. } => ResponseChunk::Leaf {
            start_chunk,
            size,
            is_root,
        },
    }
}

/// True if a directive asks for at most one block of data.
pub open spec fn block_sized<R>(tree: BaoTree, c: BaoChunk<R>) -> bool {
    match c {
        BaoChunk::Leaf { size, .. } => size <= tree.block_bytes(),
        BaoChunk::Parent { .. } => true,
    }
}

/// The tree of chunks over the data of a leaf directive.
pub open spec fn block_tree(start_chunk: ChunkNum, size: usize, is_root: bool) -> BaoTree {
    BaoTree { start_chunk, size: ByteNum(size as u64), block_size: BlockSize(0), is_root }
}

/// The directives of a response stream for a directive of the traversal of
/// the tree of blocks: the hash pair itself for a hash pair; for data the
/// data itself where blocks are chunks or the query has all of it, and else
/// the directives of the traversal of the tree of chunks over the data,
/// which stops wherever the query has a node with all that follows it.
pub open spec fn response_items(tree: BaoTree, c: BaoChunk<Seq<u64>>) -> Seq<ResponseChunk> {
    match c {
        BaoChunk::Parent { node, is_root, left, right, .. } => seq![
            ResponseChunk::Parent { node: Some(node), is_root, left, right },
        ],
        BaoChunk::Leaf { start_chunk, size, is_root, ranges } => if tree.block_size.0 == 0
            || is_all_spec(ranges) {
            seq![ResponseChunk::Leaf { start_chunk, size, is_root }]
        } else {
            pre_order_chunks(block_tree(start_chunk, size, is_root), ranges, u8::MAX).map_values(
                |c: BaoChunk<Seq<u64>>| inner_response(c),
            )
        },
    }
}

/// The directives of a response stream for a sequence of directives of the
/// traversal of the tree of blocks.
pub open spec fn chunks_responses(tree: BaoTree, chunks: Seq<BaoChunk<Seq<u64>>>) -> Seq<
    ResponseChunk,
>
    decreases chunks.len(),
{
    if chunks.len() == 0 {
        Seq::empty()
    } else {
        response_items(tree, chunks[0]) + chunks_responses(tree, chunks.skip(1))
    }
}

/// The directives of the response to a query: those of the traversal in
/// pre-order of the parts of `tree` that the ranges with the boundaries
/// `ranges` reach, down to single chunks where the query has only a part of
/// a block.
pub open spec fn response_chunks(tree: BaoTree, ranges: Seq<u64>, max_skip_level: u8) -> Seq<
    ResponseChunk,
> {
    chunks_responses(tree, pre_order_chunks(tree, ranges, max_skip_level))
}

/// A traversal in pre-order of the directives of a response stream: the
/// traversal of the tree of blocks, and within a block of which the query has
/// only a part the traversal of its chunks.
pub struct ResponseIterRef<'a> {
    inner: PreOrderChunkIterRef<'a>,
    buffer: ChunkBuffer,
}

impl<'a> View for ResponseIterRef<'a> {
    type V = Seq<ResponseChunk>;

    closed spec fn view(&self) -> Seq<ResponseChunk> {
        self.buffer@.reverse() + chunks_responses(self.inner.tree_spec(), self.inner@)
    }
}

impl<'a> ResponseIterRef<'a> {
    /// The tree of the traversal.
    pub closed spec fn tree_spec(&self) -> BaoTree {
        self.inner.tree_spec()
    }

    /// The traversal is over a well-formed tree, and what waits in its buffer
    /// lies within the blob.
    pub closed spec fn wf(&self) -> bool {
        &&& self.inner.wf()
        &&& forall|i: int|
            0 <= i < self.buffer@.len() ==> response_fits(
                self.inner.tree_spec(),
                #[trigger] self.buffer@[i],
            )
    }

    /// The traversal of the parts of `tree` that `ranges` reaches.
    pub fn new(tree: BaoTree, ranges: &'a RangeSetRef<u64>, max_skip_level: u8) -> (it: Self)
        requires
            tree.wf(),
            max_skip_level == 0 || tree.size.0 <= usize::MAX,
        ensures
            it.wf(),
            it.tree_spec() == tree,
            it@ == response_chunks(tree, range_boundaries(ranges), max_skip_level),
    {
        let it = ResponseIterRef {
            inner: PreOrderChunkIterRef::new(tree, ranges, max_skip_level),
            buffer: ChunkBuffer::new(),
        };
        assert(it.buffer@.reverse() =~= Seq::empty());
        assert(it@ =~= response_chunks(tree, range_boundaries(ranges), max_skip_level));
        it
    }

    /// The tree of the traversal.
    pub fn tree(&self) -> (t: &BaoTree)
        ensures
            *t == self.tree_spec(),
    {
        self.inner.tree()
    }

    /// Fills the buffer with the directives of the traversal of the tree of
    /// chunks over the data of a leaf directive, the first of them last.
    fn drill(&mut self, tree: BaoTree, ranges: &RangeSetRef<u64>)
        requires
            old(self).wf(),
            old(self).buffer@.len() == 0,
            tree.wf(),
            tree.size.0 <= usize::MAX,
            old(self).inner.tree_spec().start_chunk.0 * 1024 <= tree.start_chunk.0 * 1024,
            tree.start_chunk.0 * 1024 + tree.size.0 <= old(self).inner.tree_spec().start_chunk.0
                * 1024 + old(self).inner.tree_spec().size.0,
            tree.is_root ==> tree.start_chunk.0 == old(self).inner.tree_spec().start_chunk.0,
        ensures
            final(self).wf(),
            final(self).inner == old(self).inner,
            final(self).buffer@.reverse() == pre_order_chunks(
                tree,
                range_boundaries(ranges),
                u8::MAX,
            ).map_values(|c: BaoChunk<Seq<u64>>| inner_response(c)),
    {
        let mut it = PreOrderChunkIterRef::new(tree, ranges, u8::MAX);
        let ghost all = it@.map_values(|c: BaoChunk<Seq<u64>>| inner_response(c));
        loop
            invariant
                it.wf(),
                it.tree_spec() == tree,
                self.wf(),
                self.inner == old(self).inner,
                self.buffer@ + it@.map_values(|c: BaoChunk<Seq<u64>>| inner_response(c)) == all,
                self.inner.tree_spec().start_chunk.0 * 1024 <= tree.start_chunk.0 * 1024,
                tree.start_chunk.0 * 1024 + tree.size.0 <= self.inner.tree_spec().start_chunk.0
                    * 1024 + self.inner.tree_spec().size.0,
                tree.is_root ==> tree.start_chunk.0 == self.inner.tree_spec().start_chunk.0,
            ensures
                it@.len() == 0,
            decreases it@.len(),
        {
            let ghost rest0 = it@;
            let item = match it.next() {
                Some(item) => item,
                None => {
                    break ;
                },
            };
            let r = match item {
                BaoChunk::Parent { is_root, left, right, .. } => {
                    ResponseChunk::Parent { node: None, is_root, left, right }
                },
                BaoChunk::Leaf { size, is_root, start_chunk, .. } => {
                    ResponseChunk::Leaf { size, is_root, start_chunk }
                },
            };
            let ghost buf1 = self.buffer@;
            self.buffer.push(r);
            proof {
                let f = |c: BaoChunk<Seq<u64>>| inner_response(c);
                assert(r == inner_response(item@));
                assert(rest0.map_values(f) =~= seq![r] + it@.map_values(f));
                assert(self.buffer@ + it@.map_values(f) =~= buf1 + rest0.map_values(f));
                assert(response_fits(self.inner.tree_spec(), r));
                assert forall|i: int| 0 <= i < self.buffer@.len() implies response_fits(
                    self.inner.tree_spec(),
                    #[trigger] self.buffer@[i],
                ) by {
                    if i < buf1.len() {
                        assert(self.buffer@[i] == buf1[i]);
                    }
                }
            }
        }
        proof {
            let f = |c: BaoChunk<Seq<u64>>| inner_response(c);
            assert(it@.map_values(f) =~= Seq::empty());
            assert(self.buffer@ =~= all);
        }
        let ghost filled = self.buffer@;
        self.buffer.reverse();
        proof {
            assert(self.buffer@.reverse() =~= all);
            assert forall|i: int| 0 <= i < self.buffer@.len() implies response_fits(
                self.inner.tree_spec(),
                #[trigger] self.buffer@[i],
            ) by {
                assert(self.buffer@[i] == filled[filled.len() - 1 - i]);
            }
        }
    }

    /// Hands out the next directive of the traversal, or nothing at its end.
    pub fn next(&mut self) -> (r: Option<ResponseChunk>)
        requires
            old(self).wf(),
        ensures
            final(self).wf(),
            final(self).tree_spec() == old(self).tree_spec(),
            match r {
                Some(c) => old(self)@.len() > 0 && c == old(self)@[0] && final(self)@ == old(
                    self,
                )@.skip(1) && response_fits(old(self).tree_spec(), c),
                None => old(self)@.len() == 0 && final(self)@.len() == 0,
            },
    {
        loop
            invariant
                self.wf(),
                self.inner.tree_spec() == old(self).inner.tree_spec(),
                self@ == old(self)@,
            decreases self.inner@.len(), self.buffer@.len(),
        {
            let ghost buf0 = self.buffer@;
            let ghost tail = chunks_responses(self.inner.tree_spec(), self.inner@);
            if let Some(item) = self.buffer.pop() {
                proof {
                    assert(buf0.reverse()[0] == item);
                    assert(buf0.reverse().skip(1) =~= self.buffer@.reverse());
                    assert((buf0.reverse() + tail).skip(1) =~= self.buffer@.reverse() + tail);
                }
                return Some(item);
            }
            assert(buf0.reverse() =~= Seq::empty());
            let outer = *self.inner.tree();
            let chunk = match self.inner.next() {
                Some(chunk) => chunk,
                None => {
                    assert(self@ =~= Seq::empty());
                    return None;
                },
            };
            let ghost tail_now = chunks_responses(outer, self.inner@);
            assert(tail == response_items(outer, chunk@) + tail_now);
            match chunk {
                BaoChunk::Parent { node, is_root, right, left, .. } => {
                    let r = ResponseChunk::Parent { node: Some(node), is_root, right, left };
                    proof {
                        assert((seq![r] + tail_now).skip(1) =~= tail_now);
                        assert(self.buffer@.reverse() + tail_now =~= tail_now);
                    }
                    return Some(r);
                },
                BaoChunk::Leaf { size, is_root, start_chunk, ranges } => {
                    if outer.block_size.0 == 0 || is_all(ranges) {
                        let r = ResponseChunk::Leaf { size, is_root, start_chunk };
                        proof {
                            assert((seq![r] + tail_now).skip(1) =~= tail_now);
                            assert(self.buffer@.reverse() + tail_now =~= tail_now);
                        }
                        return Some(r);
                    } else {
                        // create a little tree just for this leaf
                        let tree = BaoTree {
                            start_chunk,
                            size: ByteNum(size as u64),
                            block_size: BlockSize(0),
                            is_root,
                        };
                        self.drill(tree, ranges);
                    }
                },
            }
        }
    }
}

/// A traversal in pre-order of the directives for the parts of a tree that a
/// set of chunk ranges reaches, which owns what it hands out.
pub struct PreOrderChunkIter {
    tree: BaoTree,
    items: Vec<BaoChunk<()>>,
    pos: usize,
}

impl View for PreOrderChunkIter {
    type V = Seq<BaoChunk<()>>;

    closed spec fn view(&self) -> Seq<BaoChunk<()>> {
        self.items@.skip(self.pos as int)
    }
}

impl PreOrderChunkIter {
    /// The tree of the traversal.
    pub closed spec fn tree_spec(&self) -> BaoTree {
        self.tree
    }

    /// The traversal has handed out no more than it has.
    pub closed spec fn wf(&self) -> bool {
        self.pos <= self.items@.len()
    }

    /// The traversal of the parts of `tree` that `ranges` reaches.
    pub fn new(tree: BaoTree, ranges: ChunkRanges) -> (it: Self)
        requires
            tree.wf(),
        ensures
            it.wf(),
            it.tree_spec() == tree,
            it@ == pre_order_chunks(tree, ranges.boundaries_spec(), 0).map_values(
                |c: BaoChunk<Seq<u64>>| c.plain(),
            ),
    {
        let mut inner = PreOrderChunkIterRef::new(tree, ranges.as_ranges(), 0);
        let ghost all = inner@.map_values(|c: BaoChunk<Seq<u64>>| c.plain());
        let mut items: Vec<BaoChunk<()>> = Vec::new();
        loop
            invariant
                inner.wf(),
                items@ + inner@.map_values(|c: BaoChunk<Seq<u64>>| c.plain()) == all,
            ensures
                inner@.len() == 0,
            decreases inner@.len(),
        {
            let ghost rest0 = inner@;
            let ghost items0 = items@;
            let item = match inner.next() {
                Some(item) => item,
                None => {
                    break ;
                },
            };
            let plain = item.map_ranges(|_r: &RangeSetRef<u64>| -> (u: ()) { () });
            items.push(plain);
            proof {
                let f = |c: BaoChunk<Seq<u64>>| c.plain();
                assert(plain == item@.plain());
                assert(rest0.map_values(f) =~= seq![plain] + inner@.map_values(f));
                assert(items@ + inner@.map_values(f) =~= items0 + rest0.map_values(f));
            }
        }
        proof {
            let f = |c: BaoChunk<Seq<u64>>| c.plain();
            assert(inner@.map_values(f) =~= Seq::empty());
            assert(items@ =~= all);
            assert(items@.skip(0) =~= items@);
        }
        PreOrderChunkIter { tree, items, pos: 0 }
    }

    /// The tree this traversal is over.
    pub fn tree(&self) -> (t: &BaoTree)
        ensures
            *t == self.tree_spec(),
    {
        &self.tree
    }

    /// Hands out the next directive of the traversal, or nothing at its end.
    pub fn next(&mut self) -> (r: Option<BaoChunk<()>>)
        requires
            old(self).wf(),
        ensures
            final(self).wf(),
            final(self).tree_spec() == old(self).tree_spec(),
            match r {
                Some(c) => old(self)@.len() > 0 && c == old(self)@[0] && final(self)@ == old(
                    self,
                )@.skip(1),
                None => old(self)@.len() == 0 && final(self)@.len() == 0,
            },
    {
        if self.pos < self.items.len() {
            let item = self.items[self.pos];
            self.pos += 1;
            assert(old(self)@.skip(1) =~= self@);
            Some(item)
        } else {
            None
        }
    }
}


/// The nodes under `node` in a tree of `len` nodes, children before their
/// parent and the left child before the right.
pub open spec fn post_order_nodes(node: TreeNode, len: nat) -> Seq<TreeNode>
    decreases node.level,
{
    if node.level == 0 {
        seq![node]
    } else {
        match node.right_descendant_spec(len) {
            Some(r) if r.level < node.level => post_order_nodes(node.left_child_spec(), len)
                + post_order_nodes(r, len) + seq![node],
            _ => seq![node],
        }
    }
}

/// The nodes under `node` in a tree of `len` nodes, a parent before its
/// children and the left child before the right.
pub open spec fn pre_order_nodes(node: TreeNode, len: nat) -> Seq<TreeNode>
    decreases node.level,
{
    if node.level == 0 {
        seq![node]
    } else {
        match node.right_descendant_spec(len) {
            Some(r) if r.level < node.level => seq![node] + pre_order_nodes(
                node.left_child_spec(),
                len,
            ) + pre_order_nodes(r, len),
            _ => seq![node],
        }
    }
}

/// The nodes under the right child of `node` within a tree of `len` nodes,
/// in post-order.
pub open spec fn post_order_right(node: TreeNode, len: nat) -> Seq<TreeNode> {
    match node.right_descendant_spec(len) {
        Some(r) => post_order_nodes(r, len),
        None => Seq::empty(),
    }
}

/// The nodes under the right child of `node` within a tree of `len` nodes,
/// in pre-order.
pub open spec fn pre_order_right(node: TreeNode, len: nat) -> Seq<TreeNode> {
    match node.right_descendant_spec(len) {
        Some(r) => pre_order_nodes(r, len),
        None => Seq::empty(),
    }
}

/// The nodes of a tree of `len` nodes that follow in post-order the nodes
/// under `c`: for a left child what is under its sibling, then the parent
/// and what follows the parent; for a right child the parent and what
/// follows it.
pub open spec fn post_order_after(c: TreeNode, len: nat) -> Seq<TreeNode>
    decreases 62 - c.level,
{
    match c.restricted_parent_spec(len) {
        Some(p) if c.level < p.level <= 62 => if c.in_order_spec() < p.in_order_spec() {
            post_order_right(p, len) + seq![p] + post_order_after(p, len)
        } else {
            seq![p] + post_order_after(p, len)
        },
        _ => Seq::empty(),
    }
}

/// The nodes of a tree of `len` nodes that follow in pre-order the nodes
/// under `c`: for a left child what is under its sibling and what follows
/// the parent; for a right child what follows the parent.
pub open spec fn pre_order_after(c: TreeNode, len: nat) -> Seq<TreeNode>
    decreases 62 - c.level,
{
    match c.restricted_parent_spec(len) {
        Some(p) if c.level < p.level <= 62 => if c.in_order_spec() < p.in_order_spec() {
            pre_order_right(p, len) + pre_order_after(p, len)
        } else {
            pre_order_after(p, len)
        },
        _ => Seq::empty(),
    }
}

/// Where a traversal by parent links came from.
#[derive(Debug, Clone, Copy, PartialEq, Eq, Structural)]
pub enum Prev {
    /// From the parent: the node and what is under it are still to visit.
    Parent,
    /// From the left child: what is under the right child is still to visit.
    Left,
    /// From the right child: everything under the node has been visited.
    Right,
    /// The traversal is over.
    Done,
}

/// A traversal of all nodes of a tree in post-order.
#[derive(Debug)]
pub struct PostOrderNodeIter {
    /// the tree
    tree: BaoTree,
    /// the overall number of nodes in the tree
    len: u64,
    /// the current node
    curr: TreeNode,
    /// where we came from, used to determine the next node
    prev: Prev,
}

impl View for PostOrderNodeIter {
    type V = Seq<TreeNode>;

    closed spec fn view(&self) -> Seq<TreeNode> {
        let len = self.len as nat;
        match self.prev {
            Prev::Parent => post_order_nodes(self.curr, len) + post_order_after(self.curr, len),
            Prev::Left => post_order_right(self.curr, len) + seq![self.curr] + post_order_after(
                self.curr,
                len,
            ),
            Prev::Right => seq![self.curr] + post_order_after(self.curr, len),
            Prev::Done => Seq::empty(),
        }
    }
}

impl PostOrderNodeIter {
    /// The tree of the traversal.
    pub closed spec fn tree_spec(&self) -> BaoTree {
        self.tree
    }

    /// The traversal stands at a node of a well-formed tree.
    pub closed spec fn wf(&self) -> bool {
        &&& self.tree.wf()
        &&& self.len == self.tree.filled_size_spec()
        &&& self.tree.contains(self.curr)
        &&& (self.prev == Prev::Left ==> self.curr.level > 0)
    }

    /// The traversal of all nodes of `tree`.
    pub fn new(tree: BaoTree) -> (it: Self)
        requires
            tree.wf(),
        ensures
            it.wf(),
            it.tree_spec() == tree,
            it@ == post_order_nodes(tree.root_spec(), tree.filled_size_spec()),
    {
        let it = PostOrderNodeIter {
            tree,
            len: tree.filled_size(),
            curr: tree.root(),
            prev: Prev::Parent,
        };
        proof {
            lemma_root_has_no_parent(tree);
            let p = post_order_nodes(tree.root_spec(), tree.filled_size_spec());
            assert(p + Seq::<TreeNode>::empty() =~= p);
        }
        it
    }

    fn go_up(&mut self, curr: TreeNode)
        requires
            old(self).wf(),
            old(self).tree.contains(curr),
        ensures
            final(self).wf(),
            final(self).tree == old(self).tree,
            final(self)@ == post_order_after(curr, old(self).len as nat),
    {
        proof {
            lemma_restricted_parent(curr, self.len as nat);
        }
        let prev = curr;
        match curr.restricted_parent(self.len) {
            Some(parent) => {
                self.curr = parent;
                self.prev = if prev.in_order() < parent.in_order() {
                    Prev::Left
                } else {
                    Prev::Right
                };
            },
            None => {
                self.curr = curr;
                self.prev = Prev::Done;
            },
        }
    }

    /// Hands out the next node of the traversal, or nothing at its end.
    pub fn next(&mut self) -> (r: Option<TreeNode>)
        requires
            old(self).wf(),
        ensures
            final(self).wf(),
            final(self).tree_spec() == old(self).tree_spec(),
            match r {
                Some(n) => old(self)@.len() > 0 && n == old(self)@[0] && final(self)@ == old(
                    self,
                )@.skip(1) && old(self).tree_spec().contains(n),
                None => old(self)@.len() == 0 && final(self)@.len() == 0,
            },
    {
        loop
            invariant
                self.wf(),
                self.tree == old(self).tree,
                self@ == old(self)@,
            decreases
                    (if self.prev == Prev::Left {
                        1int
                    } else {
                        0int
                    }),
                    self.curr.level,
        {
            let curr = self.curr;
            let ghost len = self.len as nat;
            match self.prev {
                Prev::Parent => {
                    if let Some(child) = curr.left_child() {
                        proof {
                            lemma_children_contained(self.tree, curr);
                            lemma_left_child_parent(curr, len);
                            lemma_children_wf(curr);
                            let r = curr.right_descendant_spec(len)->0;
                            let a = post_order_nodes(child, len);
                            let b = post_order_nodes(r, len);
                            let c = post_order_after(curr, len);
                            assert(post_order_after(child, len) == b + seq![curr] + c);
                            assert(a + b + seq![curr] + c =~= a + (b + seq![curr] + c));
                        }
                        // go left first when coming from above, don't emit curr
                        self.curr = child;
                        self.prev = Prev::Parent;
                    } else {
                        // we are a left or right leaf, go up and emit curr
                        let ghost after = post_order_after(curr, len);
                        self.go_up(curr);
                        assert((seq![curr] + after).skip(1) =~= after);
                        return Some(curr);
                    }
                },
                Prev::Left => {
                    proof {
                        lemma_children_contained(self.tree, curr);
                        lemma_right_descendant_parent(curr, len);
                    }
                    // no need to check is_leaf, since we come from a left child
                    // go right when coming from left, don't emit curr
                    self.curr = curr.right_descendant(self.len).unwrap();
                    self.prev = Prev::Parent;
                },
                Prev::Right => {
                    // go up in any case, do emit curr
                    let ghost after = post_order_after(curr, len);
                    self.go_up(curr);
                    assert((seq![curr] + after).skip(1) =~= after);
                    return Some(curr);
                },
                Prev::Done => {
                    return None;
                },
            }
        }
    }
}

/// A traversal of all nodes of a tree in pre-order.
#[derive(Debug)]
pub struct PreOrderNodeIter {
    /// the tree
    tree: BaoTree,
    /// the overall number of nodes in the tree
    len: u64,
    /// the current node
    curr: TreeNode,
    /// where we came from, used to determine the next node
    prev: Prev,
}

impl View for PreOrderNodeIter {
    type V = Seq<TreeNode>;

    closed spec fn view(&self) -> Seq<TreeNode> {
        let len = self.len as nat;
        match self.prev {
            Prev::Parent => pre_order_nodes(self.curr, len) + pre_order_after(self.curr, len),
            Prev::Left => pre_order_right(self.curr, len) + pre_order_after(self.curr, len),
            Prev::Right => pre_order_after(self.curr, len),
            Prev::Done => Seq::empty(),
        }
    }
}

impl PreOrderNodeIter {
    /// The tree of the traversal.
    pub closed spec fn tree_spec(&self) -> BaoTree {
        self.tree
    }

    /// The traversal stands at a node of a well-formed tree.
    pub closed spec fn wf(&self) -> bool {
        &&& self.tree.wf()
        &&& self.len == self.tree.filled_size_spec()
        &&& self.tree.contains(self.curr)
        &&& (self.prev == Prev::Left ==> self.curr.level > 0)
    }

    /// The traversal of all nodes of `tree`.
    pub fn new(tree: BaoTree) -> (it: Self)
        requires
            tree.wf(),
        ensures
            it.wf(),
            it.tree_spec() == tree,
            it@ == pre_order_nodes(tree.root_spec(), tree.filled_size_spec()),
    {
        let it = PreOrderNodeIter {
            tree,
            len: tree.filled_size(),
            curr: tree.root(),
            prev: Prev::Parent,
        };
        proof {
            lemma_root_has_no_parent(tree);
            let p = pre_order_nodes(tree.root_spec(), tree.filled_size_spec());
            assert(p + Seq::<TreeNode>::empty() =~= p);
        }
        it
    }

    fn go_up(&mut self, curr: TreeNode)
        requires
            old(self).wf(),
            old(self).tree.contains(curr),
        ensures
            final(self).wf(),
            final(self).tree == old(self).tree,
            final(self)@ == pre_order_after(curr, old(self).len as nat),
            final(self).prev != Prev::Parent,
            final(self).prev == Prev::Right ==> final(self).curr.level > curr.level,
    {
        proof {
            lemma_restricted_parent(curr, self.len as nat);
        }
        let prev = curr;
        match curr.restricted_parent(self.len) {
            Some(parent) => {
                self.curr = parent;
                self.prev = if prev.in_order() < parent.in_order() {
                    Prev::Left
                } else {
                    Prev::Right
                };
            },
            None => {
                self.curr = curr;
                self.prev = Prev::Done;
            },
        }
    }

    /// Hands out the next node of the traversal, or nothing at its end.
    pub fn next(&mut self) -> (r: Option<TreeNode>)
        requires
            old(self).wf(),
        ensures
            final(self).wf(),
            final(self).tree_spec() == old(self).tree_spec(),
            match r {
                Some(n) => old(self)@.len() > 0 && n == old(self)@[0] && final(self)@ == old(
                    self,
                )@.skip(1) && old(self).tree_spec().contains(n),
                None => old(self)@.len() == 0 && final(self)@.len() == 0,
            },
    {
        loop
            invariant
                self.wf(),
                self.tree == old(self).tree,
                self@ == old(self)@,
            decreases
                    (match self.prev {
                        Prev::Right => 2int,
                        Prev::Left => 1int,
                        _ => 0int,
                    }),
                    62 - self.curr.level,
        {
            let curr = self.curr;
            let ghost len = self.len as nat;
            match self.prev {
                Prev::Parent => {
                    if let Some(child) = curr.left_child() {
                        proof {
                            lemma_children_contained(self.tree, curr);
                            lemma_left_child_parent(curr, len);
                            lemma_children_wf(curr);
                            let r = curr.right_descendant_spec(len)->0;
                            let a = pre_order_nodes(child, len);
                            let b = pre_order_nodes(r, len);
                            let c = pre_order_after(curr, len);
                            assert(pre_order_after(child, len) == b + c);
                            assert((seq![curr] + a + b + c).skip(1) =~= a + (b + c));
                        }
                        // go left first when coming from above
                        self.curr = child;
                        self.prev = Prev::Parent;
                    } else {
                        // we are a left or right leaf, go up
                        let ghost after = pre_order_after(curr, len);
                        self.go_up(curr);
                        assert((seq![curr] + after).skip(1) =~= after);
                    }
                    // emit curr before children (pre-order)
                    return Some(curr);
                },
                Prev::Left => {
                    proof {
                        lemma_children_contained(self.tree, curr);
                        lemma_right_descendant_parent(curr, len);
                    }
                    // no need to check is_leaf, since we come from a left child
                    // go right when coming from left, don't emit curr
                    self.curr = curr.right_descendant(self.len).unwrap();
                    self.prev = Prev::Parent;
                },
                Prev::Right => {
                    proof {
                        lemma_node_bounds(curr);
                    }
                    // go up in any case
                    self.go_up(curr);
                },
                Prev::Done => {
                    return None;
                },
            }
        }
    }
}


/// The directives for a node in the traversal of a whole tree in
/// post-order: for a leaf the data of its left block and, unless its right
/// block holds no data, the data of its right block; then the hash pair of
/// the node if an outboard keeps it.
pub open spec fn post_items(tree: BaoTree, node: TreeNode) -> Seq<BaoChunk<()>> {
    let s = tree.block_byte_spec(node.start_spec());
    let m = tree.block_byte_spec(node.mid_spec());
    let e = tree.block_byte_spec(node.end_spec());
    let l_start = tree.block_chunk_spec(node.start_spec());
    let r_start = l_start + tree.block_size.chunks_spec();
    let is_root = node == tree.root_spec();
    let half = m == e;
    let left = if node.level == 0 {
        seq![
            BaoChunk::Leaf {
                is_root: is_root && half,
                start_chunk: ChunkNum(l_start as u64),
                size: (m - s) as usize,
                ranges: (),
            },
        ]
    } else {
        Seq::empty()
    };
    let right = if node.level == 0 && !half {
        seq![
            BaoChunk::Leaf {
                is_root: false,
                start_chunk: ChunkNum(r_start as u64),
                size: (e - m) as usize,
                ranges: (),
            },
        ]
    } else {
        Seq::empty()
    };
    let parent = if tree.is_persisted_spec(node) {
        seq![BaoChunk::Parent { node, is_root, left: true, right: true, ranges: () }]
    } else {
        Seq::empty()
    };
    left + right + parent
}

/// The directives for a sequence of nodes in the traversal of a whole tree
/// in post-order.
pub open spec fn nodes_post_chunks(tree: BaoTree, nodes: Seq<TreeNode>) -> Seq<BaoChunk<()>>
    decreases nodes.len(),
{
    if nodes.len() == 0 {
        Seq::empty()
    } else {
        post_items(tree, nodes[0]) + nodes_post_chunks(tree, nodes.skip(1))
    }
}

/// The directives of the traversal of a whole tree in post-order.
pub open spec fn post_order_chunks(tree: BaoTree) -> Seq<BaoChunk<()>> {
    nodes_post_chunks(tree, post_order_nodes(tree.root_spec(), tree.filled_size_spec()))
}

/// A leaf of a tree has data in its right block exactly when an outboard
/// keeps its hash pair.
pub proof fn lemma_half_leaf(tree: BaoTree, node: TreeNode)
    requires
        tree.wf(),
        tree.contains(node),
        node.level == 0,
    ensures
        tree.is_persisted_spec(node) <==> tree.block_byte_spec(node.mid_spec())
            != tree.block_byte_spec(node.end_spec()),
{
    lemma_contains_bounds(tree, node);
    lemma_node_bounds(node);
    lemma_tree_bounds(tree);
    lemma_block_byte(tree, node.mid_spec());
    lemma_block_byte(tree, node.end_spec());
    vstd::arithmetic::power2::lemma2_to64();
    let bb = tree.block_bytes() as int;
    let mid = node.mid_spec() as int;
    assert((mid + 1) * bb == mid * bb + bb) by (nonlinear_arith);
}

/// A traversal of the directives of a whole tree in post-order.
#[derive(Debug)]
pub struct PostOrderChunkIter {
    tree: BaoTree,
    inner: PostOrderNodeIter,
    // stack with 2 elements, since we can only have 2 items in flight
    stack: [BaoChunk<()>; 2],
    index: usize,
    root: TreeNode,
}

impl View for PostOrderChunkIter {
    type V = Seq<BaoChunk<()>>;

    closed spec fn view(&self) -> Seq<BaoChunk<()>> {
        pending_chunks(self.stack@, self.index) + nodes_post_chunks(self.tree, self.inner@)
    }
}

impl PostOrderChunkIter {
    /// The tree of the traversal.
    pub closed spec fn tree_spec(&self) -> BaoTree {
        self.tree
    }

    /// The traversal is over a well-formed tree.
    pub closed spec fn wf(&self) -> bool {
        &&& self.inner.wf()
        &&& self.inner.tree_spec() == self.tree
        &&& self.tree.wf()
        &&& self.root == self.tree.root_spec()
        &&& self.index <= 2
        &&& (self.index >= 1 ==> chunk_fits(self.tree, self.stack@[0]))
        &&& (self.index >= 2 ==> chunk_fits(self.tree, self.stack@[1]))
    }

    /// The traversal of the directives of `tree`.
    pub fn new(tree: BaoTree) -> (it: Self)
        requires
            tree.wf(),
        ensures
            it.wf(),
            it.tree_spec() == tree,
            it@ == post_order_chunks(tree),
    {
        let it = PostOrderChunkIter {
            tree,
            inner: PostOrderNodeIter::new(tree),
            stack: [BaoChunk::empty(()), BaoChunk::empty(())],
            index: 0,
            root: tree.root(),
        };
        assert(it@ =~= post_order_chunks(tree));
        it
    }

    /// The tree of the traversal.
    pub fn tree(&self) -> (t: &BaoTree)
        ensures
            *t == self.tree_spec(),
    {
        &self.tree
    }

    fn push(&mut self, item: BaoChunk<()>)
        requires
            old(self).index < 2,
        ensures
            final(self).index == old(self).index + 1,
            final(self).inner == old(self).inner,
            final(self).tree == old(self).tree,
            final(self).root == old(self).root,
            final(self).stack@ == old(self).stack@.update(old(self).index as int, item),
    {
        self.stack[self.index] = item;
        self.index += 1;
    }

    fn pop(&mut self) -> (r: Option<BaoChunk<()>>)
        requires
            old(self).index <= 2,
        ensures
            final(self).inner == old(self).inner,
            final(self).tree == old(self).tree,
            final(self).root == old(self).root,
            final(self).stack == old(self).stack,
            match r {
                Some(item) => old(self).index > 0 && final(self).index == old(self).index - 1
                    && item == old(self).stack@[final(self).index as int],
                None => old(self).index == 0 && final(self).index == 0,
            },
    {
        if self.index > 0 {
            self.index -= 1;
            Some(self.stack[self.index])
        } else {
            None
        }
    }

    /// Puts the directives for a node on the small stack, but for the first
    /// of them where the node is a leaf: that one is returned.
    fn expand(&mut self, node: TreeNode) -> (r: Option<BaoChunk<()>>)
        requires
            old(self).wf(),
            old(self).index == 0,
            old(self).tree.contains(node),
        ensures
            final(self).wf(),
            final(self).inner == old(self).inner,
            final(self).tree == old(self).tree,
            match r {
                Some(c) => seq![c] + pending_chunks(final(self).stack@, final(self).index)
                    == post_items(old(self).tree, node) && chunk_fits(old(self).tree, c),
                None => pending_chunks(final(self).stack@, final(self).index) == post_items(
                    old(self).tree,
                    node,
                ) && final(self).index <= 1,
            },
    {
        let tree = self.tree;
        proof {
            lemma_root_covers(tree);
            lemma_contains_bounds(tree, node);
            lemma_node_bounds(node);
            lemma_tree_bounds(tree);
            lemma_block_byte_diff(tree, node.start_spec(), node.mid_spec());
            lemma_block_byte_diff(tree, node.mid_spec(), node.end_spec());
            lemma_block_chunk_bound(tree, node.start_spec());
            vstd::arithmetic::power2::lemma2_to64();
            lemma_node_chunks(tree, node);
            if node.level == 0 {
                lemma_half_leaf(tree, node);
            }
        }
        let is_root = node == self.root;
        if tree.is_persisted(node) {
            self.push(BaoChunk::Parent { node, is_root, left: true, right: true, ranges: () });
        }
        if node.is_leaf() {
            let (s, m, e) = tree.leaf_byte_ranges3(node);
            let l_start_chunk = tree.chunk_num(node);
            let r_start_chunk = ChunkNum(l_start_chunk.0 + tree.chunk_group_chunks().0);
            let is_half_leaf = m.0 == e.0;
            if !is_half_leaf {
                let right = BaoChunk::Leaf {
                    is_root: false,
                    start_chunk: r_start_chunk,
                    size: (e.0 - m.0) as usize,
                    ranges: (),
                };
                assert(chunk_fits(tree, right));
                self.push(right);
            }
            let left = BaoChunk::Leaf {
                is_root: is_root && is_half_leaf,
                start_chunk: l_start_chunk,
                size: (m.0 - s.0) as usize,
                ranges: (),
            };
            assert(chunk_fits(tree, left));
            proof {
                let pending = pending_chunks(self.stack@, self.index);
                assert(post_items(tree, node) =~= seq![left] + pending);
            }
            Some(left)
        } else {
            proof {
                let pending = pending_chunks(self.stack@, self.index);
                assert(post_items(tree, node) =~= pending);
            }
            None
        }
    }

    /// Hands out the next directive of the traversal, or nothing at its end.
    pub fn next(&mut self) -> (r: Option<BaoChunk<()>>)
        requires
            old(self).wf(),
        ensures
            final(self).wf(),
            final(self).tree_spec() == old(self).tree_spec(),
            match r {
                Some(c) => old(self)@.len() > 0 && c == old(self)@[0] && final(self)@ == old(
                    self,
                )@.skip(1) && chunk_fits(old(self).tree_spec(), c),
                None => old(self)@.len() == 0 && final(self)@.len() == 0,
            },
    {
        loop
            invariant
                self.wf(),
                self.tree == old(self).tree,
                self@ == old(self)@,
            decreases 2 * self.inner@.len() + self.index,
        {
            let ghost stack0 = self.stack@;
            let ghost tail = nodes_post_chunks(self.tree, self.inner@);
            let ghost index0 = self.index;
            if let Some(item) = self.pop() {
                proof {
                    let waiting = pending_chunks(stack0, index0);
                    let pending = pending_chunks(stack0, self.index);
                    assert(waiting[0] == item);
                    assert(waiting.skip(1) =~= pending);
                    assert((waiting + tail).skip(1) =~= pending + tail);
                }
                return Some(item);
            }
            let node = match self.inner.next() {
                Some(node) => node,
                None => {
                    assert(self@ =~= Seq::empty());
                    return None;
                },
            };
            let ghost tail_now = nodes_post_chunks(self.tree, self.inner@);
            assert(tail == post_items(self.tree, node) + tail_now);
            if let Some(chunk) = self.expand(node) {
                proof {
                    let pending = pending_chunks(self.stack@, self.index);
                    assert((seq![chunk] + pending + tail_now).skip(1) =~= pending + tail_now);
                }
                return Some(chunk);
            }
        }
    }
}


impl BaoTree {
    /// The traversal of all nodes of the tree in post-order.
    pub fn post_order_nodes_iter(&self) -> (it: PostOrderNodeIter)
        requires
            self.wf(),
        ensures
            it.wf(),
            it.tree_spec() == *self,
            it@ == post_order_nodes(self.root_spec(), self.filled_size_spec()),
    {
        PostOrderNodeIter::new(*self)
    }

    /// The traversal of all nodes of the tree in pre-order.
    pub fn pre_order_nodes_iter(&self) -> (it: PreOrderNodeIter)
        requires
            self.wf(),
        ensures
            it.wf(),
            it.tree_spec() == *self,
            it@ == pre_order_nodes(self.root_spec(), self.filled_size_spec()),
    {
        PreOrderNodeIter::new(*self)
    }

    /// The traversal of the directives of the tree in post-order.
    pub fn post_order_chunks_iter(&self) -> (it: PostOrderChunkIter)
        requires
            self.wf(),
        ensures
            it.wf(),
            it.tree_spec() == *self,
            it@ == post_order_chunks(*self),
    {
        PostOrderChunkIter::new(*self)
    }

    /// The traversal in pre-order of the nodes of the tree that `ranges`
    /// reaches.
    pub fn ranges_pre_order_nodes_iter<'a>(
        &self,
        ranges: &'a RangeSetRef<u64>,
        max_skip_level: u8,
    ) -> (it: PreOrderPartialIterRef<'a>)
        requires
            self.wf(),
        ensures
            it.wf(),
            it.tree_spec() == *self,
            it@ == partial_nodes(
                *self,
                self.root_spec(),
                range_boundaries(ranges),
                max_skip_level,
                self.is_root,
            ),
    {
        PreOrderPartialIterRef::new(*self, ranges, max_skip_level)
    }

    /// The traversal in pre-order of the directives for the parts of the
    /// tree that `ranges` reaches.
    pub fn ranges_pre_order_chunks_iter_ref<'a>(
        &self,
        ranges: &'a RangeSetRef<u64>,
        max_skip_level: u8,
    ) -> (it: PreOrderChunkIterRef<'a>)
        requires
            self.wf(),
            max_skip_level == 0 || self.size.0 <= usize::MAX,
        ensures
            it.wf(),
            it.tree_spec() == *self,
            it@ == pre_order_chunks(*self, range_boundaries(ranges), max_skip_level),
    {
        PreOrderChunkIterRef::new(*self, ranges, max_skip_level)
    }
}

} // verus!
