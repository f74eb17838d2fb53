//! Number newtypes and the geometry of the hash tree.
//!
//! A tree over a blob has one level-0 node for every pair of blocks. A node is
//! addressed by its level and by its position among the nodes of that level:
//! the node at level `l` and position `p` covers the blocks
//! `[p * 2^(l+1), (p + 1) * 2^(l+1))`, and its number in the in-order
//! numbering of the complete tree is `(2p + 1) * 2^l - 1`.
use vstd::prelude::*;
use vstd::arithmetic::div_mod::{lemma_div_is_ordered_by_denominator, lemma_fundamental_div_mod};
use vstd::arithmetic::power2::{
    lemma2_to64, lemma2_to64_rest, lemma_pow2_adds, lemma_pow2_pos, lemma_pow2_strictly_increases,
    lemma_pow2_unfold, pow2,
};
use vstd::bits::{lemma_u64_pow2_no_overflow, lemma_u64_shl_is_mul};

verus! {

/// The BLAKE3 chunk size in bytes.
pub const BLAKE3_CHUNK_SIZE: usize = 1024;

/// The largest block size logarithm for which a block's byte count fits in
/// `usize` on every target.
pub const MAX_CHUNK_LOG: u8 = 21;

/// `2^e` as a machine integer.
pub fn pow2_u64(e: u32) -> (r: u64)
    requires
        e < 64,
    ensures
        r == pow2(e as nat),
        r >= 1,
{
    proof {
        lemma_u64_pow2_no_overflow(e as nat);
        lemma_u64_shl_is_mul(1, e as u64);
    }
    1u64 << (e as u64)
}

/// `pow2` is monotone.
pub proof fn lemma_pow2_monotone(a: nat, b: nat)
    requires
        a <= b,
    ensures
        pow2(a) <= pow2(b),
{
    if a < b {
        lemma_pow2_strictly_increases(a, b);
    }
}

/// A number of BLAKE3 chunks of 1024 bytes.
#[derive(Clone, Copy, Debug, PartialEq, Eq, PartialOrd, Ord, Hash, Structural)]
pub struct ChunkNum(pub u64);

/// A number of bytes.
#[derive(Clone, Copy, Debug, PartialEq, Eq, PartialOrd, Ord, Hash, Structural)]
pub struct ByteNum(pub u64);

impl ChunkNum {
    /// The byte offset at which this chunk starts.
    pub fn to_bytes(self) -> (b: ByteNum)
        requires
            self.0 * 1024 <= u64::MAX,
        ensures
            b.0 == self.0 * 1024,
    {
        ByteNum(self.0 * 1024)
    }
}

impl ByteNum {
    /// The number of chunks that are needed to hold this many bytes.
    pub open spec fn chunks_spec(self) -> nat {
        ((self.0 + 1023) / 1024) as nat
    }

    /// The number of chunks that are needed to hold this many bytes.
    pub fn chunks(self) -> (c: ChunkNum)
        ensures
            c.0 == self.chunks_spec(),
    {
        let full: u64 = self.0 / 1024;
        if self.0 % 1024 != 0 {
            ChunkNum(full + 1)
        } else {
            ChunkNum(full)
        }
    }

    /// The number of chunks that this many bytes fill completely.
    pub fn full_chunks(self) -> (c: ChunkNum)
        ensures
            c.0 == self.0 / 1024,
    {
        ChunkNum(self.0 / 1024)
    }

    /// This number of bytes as a `usize`.
    pub fn to_usize(self) -> (r: usize)
        requires
            self.0 <= usize::MAX,
        ensures
            r == self.0,
    {
        self.0 as usize
    }
}

/// A block size.
///
/// Block sizes are powers of two, the smallest being 1024 bytes. A block size
/// is held as the logarithm of its number of chunks: 0 is 1024 bytes, 1 is
/// 2048 bytes and so on.
#[derive(Clone, Copy, Debug, PartialEq, Eq, PartialOrd, Ord, Hash, Structural)]
pub struct BlockSize(pub u8);

impl BlockSize {
    /// A block size whose byte count fits in `usize` on every target.
    pub open spec fn wf(self) -> bool {
        self.0 <= MAX_CHUNK_LOG
    }

    /// The number of bytes in a block.
    pub open spec fn bytes_spec(self) -> nat {
        1024 * pow2(self.0 as nat)
    }

    /// The number of chunks in a block.
    pub open spec fn chunks_spec(self) -> nat {
        pow2(self.0 as nat)
    }

    /// The block size with the given logarithm of its number of chunks.
    pub fn from_chunk_log(chunk_log: u8) -> (b: Self)
        ensures
            b.0 == chunk_log,
    {
        BlockSize(chunk_log)
    }

    /// The logarithm of the number of chunks in a block.
    pub fn chunk_log(self) -> (l: u8)
        ensures
            l == self.0,
    {
        self.0
    }

    /// The smallest block size: a block is one chunk.
    pub fn zero() -> (b: Self)
        ensures
            b.0 == 0,
            b.wf(),
    {
        BlockSize(0)
    }

    /// The number of bytes in a block, for every block size whose byte
    /// count the target can hold.
    pub fn bytes(self) -> (r: usize)
        requires
            self.0 <= 53,
            self.bytes_spec() <= usize::MAX,
        ensures
            r == self.bytes_spec(),
            1024 <= r,
            self.wf() ==> r <= 0x8000_0000,
    {
        proof {
            lemma2_to64();
            lemma2_to64_rest();
            lemma_pow2_pos(self.0 as nat);
            lemma_pow2_monotone(self.0 as nat, 53);
            if self.wf() {
                lemma_block_bytes_bound(self);
            }
        }
        let p: u64 = pow2_u64(self.0 as u32);
        (1024 * p) as usize
    }

    /// The block size of blocks of `bytes` bytes: some block size exactly when
    /// `bytes` is a power of two and at least 1024.
    pub fn from_bytes(bytes: u64) -> (r: Option<Self>)
        ensures
            match r {
                Some(b) => b.0 <= 53 && bytes == b.bytes_spec() && forall|l: nat|
                    bytes == 1024 * #[trigger] pow2(l) ==> l == b.0,
                None => forall|l: nat| bytes != 1024 * #[trigger] pow2(l),
            },
    {
        let mut log: u8 = 0;
        let mut cur: u64 = 1024;
        proof {
            lemma2_to64();
            lemma2_to64_rest();
        }
        loop
            invariant
                log <= 53,
                cur == 1024 * pow2(log as nat),
                forall|l: nat| l < log ==> bytes != 1024 * #[trigger] pow2(l),
            decreases 53 - log,
        {
            if cur == bytes {
                proof {
                    assert forall|l: nat| bytes == 1024 * #[trigger] pow2(l) implies l == log by {
                        if l > log {
                            lemma_pow2_strictly_increases(log as nat, l);
                        }
                    }
                }
                return Some(BlockSize(log));
            }
            if log == 53 || cur > bytes {
                proof {
                    lemma2_to64_rest();
                    assert forall|l: nat| bytes != 1024 * #[trigger] pow2(l) by {
                        if l >= log {
                            lemma_pow2_monotone(log as nat, l);
                            if l > log {
                                lemma_pow2_strictly_increases(log as nat, l);
                                if log == 53 {
                                    lemma_pow2_monotone(54, l);
                                }
                            }
                        }
                    }
                }
                return None;
            }
            proof {
                lemma2_to64_rest();
                lemma_pow2_unfold((log + 1) as nat);
                lemma_pow2_monotone((log + 1) as nat, 53);
            }
            cur = cur * 2;
            log = log + 1;
        }
    }

    /// The logarithm of the number of chunks in a block, as a level.
    pub fn to_u32(self) -> (l: u32)
        ensures
            l == self.0,
    {
        self.0 as u32
    }
}

/// The byte count of a well-formed block size lies between 2^10 and 2^31.
pub proof fn lemma_block_bytes_bound(b: BlockSize)
    requires
        b.wf(),
    ensures
        1024 <= b.bytes_spec() <= 0x8000_0000,
        1 <= b.chunks_spec() <= 0x20_0000,
{
    lemma2_to64();
    lemma_pow2_pos(b.0 as nat);
    lemma_pow2_monotone(b.0 as nat, 21);
}


/// A node of the hash tree, addressed by its level and by its position among
/// the nodes of that level. A node of level 0 is a leaf: it stands for a pair
/// of blocks.
#[derive(Clone, Copy, Debug, PartialEq, Eq, Hash, Structural)]
pub struct TreeNode {
    /// The level of the node, 0 for a leaf.
    pub level: u32,
    /// The position of the node among the nodes of its level, from the left.
    pub pos: u64,
}

impl TreeNode {
    /// A node whose block range ends at or below block 2^63.
    pub open spec fn wf(self) -> bool {
        self.level <= 62 && self.pos < pow2((62 - self.level) as nat)
    }

    /// Half of the number of blocks under the node.
    pub open spec fn half_span_spec(self) -> nat {
        pow2(self.level as nat)
    }

    /// The first block under the node.
    pub open spec fn start_spec(self) -> nat {
        (2 * self.pos * pow2(self.level as nat)) as nat
    }

    /// The first block of the right half of the node.
    pub open spec fn mid_spec(self) -> nat {
        ((2 * self.pos + 1) * pow2(self.level as nat)) as nat
    }

    /// The block after the last block under the node.
    pub open spec fn end_spec(self) -> nat {
        ((2 * self.pos + 2) * pow2(self.level as nat)) as nat
    }

    /// The number of the node in the in-order numbering of the complete tree.
    pub open spec fn in_order_spec(self) -> int {
        self.mid_spec() - 1
    }

    /// The left child of a node above level 0.
    pub open spec fn left_child_spec(self) -> TreeNode {
        TreeNode { level: (self.level - 1) as u32, pos: (2 * self.pos) as u64 }
    }

    /// The right child of a node above level 0.
    pub open spec fn right_child_spec(self) -> TreeNode {
        TreeNode { level: (self.level - 1) as u32, pos: (2 * self.pos + 1) as u64 }
    }

    /// The parent of a node.
    pub open spec fn parent_spec(self) -> TreeNode {
        TreeNode { level: (self.level + 1) as u32, pos: self.pos / 2 }
    }

    /// The first among the node, its left child, the left child of that and so
    /// on whose in-order number is below `len`.
    pub open spec fn descend_spec(self, len: nat) -> Option<TreeNode>
        decreases self.level,
    {
        if self.in_order_spec() < len {
            Some(self)
        } else if self.level == 0 {
            None
        } else {
            self.left_child_spec().descend_spec(len)
        }
    }

    /// The right child within a tree of `len` nodes: the first node on the left
    /// spine of the right subtree whose in-order number is below `len`.
    pub open spec fn right_descendant_spec(self, len: nat) -> Option<TreeNode> {
        if self.level == 0 {
            None
        } else {
            self.right_child_spec().descend_spec(len)
        }
    }

    /// The parent within a tree of `len` nodes: the lowest ancestor, up to
    /// level 62, whose in-order number is below `len`.
    pub open spec fn restricted_parent_spec(self, len: nat) -> Option<TreeNode>
        decreases 62 - self.level,
    {
        if self.level >= 62 {
            None
        } else {
            let p = self.parent_spec();
            if p.in_order_spec() < len {
                Some(p)
            } else {
                p.restricted_parent_spec(len)
            }
        }
    }

    /// The node at the given level and position.
    pub fn new(level: u32, pos: u64) -> (n: Self)
        ensures
            n == (TreeNode { level, pos }),
    {
        TreeNode { level, pos }
    }

    /// The level of the node, 0 for a leaf.
    pub fn level(&self) -> (l: u32)
        ensures
            l == self.level,
    {
        self.level
    }

    /// True if the node is a leaf.
    pub fn is_leaf(&self) -> (b: bool)
        ensures
            b == (self.level == 0),
    {
        self.level == 0
    }

    /// Half of the number of blocks under the node.
    pub fn half_span(&self) -> (r: u64)
        requires
            self.wf(),
        ensures
            r == self.half_span_spec(),
    {
        pow2_u64(self.level)
    }

    /// The first block under the node.
    pub fn start(&self) -> (r: u64)
        requires
            self.wf(),
        ensures
            r == self.start_spec(),
    {
        proof {
            lemma_node_bounds(*self);
        }
        2 * self.pos * pow2_u64(self.level)
    }

    /// The first block of the right half of the node.
    pub fn mid(&self) -> (r: u64)
        requires
            self.wf(),
        ensures
            r == self.mid_spec(),
    {
        proof {
            lemma_node_bounds(*self);
        }
        (2 * self.pos + 1) * pow2_u64(self.level)
    }

    /// The block after the last block under the node.
    pub fn end(&self) -> (r: u64)
        requires
            self.wf(),
        ensures
            r == self.end_spec(),
    {
        proof {
            lemma_node_bounds(*self);
        }
        (2 * self.pos + 2) * pow2_u64(self.level)
    }

    /// The blocks under the node, as a half-open range.
    pub fn block_range(&self) -> (r: (u64, u64))
        requires
            self.wf(),
        ensures
            r.0 == self.start_spec(),
            r.1 == self.end_spec(),
    {
        (self.start(), self.end())
    }

    /// The number of the node in the in-order numbering of the complete tree.
    pub fn in_order(&self) -> (r: u64)
        requires
            self.wf(),
        ensures
            r == self.in_order_spec(),
    {
        proof {
            lemma_node_bounds(*self);
        }
        self.mid() - 1
    }

    /// The left child, or nothing for a leaf.
    pub fn left_child(&self) -> (r: Option<Self>)
        requires
            self.wf(),
        ensures
            r == (if self.level == 0 { None } else { Some(self.left_child_spec()) }),
            r is Some ==> r->0.wf(),
    {
        if self.level == 0 {
            None
        } else {
            proof {
                lemma_children_wf(*self);
            }
            Some(TreeNode { level: self.level - 1, pos: 2 * self.pos })
        }
    }

    /// The right child, or nothing for a leaf.
    pub fn right_child(&self) -> (r: Option<Self>)
        requires
            self.wf(),
        ensures
            r == (if self.level == 0 { None } else { Some(self.right_child_spec()) }),
            r is Some ==> r->0.wf(),
    {
        if self.level == 0 {
            None
        } else {
            proof {
                lemma_children_wf(*self);
            }
            Some(TreeNode { level: self.level - 1, pos: 2 * self.pos + 1 })
        }
    }

    /// The parent, or nothing for a node of level 62.
    pub fn parent(&self) -> (r: Option<Self>)
        requires
            self.wf(),
        ensures
            r == (if self.level >= 62 { None } else { Some(self.parent_spec()) }),
            r is Some ==> r->0.wf(),
    {
        if self.level >= 62 {
            None
        } else {
            proof {
                lemma_parent_wf(*self);
            }
            Some(TreeNode { level: self.level + 1, pos: self.pos / 2 })
        }
    }

    /// True if the node is the left child of its parent.
    pub fn is_left_child(&self) -> (b: bool)
        ensures
            b == (self.pos % 2 == 0),
    {
        self.pos % 2 == 0
    }

    /// The right child within a tree of `len` nodes, or nothing if there is
    /// none.
    pub fn right_descendant(&self, len: u64) -> (r: Option<Self>)
        requires
            self.wf(),
        ensures
            r == self.right_descendant_spec(len as nat),
            r is Some ==> r->0.wf(),
    {
        if self.level == 0 {
            return None;
        }
        proof {
            lemma_children_wf(*self);
        }
        let mut node = TreeNode { level: self.level - 1, pos: 2 * self.pos + 1 };
        loop
            invariant
                node.wf(),
                node.descend_spec(len as nat) == self.right_descendant_spec(len as nat),
            decreases node.level,
        {
            if node.in_order() < len {
                return Some(node);
            }
            if node.level == 0 {
                return None;
            }
            proof {
                lemma_children_wf(node);
            }
            node = TreeNode { level: node.level - 1, pos: 2 * node.pos };
        }
    }

    /// The parent within a tree of `len` nodes, or nothing if there is none.
    pub fn restricted_parent(&self, len: u64) -> (r: Option<Self>)
        requires
            self.wf(),
        ensures
            r == self.restricted_parent_spec(len as nat),
            r is Some ==> r->0.wf(),
    {
        let mut node = *self;
        loop
            invariant
                node.wf(),
                node.restricted_parent_spec(len as nat) == self.restricted_parent_spec(len as nat),
            decreases 62 - node.level,
        {
            if node.level >= 62 {
                return None;
            }
            proof {
                lemma_parent_wf(node);
            }
            let p = TreeNode { level: node.level + 1, pos: node.pos / 2 };
            if p.in_order() < len {
                return Some(p);
            }
            node = p;
        }
    }
}

/// The block numbers of a well-formed node fit in 63 bits.
pub proof fn lemma_node_bounds(n: TreeNode)
    requires
        n.wf(),
    ensures
        n.start_spec() < n.mid_spec() < n.end_spec() <= 0x8000_0000_0000_0000,
        n.mid_spec() == n.start_spec() + n.half_span_spec(),
        n.end_spec() == n.mid_spec() + n.half_span_spec(),
        n.half_span_spec() >= 1,
        0 <= n.in_order_spec(),
        2 * n.pos + 2 <= 0x8000_0000_0000_0000,
        n.half_span_spec() <= 0x4000_0000_0000_0000,
{
    let s = pow2(n.level as nat);
    let p = pow2((62 - n.level) as nat);
    lemma_pow2_pos(n.level as nat);
    lemma_pow2_monotone((62 - n.level) as nat, 62);
    lemma_pow2_monotone(n.level as nat, 62);
    lemma_pow2_adds((62 - n.level) as nat, n.level as nat);
    lemma2_to64_rest();
    let pos = n.pos as int;
    assert((2 * pos + 2) * s <= 0x8000_0000_0000_0000) by (nonlinear_arith)
        requires
            0 <= pos < p,
            p * s == 0x4000_0000_0000_0000,
            s >= 1,
    ;
    assert((2 * pos + 1) * s == 2 * pos * s + s && (2 * pos + 2) * s == (2 * pos + 1) * s + s
        && 2 * pos * s >= 0) by (nonlinear_arith)
        requires
            0 <= pos,
            s >= 1,
    ;
}

/// The children of a well-formed node above level 0 are well formed and halve
/// its block range.
pub proof fn lemma_children_wf(n: TreeNode)
    requires
        n.wf(),
        n.level > 0,
    ensures
        n.left_child_spec().wf(),
        n.right_child_spec().wf(),
        2 * n.pos + 1 <= u64::MAX,
        n.left_child_spec().start_spec() == n.start_spec(),
        n.left_child_spec().end_spec() == n.mid_spec(),
        n.right_child_spec().start_spec() == n.mid_spec(),
        n.right_child_spec().end_spec() == n.end_spec(),
        n.left_child_spec().in_order_spec() < n.in_order_spec() < n.right_child_spec().in_order_spec(),
{
    lemma_pow2_unfold((63 - n.level) as nat);
    lemma_pow2_unfold(n.level as nat);
    lemma_pow2_monotone((63 - n.level) as nat, 62);
    lemma2_to64_rest();
    let s = pow2((n.level - 1) as nat);
    let pos = n.pos as int;
    lemma_pow2_pos((n.level - 1) as nat);
    assert(2 * (2 * pos) * s == 2 * pos * (2 * s) && (2 * (2 * pos) + 2) * s == (2 * pos + 1) * (2
        * s) && 2 * (2 * pos + 1) * s == (2 * pos + 1) * (2 * s) && (2 * (2 * pos + 1) + 2) * s == (
    2 * pos + 2) * (2 * s) && (2 * (2 * pos) + 1) * s == (2 * pos + 1) * (2 * s) - s && (2 * (2
        * pos + 1) + 1) * s == (2 * pos + 1) * (2 * s) + s) by (nonlinear_arith);
}

/// The parent of a well-formed node below level 62 is well formed.
pub proof fn lemma_parent_wf(n: TreeNode)
    requires
        n.wf(),
        n.level < 62,
    ensures
        n.parent_spec().wf(),
        n.parent_spec().level == n.level + 1,
{
    lemma_pow2_unfold((62 - n.level) as nat);
}


/// The level of the root of a tree with `n` leaves: the least `l` with
/// `2^l >= n`.
pub open spec fn root_level(n: nat) -> nat
    decreases n,
{
    if n <= 1 {
        0
    } else {
        1 + root_level((n + 1) / 2)
    }
}

/// The root level `l` of a tree with `n >= 1` leaves has `2^l >= n`, and
/// `2^(l-1) < n` where `l > 0`.
pub proof fn lemma_root_level(n: nat)
    requires
        n >= 1,
    ensures
        pow2(root_level(n)) >= n,
        root_level(n) > 0 ==> pow2((root_level(n) - 1) as nat) < n,
        n <= pow2(54) ==> root_level(n) <= 54,
    decreases n,
{
    lemma2_to64();
    if n > 1 {
        let m = (n + 1) / 2;
        lemma_root_level(m);
        lemma_pow2_unfold(root_level(n));
        if root_level(m) > 0 {
            lemma_pow2_unfold(root_level(m));
        }
        if n <= pow2(54) {
            lemma_pow2_unfold(54);
            lemma_pow2_monotone(0, 53);
        }
    }
}

/// The geometry of the hash tree over a blob: its size in bytes and its block
/// size, the chunk at which the blob starts, and whether the root of this tree
/// is hashed as the root of a BLAKE3 tree.
#[derive(Clone, Copy, Debug, PartialEq, Eq, Structural)]
pub struct BaoTree {
    /// The chunk number of the first chunk of the blob.
    pub start_chunk: ChunkNum,
    /// The size of the blob in bytes.
    pub size: ByteNum,
    /// The block size of the tree.
    pub block_size: BlockSize,
    /// True if the root of the tree is finalized as a BLAKE3 root.
    pub is_root: bool,
}

impl BaoTree {
    /// A tree whose block size is well formed and whose bytes can be addressed
    /// in 64 bits. A tree whose root is hashed as a root starts at chunk 0.
    pub open spec fn wf(self) -> bool {
        &&& self.block_size.wf()
        &&& self.start_chunk.0 * 1024 + self.size.0 <= u64::MAX
        &&& self.is_root ==> self.start_chunk.0 == 0
    }

    /// The number of bytes in a block.
    pub open spec fn block_bytes(self) -> nat {
        self.block_size.bytes_spec()
    }

    /// The number of chunks of the blob.
    pub open spec fn chunks_spec(self) -> nat {
        self.size.chunks_spec()
    }

    /// The number of blocks of the blob, rounded up, and 1 for an empty blob.
    pub open spec fn blocks_spec(self) -> nat {
        let bb = self.block_bytes() as int;
        let size = self.size.0 as int;
        let q = size / bb + if size % bb != 0 {
            1int
        } else {
            0int
        };
        if q <= 0 {
            1
        } else {
            q as nat
        }
    }

    /// The number of leaves of the tree: one for every pair of blocks.
    pub open spec fn leaf_count(self) -> nat {
        (self.blocks_spec() + 1) / 2
    }

    /// The number of nodes of the tree.
    pub open spec fn filled_size_spec(self) -> nat {
        (2 * self.leaf_count() - 1) as nat
    }

    /// The root of the tree.
    pub open spec fn root_spec(self) -> TreeNode {
        TreeNode { level: root_level(self.leaf_count()) as u32, pos: 0 }
    }

    /// True if `node` is a node of the tree.
    pub open spec fn contains(self, node: TreeNode) -> bool {
        node.wf() && node.in_order_spec() < self.filled_size_spec()
    }

    /// True if the hash pair of `node` is kept in an outboard: `node` is a node
    /// of the tree, and it is above level 0 or its right block holds data.
    pub open spec fn is_persisted_spec(self, node: TreeNode) -> bool {
        self.contains(node) && (node.level > 0 || node.mid_spec() < self.blocks_spec())
    }

    /// True if `node` is a leaf of the tree whose right block holds no data.
    pub open spec fn is_half_leaf_spec(self, node: TreeNode) -> bool {
        self.contains(node) && node.level == 0 && node.mid_spec() >= self.blocks_spec()
    }

    /// The number of the chunk at which block `b` starts.
    pub open spec fn block_chunk_spec(self, b: nat) -> nat {
        (self.start_chunk.0 + b * self.block_size.chunks_spec()) as nat
    }

    /// The byte offset at which block `b` starts, and the end of the blob for
    /// a block beyond it.
    pub open spec fn block_byte_spec(self, b: nat) -> nat {
        let rel = b * self.block_bytes();
        (self.start_chunk.0 * 1024 + if rel <= self.size.0 {
            rel
        } else {
            self.size.0 as nat
        }) as nat
    }

    /// The tree over a blob of `size` bytes that starts at chunk 0.
    pub fn new(size: ByteNum, block_size: BlockSize) -> (t: Self)
        ensures
            t == (BaoTree { start_chunk: ChunkNum(0), size, block_size, is_root: true }),
    {
        BaoTree { start_chunk: ChunkNum(0), size, block_size, is_root: true }
    }

    /// The tree over a part of a blob of `size` bytes that starts at chunk
    /// `start_chunk`. Its root is hashed as a root if it starts at chunk 0.
    pub fn new_with_start_chunk(size: ByteNum, block_size: BlockSize, start_chunk: ChunkNum) -> (t:
        Self)
        ensures
            t == (BaoTree { start_chunk, size, block_size, is_root: start_chunk.0 == 0 }),
    {
        BaoTree { start_chunk, size, block_size, is_root: start_chunk.0 == 0 }
    }

    /// The size of the blob in bytes.
    pub fn size(&self) -> (r: ByteNum)
        ensures
            r == self.size,
    {
        self.size
    }

    /// The block size of the tree.
    pub fn block_size(&self) -> (r: BlockSize)
        ensures
            r == self.block_size,
    {
        self.block_size
    }

    /// The number of chunks in a block.
    pub fn chunk_group_chunks(&self) -> (r: ChunkNum)
        requires
            self.wf(),
        ensures
            r.0 == self.block_size.chunks_spec(),
    {
        ChunkNum(pow2_u64(self.block_size.0 as u32))
    }

    /// The number of bytes in a block.
    pub fn chunk_group_bytes(&self) -> (r: ByteNum)
        requires
            self.wf(),
        ensures
            r.0 == self.block_bytes(),
    {
        proof {
            lemma_block_bytes_bound(self.block_size);
        }
        ByteNum(1024 * pow2_u64(self.block_size.0 as u32))
    }

    /// The number of chunks of the blob.
    pub fn chunks(&self) -> (r: ChunkNum)
        ensures
            r.0 == self.chunks_spec(),
    {
        self.size.chunks()
    }

    /// The number of blocks of the blob, rounded up, and 1 for an empty blob.
    pub fn blocks(&self) -> (r: u64)
        requires
            self.wf(),
        ensures
            r == self.blocks_spec(),
    {
        proof {
            lemma_tree_bounds(*self);
        }
        let bb: u64 = self.chunk_group_bytes().0;
        let q: u64 = self.size.0 / bb;
        let b: u64 = if self.size.0 % bb != 0 {
            q + 1
        } else {
            q
        };
        if b == 0 {
            1
        } else {
            b
        }
    }

    /// The number of nodes of the tree.
    pub fn filled_size(&self) -> (r: u64)
        requires
            self.wf(),
        ensures
            r == self.filled_size_spec(),
    {
        proof {
            lemma_tree_bounds(*self);
        }
        let n: u64 = (self.blocks() + 1) / 2;
        2 * n - 1
    }

    /// The root of the tree.
    pub fn root(&self) -> (r: TreeNode)
        requires
            self.wf(),
        ensures
            r == self.root_spec(),
            self.contains(r),
    {
        proof {
            lemma_tree_bounds(*self);
        }
        let mut m: u64 = (self.blocks() + 1) / 2;
        let mut level: u32 = 0;
        while m > 1
            invariant
                root_level(self.leaf_count()) == level + root_level(m as nat),
                root_level(self.leaf_count()) <= 54,
                m <= 0x20_0000_0000_0000,
            decreases m,
        {
            m = (m + 1) / 2;
            level = level + 1;
        }
        TreeNode { level, pos: 0 }
    }

    /// The number of hash pairs in an outboard of the tree.
    pub fn outboard_hash_pairs(&self) -> (r: u64)
        requires
            self.wf(),
        ensures
            r == self.blocks_spec() - 1,
    {
        self.blocks() - 1
    }

    /// The size in bytes of an outboard for a blob of `size` bytes: 8 bytes
    /// for the size and 64 bytes for every hash pair.
    pub fn outboard_size(size: ByteNum, block_size: BlockSize) -> (r: u64)
        requires
            block_size.wf(),
        ensures
            r == 8 + 64 * (BaoTree::new_spec(size, block_size).blocks_spec() - 1),
    {
        let tree = BaoTree::new(size, block_size);
        proof {
            lemma_tree_bounds(tree);
        }
        tree.outboard_hash_pairs() * 64 + 8
    }

    /// The tree over a blob of `size` bytes that starts at chunk 0.
    pub open spec fn new_spec(size: ByteNum, block_size: BlockSize) -> BaoTree {
        BaoTree { start_chunk: ChunkNum(0), size, block_size, is_root: true }
    }

    /// True if `node` is a node of the tree.
    pub fn contains_node(&self, node: TreeNode) -> (b: bool)
        requires
            self.wf(),
        ensures
            b == self.contains(node),
    {
        if node.level > 62 {
            return false;
        }
        if node.pos >= pow2_u64(62 - node.level) {
            return false;
        }
        node.in_order() < self.filled_size()
    }

    /// True if the hash pair of `node` is kept in an outboard.
    pub fn is_persisted(&self, node: TreeNode) -> (b: bool)
        requires
            self.wf(),
        ensures
            b == self.is_persisted_spec(node),
    {
        self.contains_node(node) && (node.level > 0 || node.mid() < self.blocks())
    }

    /// The number of the chunk at which block `b` starts.
    pub fn block_chunk(&self, b: u64) -> (r: ChunkNum)
        requires
            self.wf(),
            b <= self.blocks_spec() + 1,
        ensures
            r.0 == self.block_chunk_spec(b as nat),
    {
        proof {
            lemma_tree_bounds(*self);
            lemma_block_chunk_bound(*self, b as nat);
        }
        ChunkNum(self.start_chunk.0 + b * self.chunk_group_chunks().0)
    }

    /// The byte offset at which block `b` starts, and the end of the blob for
    /// a block beyond it.
    pub fn block_byte(&self, b: u64) -> (r: ByteNum)
        requires
            self.wf(),
        ensures
            r.0 == self.block_byte_spec(b as nat),
    {
        proof {
            lemma_block_byte(*self, b as nat);
        }
        let off: u64 = self.start_chunk.0 * 1024;
        if b < self.blocks() {
            ByteNum(off + b * self.chunk_group_bytes().0)
        } else {
            ByteNum(off + self.size.0)
        }
    }

    /// The number of the first chunk under a node of the tree.
    pub fn chunk_num(&self, node: TreeNode) -> (r: ChunkNum)
        requires
            self.wf(),
            self.contains(node),
        ensures
            r.0 == self.block_chunk_spec(node.start_spec()),
    {
        proof {
            lemma_contains_bounds(*self, node);
            lemma_node_bounds(node);
        }
        self.block_chunk(node.start())
    }

    /// The bytes under a node of the tree, as a half-open range.
    pub fn byte_range(&self, node: TreeNode) -> (r: (ByteNum, ByteNum))
        requires
            self.wf(),
            node.wf(),
        ensures
            r.0.0 == self.block_byte_spec(node.start_spec()),
            r.1.0 == self.block_byte_spec(node.end_spec()),
    {
        (self.block_byte(node.start()), self.block_byte(node.end()))
    }

    /// The bytes under a leaf, as the start of its left block, the start of
    /// its right block and its end. The last two are equal for a leaf whose
    /// right block holds no data.
    pub fn leaf_byte_ranges3(&self, leaf: TreeNode) -> (r: (ByteNum, ByteNum, ByteNum))
        requires
            self.wf(),
            leaf.wf(),
        ensures
            r.0.0 == self.block_byte_spec(leaf.start_spec()),
            r.1.0 == self.block_byte_spec(leaf.mid_spec()),
            r.2.0 == self.block_byte_spec(leaf.end_spec()),
    {
        (self.block_byte(leaf.start()), self.block_byte(leaf.mid()), self.block_byte(leaf.end()))
    }
}

/// The counts of a well-formed tree fit comfortably in 64 bits, and its root
/// is one of its nodes.
pub proof fn lemma_tree_bounds(t: BaoTree)
    requires
        t.wf(),
    ensures
        1024 <= t.block_bytes() <= 0x8000_0000,
        1 <= t.block_size.chunks_spec() <= 0x20_0000,
        t.block_bytes() == 1024 * t.block_size.chunks_spec(),
        1 <= t.blocks_spec() <= 0x40_0000_0000_0000,
        1 <= t.leaf_count() <= 0x20_0000_0000_0000,
        1 <= t.filled_size_spec(),
        (t.size.0 as int) / (t.block_bytes() as int) <= 0x3f_ffff_ffff_ffff,
        t.chunks_spec() <= 0x40_0000_0000_0000,
        t.start_chunk.0 + t.chunks_spec() <= 0x40_0000_0000_0000,
        root_level(t.leaf_count()) <= 54,
        t.contains(t.root_spec()),
{
    lemma_block_bytes_bound(t.block_size);
    let bb = t.block_bytes() as int;
    lemma_div_is_ordered_by_denominator(t.size.0 as int, 1024, bb);
    lemma2_to64();
    lemma2_to64_rest();
    let n = t.leaf_count();
    lemma_root_level(n);
    let r = t.root_spec();
    let l = root_level(n);
    lemma_pow2_monotone((62 - l) as nat, 62);
    lemma_pow2_pos((62 - l) as nat);
    assert(r.wf());
    if l > 0 {
        lemma_pow2_unfold(l);
    }
    assert((2 * 0 + 1) * pow2(l) == pow2(l)) by (nonlinear_arith);
}

/// Block `b` starts at or after the end of the blob exactly when it is one
/// of the blocks the blob does not have.
pub proof fn lemma_block_byte(t: BaoTree, b: nat)
    requires
        t.wf(),
    ensures
        b < t.blocks_spec() ==> b * t.block_bytes() <= t.size.0,
        b < t.blocks_spec() && t.size.0 > 0 ==> b * t.block_bytes() < t.size.0,
        b >= t.blocks_spec() ==> b * t.block_bytes() >= t.size.0,
        t.start_chunk.0 * 1024 + t.size.0 <= u64::MAX,
{
    lemma_block_bytes_bound(t.block_size);
    let bb = t.block_bytes() as int;
    let size = t.size.0 as int;
    let q = size / bb;
    let r = size % bb;
    lemma_fundamental_div_mod(size, bb);
    let bi = b as int;
    assert(bi <= q ==> bi * bb <= q * bb) by (nonlinear_arith)
        requires
            bb > 0,
    ;
    assert(bi >= q + 1 ==> bi * bb >= q * bb + bb) by (nonlinear_arith)
        requires
            bb > 0,
    ;
    assert(bi <= q - 1 ==> bi * bb <= q * bb - bb) by (nonlinear_arith)
        requires
            bb > 0,
    ;
    assert(bi >= q ==> bi * bb >= q * bb) by (nonlinear_arith)
        requires
            bb > 0,
    ;
    assert(bb * q == q * bb) by (nonlinear_arith);
    assert(0 * bb == 0);
}

/// The chunk number at which a block up to one past the blocks of the blob
/// starts fits in 64 bits.
pub proof fn lemma_block_chunk_bound(t: BaoTree, b: nat)
    requires
        t.wf(),
        b <= t.blocks_spec() + 1,
    ensures
        t.block_chunk_spec(b) <= 0x80_0000_0000_0000,
        b * t.block_size.chunks_spec() <= 0x40_0000_0000_0000 + 0x40_0000,
{
    lemma_tree_bounds(t);
    let c = t.block_size.chunks_spec() as int;
    let bb = t.block_bytes() as int;
    let blocks = t.blocks_spec() as int;
    if blocks >= 2 {
        lemma_block_byte(t, (blocks - 1) as nat);
        assert((blocks - 1) * bb == (blocks - 1) * c * 1024) by (nonlinear_arith)
            requires
                bb == 1024 * c,
        ;
    }
    let bi = b as int;
    assert(bi * c <= (blocks - 1) * c + 2 * c) by (nonlinear_arith)
        requires
            bi <= blocks + 1,
            c >= 1,
    ;
    assert((blocks - 1) * c >= 0) by (nonlinear_arith)
        requires
            blocks >= 1,
            c >= 1,
    ;
    if blocks < 2 {
        assert((blocks - 1) * c == 0) by (nonlinear_arith)
            requires
                blocks == 1,
        ;
    }
}

/// The right half of a node of the tree starts within the blocks of the
/// blob, or just after them for a leaf whose right block holds no data.
pub proof fn lemma_contains_bounds(t: BaoTree, node: TreeNode)
    requires
        t.wf(),
        t.contains(node),
    ensures
        node.mid_spec() <= t.blocks_spec(),
        node.level > 0 ==> node.mid_spec() < t.blocks_spec(),
        node.level > 0 ==> node.mid_spec() < t.filled_size_spec(),
        node.start_spec() < t.blocks_spec(),
        node.level == 0 ==> node.end_spec() <= t.blocks_spec() + 1,
        node.level <= 54,
{
    lemma_tree_bounds(t);
    lemma_node_bounds(node);
    lemma2_to64();
    let pos = node.pos as int;
    if node.level > 0 {
        lemma_pow2_unfold(node.level as nat);
        let s = pow2((node.level - 1) as nat) as int;
        assert((2 * pos + 1) * (2 * s) == 2 * ((2 * pos + 1) * s)) by (nonlinear_arith);
    }
    if node.level > 54 {
        lemma_pow2_monotone(55, node.level as nat);
        lemma2_to64_rest();
        let s = pow2(node.level as nat) as int;
        assert((2 * pos + 1) * s >= s) by (nonlinear_arith)
            requires
                pos >= 0,
                s >= 0,
        ;
    }
}


/// Descending the left spine from a node whose first block has a leaf in a
/// tree of `len` nodes ends at a node that starts at the same block.
pub proof fn lemma_descend(c: TreeNode, len: nat)
    requires
        c.wf(),
        c.start_spec() < len,
    ensures
        c.descend_spec(len) is Some,
        c.descend_spec(len)->0.wf(),
        c.descend_spec(len)->0.start_spec() == c.start_spec(),
        c.descend_spec(len)->0.level <= c.level,
        c.descend_spec(len)->0.in_order_spec() < len,
        c.descend_spec(len)->0.end_spec() <= c.end_spec(),
        c.descend_spec(len)->0 == c || c.descend_spec(len)->0.end_spec() > len,
    decreases c.level,
{
    lemma_node_bounds(c);
    if c.in_order_spec() < len {
    } else if c.level == 0 {
        lemma2_to64();
    } else {
        lemma_children_wf(c);
        let l = c.left_child_spec();
        lemma_descend(l, len);
        lemma_node_bounds(l);
    }
}

/// The children of a node of the tree above level 0 are nodes of the tree:
/// the left child, and the right child within the tree, which starts at the
/// middle of the node.
pub proof fn lemma_children_contained(t: BaoTree, node: TreeNode)
    requires
        t.wf(),
        t.contains(node),
        node.level > 0,
    ensures
        t.contains(node.left_child_spec()),
        node.right_descendant_spec(t.filled_size_spec()) is Some,
        t.contains(node.right_descendant_spec(t.filled_size_spec())->0),
        node.right_descendant_spec(t.filled_size_spec())->0.level < node.level,
        node.right_descendant_spec(t.filled_size_spec())->0.start_spec() == node.mid_spec(),
        node.right_descendant_spec(t.filled_size_spec())->0.end_spec() <= node.end_spec(),
        node.right_descendant_spec(t.filled_size_spec())->0.in_order_spec() > node.in_order_spec(),
        node.right_descendant_spec(t.filled_size_spec())->0.end_spec() == node.end_spec()
            || node.right_descendant_spec(t.filled_size_spec())->0.end_spec() > t.filled_size_spec(),
{
    lemma_children_wf(node);
    lemma_contains_bounds(t, node);
    lemma_tree_bounds(t);
    let c = node.right_child_spec();
    lemma_descend(c, t.filled_size_spec());
    lemma_node_bounds(c.descend_spec(t.filled_size_spec())->0);
}


/// The parent within a tree is above the node and is a node of the tree.
pub proof fn lemma_restricted_parent(c: TreeNode, len: nat)
    requires
        c.wf(),
    ensures
        c.restricted_parent_spec(len) matches Some(p) ==> p.level > c.level && p.wf()
            && p.in_order_spec() < len,
    decreases 62 - c.level,
{
    if c.level < 62 {
        lemma_parent_wf(c);
        let p = c.parent_spec();
        if p.in_order_spec() >= len {
            lemma_restricted_parent(p, len);
        }
    }
}

/// The parent within a tree of the left child of a node of the tree is that
/// node.
pub proof fn lemma_left_child_parent(node: TreeNode, len: nat)
    requires
        node.wf(),
        node.level > 0,
        node.in_order_spec() < len,
    ensures
        node.left_child_spec().restricted_parent_spec(len) == Some(node),
{
    lemma_children_wf(node);
    assert(node.left_child_spec().parent_spec() == node);
}

/// Descending the left spine within a tree does not change the parent
/// within the tree.
pub proof fn lemma_descend_parent(c: TreeNode, len: nat)
    requires
        c.wf(),
        c.level < 62,
        c.descend_spec(len) is Some,
    ensures
        c.descend_spec(len)->0.restricted_parent_spec(len) == c.restricted_parent_spec(len),
    decreases c.level,
{
    if c.in_order_spec() < len {
    } else if c.level == 0 {
    } else {
        let l = c.left_child_spec();
        lemma_children_wf(c);
        lemma_descend_parent(l, len);
        assert(l.parent_spec() == c);
    }
}

/// The parent within a tree of the right child within the tree of a node of
/// the tree is that node.
pub proof fn lemma_right_descendant_parent(node: TreeNode, len: nat)
    requires
        node.wf(),
        node.level > 0,
        node.in_order_spec() < len,
        node.right_descendant_spec(len) is Some,
    ensures
        node.right_descendant_spec(len)->0.restricted_parent_spec(len) == Some(node),
{
    lemma_children_wf(node);
    let rc = node.right_child_spec();
    lemma_descend_parent(rc, len);
    assert(rc.parent_spec() == node);
}

/// A leftmost node whose block range covers a tree has no parent within the
/// tree.
pub proof fn lemma_top_has_no_parent(node: TreeNode, len: nat)
    requires
        node.wf(),
        node.pos == 0,
        len <= 2 * pow2(node.level as nat) - 1,
    ensures
        node.restricted_parent_spec(len) is None,
    decreases 62 - node.level,
{
    if node.level < 62 {
        lemma_parent_wf(node);
        let p = node.parent_spec();
        lemma_pow2_unfold((node.level + 1) as nat);
        lemma_pow2_pos(node.level as nat);
        assert((2 * 0 + 1) * pow2(p.level as nat) == pow2(p.level as nat)) by (nonlinear_arith);
        lemma_top_has_no_parent(p, len);
    }
}

/// The root of a tree has no parent within the tree.
pub proof fn lemma_root_has_no_parent(t: BaoTree)
    requires
        t.wf(),
    ensures
        t.root_spec().restricted_parent_spec(t.filled_size_spec()) is None,
{
    lemma_tree_bounds(t);
    lemma_root_level(t.leaf_count());
    lemma_top_has_no_parent(t.root_spec(), t.filled_size_spec());
}


/// The block range of the root of a tree starts at block 0 and ends at or
/// after the blocks of the blob.
pub proof fn lemma_root_covers(tree: BaoTree)
    requires
        tree.wf(),
    ensures
        tree.root_spec().start_spec() == 0,
        tree.root_spec().end_spec() >= tree.blocks_spec(),
        tree.block_chunk_spec(0) == tree.start_chunk.0,
{
    lemma_tree_bounds(tree);
    lemma_root_level(tree.leaf_count());
    let root = tree.root_spec();
    let p = pow2(root.level as nat) as int;
    assert(2 * 0 * p == 0 && (2 * 0 + 2) * p == 2 * p) by (nonlinear_arith);
    assert(0 * tree.block_size.chunks_spec() == 0);
}

} // verus!
