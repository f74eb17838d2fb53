//! Outboards that are kept in memory.
//!
//! An outboard in memory keeps the hash pairs of a tree as 64 bytes each,
//! one after the other in pre-order or in post-order, without the size of
//! the blob.
use vstd::prelude::*;
use crate::codec::HashPairs;
use crate::io::parse_hash_pair;
use crate::io::error::IoErrorKind;
use crate::io::sync::{Outboard, OutboardMut};
use crate::offsets::{lemma_persisted_post_distinct, lemma_persisted_pre_distinct};
use crate::tree::{lemma_tree_bounds, BaoTree, BlockSize, ByteNum, TreeNode};

verus! {

/// The hash pair in the `k`-th place of the bytes of an outboard.
pub open spec fn pair_at(data: Seq<u8>, k: int) -> (Seq<u8>, Seq<u8>) {
    (data.subrange(64 * k, 64 * k + 32), data.subrange(64 * k + 32, 64 * k + 64))
}

/// True if `n` has a place in the sequence `order` for which `data` has a
/// hash pair.
pub open spec fn holds(order: Seq<TreeNode>, data: Seq<u8>, n: TreeNode) -> bool {
    exists|k: int| 0 <= k < order.len() && #[trigger] order[k] == n && 64 * k + 64 <= data.len()
}

/// The place of `n` in the sequence `order`.
pub open spec fn place(order: Seq<TreeNode>, n: TreeNode) -> int {
    choose|k: int| 0 <= k < order.len() && #[trigger] order[k] == n
}

/// The hash pairs that the bytes `data` hold for the nodes of the sequence
/// `order`: for the node in the `k`-th place the `k`-th 64 bytes.
pub open spec fn stored_pairs(order: Seq<TreeNode>, data: Seq<u8>) -> HashPairs {
    Map::new(|n: TreeNode| holds(order, data, n), |n: TreeNode| pair_at(data, place(order, n)))
}

/// True if no node stands twice in a sequence.
pub open spec fn distinct(order: Seq<TreeNode>) -> bool {
    forall|i: int, j: int| 0 <= i < j < order.len() ==> order[i] != order[j]
}

/// In a sequence without repetition, the hash pair of the node in the
/// `k`-th place is the `k`-th of the bytes, if the bytes reach that far.
pub proof fn lemma_stored_lookup(order: Seq<TreeNode>, data: Seq<u8>, k: int)
    requires
        distinct(order),
        0 <= k < order.len(),
    ensures
        stored_pairs(order, data).contains_key(order[k]) <==> 64 * k + 64 <= data.len(),
        64 * k + 64 <= data.len() ==> stored_pairs(order, data)[order[k]] == pair_at(data, k),
        place(order, order[k]) == k,
{
    let n = order[k];
    let p = place(order, n);
    assert(0 <= p < order.len() && order[p] == n);
    if p < k {
        assert(order[p] != order[k]);
    }
    if k < p {
        assert(order[k] != order[p]);
    }
    if holds(order, data, n) {
        let other = choose|other: int|
            0 <= other < order.len() && #[trigger] order[other] == n && 64 * other + 64 <= data.len();
        if other < k {
            assert(order[other] != order[k]);
        }
        if k < other {
            assert(order[k] != order[other]);
        }
    }
}

/// The bytes of an outboard after the hash pair `pair` was written over the
/// 64 bytes in the `k`-th place.
pub open spec fn with_pair(data: Seq<u8>, k: int, pair: (Seq<u8>, Seq<u8>)) -> Seq<u8> {
    data.take(64 * k) + pair.0 + pair.1 + data.skip(64 * k + 64)
}

/// What saving the hash pair `pair` of `node` does to the bytes `data` of
/// an outboard in memory that keeps its pairs in the order `order`, where
/// `persisted` says whether an outboard keeps the pair of the node: nothing
/// for a node whose pair is not kept; the pair written over the 64 bytes in
/// the place of the node, if the bytes reach that far; and else the
/// failure of a write beyond the end, with the bytes as they were.
pub open spec fn saved(
    order: Seq<TreeNode>,
    data: Seq<u8>,
    persisted: bool,
    node: TreeNode,
    pair: (Seq<u8>, Seq<u8>),
) -> (Seq<u8>, Result<(), IoErrorKind>) {
    let k = place(order, node);
    if !persisted {
        (data, Ok(()))
    } else if 64 * k + 64 <= data.len() {
        (with_pair(data, k, pair), Ok(()))
    } else {
        (data, Err(IoErrorKind::UnexpectedEof))
    }
}

/// Reads the hash pair in the `k`-th place of the bytes of an outboard.
fn load_pair(data: &Vec<u8>, k: u64) -> (r: Result<(crate::hash::Hash, crate::hash::Hash), IoErrorKind>)
    requires
        k <= 0x40_0000_0000_0000,
    ensures
        match r {
            Ok(pair) => 64 * k + 64 <= data@.len() && (pair.0@, pair.1@) == pair_at(data@, k as int),
            Err(e) => e == IoErrorKind::UnexpectedEof && 64 * k + 64 > data@.len(),
        },
{
    let end: u64 = 64 * k + 64;
    if end > data.len() as u64 {
        return Err(IoErrorKind::UnexpectedEof);
    }
    let start: usize = (64 * k) as usize;
    let buf = vstd::slice::slice_subrange(data.as_slice(), start, start + 64);
    let pair = parse_hash_pair(buf);
    proof {
        assert(buf@.subrange(0, 32) =~= data@.subrange(64 * k, 64 * k + 32));
        assert(buf@.subrange(32, 64) =~= data@.subrange(64 * k + 32, 64 * k + 64));
    }
    Ok(pair)
}

/// Writes a hash pair to the `k`-th place of the bytes of an outboard.
fn store_pair(data: &mut Vec<u8>, k: u64, pair: &(crate::hash::Hash, crate::hash::Hash)) -> (r:
    Result<(), IoErrorKind>)
    requires
        k <= 0x40_0000_0000_0000,
    ensures
        final(data)@.len() == old(data)@.len(),
        match r {
            Ok(()) => 64 * k + 64 <= old(data)@.len() && pair_at(final(data)@, k as int) == (
                pair.0@,
                pair.1@,
            ) && final(data)@ == with_pair(old(data)@, k as int, (pair.0@, pair.1@))
                && forall|j: int|
                0 <= j < old(data)@.len() && !(64 * k <= j < 64 * k + 64) ==> final(data)@[j]
                    == old(data)@[j],
            Err(e) => e == IoErrorKind::UnexpectedEof && 64 * k + 64 > old(data)@.len()
                && final(data)@ == old(data)@,
        },
{
    let end: u64 = 64 * k + 64;
    let n: usize = data.len();
    if end > n as u64 {
        return Err(IoErrorKind::UnexpectedEof);
    }
    let o: usize = (64 * k) as usize;
    let mut i: usize = 0;
    while i < 32
        invariant
            i <= 32,
            o == 64 * k,
            o + 64 <= n,
            data@.len() == n,
            n == old(data)@.len(),
            forall|j: int| 0 <= j < n && !(o <= j < o + 64) ==> data@[j] == old(data)@[j],
            forall|j: int| 0 <= j < i ==> data@[o + j] == pair.0@[j] && data@[o + 32 + j] == pair.1@[j],
        decreases 32 - i,
    {
        data.set(o + i, pair.0.0[i]);
        data.set(o + 32 + i, pair.1.0[i]);
        i = i + 1;
    }
    proof {
        assert(data@.subrange(64 * k, 64 * k + 32) =~= pair.0@);
        assert(data@.subrange(64 * k + 32, 64 * k + 64) =~= pair.1@);
        assert(data@ =~= with_pair(old(data)@, k as int, (pair.0@, pair.1@)));
    }
    Ok(())
}

/// After the hash pair in the `k`-th place was written, the bytes hold the
/// hash pairs that they held, and the new one for the node in that place.
pub proof fn lemma_stored_update(
    order: Seq<TreeNode>,
    old_data: Seq<u8>,
    new_data: Seq<u8>,
    k: int,
    pair: (Seq<u8>, Seq<u8>),
)
    requires
        distinct(order),
        0 <= k < order.len(),
        new_data.len() == old_data.len(),
        64 * k + 64 <= old_data.len(),
        pair_at(new_data, k) == pair,
        forall|j: int|
            0 <= j < old_data.len() && !(64 * k <= j < 64 * k + 64) ==> new_data[j] == old_data[j],
    ensures
        stored_pairs(order, new_data) == stored_pairs(order, old_data).insert(order[k], pair),
{
    let a = stored_pairs(order, new_data);
    let b = stored_pairs(order, old_data).insert(order[k], pair);
    lemma_stored_lookup(order, new_data, k);
    assert forall|n: TreeNode| a.contains_key(n) <==> b.contains_key(n) by {
        if holds(order, new_data, n) {
            let other = choose|other: int|
                0 <= other < order.len() && #[trigger] order[other] == n && 64 * other + 64
                    <= new_data.len();
            assert(order[other] == n && 64 * other + 64 <= old_data.len());
        }
        if holds(order, old_data, n) {
            let other = choose|other: int|
                0 <= other < order.len() && #[trigger] order[other] == n && 64 * other + 64
                    <= old_data.len();
            assert(order[other] == n && 64 * other + 64 <= new_data.len());
        }
    }
    assert forall|n: TreeNode| a.contains_key(n) implies a[n] == b[n] by {
        if n != order[k] {
            let other = choose|other: int|
                0 <= other < order.len() && #[trigger] order[other] == n && 64 * other + 64
                    <= new_data.len();
            lemma_stored_lookup(order, new_data, other);
            lemma_stored_lookup(order, old_data, other);
            assert(other != k);
            assert(new_data.subrange(64 * other, 64 * other + 32) =~= old_data.subrange(
                64 * other,
                64 * other + 32,
            ));
            assert(new_data.subrange(64 * other + 32, 64 * other + 64) =~= old_data.subrange(
                64 * other + 32,
                64 * other + 64,
            ));
        }
    }
    assert(a =~= b);
}

/// An outboard in memory that keeps the hash pairs in pre-order.
#[derive(Debug, Clone, PartialEq, Eq)]
pub struct PreOrderMemOutboard {
    /// The root hash.
    pub root: crate::hash::Hash,
    /// The tree.
    pub tree: BaoTree,
    /// The hash pairs in pre-order, without the size of the blob.
    pub data: Vec<u8>,
}

/// An outboard in memory that keeps the hash pairs in post-order.
#[derive(Debug, Clone, PartialEq, Eq)]
pub struct PostOrderMemOutboard {
    /// The root hash.
    pub root: crate::hash::Hash,
    /// The tree.
    pub tree: BaoTree,
    /// The hash pairs in post-order, without the size of the blob.
    pub data: Vec<u8>,
}

/// All places of the sequence in pre-order are distinct.
pub proof fn lemma_pre_order_distinct(tree: BaoTree)
    requires
        tree.wf(),
    ensures
        distinct(tree.pre_order_persisted()),
{
    lemma_tree_bounds(tree);
    assert forall|i: int, j: int|
        0 <= i < j < tree.pre_order_persisted().len() implies tree.pre_order_persisted()[i]
        != tree.pre_order_persisted()[j] by {
        lemma_persisted_pre_distinct(tree, tree.root_spec(), i, j);
    }
}

/// All places of the sequence in post-order are distinct.
pub proof fn lemma_post_order_distinct(tree: BaoTree)
    requires
        tree.wf(),
    ensures
        distinct(tree.post_order_persisted()),
{
    lemma_tree_bounds(tree);
    assert forall|i: int, j: int|
        0 <= i < j < tree.post_order_persisted().len() implies tree.post_order_persisted()[i]
        != tree.post_order_persisted()[j] by {
        lemma_persisted_post_distinct(tree, tree.root_spec(), i, j);
    }
}

impl PreOrderMemOutboard {
    /// The outboard with the given root hash, tree and hash pairs.
    pub fn new(root: crate::hash::Hash, tree: BaoTree, data: Vec<u8>) -> (r: Self)
        ensures
            r.root == root,
            r.tree == tree,
            r.data == data,
    {
        PreOrderMemOutboard { root, tree, data }
    }

    /// Loads an outboard from the bytes of an outboard file in pre-order:
    /// the size of the blob as 8 bytes, the least significant first, and
    /// the hash pairs. The bytes must have the length that an outboard for
    /// a blob of this size has, or the failure is invalid input.
    pub fn load(root: crate::hash::Hash, outboard: &[u8], block_size: BlockSize) -> (r: Result<
        Self,
        IoErrorKind,
    >)
        requires
            block_size.wf(),
        ensures
            match r {
                Ok(ob) => outboard@.len() >= 8 && ob.root == root && ob.tree == BaoTree::new_spec(
                    ByteNum(vstd::bytes::spec_u64_from_le_bytes(outboard@.subrange(0, 8))),
                    block_size,
                ) && ob.data@ == outboard@.skip(8) && outboard@.len() == 8 + 64 * (
                ob.tree.blocks_spec() - 1) && ob.wf(),
                Err(e) => e == IoErrorKind::InvalidInput && (outboard@.len() < 8 || outboard@.len()
                    != 8 + 64 * (BaoTree::new_spec(
                    ByteNum(vstd::bytes::spec_u64_from_le_bytes(outboard@.subrange(0, 8))),
                    block_size,
                ).blocks_spec() - 1)),
            },
    {
        if outboard.len() < 8 {
            return Err(IoErrorKind::InvalidInput);
        }
        let prefix = vstd::slice::slice_subrange(outboard, 0, 8);
        let len = vstd::bytes::u64_from_le_bytes(prefix);
        let expected_outboard_size = BaoTree::outboard_size(ByteNum(len), block_size);
        let outboard_size = outboard.len() as u64;
        if outboard_size != expected_outboard_size {
            return Err(IoErrorKind::InvalidInput);
        }
        let tree = BaoTree::new(ByteNum(len), block_size);
        let rest = vstd::slice::slice_subrange(outboard, 8, outboard.len());
        assert(rest@ =~= outboard@.skip(8));
        Ok(PreOrderMemOutboard { root, tree, data: vstd::slice::slice_to_vec(rest) })
    }
}

impl Outboard for PreOrderMemOutboard {
    open spec fn wf(&self) -> bool {
        self.tree.wf() && self.tree.start_chunk.0 == 0
    }

    open spec fn root_spec(&self) -> Seq<u8> {
        self.root@
    }

    open spec fn tree_spec(&self) -> BaoTree {
        self.tree
    }

    open spec fn pairs_spec(&self) -> HashPairs {
        stored_pairs(self.tree.pre_order_persisted(), self.data@)
    }

    fn root(&self) -> (h: crate::hash::Hash) {
        self.root
    }

    fn tree(&self) -> (t: BaoTree) {
        self.tree
    }

    fn load(&self, node: TreeNode) -> (r: Result<
        Option<(crate::hash::Hash, crate::hash::Hash)>,
        IoErrorKind,
    >) {
        let offset = match self.tree.pre_order_offset(node) {
            Some(offset) => offset,
            None => {
                return Ok(None);
            },
        };
        proof {
            lemma_pre_order_distinct(self.tree);
            lemma_stored_lookup(self.tree.pre_order_persisted(), self.data@, offset as int);
            lemma_tree_bounds(self.tree);
            crate::offsets::lemma_persisted_count(self.tree, self.tree.root_spec());
        }
        match load_pair(&self.data, offset) {
            Ok(pair) => Ok(Some(pair)),
            Err(e) => Err(e),
        }
    }
}

impl OutboardMut for PreOrderMemOutboard {
    /// Writes the hash pair of a node to its place among the bytes. The
    /// bytes do not grow: a pair whose place lies beyond them is refused.
    fn save(&mut self, node: TreeNode, hash_pair: &(crate::hash::Hash, crate::hash::Hash)) -> (r:
        Result<(), IoErrorKind>)
        ensures
            final(self).root == old(self).root,
            final(self).tree == old(self).tree,
            (final(self).data@, r) == saved(
                old(self).tree.pre_order_persisted(),
                old(self).data@,
                old(self).tree.is_persisted_spec(node),
                node,
                (hash_pair.0@, hash_pair.1@),
            ),
    {
        let offset = match self.tree.pre_order_offset(node) {
            Some(offset) => offset,
            None => {
                return Ok(());
            },
        };
        proof {
            lemma_pre_order_distinct(self.tree);
            lemma_stored_lookup(self.tree.pre_order_persisted(), self.data@, offset as int);
            lemma_tree_bounds(self.tree);
            crate::offsets::lemma_persisted_count(self.tree, self.tree.root_spec());
        }
        let ghost old_data = self.data@;
        match store_pair(&mut self.data, offset, hash_pair) {
            Ok(()) => {
                proof {
                    lemma_stored_update(
                        self.tree.pre_order_persisted(),
                        old_data,
                        self.data@,
                        offset as int,
                        (hash_pair.0@, hash_pair.1@),
                    );
                }
                Ok(())
            },
            Err(e) => Err(e),
        }
    }
}

impl PostOrderMemOutboard {
    /// The outboard of a blob in memory: its root hash is that of the blob,
    /// and it holds for every node the hashes of its two children.
    pub fn create(data: &[u8], block_size: BlockSize) -> (ob: Self)
        requires
            block_size.wf(),
        ensures
            ob.wf(),
            ob.tree == BaoTree::new_spec(ByteNum(data@.len() as u64), block_size),
            ob.root@ == crate::codec::root_hash(ob.tree, data@),
            crate::laws::vouches(ob.tree, data@, ob.pairs_spec()),
            crate::io::sync::complete(ob.tree, ob.pairs_spec()),
    {
        let tree = BaoTree::new(ByteNum(data.len() as u64), block_size);
        let mut pairs: Vec<u8> = Vec::new();
        proof {
            crate::io::sync::lemma_blob_at_zero(data@);
            crate::laws::lemma_post_order_outboard_vouches(tree, data@);
        }
        let root = crate::io::sync::outboard_post_order_impl(tree, data, true, &mut pairs);
        assert(pairs@ =~= crate::codec::post_order_pairs(tree, data@, tree.root_spec()));
        PostOrderMemOutboard { root, tree, data: pairs }
    }

    /// The outboard with the given root hash, tree and hash pairs.
    pub fn new(root: crate::hash::Hash, tree: BaoTree, data: Vec<u8>) -> (r: Self)
        ensures
            r.root == root,
            r.tree == tree,
            r.data == data,
    {
        PostOrderMemOutboard { root, tree, data }
    }

    /// Loads an outboard from the bytes of an outboard file in post-order:
    /// the hash pairs, and the size of the blob as 8 bytes, the least
    /// significant first. The bytes must have the length that an outboard
    /// for a blob of this size has, or the failure is invalid input.
    pub fn load(root: crate::hash::Hash, outboard: &[u8], block_size: BlockSize) -> (r: Result<
        Self,
        IoErrorKind,
    >)
        requires
            block_size.wf(),
        ensures
            match r {
                Ok(ob) => outboard@.len() >= 8 && ob.root == root && ob.tree == BaoTree::new_spec(
                    ByteNum(
                        vstd::bytes::spec_u64_from_le_bytes(
                            outboard@.subrange(outboard@.len() - 8, outboard@.len() as int),
                        ),
                    ),
                    block_size,
                ) && ob.data@ == outboard@.take(outboard@.len() - 8) && outboard@.len() == 8 + 64
                    * (ob.tree.blocks_spec() - 1) && ob.wf(),
                Err(e) => e == IoErrorKind::InvalidInput && (outboard@.len() < 8 || outboard@.len()
                    != 8 + 64 * (BaoTree::new_spec(
                    ByteNum(
                        vstd::bytes::spec_u64_from_le_bytes(
                            outboard@.subrange(outboard@.len() - 8, outboard@.len() as int),
                        ),
                    ),
                    block_size,
                ).blocks_spec() - 1)),
            },
    {
        if outboard.len() < 8 {
            return Err(IoErrorKind::InvalidInput);
        }
        let suffix = vstd::slice::slice_subrange(outboard, outboard.len() - 8, outboard.len());
        let len = vstd::bytes::u64_from_le_bytes(suffix);
        let expected_outboard_size = BaoTree::outboard_size(ByteNum(len), block_size);
        let outboard_size = outboard.len() as u64;
        if outboard_size != expected_outboard_size {
            return Err(IoErrorKind::InvalidInput);
        }
        let tree = BaoTree::new(ByteNum(len), block_size);
        let rest = vstd::slice::slice_subrange(outboard, 0, outboard.len() - 8);
        assert(rest@ =~= outboard@.take(outboard@.len() - 8));
        Ok(PostOrderMemOutboard { root, tree, data: vstd::slice::slice_to_vec(rest) })
    }
}

impl Outboard for PostOrderMemOutboard {
    open spec fn wf(&self) -> bool {
        self.tree.wf() && self.tree.start_chunk.0 == 0
    }

    open spec fn root_spec(&self) -> Seq<u8> {
        self.root@
    }

    open spec fn tree_spec(&self) -> BaoTree {
        self.tree
    }

    open spec fn pairs_spec(&self) -> HashPairs {
        stored_pairs(self.tree.post_order_persisted(), self.data@)
    }

    fn root(&self) -> (h: crate::hash::Hash) {
        self.root
    }

    fn tree(&self) -> (t: BaoTree) {
        self.tree
    }

    fn load(&self, node: TreeNode) -> (r: Result<
        Option<(crate::hash::Hash, crate::hash::Hash)>,
        IoErrorKind,
    >) {
        let offset = match self.tree.post_order_offset(node) {
            Some(offset) => offset,
            None => {
                return Ok(None);
            },
        };
        proof {
            lemma_post_order_distinct(self.tree);
            lemma_stored_lookup(self.tree.post_order_persisted(), self.data@, offset as int);
            lemma_tree_bounds(self.tree);
            crate::offsets::lemma_persisted_count(self.tree, self.tree.root_spec());
        }
        match load_pair(&self.data, offset) {
            Ok(pair) => Ok(Some(pair)),
            Err(e) => Err(e),
        }
    }
}

impl OutboardMut for PostOrderMemOutboard {
    /// Writes the hash pair of a node to its place among the bytes. The
    /// bytes do not grow: a pair whose place lies beyond them is refused.
    fn save(&mut self, node: TreeNode, hash_pair: &(crate::hash::Hash, crate::hash::Hash)) -> (r:
        Result<(), IoErrorKind>)
        ensures
            final(self).root == old(self).root,
            final(self).tree == old(self).tree,
            (final(self).data@, r) == saved(
                old(self).tree.post_order_persisted(),
                old(self).data@,
                old(self).tree.is_persisted_spec(node),
                node,
                (hash_pair.0@, hash_pair.1@),
            ),
    {
        let offset = match self.tree.post_order_offset(node) {
            Some(offset) => offset,
            None => {
                return Ok(());
            },
        };
        proof {
            lemma_post_order_distinct(self.tree);
            lemma_stored_lookup(self.tree.post_order_persisted(), self.data@, offset as int);
            lemma_tree_bounds(self.tree);
            crate::offsets::lemma_persisted_count(self.tree, self.tree.root_spec());
        }
        let ghost old_data = self.data@;
        match store_pair(&mut self.data, offset, hash_pair) {
            Ok(()) => {
                proof {
                    lemma_stored_update(
                        self.tree.post_order_persisted(),
                        old_data,
                        self.data@,
                        offset as int,
                        (hash_pair.0@, hash_pair.1@),
                    );
                }
                Ok(())
            },
            Err(e) => Err(e),
        }
    }
}

} // verus!
