//! Encoding and decoding of slices over byte sequences in memory.
//!
//! A slice is the size of the blob followed by hash pairs and data in the
//! order of the traversal of the tree for a query. There are two forms of
//! it. In the first, all the data of every block that the query reaches is
//! on the wire: [`encode_ranges`] writes it, and [`DecodeSliceIter`],
//! [`decode_ranges_into`] and [`decode_ranges_into_chunks`] read it. In the
//! second, a block of which the query has only a part is replaced by the
//! selection of its chunks: the encoders that validate write it, and the
//! decoder of responses of [`sync`] reads it. Where blocks are chunks, and
//! for the query of all chunks, the two forms are the same.
use vstd::prelude::*;
use std::ops::Range;
use range_collections::RangeSetRef;
use crate::codec::{
    all_readable, fits, lemma_pre_order_fits, node_hash, post_order_outboard, post_order_pairs,
    pushes, readable_wire, root_hash, validated_run, verify_step, RunEnd,
};
use crate::hash::{hash_block, parent_cv};
use crate::io::error::{EncodeError, IoErrorKind, StartDecodeError};
use crate::io::sync::{
    blob_at, decode_run, decode_step, decoder_done, lemma_decode_run_step, outboard_post_order_impl,
    transposed, DecoderView, ItemView, Outboard, PhaseView, Verified,
};
use crate::iter::{
    block_sized, plain_response, pre_order_chunks, BaoChunk, PreOrderChunkIterRef, ResponseChunk,
};
use crate::laws::{all_block_sized, lemma_partial_block_sized};
use crate::ranges::{range_boundaries, range_ok_spec, truncate_ranges, truncate_spec, ChunkRanges};
use crate::stack::HashStack;
use crate::tree::{lemma_tree_bounds, BaoTree, BlockSize, ByteNum, ChunkNum, TreeNode};

pub mod error;
pub mod outboard;
pub mod sync;

verus! {

/// Error when decoding a slice.
///
/// This is a failure of reading or one of the failures of the verifier.
#[derive(Debug, Clone, Copy, PartialEq, Eq, Structural)]
pub enum DecodeError {
    /// Reading failed.
    Io(IoErrorKind),
    /// The hash pair of a node did not match the expected hash.
    ParentHashMismatch(TreeNode),
    /// The data of a leaf did not match the expected hash.
    LeafHashMismatch(ChunkNum),
    /// The query has chunks beyond the tree.
    InvalidQueryRange,
    /// The stream ended within the hash pair of a node.
    ParentNotFound(TreeNode),
    /// The stream ended within the data of a leaf.
    LeafNotFound(ChunkNum),
    /// The stream ended within the size header.
    NotFound,
}

impl DecodeError {
    /// The error for a failed read of the hash pair of `node`:
    /// `ParentNotFound` for a stream that ended early, and else the failure
    /// itself.
    pub fn maybe_parent_not_found(e: IoErrorKind, node: TreeNode) -> (r: Self)
        ensures
            r == (if e == IoErrorKind::UnexpectedEof {
                DecodeError::ParentNotFound(node)
            } else {
                DecodeError::Io(e)
            }),
    {
        if e == IoErrorKind::UnexpectedEof {
            DecodeError::ParentNotFound(node)
        } else {
            DecodeError::Io(e)
        }
    }

    /// The error for a failed read of the data that starts at `chunk`:
    /// `LeafNotFound` for a stream that ended early, and else the failure
    /// itself.
    pub fn maybe_leaf_not_found(e: IoErrorKind, chunk: ChunkNum) -> (r: Self)
        ensures
            r == (if e == IoErrorKind::UnexpectedEof {
                DecodeError::LeafNotFound(chunk)
            } else {
                DecodeError::Io(e)
            }),
    {
        if e == IoErrorKind::UnexpectedEof {
            DecodeError::LeafNotFound(chunk)
        } else {
            DecodeError::Io(e)
        }
    }

    /// The error for an error at the start of decoding.
    pub fn from_start(e: StartDecodeError) -> (r: Self)
        ensures
            r == (match e {
                StartDecodeError::NotFound => DecodeError::NotFound,
                StartDecodeError::Io(k) => DecodeError::Io(k),
            }),
    {
        match e {
            StartDecodeError::NotFound => DecodeError::NotFound,
            StartDecodeError::Io(k) => DecodeError::Io(k),
        }
    }

    /// What kind of failure of reading an error of decoding stands for.
    pub open spec fn io_kind_spec(self) -> IoErrorKind {
        match self {
            DecodeError::Io(k) => k,
            DecodeError::ParentHashMismatch(_) => IoErrorKind::InvalidData,
            DecodeError::LeafHashMismatch(_) => IoErrorKind::InvalidData,
            DecodeError::InvalidQueryRange => IoErrorKind::InvalidInput,
            DecodeError::ParentNotFound(_) => IoErrorKind::UnexpectedEof,
            DecodeError::LeafNotFound(_) => IoErrorKind::UnexpectedEof,
            DecodeError::NotFound => IoErrorKind::UnexpectedEof,
        }
    }

    /// What kind of failure of reading an error of decoding stands for:
    /// the failure itself where it is one, invalid input for a query beyond
    /// the tree, an early end where the stream ended early, and invalid
    /// data for a hash that did not match.
    pub fn io_kind(self) -> (k: IoErrorKind)
        ensures
            k == self.io_kind_spec(),
    {
        match self {
            DecodeError::Io(k) => k,
            DecodeError::ParentHashMismatch(_) => IoErrorKind::InvalidData,
            DecodeError::LeafHashMismatch(_) => IoErrorKind::InvalidData,
            DecodeError::InvalidQueryRange => IoErrorKind::InvalidInput,
            DecodeError::ParentNotFound(_) => IoErrorKind::UnexpectedEof,
            DecodeError::LeafNotFound(_) => IoErrorKind::UnexpectedEof,
            DecodeError::NotFound => IoErrorKind::UnexpectedEof,
        }
    }
}

/// The 64 bytes of a hash pair on the wire: the left hash, then the right.
pub fn combine_hash_pair(l: &crate::hash::Hash, r: &crate::hash::Hash) -> (res: [u8; 64])
    ensures
        res@ == l@ + r@,
{
    let mut res: [u8; 64] = [0u8; 64];
    let mut i: usize = 0;
    while i < 32
        invariant
            i <= 32,
            forall|j: int| 0 <= j < i ==> res@[j] == l@[j] && res@[32 + j] == r@[j],
        decreases 32 - i,
    {
        res[i] = l.0[i];
        res[32 + i] = r.0[i];
        i = i + 1;
    }
    assert(res@ =~= l@ + r@);
    res
}

/// The hash pair whose 64 bytes on the wire are `buf`.
pub fn parse_hash_pair(buf: &[u8]) -> (res: (crate::hash::Hash, crate::hash::Hash))
    requires
        buf@.len() == 64,
    ensures
        res.0@ == buf@.subrange(0, 32),
        res.1@ == buf@.subrange(32, 64),
{
    let mut l: [u8; 32] = [0u8; 32];
    let mut r: [u8; 32] = [0u8; 32];
    let mut i: usize = 0;
    while i < 32
        invariant
            i <= 32,
            buf@.len() == 64,
            forall|j: int| 0 <= j < i ==> l@[j] == buf@[j] && r@[j] == buf@[32 + j],
        decreases 32 - i,
    {
        l[i] = buf[i];
        r[i] = buf[32 + i];
        i = i + 1;
    }
    assert(l@ =~= buf@.subrange(0, 32));
    assert(r@ =~= buf@.subrange(32, 64));
    (crate::hash::Hash(l), crate::hash::Hash(r))
}

/// Appends `data` to `out`.
pub fn append_bytes(out: &mut Vec<u8>, data: &[u8])
    ensures
        final(out)@ == old(out)@ + data@,
{
    out.extend_from_slice(data);
    assert(out@ =~= old(out)@ + data@);
}

/// A source of bytes in memory that is read from its start to its end.
pub struct SliceReader<'a> {
    data: &'a [u8],
    pos: usize,
}

impl<'a> SliceReader<'a> {
    /// The bytes that are still to read.
    pub closed spec fn remaining(&self) -> Seq<u8> {
        self.data@.skip(self.pos as int)
    }

    /// The number of bytes read so far.
    pub closed spec fn position_spec(&self) -> nat {
        self.pos as nat
    }

    /// All the bytes of the source.
    pub closed spec fn data_spec(&self) -> Seq<u8> {
        self.data@
    }

    /// The position is within the source.
    pub closed spec fn wf(&self) -> bool {
        self.pos <= self.data@.len()
    }

    /// A reader at the start of `data`.
    pub fn new(data: &'a [u8]) -> (r: Self)
        ensures
            r.wf(),
            r.remaining() == data@,
            r.position_spec() == 0,
            r.data_spec() == data@,
    {
        let r = SliceReader { data, pos: 0 };
        assert(data@.skip(0) =~= data@);
        r
    }

    /// The number of bytes read so far.
    pub fn position(&self) -> (p: usize)
        ensures
            p == self.position_spec(),
    {
        self.pos
    }

    /// Reads the next `n` bytes. If fewer are left, nothing is read and the
    /// read fails with `UnexpectedEof`.
    pub fn read_exact(&mut self, n: usize) -> (r: Result<&'a [u8], IoErrorKind>)
        requires
            old(self).wf(),
        ensures
            final(self).wf(),
            final(self).data_spec() == old(self).data_spec(),
            match r {
                Ok(s) => n <= old(self).remaining().len() && s@ == old(self).remaining().take(
                    n as int,
                ) && final(self).remaining() == old(self).remaining().skip(n as int)
                    && final(self).position_spec() == old(self).position_spec() + n,
                Err(e) => e == IoErrorKind::UnexpectedEof && n > old(self).remaining().len()
                    && *final(self) == *old(self),
            },
    {
        if n > self.data.len() - self.pos {
            Err(IoErrorKind::UnexpectedEof)
        } else {
            let s = vstd::slice::slice_subrange(self.data, self.pos, self.pos + n);
            proof {
                assert(s@ =~= self.remaining().take(n as int));
                assert(self.data@.skip(self.pos + n) =~= self.remaining().skip(n as int));
            }
            self.pos = self.pos + n;
            Ok(s)
        }
    }
}

/// Reads the header of a slice: the size of the blob as 8 bytes, the least
/// significant first.
pub fn read_len_io(from: &mut SliceReader) -> (r: Result<ByteNum, IoErrorKind>)
    requires
        old(from).wf(),
    ensures
        final(from).wf(),
        final(from).data_spec() == old(from).data_spec(),
        match r {
            Ok(len) => old(from).remaining().len() >= 8 && len.0
                == vstd::bytes::spec_u64_from_le_bytes(old(from).remaining().take(8))
                && final(from).remaining() == old(from).remaining().skip(8),
            Err(e) => e == IoErrorKind::UnexpectedEof && old(from).remaining().len() < 8
                && *final(from) == *old(from),
        },
{
    let buf = from.read_exact(8)?;
    Ok(ByteNum(vstd::bytes::u64_from_le_bytes(buf)))
}

/// Reads a hash pair of 64 bytes.
pub fn read_parent_io(from: &mut SliceReader) -> (r: Result<
    (crate::hash::Hash, crate::hash::Hash),
    IoErrorKind,
>)
    requires
        old(from).wf(),
    ensures
        final(from).wf(),
        final(from).data_spec() == old(from).data_spec(),
        match r {
            Ok((l, r)) => old(from).remaining().len() >= 64 && l@ == old(from).remaining().subrange(
                0,
                32,
            ) && r@ == old(from).remaining().subrange(32, 64) && final(from).remaining() == old(
                from,
            ).remaining().skip(64),
            Err(e) => e == IoErrorKind::UnexpectedEof && old(from).remaining().len() < 64
                && *final(from) == *old(from),
        },
{
    let buf = from.read_exact(64)?;
    let pair = parse_hash_pair(buf);
    proof {
        let rem = old(from).remaining();
        assert(rem.take(64).subrange(0, 32) =~= rem.subrange(0, 32));
        assert(rem.take(64).subrange(32, 64) =~= rem.subrange(32, 64));
    }
    Ok(pair)
}

/// Reads the bytes from `start` up to `end` of a source in memory. The read
/// fails with `UnexpectedEof` if the source ends before `end`.
pub fn read_range_io<'a>(from: &'a [u8], start: ByteNum, end: ByteNum) -> (r: Result<
    &'a [u8],
    IoErrorKind,
>)
    requires
        start.0 <= end.0,
    ensures
        match r {
            Ok(s) => end.0 <= from@.len() && s@ == from@.subrange(start.0 as int, end.0 as int),
            Err(e) => e == IoErrorKind::UnexpectedEof && end.0 > from@.len(),
        },
{
    if end.0 > from.len() as u64 {
        Err(IoErrorKind::UnexpectedEof)
    } else {
        Ok(vstd::slice::slice_subrange(from, start.0 as usize, end.0 as usize))
    }
}


/// The size header of a slice: how large the sender says the blob is.
#[derive(Debug, Clone, Copy, PartialEq, Eq, Structural)]
pub struct Header {
    /// The size of the blob in bytes.
    pub size: ByteNum,
}

/// The hash pair of a node that the verifier has accepted.
#[derive(Debug, Clone, Copy, PartialEq, Eq)]
pub struct Parent {
    /// The node.
    pub node: TreeNode,
    /// The hashes of its left and of its right child.
    pub pair: (crate::hash::Hash, crate::hash::Hash),
}

/// Data of the blob that the verifier has accepted.
#[derive(Debug, Clone, PartialEq, Eq)]
pub struct Leaf {
    /// The byte offset of the data in the blob.
    pub offset: ByteNum,
    /// The data.
    pub data: bytes::Bytes,
}


/// The bytes of a target in memory after `buf` was written at the byte
/// offset `pos`: the target grows with zeros up to `pos` if it ends before
/// it, `buf` replaces what was there from `pos` on, and what lies beyond
/// the end of `buf` stays.
pub open spec fn written_at(target: Seq<u8>, pos: int, buf: Seq<u8>) -> Seq<u8> {
    let base = if pos > target.len() {
        target + Seq::new((pos - target.len()) as nat, |i: int| 0u8)
    } else {
        target
    };
    base.take(pos) + buf + (if pos + buf.len() < base.len() {
        base.skip(pos + buf.len())
    } else {
        Seq::empty()
    })
}

/// Writes `buf` to a target in memory at the byte offset `pos`. A write
/// that would end beyond what can be addressed fails with invalid input and
/// changes nothing.
pub fn write_all_at(target: &mut Vec<u8>, pos: u64, buf: &[u8]) -> (r: Result<(), IoErrorKind>)
    ensures
        match r {
            Ok(()) => pos + buf@.len() <= usize::MAX && final(target)@ == written_at(
                old(target)@,
                pos as int,
                buf@,
            ),
            Err(e) => e == IoErrorKind::InvalidInput && pos + buf@.len() > usize::MAX
                && final(target)@ == old(target)@,
        },
{
    if pos > usize::MAX as u64 || buf.len() > usize::MAX - (pos as usize) {
        return Err(IoErrorKind::InvalidInput);
    }
    let pos: usize = pos as usize;
    let end: usize = pos + buf.len();
    // Resize the vector so pos <= target.len().
    while target.len() < pos
        invariant
            target@.len() <= pos || target@.len() == old(target)@.len(),
            target@.len() >= old(target)@.len(),
            target@ == old(target)@ + Seq::new(
                (target@.len() - old(target)@.len()) as nat,
                |i: int| 0u8,
            ),
        decreases pos - target@.len(),
    {
        let ghost before = target@;
        target.push(0);
        assert(target@ =~= old(target)@ + Seq::new(
            (target@.len() - old(target)@.len()) as nat,
            |i: int| 0u8,
        ));
    }
    let ghost base = target@;
    assert(base =~= if (pos as int) > old(target)@.len() {
        old(target)@ + Seq::new((pos - old(target)@.len()) as nat, |i: int| 0u8)
    } else {
        old(target)@
    });
    let mut i: usize = 0;
    while i < buf.len()
        invariant
            i <= buf@.len(),
            pos + buf@.len() == end,
            pos <= base.len(),
            target@.len() == (if pos + i <= base.len() {
                base.len() as int
            } else {
                pos + i
            }),
            forall|j: int| 0 <= j < pos ==> target@[j] == base[j],
            forall|j: int| 0 <= j < i ==> target@[pos + j] == buf@[j],
            forall|j: int| pos + i <= j < base.len() ==> target@[j] == base[j],
        decreases buf@.len() - i,
    {
        if pos + i < target.len() {
            target.set(pos + i, buf[i]);
        } else {
            target.push(buf[i]);
        }
        i = i + 1;
    }
    assert(target@ =~= written_at(old(target)@, pos as int, buf@));
    Ok(())
}


/// The failure of a decoder for a failure of an encoder.
pub open spec fn decode_error_of(e: EncodeError) -> DecodeError {
    match e {
        EncodeError::ParentHashMismatch(node) => DecodeError::ParentHashMismatch(node),
        EncodeError::LeafHashMismatch(chunk) => DecodeError::LeafHashMismatch(chunk),
        EncodeError::InvalidQueryRange => DecodeError::InvalidQueryRange,
        EncodeError::Io(k) => DecodeError::Io(k),
    }
}

impl DecodeError {
    /// The failure of a decoder for a failure of an encoder.
    pub fn from_encode(e: EncodeError) -> (r: Self)
        ensures
            r == decode_error_of(e),
    {
        match e {
            EncodeError::ParentHashMismatch(node) => DecodeError::ParentHashMismatch(node),
            EncodeError::LeafHashMismatch(chunk) => DecodeError::LeafHashMismatch(chunk),
            EncodeError::InvalidQueryRange => DecodeError::InvalidQueryRange,
            EncodeError::Io(k) => DecodeError::Io(k),
        }
    }
}

/// Encodes the slice for a query: the size of the blob, and in the order of
/// the traversal the hash pairs from the outboard and the data from the
/// blob.
///
/// The blob must have the size that the outboard says, or the failure is
/// invalid input; the query must have no boundary beyond the chunks of the
/// blob, or the failure is an invalid query range. Nothing is written in
/// these two cases. The encoding ends early, with what was written up to
/// there, at the first hash pair that the outboard does not hold.
pub fn encode_ranges<O: Outboard>(
    data: &[u8],
    outboard: &O,
    ranges: &RangeSetRef<u64>,
    encoded: &mut Vec<u8>,
) -> (r: Result<(), DecodeError>)
    requires
        outboard.wf(),
    ensures
        ({
            let tree = outboard.tree_spec();
            let cs = pre_order_chunks(
                tree,
                truncate_spec(range_boundaries(ranges), tree.chunks_spec() as u64),
                0,
            );
            if data@.len() != tree.size.0 {
                r == Err::<(), DecodeError>(DecodeError::Io(IoErrorKind::InvalidInput))
                    && final(encoded)@ == old(encoded)@
            } else if !range_ok_spec(range_boundaries(ranges), tree.chunks_spec() as u64) {
                r == Err::<(), DecodeError>(DecodeError::InvalidQueryRange) && final(encoded)@
                    == old(encoded)@
            } else {
                &&& final(encoded)@ == old(encoded)@ + vstd::bytes::spec_u64_to_le_bytes(
                    tree.size.0,
                ) + readable_wire(outboard.pairs_spec(), data@, cs)
                &&& r is Ok <==> all_readable(outboard.pairs_spec(), data@.len(), cs)
                &&& r matches Err(e) ==> e is Io
                &&& crate::io::sync::complete(tree, outboard.pairs_spec()) ==> r is Ok
            }
        }),
{
    match crate::io::sync::encode_ranges(data, outboard, ranges, encoded) {
        Ok(()) => Ok(()),
        Err(e) => Err(DecodeError::from_encode(e)),
    }
}

/// Encodes the slice for a query like [`encode_ranges`], and verifies on
/// the way every hash pair and all data against the root hash of the
/// outboard. Where the query has only a part of a block, the selection
/// within the block goes on the wire in place of the block. The encoding
/// ends early, with what was written up to there, at the first directive
/// for which what it asks for cannot be read or does not match the
/// expected hash.
pub fn encode_ranges_validated<O: Outboard>(
    data: &[u8],
    outboard: &O,
    ranges: &RangeSetRef<u64>,
    encoded: &mut Vec<u8>,
) -> (r: Result<(), DecodeError>)
    requires
        outboard.wf(),
    ensures
        ({
            let tree = outboard.tree_spec();
            let cs = pre_order_chunks(
                tree,
                truncate_spec(range_boundaries(ranges), tree.chunks_spec() as u64),
                0,
            );
            let run = validated_run(cs, seq![outboard.root_spec()], outboard.pairs_spec(), data@, true);
            if data@.len() != tree.size.0 {
                r == Err::<(), DecodeError>(DecodeError::Io(IoErrorKind::InvalidInput))
                    && final(encoded)@ == old(encoded)@
            } else if !range_ok_spec(range_boundaries(ranges), tree.chunks_spec() as u64) {
                r == Err::<(), DecodeError>(DecodeError::InvalidQueryRange) && final(encoded)@
                    == old(encoded)@
            } else {
                &&& final(encoded)@ == old(encoded)@ + vstd::bytes::spec_u64_to_le_bytes(
                    tree.size.0,
                ) + run.0
                &&& match run.1 {
                    RunEnd::Done => r is Ok,
                    RunEnd::Unreadable => r matches Err(e) && e is Io,
                    RunEnd::Failed(e) => r == Err::<(), DecodeError>(decode_error_of(e)),
                }
                &&& tree.is_root && outboard.root_spec() == root_hash(tree, data@)
                    && crate::laws::vouches(tree, data@, outboard.pairs_spec()) ==> r is Ok
            }
        }),
{
    match crate::io::sync::encode_ranges_validated(data, outboard, ranges, encoded) {
        Ok(()) => Ok(()),
        Err(e) => Err(DecodeError::from_encode(e)),
    }
}

/// Encodes the slice for the whole blob and verifies it on the way, like
/// [`encode_ranges_validated`] for the query of all chunks. A failure is
/// told as the kind of failure of reading that it stands for.
pub fn encode_validated<O: Outboard>(data: &[u8], outboard: &O, encoded: &mut Vec<u8>) -> (r: Result<
    (),
    IoErrorKind,
>)
    requires
        outboard.wf(),
    ensures
        ({
            let tree = outboard.tree_spec();
            let cs = pre_order_chunks(
                tree,
                truncate_spec(seq![0u64], tree.chunks_spec() as u64),
                0,
            );
            let run = validated_run(cs, seq![outboard.root_spec()], outboard.pairs_spec(), data@, true);
            if data@.len() != tree.size.0 {
                r == Err::<(), IoErrorKind>(IoErrorKind::InvalidInput) && final(encoded)@ == old(
                    encoded,
                )@
            } else {
                &&& final(encoded)@ == old(encoded)@ + vstd::bytes::spec_u64_to_le_bytes(
                    tree.size.0,
                ) + run.0
                &&& match run.1 {
                    RunEnd::Done => r is Ok,
                    RunEnd::Unreadable => r is Err,
                    RunEnd::Failed(e) => r == Err::<(), IoErrorKind>(
                        decode_error_of(e).io_kind_spec(),
                    ),
                }
                &&& tree.is_root && outboard.root_spec() == root_hash(tree, data@)
                    && crate::laws::vouches(tree, data@, outboard.pairs_spec()) ==> r is Ok
            }
        }),
{
    let range = ChunkRanges::all();
    assert(range_ok_spec(seq![0u64], outboard.tree_spec().chunks_spec() as u64));
    match encode_ranges_validated(data, outboard, range.as_ranges(), encoded) {
        Ok(()) => Ok(()),
        Err(e) => Err(e.io_kind()),
    }
}

/// Computes the root hash of the blob that the first `size` bytes of `data`
/// are, and appends its outboard in post-order to `outboard`: the hash pairs
/// of the nodes in post-order, then the size.
///
/// If `data` has fewer than `size` bytes, nothing is written and the
/// failure is an early end.
pub fn outboard_post_order_io(
    data: &[u8],
    size: u64,
    block_size: BlockSize,
    outboard: &mut Vec<u8>,
) -> (r: Result<crate::hash::Hash, IoErrorKind>)
    requires
        block_size.wf(),
    ensures
        match r {
            Ok(h) => size <= data@.len() && h@ == root_hash(
                BaoTree::new_spec(ByteNum(size), block_size),
                data@,
            ) && final(outboard)@ == old(outboard)@ + post_order_outboard(
                BaoTree::new_spec(ByteNum(size), block_size),
                data@,
            ),
            Err(e) => e == IoErrorKind::UnexpectedEof && size > data@.len() && final(outboard)@
                == old(outboard)@,
        },
{
    if size > data.len() as u64 {
        return Err(IoErrorKind::UnexpectedEof);
    }
    let tree = BaoTree::new_with_start_chunk(ByteNum(size), block_size, ChunkNum(0));
    let hash = outboard_post_order_sync_impl(tree, data, outboard);
    let suffix = vstd::bytes::u64_to_le_bytes(size);
    append_bytes(outboard, suffix.as_slice());
    assert(outboard@ =~= old(outboard)@ + post_order_outboard(tree, data@));
    Ok(hash)
}

/// Computes the root hash of a blob and appends the hash pairs of its
/// outboard in post-order to `outboard`, without the size at the end.
pub(crate) fn outboard_post_order_sync_impl(tree: BaoTree, data: &[u8], outboard: &mut Vec<u8>) -> (h:
    crate::hash::Hash)
    requires
        tree.wf(),
        tree.start_chunk.0 == 0,
        tree.size.0 <= data@.len(),
    ensures
        h@ == root_hash(tree, data@),
        final(outboard)@ == old(outboard)@ + post_order_pairs(tree, data@, tree.root_spec()),
{
    proof {
        crate::io::sync::lemma_blob_at_zero(data@);
    }
    outboard_post_order_impl(tree, data, true, outboard)
}

/// The tree of chunks over `len` bytes of data that start at the chunk
/// `start_chunk`.
pub open spec fn chunk_tree(len: nat, start_chunk: ChunkNum) -> BaoTree {
    BaoTree {
        start_chunk,
        size: ByteNum(len as u64),
        block_size: BlockSize(0),
        is_root: start_chunk.0 == 0,
    }
}

/// Computes the hash of `data` as the part of a blob that starts at the
/// chunk `start_chunk`: the root of the tree of chunks over `data` is
/// hashed as a root only if `is_root` is true, so that the hash of a block
/// within a larger blob can be computed. Only data that starts at chunk 0
/// can be hashed as a root.
pub fn blake3_hash_inner(data: &[u8], start_chunk: ChunkNum, is_root: bool) -> (h: crate::hash::Hash)
    requires
        start_chunk.0 * 1024 + data@.len() <= u64::MAX,
        is_root ==> start_chunk.0 == 0,
    ensures
        h@ == node_hash(
            chunk_tree(data@.len(), start_chunk),
            blob_at((start_chunk.0 * 1024) as nat, data@),
            chunk_tree(data@.len(), start_chunk).root_spec(),
            is_root,
        ),
{
    let tree = BaoTree::new_with_start_chunk(
        ByteNum(data.len() as u64),
        BlockSize::zero(),
        start_chunk,
    );
    let mut sink: Vec<u8> = Vec::new();
    outboard_post_order_impl(tree, data, is_root, &mut sink)
}


/// 1 for a decoder before the size header, and else 0.
pub open spec fn phase_rank(v: DecoderView) -> nat {
    match v.phase {
        PhaseView::Header { .. } => 1,
        _ => 0,
    }
}

/// The number of directives that a decoder has still to go through.
pub open spec fn directives_left(v: DecoderView) -> nat {
    match v.phase {
        PhaseView::Content { directives, .. } => directives.len(),
        _ => 0,
    }
}

/// True if the decoder in the state `next` is nearer to its end than in the
/// state `v`.
pub open spec fn nearer(next: DecoderView, v: DecoderView) -> bool {
    phase_rank(next) < phase_rank(v) || (phase_rank(next) == phase_rank(v) && directives_left(next)
        < directives_left(v))
}

/// The directives that a decoder of slices goes through: those of the
/// traversal in pre-order of the tree of blocks for the query cut off at the
/// end of the blob, each taken as it is. These are the directives that an
/// encoder goes through.
pub open spec fn block_directives(tree: BaoTree, ranges: Seq<u64>) -> Seq<ResponseChunk> {
    pre_order_chunks(tree, truncate_spec(ranges, tree.chunks_spec() as u64), 0).map_values(
        |c: BaoChunk<Seq<u64>>| plain_response(c),
    )
}

/// One step of a decoder of slices for one directive: the state afterwards
/// and what was read and verified.
///
/// Before the size header, the size is read, the tree is that of a blob of
/// this size, and the directives are those of the traversal of the tree of
/// blocks for the query cut off at the end of the blob. In the stream, the
/// verifier takes one step for the next directive: the data of a leaf is a
/// block, or what the blob has of its last block, and is hashed as a whole.
/// A failure is handed out once, and nothing after it.
pub open spec fn block_step(v: DecoderView) -> (DecoderView, Option<Result<ItemView, DecodeError>>) {
    match v.phase {
        PhaseView::Header { ranges, block_size } => if v.input.len() < 8 {
            (decoder_done(), Some(Err(DecodeError::NotFound)))
        } else {
            let size = vstd::bytes::spec_u64_from_le_bytes(v.input.take(8));
            let tree = BaoTree::new_spec(ByteNum(size), block_size);
            (
                DecoderView {
                    phase: PhaseView::Content { tree, directives: block_directives(tree, ranges) },
                    stack: v.stack,
                    input: v.input.skip(8),
                },
                Some(Ok(ItemView::Header { size })),
            )
        },
        _ => decode_step(v),
    }
}

/// A step of a decoder of slices that reads something brings it nearer to
/// its end.
pub proof fn lemma_step_nearer(v: DecoderView)
    ensures
        block_step(v).1 matches Some(Ok(_)) ==> nearer(block_step(v).0, v),
{
}

/// What a decoder of slices reads from its state on to its end, and the
/// failure at which it ends if it does not reach the end of the slice.
pub open spec fn block_run(v: DecoderView) -> (Seq<ItemView>, Option<DecodeError>) {
    match v.phase {
        PhaseView::Header { .. } => match block_step(v) {
            (next, Some(Ok(header))) => {
                let rest = decode_run(next);
                (seq![header] + rest.0, rest.1)
            },
            (_, Some(Err(e))) => (Seq::empty(), Some(e)),
            _ => (Seq::empty(), None),
        },
        _ => decode_run(v),
    }
}

/// A step of a decoder of slices reads the first of what it reads to its
/// end.
pub proof fn lemma_block_run_step(v: DecoderView)
    ensures
        match block_step(v) {
            (next, Some(Ok(item))) => block_run(v) == (
                seq![item] + block_run(next).0,
                block_run(next).1,
            ),
            (_, Some(Err(e))) => block_run(v) == (Seq::<ItemView>::empty(), Some(e)),
            (_, None) => block_run(v) == (Seq::<ItemView>::empty(), None::<DecodeError>),
        },
{
    match v.phase {
        PhaseView::Header { .. } => {},
        _ => {
            lemma_decode_run_step(v);
        },
    }
}

/// One step of a decoder of slices: the steps for the directives up to the
/// next data, which is handed out with its byte offset, or up to the end or
/// a failure. The size header and the hash pairs are read and verified on
/// the way and not handed out.
pub open spec fn slice_step(v: DecoderView) -> (DecoderView, Option<Result<(u64, Seq<u8>), DecodeError>>)
    decreases phase_rank(v), directives_left(v),
{
    match block_step(v) {
        (next, Some(Ok(ItemView::Leaf { offset, data }))) => (next, Some(Ok((offset, data)))),
        (next, Some(Ok(_))) => if nearer(next, v) {
            slice_step(next)
        } else {
            (next, None)
        },
        (next, Some(Err(e))) => (next, Some(Err(e))),
        (next, None) => (next, None),
    }
}

/// A step of a decoder of slices that hands out data brings it nearer to
/// its end, and the data that it hands out is the first of the data that
/// the decoder reads to its end.
pub proof fn lemma_slice_step(v: DecoderView)
    ensures
        match slice_step(v) {
            (next, Some(Ok(piece))) => nearer(next, v) && leaves_of(block_run(v).0) == seq![piece]
                + leaves_of(block_run(next).0) && block_run(v).1 == block_run(next).1,
            (_, Some(Err(e))) => leaves_of(block_run(v).0).len() == 0 && block_run(v).1 == Some(e),
            (_, None) => leaves_of(block_run(v).0).len() == 0 && block_run(v).1 is None,
        },
    decreases phase_rank(v), directives_left(v),
{
    lemma_block_run_step(v);
    lemma_step_nearer(v);
    let none = Seq::<ItemView>::empty();
    match block_step(v) {
        (next, Some(Ok(item))) => {
            lemma_leaves_of_concat(seq![item], block_run(next).0);
            lemma_leaves_of_push(none, item);
            assert(none + seq![item] =~= seq![item]);
            match item {
                ItemView::Leaf { .. } => {},
                _ => {
                    lemma_slice_step(next);
                    assert(leaves_of(seq![item]) + leaves_of(block_run(next).0) =~= leaves_of(
                        block_run(next).0,
                    ));
                },
            }
        },
        _ => {},
    }
}

/// All the data that a decoder of slices hands out from its state on, each
/// piece with its byte offset, and the failure at which it ends if it does
/// not reach the end of the slice.
pub open spec fn slice_run(v: DecoderView) -> (Seq<(u64, Seq<u8>)>, Option<DecodeError>) {
    (leaves_of(block_run(v).0), block_run(v).1)
}

/// What a decoder of slices hands out, as numbers and bytes: the data of a
/// range is at the start of the buffer.
pub open spec fn range_handed_out(r: Option<Result<Range<ByteNum>, DecodeError>>, buffer: Seq<u8>) -> Option<
    Result<(u64, Seq<u8>), DecodeError>,
> {
    match r {
        None => None,
        Some(Err(e)) => Some(Err(e)),
        Some(Ok(range)) => Some(Ok((range.start.0, buffer.take(range.end.0 - range.start.0)))),
    }
}

/// Reads what a directive of the traversal of the tree of blocks asks for
/// from the stream and checks it against the expected hash on top of the
/// stack: one step of the verifier, in which the data of a leaf is hashed
/// as a block.
pub fn verify_block<'a, 'b>(
    chunk: BaoChunk<&'b RangeSetRef<u64>>,
    stack: &mut HashStack,
    encoded: &mut SliceReader<'a>,
) -> (r: Result<Verified<'a>, DecodeError>)
    requires
        old(encoded).wf(),
        old(stack)@.len() >= 1,
        chunk matches BaoChunk::Leaf { start_chunk, size, is_root, .. } ==> start_chunk.0 * 1024
            + size <= u64::MAX && (is_root ==> start_chunk.0 == 0),
    ensures
        final(encoded).wf(),
        final(encoded).data_spec() == old(encoded).data_spec(),
        match verify_step(chunk@, old(stack)@, old(encoded).remaining()) {
            Ok((item, st, input)) => r matches Ok(v) && v@ == item && final(stack)@ == st
                && final(encoded).remaining() == input,
            Err(e) => r == Err::<Verified<'a>, DecodeError>(e),
        },
{
    match chunk {
        BaoChunk::Parent { is_root, left, right, node, .. } => {
            let (l_hash, r_hash) = match read_parent_io(encoded) {
                Ok(pair) => pair,
                Err(e) => {
                    return Err(DecodeError::maybe_parent_not_found(e, node));
                },
            };
            let parent_hash = stack.pop().unwrap();
            let actual = parent_cv(&l_hash, &r_hash, is_root);
            if !parent_hash.same(&actual) {
                return Err(DecodeError::ParentHashMismatch(node));
            }
            if right {
                stack.push(r_hash);
            }
            if left {
                stack.push(l_hash);
            }
            Ok(Verified::Parent { node, pair: (l_hash, r_hash) })
        },
        BaoChunk::Leaf { size, is_root, start_chunk, .. } => {
            let data = match encoded.read_exact(size) {
                Ok(data) => data,
                Err(e) => {
                    return Err(DecodeError::maybe_leaf_not_found(e, start_chunk));
                },
            };
            let actual = hash_block(start_chunk, data, is_root);
            let leaf_hash = stack.pop().unwrap();
            if !leaf_hash.same(&actual) {
                return Err(DecodeError::LeafHashMismatch(start_chunk));
            }
            Ok(Verified::Leaf { start_chunk, data })
        },
    }
}

/// A decoder of a slice that hands out the byte ranges of the data that it
/// has verified. It goes through the directives of the traversal of the tree
/// of blocks, as an encoder does, and keeps the data of the range handed
/// out last at the start of its buffer.
pub struct DecodeSliceIter<'a> {
    ranges: &'a RangeSetRef<u64>,
    block_size: BlockSize,
    // the traversal, once the header was read
    iter: Option<PreOrderChunkIterRef<'a>>,
    // true after a failure
    done: bool,
    stack: HashStack,
    encoded: SliceReader<'a>,
    scratch: &'a mut [u8],
}

impl<'a> View for DecodeSliceIter<'a> {
    type V = DecoderView;

    closed spec fn view(&self) -> DecoderView {
        if self.done {
            decoder_done()
        } else {
            DecoderView {
                phase: match self.iter {
                    None => PhaseView::Header {
                        ranges: range_boundaries(self.ranges),
                        block_size: self.block_size,
                    },
                    Some(it) => PhaseView::Content {
                        tree: it.tree_spec(),
                        directives: it@.map_values(|c: BaoChunk<Seq<u64>>| plain_response(c)),
                    },
                },
                stack: self.stack@,
                input: self.encoded.remaining(),
            }
        }
    }
}

impl<'a> DecodeSliceIter<'a> {
    /// The decoder has an expected hash for every directive to come, and
    /// its buffer has room for a block.
    pub closed spec fn wf(&self) -> bool {
        &&& self.encoded.wf()
        &&& self.block_size.wf()
        &&& self.scratch@.len() >= self.block_size.bytes_spec()
        &&& !self.done ==> match self.iter {
            None => self.stack@.len() == 1,
            Some(it) => it.wf() && it.tree_spec().wf() && it.tree_spec().start_chunk.0 == 0
                && it.tree_spec().block_size == self.block_size && fits(
                self.stack@.len() as int,
                it@,
            ) && all_block_sized(it.tree_spec(), it@),
        }
    }

    /// What the buffer of the decoder holds.
    pub closed spec fn buffer_spec(&self) -> Seq<u8> {
        self.scratch@
    }

    /// True if the decoder has read the size header and the blob has `n`
    /// bytes or more.
    pub open spec fn holds(&self, n: u64) -> bool {
        self@.phase matches PhaseView::Content { tree, .. } && n <= tree.size.0
    }

    /// A decoder of the slice in `encoded` for the query `ranges` and the
    /// blob with the root hash `root`, which collects the data of every
    /// range in `scratch`. A query that goes beyond the chunks of the blob
    /// is cut off at its end.
    pub fn new(
        root: crate::hash::Hash,
        block_size: BlockSize,
        encoded: &'a [u8],
        ranges: &'a RangeSetRef<u64>,
        scratch: &'a mut [u8],
    ) -> (it: Self)
        requires
            block_size.wf(),
            old(scratch)@.len() >= block_size.bytes_spec(),
        ensures
            it.wf(),
            it.buffer_spec() == old(scratch)@,
            it@ == (DecoderView {
                phase: PhaseView::Header { ranges: range_boundaries(ranges), block_size },
                stack: seq![root@],
                input: encoded@,
            }),
    {
        let mut stack = HashStack::new();
        stack.push(root);
        assert(stack@ =~= seq![root@]);
        DecodeSliceIter {
            ranges,
            block_size,
            iter: None,
            done: false,
            stack,
            encoded: SliceReader::new(encoded),
            scratch,
        }
    }

    /// The buffer of the decoder: after a range was handed out, its data
    /// is at the start.
    pub fn buffer(&self) -> (b: &[u8])
        ensures
            b@ == self.buffer_spec(),
    {
        self.scratch
    }

    /// The tree of the blob. It is known once the size header was read.
    pub fn tree(&self) -> (t: Option<BaoTree>)
        requires
            self.wf(),
        ensures
            match self@.phase {
                PhaseView::Content { tree, .. } => t == Some(tree),
                _ => t is None,
            },
    {
        if self.done {
            None
        } else {
            match &self.iter {
                Some(iter) => Some(*iter.tree()),
                None => None,
            }
        }
    }

    /// Copies the data of a leaf to the start of the buffer.
    fn keep(&mut self, data: &[u8])
        requires
            data@.len() <= old(self).scratch@.len(),
        ensures
            final(self).scratch@.len() == old(self).scratch@.len(),
            final(self).scratch@.take(data@.len() as int) == data@,
            final(self).ranges == old(self).ranges,
            final(self).block_size == old(self).block_size,
            final(self).iter == old(self).iter,
            final(self).done == old(self).done,
            final(self).stack == old(self).stack,
            final(self).encoded == old(self).encoded,
    {
        let mut i: usize = 0;
        while i < data.len()
            invariant
                i <= data@.len(),
                data@.len() <= self.scratch@.len(),
                self.scratch@.len() == old(self).scratch@.len(),
                forall|j: int| 0 <= j < i ==> self.scratch@[j] == data@[j],
                self.ranges == old(self).ranges,
                self.block_size == old(self).block_size,
                self.iter == old(self).iter,
                self.done == old(self).done,
                self.stack == old(self).stack,
                self.encoded == old(self).encoded,
            decreases data@.len() - i,
        {
            self.scratch[i] = data[i];
            i = i + 1;
        }
        assert(self.scratch@.take(data@.len() as int) =~= data@);
    }

    /// Takes the steps of the decoder up to the next data: reads the size
    /// header and the hash pairs on the way and verifies them, and reads
    /// and verifies the data.
    fn next0(&mut self) -> (r: Result<Option<Range<ByteNum>>, DecodeError>)
        requires
            old(self).wf(),
        ensures
            final(self).wf(),
            (final(self)@, range_handed_out(transposed(r), final(self).buffer_spec()))
                == slice_step(old(self)@),
            r matches Ok(Some(range)) ==> range.start.0 <= range.end.0 && range.end.0
                - range.start.0 <= final(self).buffer_spec().len()
                && final(self).holds(range.end.0),
    {
        loop
            invariant
                self.wf(),
                slice_step(self@) == slice_step(old(self)@),
            decreases phase_rank(self@), directives_left(self@),
        {
            proof {
                lemma_step_nearer(self@);
            }
            if self.done {
                return Ok(None);
            }
            let ghost before = self@;
            let mut iter = match self.iter.take() {
                Some(iter) => iter,
                None => {
                    let size = match read_len_io(&mut self.encoded) {
                        Ok(size) => size,
                        Err(e) => {
                            self.done = true;
                            return Err(DecodeError::from_start(StartDecodeError::maybe_not_found(e)));
                        },
                    };
                    let tree = BaoTree::new(size, self.block_size);
                    // make sure the range is canonical
                    let ranges = truncate_ranges(self.ranges, tree.size());
                    proof {
                        let t = range_boundaries(ranges);
                        lemma_tree_bounds(tree);
                        lemma_pre_order_fits(tree, t, 0);
                        lemma_partial_block_sized(tree, tree.root_spec(), t, tree.is_root);
                    }
                    self.iter = Some(PreOrderChunkIterRef::new(tree, ranges, 0));
                    continue ;
                },
            };
            let ghost directives = iter@;
            let ghost tree = iter.tree_spec();
            let ghost f = |c: BaoChunk<Seq<u64>>| plain_response(c);
            let chunk = match iter.next() {
                Some(chunk) => chunk,
                None => {
                    assert(iter@ =~= directives);
                    self.iter = Some(iter);
                    return Ok(None);
                },
            };
            proof {
                assert(directives.map_values(f).skip(1) =~= directives.skip(1).map_values(f));
                assert(directives.map_values(f)[0] == plain_response(chunk@));
                assert(fits(self.stack@.len() - 1 + pushes(chunk@), directives.skip(1)));
                assert(block_sized(tree, directives[0]));
                assert forall|i: int| 0 <= i < directives.skip(1).len() implies block_sized(
                    tree,
                    #[trigger] directives.skip(1)[i],
                ) by {
                    assert(directives.skip(1)[i] == directives[i + 1]);
                }
                lemma_tree_bounds(tree);
            }
            match verify_block(chunk, &mut self.stack, &mut self.encoded) {
                Err(e) => {
                    self.done = true;
                    return Err(e);
                },
                Ok(Verified::Parent { .. }) => {
                    self.iter = Some(iter);
                },
                Ok(Verified::Leaf { start_chunk, data }) => {
                    self.iter = Some(iter);
                    self.keep(data);
                    let start = start_chunk.to_bytes();
                    let end = ByteNum(start.0 + data.len() as u64);
                    return Ok(Some(Range { start, end }));
                },
            }
        }
    }

    /// Hands out the byte range of the next data of the slice or the
    /// failure to read or to verify it, and nothing at the end of the slice
    /// or after a failure. The data of the range is at the start of the
    /// buffer.
    pub fn next(&mut self) -> (r: Option<Result<Range<ByteNum>, DecodeError>>)
        requires
            old(self).wf(),
        ensures
            final(self).wf(),
            (final(self)@, range_handed_out(r, final(self).buffer_spec())) == slice_step(
                old(self)@,
            ),
            r matches Some(Ok(range)) ==> range.start.0 <= range.end.0 && range.end.0
                - range.start.0 <= final(self).buffer_spec().len()
                && final(self).holds(range.end.0),
    {
        match self.next0() {
            Ok(Some(range)) => Some(Ok(range)),
            Ok(None) => None,
            Err(e) => Some(Err(e)),
        }
    }
}

/// The data among the items of a response, each with its byte offset.
pub open spec fn leaves_of(items: Seq<ItemView>) -> Seq<(u64, Seq<u8>)>
    decreases items.len(),
{
    if items.len() == 0 {
        Seq::empty()
    } else {
        (match items[0] {
            ItemView::Leaf { offset, data } => seq![(offset, data)],
            _ => Seq::empty(),
        }) + leaves_of(items.skip(1))
    }
}

/// The state of a decoder at its start.
pub open spec fn decoder_start(
    root: Seq<u8>,
    block_size: BlockSize,
    encoded: Seq<u8>,
    ranges: Seq<u64>,
) -> DecoderView {
    DecoderView {
        phase: PhaseView::Header { ranges, block_size },
        stack: seq![root],
        input: encoded,
    }
}

/// The size of the blob that the header of a slice tells of.
pub open spec fn slice_size(encoded: Seq<u8>) -> u64 {
    vstd::bytes::spec_u64_from_le_bytes(encoded.take(8))
}

/// The bytes of a target after pieces of data were written to it, each at
/// its byte offset.
pub open spec fn pieces_written(pieces: Seq<(u64, Seq<u8>)>, target: Seq<u8>) -> Seq<u8>
    decreases pieces.len(),
{
    if pieces.len() == 0 {
        target
    } else {
        written_at(pieces_written(pieces.drop_last(), target), pieces.last().0 as int, pieces.last().1)
    }
}

/// What a piece of data or a failure that was handed out holds.
pub open spec fn chunk_result(r: Result<(ByteNum, Vec<u8>), IoErrorKind>) -> Result<
    (u64, Seq<u8>),
    IoErrorKind,
> {
    match r {
        Ok(p) => Ok((p.0.0, p.1@)),
        Err(k) => Err(k),
    }
}

/// What a byte range or a failure that was handed out holds.
pub open spec fn range_result(r: Result<Range<ByteNum>, IoErrorKind>) -> Result<
    (u64, u64),
    IoErrorKind,
> {
    match r {
        Ok(p) => Ok((p.start.0, p.end.0)),
        Err(k) => Err(k),
    }
}

/// Pieces of data, each with its byte offset, and after them the failure
/// at which the work ended, if it did not reach the end.
pub open spec fn chunk_results(pieces: Seq<(u64, Seq<u8>)>, failure: Option<IoErrorKind>) -> Seq<
    Result<(u64, Seq<u8>), IoErrorKind>,
> {
    pieces.map_values(|p: (u64, Seq<u8>)| Ok::<(u64, Seq<u8>), IoErrorKind>(p)) + (match failure {
        Some(k) => seq![Err::<(u64, Seq<u8>), IoErrorKind>(k)],
        None => Seq::empty(),
    })
}

/// The byte ranges of pieces of data, and after them the failure at which
/// the work ended, if it did not reach the end.
pub open spec fn range_results(pieces: Seq<(u64, Seq<u8>)>, failure: Option<IoErrorKind>) -> Seq<
    Result<(u64, u64), IoErrorKind>,
> {
    pieces.map_values(
        |p: (u64, Seq<u8>)| Ok::<(u64, u64), IoErrorKind>((p.0, (p.0 + p.1.len()) as u64)),
    ) + (match failure {
        Some(k) => seq![Err::<(u64, u64), IoErrorKind>(k)],
        None => Seq::empty(),
    })
}

/// The kind of failure of reading that the failure of a decoder stands
/// for, if there is one.
pub open spec fn failure_kind(failure: Option<DecodeError>) -> Option<IoErrorKind> {
    match failure {
        Some(e) => Some(e.io_kind_spec()),
        None => None,
    }
}

/// Decodes the slice in `encoded` for the query `ranges` and hands out the
/// data that it holds, piece after piece, each with its byte offset in the
/// blob and only after it was verified against the root hash `root`. A
/// failure of the decoder comes last, told as the kind of failure of
/// reading that it stands for. The buffer `scratch` must have room for a
/// block.
#[verifier::rlimit(60)]
pub fn decode_ranges_into_chunks(
    root: crate::hash::Hash,
    block_size: BlockSize,
    encoded: &[u8],
    ranges: &RangeSetRef<u64>,
    scratch: &mut [u8],
) -> (v: Vec<Result<(ByteNum, Vec<u8>), IoErrorKind>>)
    requires
        block_size.wf(),
        old(scratch)@.len() >= block_size.bytes_spec(),
    ensures
        ({
            let run = slice_run(decoder_start(root@, block_size, encoded@, range_boundaries(ranges)));
            v@.map_values(|r: Result<(ByteNum, Vec<u8>), IoErrorKind>| chunk_result(r))
                == chunk_results(run.0, failure_kind(run.1))
        }),
{
    let mut iter = DecodeSliceIter::new(root, block_size, encoded, ranges, scratch);
    let ghost all = slice_run(iter@);
    let mut res: Vec<Result<(ByteNum, Vec<u8>), IoErrorKind>> = Vec::new();
    let ghost mut done = Seq::<(u64, Seq<u8>)>::empty();
    proof {
        assert(done + all.0 =~= all.0);
        assert(res@.map_values(|r: Result<(ByteNum, Vec<u8>), IoErrorKind>| chunk_result(r))
            =~= chunk_results(done, None));
    }
    loop
        invariant_except_break
            iter.wf(),
            done + slice_run(iter@).0 == all.0,
            slice_run(iter@).1 == all.1,
        invariant
            all == slice_run(
                decoder_start(root@, block_size, encoded@, range_boundaries(ranges)),
            ),
            res@.map_values(|r: Result<(ByteNum, Vec<u8>), IoErrorKind>| chunk_result(r))
                == chunk_results(done, None),
        ensures
            done == all.0,
            all.1 is None,
        decreases phase_rank(iter@), directives_left(iter@),
    {
        proof {
            lemma_slice_step(iter@);
        }
        let ghost res0 = res@;
        let range = match iter.next() {
            None => {
                proof {
                    assert(done + Seq::<(u64, Seq<u8>)>::empty() =~= done);
                }
                break ;
            },
            Some(Err(e)) => {
                res.push(Err(e.io_kind()));
                proof {
                    let f = |r: Result<(ByteNum, Vec<u8>), IoErrorKind>| chunk_result(r);
                    assert(done + Seq::<(u64, Seq<u8>)>::empty() =~= done);
                    assert(res@.map_values(f) =~= res0.map_values(f) + seq![
                        Err::<(u64, Seq<u8>), IoErrorKind>(e.io_kind_spec()),
                    ]);
                    assert(res@.map_values(f) =~= chunk_results(done, Some(e.io_kind_spec())));
                }
                return res;
            },
            Some(Ok(range)) => range,
        };
        let buffer = iter.buffer();
        let held: usize = buffer.len();
        assert(range.end.0 - range.start.0 <= held);
        let len: usize = (range.end.0 - range.start.0) as usize;
        let data = vstd::slice::slice_to_vec(vstd::slice::slice_subrange(buffer, 0, len));
        let ghost rest = slice_run(iter@).0;
        proof {
            let f = |r: Result<(ByteNum, Vec<u8>), IoErrorKind>| chunk_result(r);
            let g = |p: (u64, Seq<u8>)| Ok::<(u64, Seq<u8>), IoErrorKind>(p);
            let piece = (range.start.0, data@);
            assert(data@ =~= buffer@.take(len as int));
            assert(done + (seq![piece] + rest) =~= (done + seq![piece]) + rest);
            assert((done + seq![piece]).map_values(g) =~= done.map_values(g) + seq![
                Ok::<(u64, Seq<u8>), IoErrorKind>(piece),
            ]);
            done = done + seq![piece];
        }
        res.push(Ok((range.start, data)));
        proof {
            let f = |r: Result<(ByteNum, Vec<u8>), IoErrorKind>| chunk_result(r);
            assert(res@.map_values(f) =~= res0.map_values(f) + seq![
                Ok::<(u64, Seq<u8>), IoErrorKind>((range.start.0, data@)),
            ]);
            assert(res@.map_values(f) =~= chunk_results(done, None));
        }
    }
    proof {
        assert(done + Seq::<(u64, Seq<u8>)>::empty() =~= done);
    }
    res
}

/// Decodes the slice in `encoded` for the query `ranges` into a target in
/// memory, and hands out the byte ranges of the data that was written, one
/// after the other, each only after the data was verified against the root
/// hash `root`. A failure comes last. The buffer `scratch` must have room
/// for a block.
///
/// The target must be as long as the blob that the size header tells of,
/// or the work ends with invalid input when the first data arrives, and
/// nothing is written. Else all data that the decoder has verified is
/// written at its offset, and a failure of the decoder is told as the kind
/// of failure of reading that it stands for.
#[verifier::rlimit(80)]
pub fn decode_ranges_into(
    root: crate::hash::Hash,
    block_size: BlockSize,
    encoded: &[u8],
    ranges: &RangeSetRef<u64>,
    scratch: &mut [u8],
    target: &mut Vec<u8>,
) -> (v: Vec<Result<Range<ByteNum>, IoErrorKind>>)
    requires
        block_size.wf(),
        old(scratch)@.len() >= block_size.bytes_spec(),
    ensures
        ({
            let run = slice_run(decoder_start(root@, block_size, encoded@, range_boundaries(ranges)));
            let handed = v@.map_values(|r: Result<Range<ByteNum>, IoErrorKind>| range_result(r));
            if run.0.len() > 0 && old(target)@.len() < slice_size(encoded@) {
                handed == seq![Err::<(u64, u64), IoErrorKind>(IoErrorKind::InvalidInput)]
                    && final(target)@ == old(target)@
            } else {
                handed == range_results(run.0, failure_kind(run.1)) && final(target)@
                    == pieces_written(run.0, old(target)@)
            }
        }),
{
    let mut iter = DecodeSliceIter::new(root, block_size, encoded, ranges, scratch);
    let ghost all = slice_run(iter@);
    let ghost size = slice_size(encoded@);
    let mut res: Vec<Result<Range<ByteNum>, IoErrorKind>> = Vec::new();
    let mut first = true;
    let ghost mut done = Seq::<(u64, Seq<u8>)>::empty();
    proof {
        assert(done + all.0 =~= all.0);
        assert(res@.map_values(|r: Result<Range<ByteNum>, IoErrorKind>| range_result(r))
            =~= range_results(done, None));
    }
    loop
        invariant_except_break
            iter.wf(),
            iter@.phase matches PhaseView::Header { block_size: bs, .. } ==> bs == block_size
                && iter@.input == encoded@,
            iter@.phase matches PhaseView::Content { tree: t, .. } ==> t == BaoTree::new_spec(
                ByteNum(size),
                block_size,
            ),
            done + slice_run(iter@).0 == all.0,
            slice_run(iter@).1 == all.1,
        invariant
            block_size.wf(),
            all == slice_run(
                decoder_start(root@, block_size, encoded@, range_boundaries(ranges)),
            ),
            size == slice_size(encoded@),
            target@ == pieces_written(done, old(target)@),
            first <==> done.len() == 0,
            first ==> target@ == old(target)@ && res@.len() == 0,
            !first ==> target@.len() == old(target)@.len() && old(target)@.len() >= size,
            res@.map_values(|r: Result<Range<ByteNum>, IoErrorKind>| range_result(r))
                == range_results(done, None),
        ensures
            done == all.0,
            all.1 is None,
        decreases phase_rank(iter@), directives_left(iter@),
    {
        proof {
            lemma_slice_step(iter@);
            lemma_slice_tree(iter@);
        }
        let ghost res0 = res@;
        let ghost before = iter@;
        let range = match iter.next() {
            None => {
                proof {
                    assert(done + Seq::<(u64, Seq<u8>)>::empty() =~= done);
                }
                break ;
            },
            Some(Err(e)) => {
                res.push(Err(e.io_kind()));
                proof {
                    let f = |r: Result<Range<ByteNum>, IoErrorKind>| range_result(r);
                    assert(done + Seq::<(u64, Seq<u8>)>::empty() =~= done);
                    assert(res@.map_values(f) =~= res0.map_values(f) + seq![
                        Err::<(u64, u64), IoErrorKind>(e.io_kind_spec()),
                    ]);
                    assert(res@.map_values(f) =~= range_results(done, Some(e.io_kind_spec())));
                }
                return res;
            },
            Some(Ok(range)) => range,
        };
        let buffer = iter.buffer();
        let held: usize = buffer.len();
        assert(range.end.0 - range.start.0 <= held);
        let len: usize = (range.end.0 - range.start.0) as usize;
        let data = vstd::slice::slice_subrange(buffer, 0, len);
        let ghost rest = slice_run(iter@).0;
        let ghost piece = (range.start.0, data@);
        let ghost now = done + seq![piece];
        proof {
            assert(data@ =~= buffer@.take(len as int));
            assert(done + (seq![piece] + rest) =~= now + rest);
            assert(now.drop_last() =~= done);
            assert(now.last() == piece);
        }
        if first {
            let tree = iter.tree().unwrap();
            if (target.len() as u64) < tree.size.0 {
                res.push(Err(IoErrorKind::InvalidInput));
                proof {
                    let f = |r: Result<Range<ByteNum>, IoErrorKind>| range_result(r);
                    assert(res@.map_values(f) =~= seq![
                        Err::<(u64, u64), IoErrorKind>(IoErrorKind::InvalidInput),
                    ]);
                }
                return res;
            }
            first = false;
        }
        let ghost target0 = target@;
        let space: usize = target.len();
        assert(range.start.0 + data@.len() <= space);
        match write_all_at(target, range.start.0, data) {
            Ok(()) => {
                assert(target@.len() == target0.len());
            },
            Err(e) => {
                // the data lies within the target
                assert(false);
                res.push(Err(e));
                return res;
            },
        }
        res.push(Ok(range));
        proof {
            let f = |r: Result<Range<ByteNum>, IoErrorKind>| range_result(r);
            let g = |p: (u64, Seq<u8>)|
                Ok::<(u64, u64), IoErrorKind>((p.0, (p.0 + p.1.len()) as u64));
            assert(res@.map_values(f) =~= res0.map_values(f) + seq![
                Ok::<(u64, u64), IoErrorKind>((range.start.0, range.end.0)),
            ]);
            assert(now.map_values(g) =~= done.map_values(g) + seq![
                Ok::<(u64, u64), IoErrorKind>((range.start.0, range.end.0)),
            ]);
            assert(res@.map_values(f) =~= range_results(now, None));
            done = now;
        }
    }
    proof {
        assert(done + Seq::<(u64, Seq<u8>)>::empty() =~= done);
    }
    res
}

/// A decoder of slices keeps the tree of the blob that the size header
/// tells of.
pub proof fn lemma_slice_tree(v: DecoderView)
    ensures
        !(slice_step(v).0.phase is Header),
        match slice_step(v).0.phase {
            PhaseView::Content { tree: t, .. } => match v.phase {
                PhaseView::Header { block_size, .. } => t == BaoTree::new_spec(
                    ByteNum(slice_size(v.input)),
                    block_size,
                ),
                PhaseView::Content { tree, .. } => t == tree,
                PhaseView::Done => false,
            },
            _ => true,
        },
    decreases phase_rank(v), directives_left(v),
{
    match block_step(v) {
        (next, Some(Ok(ItemView::Leaf { .. }))) => {},
        (next, Some(Ok(_))) => {
            if nearer(next, v) {
                lemma_slice_tree(next);
            }
        },
        _ => {},
    }
}

/// The data among the items of two sequences, one after the other, is the
/// data among the first followed by the data among the second.
pub proof fn lemma_leaves_of_concat(a: Seq<ItemView>, b: Seq<ItemView>)
    ensures
        leaves_of(a + b) == leaves_of(a) + leaves_of(b),
    decreases a.len(),
{
    if a.len() == 0 {
        assert(a + b =~= b);
        assert(leaves_of(a) + leaves_of(b) =~= leaves_of(b));
    } else {
        assert((a + b).skip(1) =~= a.skip(1) + b);
        lemma_leaves_of_concat(a.skip(1), b);
        let own = match a[0] {
            ItemView::Leaf { offset, data } => seq![(offset, data)],
            _ => Seq::<(u64, Seq<u8>)>::empty(),
        };
        assert(own + (leaves_of(a.skip(1)) + leaves_of(b)) =~= (own + leaves_of(a.skip(1)))
            + leaves_of(b));
    }
}

/// The data among the items of a response and one more item is the data
/// among the items, and the data of the item if it is data.
pub proof fn lemma_leaves_of_push(items: Seq<ItemView>, item: ItemView)
    ensures
        leaves_of(items + seq![item]) == leaves_of(items) + (match item {
            ItemView::Leaf { offset, data } => seq![(offset, data)],
            _ => Seq::empty(),
        }),
    decreases items.len(),
{
    let all = items + seq![item];
    let own = match item {
        ItemView::Leaf { offset, data } => seq![(offset, data)],
        _ => Seq::<(u64, Seq<u8>)>::empty(),
    };
    if items.len() == 0 {
        assert(all =~= seq![item]);
        assert(all.skip(1) =~= Seq::<ItemView>::empty());
        assert(leaves_of(all.skip(1)) =~= Seq::<(u64, Seq<u8>)>::empty());
        assert(leaves_of(all) =~= own);
        assert(leaves_of(items) + own =~= own);
    } else {
        assert(all.skip(1) =~= items.skip(1) + seq![item]);
        assert(all[0] == items[0]);
        lemma_leaves_of_push(items.skip(1), item);
        let head = match items[0] {
            ItemView::Leaf { offset, data } => seq![(offset, data)],
            _ => Seq::<(u64, Seq<u8>)>::empty(),
        };
        assert(head + (leaves_of(items.skip(1)) + own) =~= (head + leaves_of(items.skip(1))) + own);
    }
}


impl From<IoErrorKind> for DecodeError {
    fn from(e: IoErrorKind) -> (r: Self) {
        Self::Io(e)
    }
}

impl vstd::std_specs::convert::FromSpecImpl<IoErrorKind> for DecodeError {
    open spec fn obeys_from_spec() -> bool {
        true
    }

    open spec fn from_spec(e: IoErrorKind) -> Self {
        DecodeError::Io(e)
    }
}

impl From<DecodeError> for IoErrorKind {
    fn from(e: DecodeError) -> (r: Self) {
        e.io_kind()
    }
}

impl vstd::std_specs::convert::FromSpecImpl<DecodeError> for IoErrorKind {
    open spec fn obeys_from_spec() -> bool {
        true
    }

    open spec fn from_spec(e: DecodeError) -> Self {
        e.io_kind_spec()
    }
}


/// The size in bytes of an outboard for a blob of `size` bytes: 8 bytes for
/// the size and 64 bytes for every hash pair.
pub fn outboard_size(size: u64, block_size: BlockSize) -> (r: u64)
    requires
        block_size.wf(),
    ensures
        r == 8 + 64 * (BaoTree::new_spec(ByteNum(size), block_size).blocks_spec() - 1),
{
    BaoTree::outboard_size(ByteNum(size), block_size)
}

} // verus!
