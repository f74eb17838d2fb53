//! Outboards, the encoder of slices and the streaming verifier.
use vstd::prelude::*;
use range_collections::RangeSetRef;
use crate::buffer::{
    buffer_clear, buffer_content, buffer_extend, buffer_freeze, buffer_new, buffer_slice,
    buffer_split, bytes_content, bytes_slice,
};
use crate::codec::{
    all_readable, chunk_wire, fits, lemma_post_fits_node, lemma_post_run_concat,
    lemma_post_run_node, lemma_pre_order_fits, lemma_response_fits, node_hash, post_fits,
    post_order_outboard, post_order_pairs, post_run, post_step, pushes, readable, readable_wire,
    root_hash, save_nodes, validated_run, validated_wire, verify_run, verify_step, wire, HashPairs,
    PostState, RunEnd, StepView,
};
use crate::hash::{hash_subtree, parent_cv, parent_cv_of, subtree_hash};
use crate::io::{
    append_bytes, combine_hash_pair, read_len_io, read_parent_io, read_range_io, write_all_at,
    written_at, DecodeError, Header, Leaf, Parent, SliceReader,
};
use crate::io::error::{EncodeError, IoErrorKind, StartDecodeError};
use crate::iter::{
    inner_node, post_order_chunks, post_order_nodes, pre_order_chunks, response_chunks,
    verifier_chunk, verifier_chunks, BaoChunk, PostOrderChunkIter, PreOrderChunkIterRef,
    ResponseChunk, ResponseIterRef,
};
use crate::ranges::{
    boundaries, chunk_interval, is_all, lemma_range_set_interval, range_boundaries, range_ok,
    range_ok_spec, range_set, strictly_increasing, truncate_ranges, truncate_spec, ChunkRanges,
};
use crate::rec::encode_selected_rec;
use crate::stack::HashStack;
use crate::tree::{lemma_tree_bounds, BaoTree, BlockSize, ByteNum, ChunkNum, TreeNode};

verus! {

/// An item of a decoded response.
#[derive(Debug, Clone, PartialEq, Eq)]
pub enum DecodeResponseItem {
    /// The size header: how large the sender says the blob is. A hash that
    /// does not match shows a wrong size later.
    Header(Header),
    /// The hash pair of a node, to update an outboard.
    Parent(Parent),
    /// Data of the blob, to write to a file.
    Leaf(Leaf),
}

/// What an item of a decoded response holds.
pub ghost enum ItemView {
    Header { size: u64 },
    Parent { node: TreeNode, l: Seq<u8>, r: Seq<u8> },
    Leaf { offset: u64, data: Seq<u8> },
}

impl View for DecodeResponseItem {
    type V = ItemView;

    open spec fn view(&self) -> ItemView {
        match *self {
            DecodeResponseItem::Header(h) => ItemView::Header { size: h.size.0 },
            DecodeResponseItem::Parent(p) => ItemView::Parent {
                node: p.node,
                l: p.pair.0@,
                r: p.pair.1@,
            },
            DecodeResponseItem::Leaf(l) => ItemView::Leaf {
                offset: l.offset.0,
                data: bytes_content(l.data),
            },
        }
    }
}

impl From<Header> for DecodeResponseItem {
    fn from(h: Header) -> (r: Self) {
        Self::Header(h)
    }
}

impl vstd::std_specs::convert::FromSpecImpl<Header> for DecodeResponseItem {
    open spec fn obeys_from_spec() -> bool {
        true
    }

    open spec fn from_spec(h: Header) -> Self {
        DecodeResponseItem::Header(h)
    }
}

impl From<Parent> for DecodeResponseItem {
    fn from(p: Parent) -> (r: Self) {
        Self::Parent(p)
    }
}

impl vstd::std_specs::convert::FromSpecImpl<Parent> for DecodeResponseItem {
    open spec fn obeys_from_spec() -> bool {
        true
    }

    open spec fn from_spec(p: Parent) -> Self {
        DecodeResponseItem::Parent(p)
    }
}

impl From<Leaf> for DecodeResponseItem {
    fn from(l: Leaf) -> (r: Self) {
        Self::Leaf(l)
    }
}

impl vstd::std_specs::convert::FromSpecImpl<Leaf> for DecodeResponseItem {
    open spec fn obeys_from_spec() -> bool {
        true
    }

    open spec fn from_spec(l: Leaf) -> Self {
        DecodeResponseItem::Leaf(l)
    }
}

/// A binary merkle tree for blake3 hashes of a blob.
///
/// An outboard knows the geometry of the tree and the root hash, and loads
/// the hash pair of a node. How the pairs are stored is up to the
/// implementor.
pub trait Outboard {
    /// What an implementor keeps true of its outboards.
    spec fn wf(&self) -> bool;

    /// The root hash.
    spec fn root_spec(&self) -> Seq<u8>;

    /// The tree.
    spec fn tree_spec(&self) -> BaoTree;

    /// The hash pairs that the outboard holds.
    spec fn pairs_spec(&self) -> HashPairs;

    /// The root hash.
    fn root(&self) -> (h: crate::hash::Hash)
        requires
            self.wf(),
        ensures
            h@ == self.root_spec(),
    ;

    /// The tree. It holds the size of the blob and the block size, and
    /// starts at chunk 0.
    fn tree(&self) -> (t: BaoTree)
        requires
            self.wf(),
        ensures
            t == self.tree_spec(),
            t.wf(),
            t.start_chunk.0 == 0,
    ;

    /// Loads the hash pair of a node: nothing for a node whose pair an
    /// outboard of the tree does not keep, and a failure for a node whose
    /// pair it keeps and this outboard does not hold.
    ///
    /// A failure says that the pair is not held: an implementor cannot
    /// report through it a read that failed for a pair that it holds. One
    /// that keeps its pairs where reading can fail, as in a file, reads
    /// them into memory before it stands for an outboard, and reports the
    /// failure of that reading there.
    fn load(&self, node: TreeNode) -> (r: Result<
        Option<(crate::hash::Hash, crate::hash::Hash)>,
        IoErrorKind,
    >)
        requires
            self.wf(),
        ensures
            match r {
                Ok(Some(pair)) => self.tree_spec().is_persisted_spec(node)
                    && self.pairs_spec().contains_key(node) && self.pairs_spec()[node] == (
                    pair.0@,
                    pair.1@,
                ),
                Ok(None) => !self.tree_spec().is_persisted_spec(node),
                Err(_) => self.tree_spec().is_persisted_spec(node)
                    && !self.pairs_spec().contains_key(node),
            },
    ;
}

/// A mutable outboard: an outboard that can be filled node by node, as when
/// receiving data.
pub trait OutboardMut: Outboard + Sized {
    /// Saves the hash pair of a node. Saving the pair of a node whose pair an
    /// outboard of the tree does not keep changes nothing.
    fn save(&mut self, node: TreeNode, hash_pair: &(crate::hash::Hash, crate::hash::Hash)) -> (r:
        Result<(), IoErrorKind>)
        requires
            old(self).wf(),
        ensures
            final(self).wf(),
            final(self).tree_spec() == old(self).tree_spec(),
            final(self).root_spec() == old(self).root_spec(),
            r is Ok ==> final(self).pairs_spec() == (if old(self).tree_spec().is_persisted_spec(
                node,
            ) {
                old(self).pairs_spec().insert(node, (hash_pair.0@, hash_pair.1@))
            } else {
                old(self).pairs_spec()
            }),
            r is Err ==> final(self).pairs_spec() == old(self).pairs_spec(),
    ;
}

impl<O: Outboard> Outboard for &O {
    open spec fn wf(&self) -> bool {
        (**self).wf()
    }

    open spec fn root_spec(&self) -> Seq<u8> {
        (**self).root_spec()
    }

    open spec fn tree_spec(&self) -> BaoTree {
        (**self).tree_spec()
    }

    open spec fn pairs_spec(&self) -> HashPairs {
        (**self).pairs_spec()
    }

    fn root(&self) -> (h: crate::hash::Hash) {
        (**self).root()
    }

    fn tree(&self) -> (t: BaoTree) {
        (**self).tree()
    }

    fn load(&self, node: TreeNode) -> (r: Result<
        Option<(crate::hash::Hash, crate::hash::Hash)>,
        IoErrorKind,
    >) {
        (**self).load(node)
    }
}

/// What the verifier has accepted for a directive.
pub enum Verified<'a> {
    /// The hash pair of a node.
    Parent { node: TreeNode, pair: (crate::hash::Hash, crate::hash::Hash) },
    /// The data of a leaf.
    Leaf { start_chunk: ChunkNum, data: &'a [u8] },
}

impl<'a> View for Verified<'a> {
    type V = StepView;

    open spec fn view(&self) -> StepView {
        match *self {
            Verified::Parent { node, pair } => StepView::Parent { node, l: pair.0@, r: pair.1@ },
            Verified::Leaf { start_chunk, data } => StepView::Leaf { start_chunk, data: data@ },
        }
    }
}

/// One step of the verifier: reads what the directive asks for from the
/// stream and checks it against the expected hash on top of the stack.
pub fn verify_chunk<'a>(
    chunk: ResponseChunk,
    stack: &mut HashStack,
    encoded: &mut SliceReader<'a>,
) -> (r: Result<Verified<'a>, DecodeError>)
    requires
        old(encoded).wf(),
        old(stack)@.len() >= 1,
        chunk matches ResponseChunk::Leaf { start_chunk, size, is_root } ==> start_chunk.0 * 1024
            + size <= u64::MAX && (is_root ==> start_chunk.0 == 0),
    ensures
        final(encoded).wf(),
        final(encoded).data_spec() == old(encoded).data_spec(),
        match verify_step(verifier_chunk(chunk), old(stack)@, old(encoded).remaining()) {
            Ok((item, st, input)) => r matches Ok(v) && v@ == item && final(stack)@ == st
                && final(encoded).remaining() == input,
            Err(e) => r == Err::<Verified<'a>, DecodeError>(e),
        },
{
    match chunk {
        ResponseChunk::Parent { is_root, left, right, node } => {
            // a hash pair within a block belongs to no node of the tree
            let node = match node {
                Some(node) => node,
                None => inner_node(),
            };
            let (l_hash, r_hash) = match read_parent_io(encoded) {
                Ok(pair) => pair,
                Err(e) => {
                    return Err(DecodeError::maybe_parent_not_found(e, node));
                },
            };
            let parent_hash = stack.pop().unwrap();
            let actual = parent_cv(&l_hash, &r_hash, is_root);
            if !parent_hash.same(&actual) {
                return Err(DecodeError::ParentHashMismatch(node));
            }
            if right {
                stack.push(r_hash);
            }
            if left {
                stack.push(l_hash);
            }
            Ok(Verified::Parent { node, pair: (l_hash, r_hash) })
        },
        ResponseChunk::Leaf { size, is_root, start_chunk } => {
            let data = match encoded.read_exact(size) {
                Ok(data) => data,
                Err(e) => {
                    return Err(DecodeError::maybe_leaf_not_found(e, start_chunk));
                },
            };
            let actual = hash_subtree(start_chunk.0, data, is_root);
            let leaf_hash = stack.pop().unwrap();
            if !leaf_hash.same(&actual) {
                return Err(DecodeError::LeafHashMismatch(start_chunk));
            }
            Ok(Verified::Leaf { start_chunk, data })
        },
    }
}

/// Where a decoder stands.
pub ghost enum PhaseView {
    /// Before the size header: the tree is not known yet.
    Header { ranges: Seq<u64>, block_size: BlockSize },
    /// In the stream of hash pairs and data, with the directives of the
    /// response that are still to come.
    Content { tree: BaoTree, directives: Seq<ResponseChunk> },
    /// After a failure: nothing more is handed out.
    Done,
}

/// The state of a decoder: where it stands, the expected hashes, and the
/// input that is left.
pub ghost struct DecoderView {
    pub phase: PhaseView,
    pub stack: Seq<Seq<u8>>,
    pub input: Seq<u8>,
}

/// The state of a decoder that has failed.
pub open spec fn decoder_done() -> DecoderView {
    DecoderView { phase: PhaseView::Done, stack: Seq::empty(), input: Seq::empty() }
}

/// The item for what the verifier has accepted: data goes to its byte
/// offset in the blob.
pub open spec fn step_item(s: StepView) -> ItemView {
    match s {
        StepView::Parent { node, l, r } => ItemView::Parent { node, l, r },
        StepView::Leaf { start_chunk, data } => ItemView::Leaf {
            offset: (start_chunk.0 * 1024) as u64,
            data,
        },
    }
}

/// One step of a decoder of responses: the state afterwards and what is
/// handed out.
///
/// Before the size header, the size is read, the tree is that of a blob of
/// this size, and the directives are those of the response to the query
/// cut off at the end of the blob: within a block of which the query has
/// only a part they go down to single chunks. In the stream, the verifier
/// takes one step for the next directive, with the start chunk, the size
/// and the root flag of the directive itself; at the end of the directives
/// nothing is handed out. A hash pair within a block is handed out with the
/// node that is a node of no tree. A failure is handed out once, and
/// nothing after it.
pub open spec fn decode_step(v: DecoderView) -> (DecoderView, Option<Result<ItemView, DecodeError>>) {
    match v.phase {
        PhaseView::Done => (v, None),
        PhaseView::Header { ranges, block_size } => if v.input.len() < 8 {
            (decoder_done(), Some(Err(DecodeError::NotFound)))
        } else {
            let size = vstd::bytes::spec_u64_from_le_bytes(v.input.take(8));
            let tree = BaoTree::new_spec(ByteNum(size), block_size);
            (
                DecoderView {
                    phase: PhaseView::Content {
                        tree,
                        directives: response_chunks(
                            tree,
                            truncate_spec(ranges, tree.chunks_spec() as u64),
                            0,
                        ),
                    },
                    stack: v.stack,
                    input: v.input.skip(8),
                },
                Some(Ok(ItemView::Header { size })),
            )
        },
        PhaseView::Content { tree, directives } => if directives.len() == 0 {
            (v, None)
        } else {
            match verify_step(verifier_chunk(directives[0]), v.stack, v.input) {
                Err(e) => (decoder_done(), Some(Err(e))),
                Ok((item, stack, input)) => (
                    DecoderView {
                        phase: PhaseView::Content { tree, directives: directives.skip(1) },
                        stack,
                        input,
                    },
                    Some(Ok(step_item(item))),
                ),
            }
        },
    }
}

/// What a decoder hands out, with what its items hold.
pub open spec fn handed_out(r: Option<Result<DecodeResponseItem, DecodeError>>) -> Option<
    Result<ItemView, DecodeError>,
> {
    match r {
        None => None,
        Some(Err(e)) => Some(Err(e)),
        Some(Ok(item)) => Some(Ok(item@)),
    }
}

/// A decoder of the response to a query: it reads the size header and then,
/// in the order of the traversal of the tree, hash pairs and data, and
/// hands out each only after it has checked it against the root hash.
pub struct DecodeResponseIter<'a> {
    ranges: &'a RangeSetRef<u64>,
    block_size: BlockSize,
    // the traversal, once the header was read
    iter: Option<ResponseIterRef<'a>>,
    // true after a failure
    done: bool,
    stack: HashStack,
    encoded: SliceReader<'a>,
    buf: bytes::BytesMut,
}

impl<'a> View for DecodeResponseIter<'a> {
    type V = DecoderView;

    closed spec fn view(&self) -> DecoderView {
        if self.done {
            decoder_done()
        } else {
            DecoderView {
                phase: match self.iter {
                    None => PhaseView::Header {
                        ranges: range_boundaries(self.ranges),
                        block_size: self.block_size,
                    },
                    Some(it) => PhaseView::Content { tree: it.tree_spec(), directives: it@ },
                },
                stack: self.stack@,
                input: self.encoded.remaining(),
            }
        }
    }
}

impl<'a> DecodeResponseIter<'a> {
    /// The decoder has an expected hash for every directive to come.
    pub closed spec fn wf(&self) -> bool {
        &&& self.encoded.wf()
        &&& self.block_size.wf()
        &&& !self.done ==> match self.iter {
            None => self.stack@.len() == 1,
            Some(it) => it.wf() && it.tree_spec().wf() && it.tree_spec().start_chunk.0 == 0 && fits(
                self.stack@.len() as int,
                verifier_chunks(it@),
            ),
        }
    }

    /// What the buffer of the decoder holds.
    pub closed spec fn buffer_spec(&self) -> Seq<u8> {
        buffer_content(self.buf)
    }

    /// A decoder of the response in `encoded` to the query `ranges` for the
    /// blob with the root hash `root`.
    pub fn new(
        root: crate::hash::Hash,
        block_size: BlockSize,
        encoded: &'a [u8],
        ranges: &'a RangeSetRef<u64>,
    ) -> (it: Self)
        requires
            block_size.wf(),
        ensures
            it.wf(),
            it@ == (DecoderView {
                phase: PhaseView::Header { ranges: range_boundaries(ranges), block_size },
                stack: seq![root@],
                input: encoded@,
            }),
    {
        Self::new_with_buffer(root, block_size, encoded, ranges, buffer_new())
    }

    /// A decoder like that of [`Self::new`], which collects the data of
    /// every leaf in the buffer `buf` before it hands it out.
    pub fn new_with_buffer(
        root: crate::hash::Hash,
        block_size: BlockSize,
        encoded: &'a [u8],
        ranges: &'a RangeSetRef<u64>,
        buf: bytes::BytesMut,
    ) -> (it: Self)
        requires
            block_size.wf(),
        ensures
            it.wf(),
            it@ == (DecoderView {
                phase: PhaseView::Header { ranges: range_boundaries(ranges), block_size },
                stack: seq![root@],
                input: encoded@,
            }),
    {
        let mut stack = HashStack::new();
        stack.push(root);
        assert(stack@ =~= seq![root@]);
        DecodeResponseIter {
            ranges,
            block_size,
            iter: None,
            done: false,
            stack,
            encoded: SliceReader::new(encoded),
            buf,
        }
    }

    /// What the buffer of the decoder holds: nothing once the data of a
    /// leaf was handed out.
    pub fn buffer(&self) -> (b: &[u8])
        ensures
            b@ == self.buffer_spec(),
    {
        buffer_slice(&self.buf)
    }

    /// The tree of the blob. It is known once the size header was read.
    pub fn tree(&self) -> (t: Option<BaoTree>)
        requires
            self.wf(),
        ensures
            match self@.phase {
                PhaseView::Content { tree, .. } => t == Some(tree),
                _ => t is None,
            },
    {
        if self.done {
            None
        } else {
            match &self.iter {
                Some(iter) => Some(*iter.tree()),
                None => None,
            }
        }
    }

    fn next0(&mut self) -> (r: Result<Option<DecodeResponseItem>, DecodeError>)
        requires
            old(self).wf(),
        ensures
            final(self).wf(),
            (final(self)@, handed_out(transposed(r))) == decode_step(old(self)@),
            r matches Ok(Some(DecodeResponseItem::Leaf(l))) ==> final(self).buffer_spec().len() == 0
                && l.offset.0 + bytes_content(l.data).len() <= u64::MAX && (old(
                self,
            )@.phase matches PhaseView::Content { tree, .. } ==> l.offset.0 + bytes_content(
                l.data,
            ).len() <= tree.size.0),
    {
        if self.done {
            return Ok(None);
        }
        let mut iter = match self.iter.take() {
            Some(iter) => iter,
            None => {
                let size = match read_len_io(&mut self.encoded) {
                    Ok(size) => size,
                    Err(e) => {
                        self.done = true;
                        return Err(DecodeError::from_start(StartDecodeError::maybe_not_found(e)));
                    },
                };
                let tree = BaoTree::new(size, self.block_size);
                // now we know the size, so we can canonicalize the ranges
                let ranges = truncate_ranges(self.ranges, tree.size());
                proof {
                    let t = range_boundaries(ranges);
                    lemma_tree_bounds(tree);
                    lemma_pre_order_fits(tree, t, 0);
                    crate::laws::lemma_partial_all_fit(tree, tree.root_spec(), t, tree.is_root);
                    lemma_response_fits(tree, pre_order_chunks(tree, t, 0), 1);
                }
                self.iter = Some(ResponseIterRef::new(tree, ranges, 0));
                return Ok(Some(DecodeResponseItem::Header(Header { size })));
            },
        };
        let ghost directives = iter@;
        let ghost tree = iter.tree_spec();
        let chunk = match iter.next() {
            Some(chunk) => chunk,
            None => {
                assert(iter@ =~= directives);
                self.iter = Some(iter);
                return Ok(None);
            },
        };
        proof {
            assert(verifier_chunks(directives).skip(1) =~= verifier_chunks(directives.skip(1)));
            assert(verifier_chunks(directives)[0] == verifier_chunk(chunk));
            assert(fits(
                self.stack@.len() - 1 + pushes(verifier_chunk(chunk)),
                verifier_chunks(directives.skip(1)),
            ));
            lemma_tree_bounds(tree);
        }
        match verify_chunk(chunk, &mut self.stack, &mut self.encoded) {
            Err(e) => {
                self.done = true;
                Err(e)
            },
            Ok(Verified::Parent { node, pair }) => {
                self.iter = Some(iter);
                Ok(Some(DecodeResponseItem::Parent(Parent { node, pair })))
            },
            Ok(Verified::Leaf { start_chunk, data }) => {
                self.iter = Some(iter);
                buffer_clear(&mut self.buf);
                buffer_extend(&mut self.buf, data);
                let shared = buffer_freeze(buffer_split(&mut self.buf));
                assert(bytes_content(shared) =~= data@);
                Ok(Some(DecodeResponseItem::Leaf(Leaf { offset: start_chunk.to_bytes(), data: shared })))
            },
        }
    }

    /// Hands out the next item of the response or the failure to read or to
    /// verify it, and nothing at the end of the response or after a failure.
    pub fn next(&mut self) -> (r: Option<Result<DecodeResponseItem, DecodeError>>)
        requires
            old(self).wf(),
        ensures
            final(self).wf(),
            (final(self)@, handed_out(r)) == decode_step(old(self)@),
            r matches Some(Ok(DecodeResponseItem::Leaf(l))) ==> final(self).buffer_spec().len() == 0
                && l.offset.0 + bytes_content(l.data).len() <= u64::MAX && (old(
                self,
            )@.phase matches PhaseView::Content { tree, .. } ==> l.offset.0 + bytes_content(
                l.data,
            ).len() <= tree.size.0),
    {
        match self.next0() {
            Ok(Some(item)) => Some(Ok(item)),
            Ok(None) => None,
            Err(e) => Some(Err(e)),
        }
    }
}

/// A result of an option as an option of a result.
pub open spec fn transposed<T, E>(r: Result<Option<T>, E>) -> Option<Result<T, E>> {
    match r {
        Ok(Some(x)) => Some(Ok(x)),
        Ok(None) => None,
        Err(e) => Some(Err(e)),
    }
}


/// Writes the bytes of the directives of a traversal that is at its start:
/// the hash pairs from the outboard and the data from the blob, up to the
/// first that cannot be read.
pub(crate) fn encode_plain<O: Outboard>(
    data: &[u8],
    outboard: &O,
    iter: PreOrderChunkIterRef,
    encoded: &mut Vec<u8>,
) -> (r: Result<(), IoErrorKind>)
    requires
        outboard.wf(),
        iter.wf(),
        iter.tree_spec() == outboard.tree_spec(),
    ensures
        final(encoded)@ == old(encoded)@ + readable_wire(outboard.pairs_spec(), data@, iter@),
        r is Ok <==> all_readable(outboard.pairs_spec(), data@.len(), iter@),
{
    let mut it = iter;
    let ghost cs = it@;
    let ghost pairs = outboard.pairs_spec();
    let tree = outboard.tree();
    assert(old(encoded)@ + readable_wire(pairs, data@, cs) =~= old(encoded)@ + readable_wire(
        pairs,
        data@,
        cs,
    ));
    loop
        invariant
            it.wf(),
            outboard.wf(),
            tree == outboard.tree_spec(),
            it.tree_spec() == tree,
            tree.wf(),
            pairs == outboard.pairs_spec(),
            cs == iter@,
            encoded@ + readable_wire(pairs, data@, it@) == old(encoded)@ + readable_wire(
                pairs,
                data@,
                cs,
            ),
            all_readable(pairs, data@.len(), it@) == all_readable(pairs, data@.len(), cs),
        ensures
            it@.len() == 0,
        decreases it@.len(),
    {
        let ghost before = encoded@;
        let ghost rest0 = it@;
        let item = match it.next() {
            Some(item) => item,
            None => {
                break ;
            },
        };
        match item {
            BaoChunk::Parent { node, .. } => {
                let (l_hash, r_hash) = match outboard.load(node) {
                    Ok(pair) => pair.unwrap(),
                    Err(e) => {
                        assert(!readable(pairs, data@.len(), rest0[0]));
                        assert(readable_wire(pairs, data@, rest0) =~= Seq::<u8>::empty());
                        assert(before + Seq::<u8>::empty() =~= before);
                        return Err(e);
                    },
                };
                let pair = combine_hash_pair(&l_hash, &r_hash);
                append_bytes(encoded, pair.as_slice());
            },
            BaoChunk::Leaf { start_chunk, size, .. } => {
                let start = start_chunk.to_bytes();
                let end = ByteNum(start.0 + size as u64);
                match read_range_io(data, start, end) {
                    Ok(buf) => {
                        append_bytes(encoded, buf);
                    },
                    Err(e) => {
                        assert(!readable(pairs, data@.len(), rest0[0]));
                        assert(readable_wire(pairs, data@, rest0) =~= Seq::<u8>::empty());
                        assert(before + Seq::<u8>::empty() =~= before);
                        return Err(e);
                    },
                }
            },
        }
        proof {
            let w = chunk_wire(pairs, data@, item@);
            assert(encoded@ == before + w);
            assert(before + (w + readable_wire(pairs, data@, it@)) =~= encoded@ + readable_wire(
                pairs,
                data@,
                it@,
            ));
        }
    }
    proof {
        assert(encoded@ + Seq::<u8>::empty() =~= encoded@);
    }
    Ok(())
}

/// Encodes the slice for a query: the size of the blob, and in the order of
/// the traversal the hash pairs from the outboard and the data from the
/// blob.
///
/// The blob must have the size that the outboard says, or the failure is
/// invalid input; the query must have no boundary beyond the chunks of the
/// blob, or the failure is an invalid query range. Nothing is written in
/// these two cases. Nothing is verified on the way: what is wrong in the
/// blob or in the outboard shows when the slice is decoded. The encoding
/// ends early, with what was written up to there, at the first hash pair
/// that the outboard does not hold; with an outboard that holds them all it
/// reaches its end.
///
/// Of every block that the query reaches all the data goes on the wire.
/// The directives are those of the traversal of the tree of blocks for the
/// query cut off at the end of the blob, which a decoder of slices goes
/// through as well. A decoder of responses expects, where a query has only
/// a part of a block, the selection that [`encode_ranges_validated`]
/// writes.
pub fn encode_ranges<O: Outboard>(
    data: &[u8],
    outboard: &O,
    ranges: &RangeSetRef<u64>,
    encoded: &mut Vec<u8>,
) -> (r: Result<(), EncodeError>)
    requires
        outboard.wf(),
    ensures
        ({
            let tree = outboard.tree_spec();
            let cs = pre_order_chunks(
                tree,
                truncate_spec(range_boundaries(ranges), tree.chunks_spec() as u64),
                0,
            );
            if data@.len() != tree.size.0 {
                r == Err::<(), EncodeError>(EncodeError::Io(IoErrorKind::InvalidInput))
                    && final(encoded)@ == old(encoded)@
            } else if !range_ok_spec(range_boundaries(ranges), tree.chunks_spec() as u64) {
                r == Err::<(), EncodeError>(EncodeError::InvalidQueryRange) && final(encoded)@
                    == old(encoded)@
            } else {
                &&& final(encoded)@ == old(encoded)@ + vstd::bytes::spec_u64_to_le_bytes(
                    tree.size.0,
                ) + readable_wire(outboard.pairs_spec(), data@, cs)
                &&& r is Ok <==> all_readable(outboard.pairs_spec(), data@.len(), cs)
                &&& r matches Err(e) ==> e is Io
                &&& complete(tree, outboard.pairs_spec()) ==> r is Ok
            }
        }),
{
    let tree = outboard.tree();
    proof {
        if complete(tree, outboard.pairs_spec()) && data@.len() == tree.size.0 {
            lemma_tree_bounds(tree);
            crate::laws::lemma_partial_readable(
                tree,
                data@.len(),
                outboard.pairs_spec(),
                tree.root_spec(),
                truncate_spec(range_boundaries(ranges), tree.chunks_spec() as u64),
                tree.is_root,
            );
        }
    }
    if data.len() as u64 != tree.size.0 {
        return Err(EncodeError::Io(IoErrorKind::InvalidInput));
    }
    if !range_ok(ranges, tree.chunks()) {
        return Err(EncodeError::InvalidQueryRange);
    }
    // canonicalize ranges
    let ranges = truncate_ranges(ranges, tree.size());
    // write header
    let header = vstd::bytes::u64_to_le_bytes(tree.size.0);
    append_bytes(encoded, header.as_slice());
    let it = PreOrderChunkIterRef::new(tree, ranges, 0);
    match encode_plain(data, outboard, it, encoded) {
        Ok(()) => Ok(()),
        Err(e) => Err(EncodeError::Io(e)),
    }
}

/// Reads, verifies and writes the directives of a traversal that is at its
/// start.
pub(crate) fn encode_checked<O: Outboard>(
    data: &[u8],
    outboard: &O,
    iter: PreOrderChunkIterRef,
    expected: HashStack,
    select: bool,
    encoded: &mut Vec<u8>,
) -> (r: Result<(), EncodeError>)
    requires
        outboard.wf(),
        iter.wf(),
        iter.tree_spec() == outboard.tree_spec(),
        fits(expected@.len() as int, iter@),
    ensures
        final(encoded)@ == old(encoded)@ + validated_run(
            iter@,
            expected@,
            outboard.pairs_spec(),
            data@,
            select,
        ).0,
        match validated_run(iter@, expected@, outboard.pairs_spec(), data@, select).1 {
            RunEnd::Done => r is Ok,
            RunEnd::Unreadable => r matches Err(e) && e is Io,
            RunEnd::Failed(e) => r == Err::<(), EncodeError>(e),
        },
{
    let mut it = iter;
    let mut stack = expected;
    let ghost cs = it@;
    let ghost stack0 = stack@;
    let ghost pairs = outboard.pairs_spec();
    let tree = outboard.tree();
    let mut out_buf: Vec<u8> = Vec::new();
    assert(old(encoded)@ + validated_run(cs, stack0, pairs, data@, select).0 =~= old(encoded)@
        + validated_run(cs, stack0, pairs, data@, select).0);
    loop
        invariant
            it.wf(),
            outboard.wf(),
            tree == outboard.tree_spec(),
            it.tree_spec() == tree,
            tree.wf(),
            pairs == outboard.pairs_spec(),
            cs == iter@,
            stack0 == expected@,
            fits(stack@.len() as int, it@),
            encoded@ + validated_run(it@, stack@, pairs, data@, select).0 == old(encoded)@
                + validated_run(cs, stack0, pairs, data@, select).0,
            validated_run(it@, stack@, pairs, data@, select).1 == validated_run(
                cs,
                stack0,
                pairs,
                data@,
                select,
            ).1,
        ensures
            it@.len() == 0,
        decreases it@.len(),
    {
        let ghost before = encoded@;
        let ghost rest0 = it@;
        let ghost st0 = stack@;
        let item = match it.next() {
            Some(item) => item,
            None => {
                break ;
            },
        };
        proof {
            assert(before + Seq::<u8>::empty() =~= before);
            assert(fits(st0.len() - 1 + pushes(item@), rest0.skip(1)));
        }
        match item {
            BaoChunk::Parent { is_root, left, right, node, .. } => {
                let (l_hash, r_hash) = match outboard.load(node) {
                    Ok(pair) => pair.unwrap(),
                    Err(e) => {
                        assert(!readable(pairs, data@.len(), rest0[0]));
                        assert(validated_run(rest0, st0, pairs, data@, select).0 =~= Seq::<u8>::empty());
                        return Err(EncodeError::Io(e));
                    },
                };
                proof {
                    let w = chunk_wire(pairs, data@, item@);
                    assert(w.subrange(0, 32) =~= l_hash@);
                    assert(w.subrange(32, 64) =~= r_hash@);
                }
                let actual = parent_cv(&l_hash, &r_hash, is_root);
                let expected = stack.pop().unwrap();
                if !actual.same(&expected) {
                    return Err(EncodeError::ParentHashMismatch(node));
                }
                if right {
                    stack.push(r_hash);
                }
                if left {
                    stack.push(l_hash);
                }
                let pair = combine_hash_pair(&l_hash, &r_hash);
                append_bytes(encoded, pair.as_slice());
            },
            BaoChunk::Leaf { start_chunk, size, is_root, ranges } => {
                let expected = stack.pop().unwrap();
                let start = start_chunk.to_bytes();
                let end = ByteNum(start.0 + size as u64);
                let buf = match read_range_io(data, start, end) {
                    Ok(buf) => buf,
                    Err(e) => {
                        assert(!readable(pairs, data@.len(), rest0[0]));
                        assert(validated_run(rest0, st0, pairs, data@, select).0 =~= Seq::<u8>::empty());
                        return Err(EncodeError::Io(e));
                    },
                };
                proof {
                    assert(buf@.take(size as int) =~= buf@);
                }
                if select && !is_all(ranges) {
                    // we need to encode just a part of the data
                    //
                    // write into an out buffer to ensure we detect mismatches
                    // before writing to the output.
                    out_buf.clear();
                    let actual = encode_selected_rec(
                        start_chunk,
                        buf,
                        is_root,
                        ranges,
                        true,
                        &mut out_buf,
                    );
                    if !actual.same(&expected) {
                        return Err(EncodeError::LeafHashMismatch(start_chunk));
                    }
                    assert(out_buf@ =~= validated_wire(pairs, data@, item@, select));
                    append_bytes(encoded, out_buf.as_slice());
                } else {
                    let actual = hash_subtree(start_chunk.0, buf, is_root);
                    if !actual.same(&expected) {
                        return Err(EncodeError::LeafHashMismatch(start_chunk));
                    }
                    append_bytes(encoded, buf);
                }
            },
        }
        proof {
            let w = validated_wire(pairs, data@, item@, select);
            assert(encoded@ == before + w);
            let rest = validated_run(it@, stack@, pairs, data@, select);
            assert(before + (w + rest.0) =~= encoded@ + rest.0);
        }
    }
    proof {
        assert(encoded@ + Seq::<u8>::empty() =~= encoded@);
    }
    Ok(())
}

/// Encodes the slice for a query like [`encode_ranges`], and verifies on
/// the way every hash pair and all data against the root hash of the
/// outboard. Where the query has only a part of a block, the selection
/// within the block goes on the wire in place of the block.
///
/// The blob must have the size that the outboard says, and the query no
/// boundary beyond the chunks of the blob, as for [`encode_ranges`]. The
/// encoding ends early, with what was written up to there, at the first
/// directive for which what it asks for cannot be read or does not match
/// the expected hash.
pub fn encode_ranges_validated<O: Outboard>(
    data: &[u8],
    outboard: &O,
    ranges: &RangeSetRef<u64>,
    encoded: &mut Vec<u8>,
) -> (r: Result<(), EncodeError>)
    requires
        outboard.wf(),
    ensures
        ({
            let tree = outboard.tree_spec();
            let cs = pre_order_chunks(
                tree,
                truncate_spec(range_boundaries(ranges), tree.chunks_spec() as u64),
                0,
            );
            let run = validated_run(cs, seq![outboard.root_spec()], outboard.pairs_spec(), data@, true);
            if data@.len() != tree.size.0 {
                r == Err::<(), EncodeError>(EncodeError::Io(IoErrorKind::InvalidInput))
                    && final(encoded)@ == old(encoded)@
            } else if !range_ok_spec(range_boundaries(ranges), tree.chunks_spec() as u64) {
                r == Err::<(), EncodeError>(EncodeError::InvalidQueryRange) && final(encoded)@
                    == old(encoded)@
            } else {
                &&& final(encoded)@ == old(encoded)@ + vstd::bytes::spec_u64_to_le_bytes(
                    tree.size.0,
                ) + run.0
                &&& match run.1 {
                    RunEnd::Done => r is Ok,
                    RunEnd::Unreadable => r matches Err(e) && e is Io,
                    RunEnd::Failed(e) => r == Err::<(), EncodeError>(e),
                }
                &&& tree.is_root && outboard.root_spec() == root_hash(tree, data@)
                    && crate::laws::vouches(tree, data@, outboard.pairs_spec()) ==> r is Ok
            }
        }),
{
    let mut stack = HashStack::new();
    stack.push(outboard.root());
    assert(stack@ =~= seq![outboard.root_spec()]);
    let tree = outboard.tree();
    if data.len() as u64 != tree.size.0 {
        return Err(EncodeError::Io(IoErrorKind::InvalidInput));
    }
    if !range_ok(ranges, tree.chunks()) {
        return Err(EncodeError::InvalidQueryRange);
    }
    proof {
        let tree = outboard.tree_spec();
        if tree.wf() && tree.start_chunk.0 == 0 && tree.is_root && data@.len() == tree.size.0
            && crate::laws::vouches(tree, data@, outboard.pairs_spec()) {
            crate::accept::lemma_validated_done(
                tree,
                data@,
                outboard.pairs_spec(),
                range_boundaries(ranges),
                true,
            );
        }
    }
    // canonicalize ranges
    let ranges = truncate_ranges(ranges, tree.size());
    // write header
    let header = vstd::bytes::u64_to_le_bytes(tree.size.0);
    append_bytes(encoded, header.as_slice());
    proof {
        lemma_pre_order_fits(tree, range_boundaries(ranges), 0);
    }
    let it = PreOrderChunkIterRef::new(tree, ranges, 0);
    let r = encode_checked(data, outboard, it, stack, true, encoded);
    proof {
        let cs = pre_order_chunks(tree, range_boundaries(ranges), 0);
        let run = validated_run(cs, seq![outboard.root_spec()], outboard.pairs_spec(), data@, true);
        assert(encoded@ =~= old(encoded)@ + vstd::bytes::spec_u64_to_le_bytes(tree.size.0) + run.0);
    }
    r
}


/// The blob whose bytes from the byte offset `base` on are `data`, with
/// zeros before them.
pub open spec fn blob_at(base: nat, data: Seq<u8>) -> Seq<u8> {
    Seq::new(base + data.len(), |i: int| if i < base { 0u8 } else { data[i - base] })
}

/// The blob that starts at the byte offset 0 is its data.
pub proof fn lemma_blob_at_zero(data: Seq<u8>)
    ensures
        blob_at(0, data) == data,
{
    assert(blob_at(0, data) =~= data);
}

/// Computes the hash of the root of a tree over `data`, and appends the
/// hash pairs of its outboard in post-order to `outboard`, without the
/// size at the end. The root is hashed as a root if `can_be_root` is true.
pub(crate) fn outboard_post_order_impl(
    tree: BaoTree,
    data: &[u8],
    can_be_root: bool,
    outboard: &mut Vec<u8>,
) -> (h: crate::hash::Hash)
    requires
        tree.wf(),
        tree.size.0 <= data@.len(),
        can_be_root ==> tree.start_chunk.0 == 0,
    ensures
        h@ == node_hash(
            tree,
            blob_at((tree.start_chunk.0 * 1024) as nat, data@),
            tree.root_spec(),
            can_be_root,
        ),
        final(outboard)@ == old(outboard)@ + post_order_pairs(
            tree,
            blob_at((tree.start_chunk.0 * 1024) as nat, data@),
            tree.root_spec(),
        ),
{
    // do not allocate for small trees
    let mut stack = HashStack::new();
    let mut it = PostOrderChunkIter::new(tree);
    let ghost cs = it@;
    let ghost st0 = PostState { stack: stack@, written: outboard@, pairs: Map::empty() };
    let ghost mut pairs: crate::codec::HashPairs = Map::empty();
    let base: u64 = tree.start_chunk.0 * 1024;
    let ghost blob = blob_at(base as nat, data@);
    proof {
        crate::tree::lemma_tree_bounds(tree);
        let rest = Seq::<BaoChunk<()>>::empty();
        lemma_post_fits_node(tree, tree.root_spec(), 0, rest);
        assert(cs + rest =~= cs);
        lemma_post_run_node(tree, blob, tree.root_spec(), st0, can_be_root);
    }
    let len: usize = data.len();
    loop
        invariant
            it.wf(),
            it.tree_spec() == tree,
            tree.wf(),
            len == data@.len(),
            base == tree.start_chunk.0 * 1024,
            can_be_root ==> tree.start_chunk.0 == 0,
            blob == blob_at(base as nat, data@),
            tree.size.0 <= data@.len(),
            post_fits(stack@.len() as int, it@),
            post_run(it@, PostState { stack: stack@, written: outboard@, pairs }, blob, can_be_root)
                == post_run(cs, st0, blob, can_be_root),
        ensures
            it@.len() == 0,
        decreases it@.len(),
    {
        let ghost rest0 = it@;
        let ghost state0 = PostState { stack: stack@, written: outboard@, pairs };
        let item = match it.next() {
            Some(item) => item,
            None => {
                break ;
            },
        };
        assert(post_run(rest0, state0, blob, can_be_root) == post_run(
            it@,
            post_step(item, state0, blob, can_be_root),
            blob,
            can_be_root,
        ));
        match item {
            BaoChunk::Parent { is_root, node, .. } => {
                let right_hash = stack.pop().unwrap();
                let left_hash = stack.pop().unwrap();
                let pair = combine_hash_pair(&left_hash, &right_hash);
                let ghost before = outboard@;
                append_bytes(outboard, pair.as_slice());
                let parent = parent_cv(&left_hash, &right_hash, can_be_root && is_root);
                stack.push(parent);
                proof {
                    pairs = pairs.insert(node, (left_hash@, right_hash@));
                    assert(outboard@ =~= before + left_hash@ + right_hash@);
                }
            },
            BaoChunk::Leaf { size, is_root, start_chunk, .. } => {
                let start: usize = (start_chunk.0 * 1024 - base) as usize;
                let buf = vstd::slice::slice_subrange(data, start, start + size);
                proof {
                    assert(buf@ =~= blob.subrange(
                        start_chunk.0 * 1024,
                        start_chunk.0 * 1024 + size,
                    ));
                }
                let hash = hash_subtree(start_chunk.0, buf, can_be_root && is_root);
                stack.push(hash);
            },
        }
        assert((PostState { stack: stack@, written: outboard@, pairs }) == post_step(
            item,
            state0,
            blob,
            can_be_root,
        ));
    }
    stack.pop().unwrap()
}

/// Computes the root hash of the blob that the first `size` bytes of `data`
/// are, and appends its outboard in post-order to `outboard`: the hash pairs
/// of the nodes in post-order, then the size.
///
/// If `data` has fewer than `size` bytes, nothing is written and the
/// failure is an early end.
pub fn outboard_post_order(data: &[u8], size: u64, block_size: BlockSize, outboard: &mut Vec<u8>) -> (r:
    Result<crate::hash::Hash, IoErrorKind>)
    requires
        block_size.wf(),
    ensures
        match r {
            Ok(h) => size <= data@.len() && h@ == root_hash(
                BaoTree::new_spec(ByteNum(size), block_size),
                data@,
            ) && final(outboard)@ == old(outboard)@ + post_order_outboard(
                BaoTree::new_spec(ByteNum(size), block_size),
                data@,
            ),
            Err(e) => e == IoErrorKind::UnexpectedEof && size > data@.len() && final(outboard)@
                == old(outboard)@,
        },
{
    if size > data.len() as u64 {
        return Err(IoErrorKind::UnexpectedEof);
    }
    let tree = BaoTree::new(ByteNum(size), block_size);
    proof {
        lemma_blob_at_zero(data@);
    }
    let hash = outboard_post_order_impl(tree, data, true, outboard);
    let suffix = vstd::bytes::u64_to_le_bytes(size);
    let ghost before = outboard@;
    append_bytes(outboard, suffix.as_slice());
    assert(outboard@ =~= old(outboard)@ + post_order_outboard(tree, data@));
    Ok(hash)
}

/// Computes the root hash of a blob in memory and fills a mutable outboard
/// with the hash pairs of the nodes of its tree, in post-order.
///
/// The blob must have the size of the tree of the outboard, or the failure
/// is invalid input. A failure to save a hash pair ends the work.
pub fn write_outboard_from_mem<O: OutboardMut>(data: &[u8], outboard: &mut O) -> (r: Result<
    crate::hash::Hash,
    IoErrorKind,
>)
    requires
        old(outboard).wf(),
    ensures
        final(outboard).wf(),
        final(outboard).tree_spec() == old(outboard).tree_spec(),
        ({
            let tree = old(outboard).tree_spec();
            let fits_blob = tree.size.0 == data@.len();
            match r {
                Ok(h) => fits_blob && h@ == root_hash(tree, data@) && final(outboard).pairs_spec()
                    == save_nodes(
                    old(outboard).pairs_spec(),
                    tree,
                    data@,
                    post_order_nodes(tree.root_spec(), tree.filled_size_spec()),
                ),
                Err(e) => if !fits_blob {
                    e == IoErrorKind::InvalidInput && final(outboard).pairs_spec() == old(
                        outboard,
                    ).pairs_spec()
                } else {
                    exists|k: int|
                        0 <= k <= post_order_chunks(tree).len() && final(outboard).pairs_spec()
                            == post_run(
                            #[trigger] post_order_chunks(tree).take(k),
                            (PostState {
                                stack: Seq::empty(),
                                written: Seq::empty(),
                                pairs: old(outboard).pairs_spec(),
                            }),
                            data@,
                            true,
                        ).pairs
                },
            }
        }),
        old(outboard).tree_spec().size.0 == data@.len() && old(outboard).tree_spec().blocks_spec()
            <= 1 ==> r is Ok,
{
    let tree = outboard.tree();
    if tree.size.0 != data.len() as u64 {
        return Err(IoErrorKind::InvalidInput);
    }
    // do not allocate for small trees
    let mut stack = HashStack::new();
    let mut it = PostOrderChunkIter::new(tree);
    let ghost cs = it@;
    let ghost st0 = PostState {
        stack: stack@,
        written: Seq::<u8>::empty(),
        pairs: outboard.pairs_spec(),
    };
    let ghost mut written = Seq::<u8>::empty();
    let ghost mut done = Seq::<BaoChunk<()>>::empty();
    proof {
        assert(done + cs =~= cs);
        assert(cs == post_order_chunks(tree));
        crate::tree::lemma_tree_bounds(tree);
        let rest = Seq::<BaoChunk<()>>::empty();
        lemma_post_fits_node(tree, tree.root_spec(), 0, rest);
        assert(cs + rest =~= cs);
        lemma_post_run_node(tree, data@, tree.root_spec(), st0, true);
    }
    let len: usize = data.len();
    loop
        invariant
            it.wf(),
            it.tree_spec() == tree,
            tree.wf(),
            outboard.wf(),
            outboard.tree_spec() == tree,
            tree == old(outboard).tree_spec(),
            len == data@.len(),
            tree.start_chunk.0 == 0,
            tree.size.0 == data@.len(),
            post_fits(stack@.len() as int, it@),
            post_run(
                it@,
                PostState { stack: stack@, written, pairs: outboard.pairs_spec() },
                data@,
                true,
            ) == post_run(cs, st0, data@, true),
            cs == post_order_chunks(tree),
            st0 == (PostState {
                stack: Seq::empty(),
                written: Seq::empty(),
                pairs: old(outboard).pairs_spec(),
            }),
            done + it@ == cs,
            (PostState { stack: stack@, written, pairs: outboard.pairs_spec() }) == post_run(
                done,
                st0,
                data@,
                true,
            ),
        ensures
            it@.len() == 0,
        decreases it@.len(),
    {
        let ghost rest0 = it@;
        let ghost state0 = PostState { stack: stack@, written, pairs: outboard.pairs_spec() };
        let item = match it.next() {
            Some(item) => item,
            None => {
                break ;
            },
        };
        assert(post_run(rest0, state0, data@, true) == post_run(
            it@,
            post_step(item, state0, data@, true),
            data@,
            true,
        ));
        proof {
            let one = seq![item];
            assert(done + (one + it@) =~= (done + one) + it@);
            assert(rest0 =~= one + it@);
            assert(cs.take(done.len() as int) =~= done);
            lemma_post_run_concat(done, one, st0, data@, true);
            assert(one.skip(1) =~= Seq::<BaoChunk<()>>::empty());
            assert(one[0] == item);
            assert(post_run(one.skip(1), post_step(item, state0, data@, true), data@, true)
                == post_step(item, state0, data@, true));
            assert(post_run(one, state0, data@, true) == post_step(item, state0, data@, true));
        }
        match item {
            BaoChunk::Parent { is_root, node, .. } => {
                proof {
                    // a tree of one block keeps no hash pair
                    crate::tree::lemma_contains_bounds(tree, node);
                    crate::tree::lemma_node_bounds(node);
                    assert(tree.blocks_spec() > 1);
                }
                let right_hash = stack.pop().unwrap();
                let left_hash = stack.pop().unwrap();
                let pair = (left_hash, right_hash);
                match outboard.save(node, &pair) {
                    Ok(()) => {},
                    Err(e) => {
                        return Err(e);
                    },
                }
                let parent = parent_cv(&left_hash, &right_hash, is_root);
                stack.push(parent);
                proof {
                    written = written + left_hash@ + right_hash@;
                }
            },
            BaoChunk::Leaf { size, is_root, start_chunk, .. } => {
                let start: usize = (start_chunk.0 * 1024) as usize;
                let end: usize = start + size;
                let buf = vstd::slice::slice_subrange(data, start, end);
                let hash = hash_subtree(start_chunk.0, buf, is_root);
                stack.push(hash);
            },
        }
        assert((PostState { stack: stack@, written, pairs: outboard.pairs_spec() }) == post_step(
            item,
            state0,
            data@,
            true,
        ));
        proof {
            done = done + seq![item];
        }
    }
    Ok(stack.pop().unwrap())
}


/// True if an outboard holds the hash pair of every node whose pair an
/// outboard of its tree keeps.
pub open spec fn complete(tree: BaoTree, pairs: HashPairs) -> bool {
    forall|n: TreeNode| tree.is_persisted_spec(n) ==> #[trigger] pairs.contains_key(n)
}

/// The chunks under `node` that an outboard vouches for, where `expected`
/// is the hash that its parent gives the node: none if the hash pair of the
/// node does not hash to `expected`; else all chunks of a leaf, and above
/// the leaves the chunks that the outboard vouches for under the two
/// children. A leaf whose right block holds no data has no hash pair: its
/// chunks stand on the word of its parent.
pub open spec fn valid_outboard_set(
    tree: BaoTree,
    pairs: HashPairs,
    node: TreeNode,
    expected: Seq<u8>,
    is_root: bool,
) -> Set<int>
    decreases node.level,
{
    let start = tree.block_chunk_spec(node.start_spec()) as int;
    let end = start + 2 * tree.block_size.chunks_spec();
    let all = chunk_interval(
        start,
        if end <= tree.chunks_spec() {
            end
        } else {
            tree.chunks_spec() as int
        },
    );
    if !tree.is_persisted_spec(node) {
        if node.level == 0 {
            all
        } else {
            Set::empty()
        }
    } else if parent_cv_of(pairs[node].0, pairs[node].1, is_root) != expected {
        Set::empty()
    } else if node.level == 0 {
        all
    } else {
        match node.right_descendant_spec(tree.filled_size_spec()) {
            Some(r) if r.level < node.level => valid_outboard_set(
                tree,
                pairs,
                node.left_child_spec(),
                pairs[node].0,
                false,
            ).union(valid_outboard_set(tree, pairs, r, pairs[node].1, false)),
            _ => Set::empty(),
        }
    }
}

/// The number of chunks that are needed to hold the bytes up to `b`.
pub open spec fn chunks_up_to(b: nat) -> int {
    (b as int + 1023) / 1024
}

/// The chunks under `node` for which an outboard and a blob agree, where
/// `expected` is the hash that its parent gives the node: none if the hash
/// pair of the node does not hash to `expected`; else for a leaf the
/// chunks of each of its blocks whose data hashes to its half of the pair,
/// and above the leaves the chunks for which they agree under the two
/// children. The data of a leaf whose right block holds no data must hash
/// to `expected` itself.
pub open spec fn valid_file_set(
    tree: BaoTree,
    pairs: HashPairs,
    blob: Seq<u8>,
    node: TreeNode,
    expected: Seq<u8>,
    is_root: bool,
) -> Set<int>
    decreases node.level,
{
    let s = tree.block_byte_spec(node.start_spec());
    let m = tree.block_byte_spec(node.mid_spec());
    let e = tree.block_byte_spec(node.end_spec());
    let sc = chunks_up_to(s);
    let mc = chunks_up_to(m);
    let ec = chunks_up_to(e);
    if !tree.is_persisted_spec(node) {
        if node.level == 0 && subtree_hash(sc as u64, blob.subrange(s as int, m as int), is_root)
            == expected {
            chunk_interval(sc, mc)
        } else {
            Set::empty()
        }
    } else if parent_cv_of(pairs[node].0, pairs[node].1, is_root) != expected {
        Set::empty()
    } else if node.level == 0 {
        (if subtree_hash(sc as u64, blob.subrange(s as int, m as int), false) == pairs[node].0 {
            chunk_interval(sc, mc)
        } else {
            Set::empty()
        }).union(
            if subtree_hash(mc as u64, blob.subrange(m as int, e as int), false) == pairs[node].1 {
                chunk_interval(mc, ec)
            } else {
                Set::empty()
            },
        )
    } else {
        match node.right_descendant_spec(tree.filled_size_spec()) {
            Some(r) if r.level < node.level => valid_file_set(
                tree,
                pairs,
                blob,
                node.left_child_spec(),
                pairs[node].0,
                false,
            ).union(valid_file_set(tree, pairs, blob, r, pairs[node].1, false)),
            _ => Set::empty(),
        }
    }
}

/// Adds the chunks from `start` up to `end` to a set of chunk ranges.
fn add_range(res: &mut ChunkRanges, start: u64, end: u64)
    ensures
        strictly_increasing(final(res).boundaries_spec()),
        range_set(final(res).boundaries_spec()) == range_set(old(res).boundaries_spec()).union(
            chunk_interval(start as int, end as int),
        ),
{
    let range = ChunkRanges::from_range(ChunkNum(start), ChunkNum(end));
    proof {
        lemma_range_set_interval(start, end);
        if start >= end {
            assert(chunk_interval(start as int, end as int) =~= Set::<int>::empty());
        }
    }
    res.union_with(range.as_ranges());
}

fn validate_outboard_rec<O: Outboard>(
    outboard: &O,
    tree: BaoTree,
    filled_size: u64,
    res: &mut ChunkRanges,
    parent_hash: &crate::hash::Hash,
    node: TreeNode,
    is_root: bool,
) -> (r: Result<(), IoErrorKind>)
    requires
        outboard.wf(),
        tree == outboard.tree_spec(),
        tree.wf(),
        filled_size == tree.filled_size_spec(),
        tree.contains(node),
        strictly_increasing(old(res).boundaries_spec()),
    ensures
        strictly_increasing(final(res).boundaries_spec()),
        r is Ok ==> range_set(final(res).boundaries_spec()) == range_set(
            old(res).boundaries_spec(),
        ).union(valid_outboard_set(tree, outboard.pairs_spec(), node, parent_hash@, is_root)),
        complete(tree, outboard.pairs_spec()) ==> r is Ok,
    decreases node.level,
{
    proof {
        crate::tree::lemma_contains_bounds(tree, node);
        crate::tree::lemma_node_bounds(node);
        crate::tree::lemma_tree_bounds(tree);
        crate::tree::lemma_block_chunk_bound(tree, node.start_spec());
        assert(range_set(res.boundaries_spec()).union(Set::<int>::empty()) =~= range_set(
            res.boundaries_spec(),
        ));
    }
    let (l_hash, r_hash) = match outboard.load(node) {
        Err(e) => {
            return Err(e);
        },
        Ok(Some((l_hash, r_hash))) => {
            let actual = parent_cv(&l_hash, &r_hash, is_root);
            if !actual.same(parent_hash) {
                // we got a validation error. Simply continue without adding the range
                return Ok(());
            }
            (l_hash, r_hash)
        },
        Ok(None) => (*parent_hash, crate::hash::Hash::from_bytes([0u8; 32])),
    };
    if node.is_leaf() {
        let start = tree.chunk_num(node).0;
        let end = start + tree.chunk_group_chunks().0 * 2;
        let chunks = tree.chunks().0;
        let end = if end <= chunks {
            end
        } else {
            chunks
        };
        add_range(res, start, end);
        Ok(())
    } else {
        proof {
            crate::tree::lemma_children_contained(tree, node);
        }
        if !tree.is_persisted(node) {
            return Ok(());
        }
        // recurse
        let left = node.left_child().unwrap();
        let ghost before_all = range_set(res.boundaries_spec());
        match validate_outboard_rec(outboard, tree, filled_size, res, &l_hash, left, false) {
            Ok(()) => {},
            Err(e) => {
                return Err(e);
            },
        }
        let right = node.right_descendant(filled_size).unwrap();
        match validate_outboard_rec(outboard, tree, filled_size, res, &r_hash, right, false) {
            Ok(()) => {},
            Err(e) => {
                return Err(e);
            },
        }
        proof {
            let a = valid_outboard_set(tree, outboard.pairs_spec(), left, l_hash@, false);
            let b = valid_outboard_set(tree, outboard.pairs_spec(), right, r_hash@, false);
            assert(before_all.union(a).union(b) =~= before_all.union(a.union(b)));
        }
        Ok(())
    }
}

/// Given an outboard, the chunks that it vouches for: those under nodes
/// all of whose ancestors have hash pairs that hash to what their parent,
/// and at the top the root hash, says. A hash pair that does not match
/// fails nothing: the chunks under it are left out.
pub fn valid_outboard_ranges<O: Outboard>(outboard: &O) -> (r: Result<ChunkRanges, IoErrorKind>)
    requires
        outboard.wf(),
    ensures
        r matches Ok(res) ==> strictly_increasing(res.boundaries_spec()),
        r matches Ok(res) ==> range_set(res.boundaries_spec()) == valid_outboard_set(
            outboard.tree_spec(),
            outboard.pairs_spec(),
            outboard.tree_spec().root_spec(),
            outboard.root_spec(),
            true,
        ),
        complete(outboard.tree_spec(), outboard.pairs_spec()) ==> r is Ok,
{
    let tree = outboard.tree();
    let root_hash = outboard.root();
    let mut res = ChunkRanges::empty();
    proof {
        lemma_range_set_interval(0, 0);
    }
    match validate_outboard_rec(
        outboard,
        tree,
        tree.filled_size(),
        &mut res,
        &root_hash,
        tree.root(),
        true,
    ) {
        Ok(()) => {
            proof {
                let v = valid_outboard_set(
                    tree,
                    outboard.pairs_spec(),
                    tree.root_spec(),
                    root_hash@,
                    true,
                );
                assert(Set::<int>::empty().union(v) =~= v);
            }
            Ok(res)
        },
        Err(e) => Err(e),
    }
}


/// Reads a hash pair of 64 bytes.
pub fn read_parent(from: &mut SliceReader) -> (r: Result<
    (crate::hash::Hash, crate::hash::Hash),
    IoErrorKind,
>)
    requires
        old(from).wf(),
    ensures
        final(from).wf(),
        final(from).data_spec() == old(from).data_spec(),
        match r {
            Ok((l, r)) => old(from).remaining().len() >= 64 && l@ == old(from).remaining().subrange(
                0,
                32,
            ) && r@ == old(from).remaining().subrange(32, 64) && final(from).remaining() == old(
                from,
            ).remaining().skip(64),
            Err(e) => e == IoErrorKind::UnexpectedEof && old(from).remaining().len() < 64
                && *final(from) == *old(from),
        },
{
    read_parent_io(from)
}

/// Reads the header of a slice: the size of the blob as 8 bytes, the least
/// significant first.
pub fn read_len(from: &mut SliceReader) -> (r: Result<ByteNum, IoErrorKind>)
    requires
        old(from).wf(),
    ensures
        final(from).wf(),
        final(from).data_spec() == old(from).data_spec(),
        match r {
            Ok(len) => old(from).remaining().len() >= 8 && len.0
                == vstd::bytes::spec_u64_from_le_bytes(old(from).remaining().take(8))
                && final(from).remaining() == old(from).remaining().skip(8),
            Err(e) => e == IoErrorKind::UnexpectedEof && old(from).remaining().len() < 8
                && *final(from) == *old(from),
        },
{
    read_len_io(from)
}

/// Reads the bytes from `start` up to `end` of a source in memory. The read
/// fails with `UnexpectedEof` if the source ends before `end`.
pub fn read_range<'a>(from: &'a [u8], start: ByteNum, end: ByteNum) -> (r: Result<
    &'a [u8],
    IoErrorKind,
>)
    requires
        start.0 <= end.0,
    ensures
        match r {
            Ok(s) => end.0 <= from@.len() && s@ == from@.subrange(start.0 as int, end.0 as int),
            Err(e) => e == IoErrorKind::UnexpectedEof && end.0 > from@.len(),
        },
{
    read_range_io(from, start, end)
}

fn validate_file_rec<O: Outboard>(
    outboard: &O,
    data: &[u8],
    tree: BaoTree,
    valid_nodes: u64,
    res: &mut ChunkRanges,
    parent_hash: &crate::hash::Hash,
    node: TreeNode,
    is_root: bool,
) -> (r: Result<(), IoErrorKind>)
    requires
        outboard.wf(),
        tree == outboard.tree_spec(),
        tree.wf(),
        valid_nodes == tree.filled_size_spec(),
        tree.contains(node),
        tree.start_chunk.0 == 0,
        is_root ==> node == tree.root_spec(),
        strictly_increasing(old(res).boundaries_spec()),
    ensures
        strictly_increasing(final(res).boundaries_spec()),
        r is Ok ==> range_set(final(res).boundaries_spec()) == range_set(
            old(res).boundaries_spec(),
        ).union(valid_file_set(tree, outboard.pairs_spec(), data@, node, parent_hash@, is_root)),
        complete(tree, outboard.pairs_spec()) && tree.start_chunk.0 * 1024 + tree.size.0
            <= data@.len() ==> r is Ok,
    decreases node.level,
{
    proof {
        crate::tree::lemma_contains_bounds(tree, node);
        crate::tree::lemma_node_bounds(node);
        crate::tree::lemma_tree_bounds(tree);
        crate::tree::lemma_root_covers(tree);
        crate::codec::lemma_below_root(tree, node);
        assert(0 * tree.block_bytes() == 0);
        crate::iter::lemma_block_byte_diff(tree, node.start_spec(), node.mid_spec());
        crate::iter::lemma_block_byte_diff(tree, node.mid_spec(), node.end_spec());
        assert(range_set(res.boundaries_spec()).union(Set::<int>::empty()) =~= range_set(
            res.boundaries_spec(),
        ));
    }
    let ghost before_all = range_set(res.boundaries_spec());
    match outboard.load(node) {
        Err(e) => Err(e),
        Ok(Some((l_hash, r_hash))) => {
            let actual = parent_cv(&l_hash, &r_hash, is_root);
            if !actual.same(parent_hash) {
                // we got a validation error. Simply continue without adding the range
                return Ok(());
            }
            if node.is_leaf() {
                let (s, m, e) = tree.leaf_byte_ranges3(node);
                let l_data = match read_range(data, s, m) {
                    Ok(l_data) => l_data,
                    Err(e) => {
                        return Err(e);
                    },
                };
                let actual = hash_subtree(s.chunks().0, l_data, false);
                if actual.same(&l_hash) {
                    add_range(res, s.chunks().0, m.chunks().0);
                }
                let ghost after_left = range_set(res.boundaries_spec());
                let r_data = match read_range(data, m, e) {
                    Ok(r_data) => r_data,
                    Err(e) => {
                        return Err(e);
                    },
                };
                let actual = hash_subtree(m.chunks().0, r_data, false);
                if actual.same(&r_hash) {
                    add_range(res, m.chunks().0, e.chunks().0);
                }
                proof {
                    let sc = chunks_up_to(s.0 as nat);
                    let mc = chunks_up_to(m.0 as nat);
                    let ec = chunks_up_to(e.0 as nat);
                    let a = if subtree_hash(sc as u64, l_data@, false) == l_hash@ {
                        chunk_interval(sc, mc)
                    } else {
                        Set::empty()
                    };
                    let b = if subtree_hash(mc as u64, r_data@, false) == r_hash@ {
                        chunk_interval(mc, ec)
                    } else {
                        Set::empty()
                    };
                    assert(after_left =~= before_all.union(a));
                    assert(range_set(res.boundaries_spec()) =~= before_all.union(a.union(b)));
                }
                Ok(())
            } else {
                proof {
                    crate::tree::lemma_children_contained(tree, node);
                }
                // recurse
                let left = node.left_child().unwrap();
                match validate_file_rec(outboard, data, tree, valid_nodes, res, &l_hash, left, false) {
                    Ok(()) => {},
                    Err(e) => {
                        return Err(e);
                    },
                }
                let right = node.right_descendant(valid_nodes).unwrap();
                match validate_file_rec(outboard, data, tree, valid_nodes, res, &r_hash, right, false) {
                    Ok(()) => {},
                    Err(e) => {
                        return Err(e);
                    },
                }
                proof {
                    let a = valid_file_set(
                        tree,
                        outboard.pairs_spec(),
                        data@,
                        left,
                        l_hash@,
                        false,
                    );
                    let b = valid_file_set(
                        tree,
                        outboard.pairs_spec(),
                        data@,
                        right,
                        r_hash@,
                        false,
                    );
                    assert(before_all.union(a).union(b) =~= before_all.union(a.union(b)));
                }
                Ok(())
            }
        },
        Ok(None) => {
            if node.is_leaf() {
                let (s, m, _) = tree.leaf_byte_ranges3(node);
                let l_data = match read_range(data, s, m) {
                    Ok(l_data) => l_data,
                    Err(e) => {
                        return Err(e);
                    },
                };
                let actual = hash_subtree(s.chunks().0, l_data, is_root);
                if actual.same(parent_hash) {
                    add_range(res, s.chunks().0, m.chunks().0);
                }
            }
            Ok(())
        },
    }
}

/// Given an outboard and a blob, the chunks for which the two agree: those
/// whose data hashes to what the outboard says, under nodes all of whose
/// ancestors have hash pairs that hash to what their parent, and at the top
/// the root hash, says. A hash that does not match fails nothing: the
/// chunks under it are left out.
pub fn valid_file_ranges<O: Outboard>(outboard: &O, reader: &[u8]) -> (r: Result<
    ChunkRanges,
    IoErrorKind,
>)
    requires
        outboard.wf(),
    ensures
        r matches Ok(res) ==> strictly_increasing(res.boundaries_spec()),
        r matches Ok(res) ==> range_set(res.boundaries_spec()) == valid_file_set(
            outboard.tree_spec(),
            outboard.pairs_spec(),
            reader@,
            outboard.tree_spec().root_spec(),
            outboard.root_spec(),
            true,
        ),
        complete(outboard.tree_spec(), outboard.pairs_spec()) && outboard.tree_spec().size.0
            <= reader@.len() ==> r is Ok,
{
    let tree = outboard.tree();
    let root_hash = outboard.root();
    let mut res = ChunkRanges::empty();
    proof {
        lemma_range_set_interval(0, 0);
    }
    match validate_file_rec(
        outboard,
        reader,
        tree,
        tree.filled_size(),
        &mut res,
        &root_hash,
        tree.root(),
        true,
    ) {
        Ok(()) => {
            proof {
                let v = valid_file_set(
                    tree,
                    outboard.pairs_spec(),
                    reader@,
                    tree.root_spec(),
                    root_hash@,
                    true,
                );
                assert(Set::<int>::empty().union(v) =~= v);
            }
            Ok(res)
        },
        Err(e) => Err(e),
    }
}


/// What a decoder hands out from its state on to its end, and the failure
/// at which it ends if it does not reach the end of the response.
pub open spec fn decode_run(v: DecoderView) -> (Seq<ItemView>, Option<DecodeError>) {
    match v.phase {
        PhaseView::Done => (Seq::empty(), None),
        PhaseView::Header { .. } => match decode_step(v) {
            (next, Some(Ok(header))) => match next.phase {
                PhaseView::Content { directives, .. } => {
                    let end = verify_run(verifier_chunks(directives), next.stack, next.input);
                    (
                        seq![header] + end.accepted.map_values(|s: StepView| step_item(s)),
                        end.failure,
                    )
                },
                _ => (seq![header], None),
            },
            (_, Some(Err(e))) => (Seq::empty(), Some(e)),
            _ => (Seq::empty(), None),
        },
        PhaseView::Content { directives, .. } => {
            let end = verify_run(verifier_chunks(directives), v.stack, v.input);
            (end.accepted.map_values(|s: StepView| step_item(s)), end.failure)
        },
    }
}

/// A step of a decoder hands out the first of what it hands out to its end.
pub proof fn lemma_decode_run_step(v: DecoderView)
    ensures
        match decode_step(v) {
            (next, Some(Ok(item))) => decode_run(v) == (
                seq![item] + decode_run(next).0,
                decode_run(next).1,
            ),
            (_, Some(Err(e))) => decode_run(v) == (Seq::<ItemView>::empty(), Some(e)),
            (_, None) => decode_run(v) == (Seq::<ItemView>::empty(), None::<DecodeError>),
        },
{
    match v.phase {
        PhaseView::Content { tree, directives } => {
            assert(verifier_chunks(directives).len() == directives.len());
            if directives.len() > 0 {
                assert(verifier_chunks(directives).skip(1) =~= verifier_chunks(directives.skip(1)));
                assert(verifier_chunks(directives)[0] == verifier_chunk(directives[0]));
                match verify_step(verifier_chunk(directives[0]), v.stack, v.input) {
                    Ok((item, st, inp)) => {
                        let rest = verify_run(verifier_chunks(directives.skip(1)), st, inp);
                        let f = |s: StepView| step_item(s);
                        assert((seq![item] + rest.accepted).map_values(f) =~= seq![step_item(item)]
                            + rest.accepted.map_values(f));
                    },
                    Err(e) => {
                        let f = |s: StepView| step_item(s);
                        assert(Seq::<StepView>::empty().map_values(f) =~= Seq::<ItemView>::empty());
                    },
                }
            } else {
                let f = |s: StepView| step_item(s);
                assert(Seq::<StepView>::empty().map_values(f) =~= Seq::<ItemView>::empty());
            }
        },
        _ => {},
    }
}

/// The bytes of a target after the data of the items of a response was
/// written to it, each at its byte offset.
pub open spec fn leaves_written(items: Seq<ItemView>, target: Seq<u8>) -> Seq<u8>
    decreases items.len(),
{
    if items.len() == 0 {
        target
    } else {
        leaves_written(
            items.skip(1),
            match items[0] {
                ItemView::Leaf { offset, data } => written_at(target, offset as int, data),
                _ => target,
            },
        )
    }
}

/// The hash pairs of an outboard of `tree` after the hash pairs of the
/// items of a response were saved to it.
pub open spec fn parents_saved(items: Seq<ItemView>, tree: BaoTree, pairs: HashPairs) -> HashPairs
    decreases items.len(),
{
    if items.len() == 0 {
        pairs
    } else {
        parents_saved(
            items.skip(1),
            tree,
            match items[0] {
                ItemView::Parent { node, l, r } => if tree.is_persisted_spec(node) {
                    pairs.insert(node, (l, r))
                } else {
                    pairs
                },
                _ => pairs,
            },
        )
    }
}

/// True if one of the items of a response is a hash pair.
pub open spec fn has_parent(items: Seq<ItemView>) -> bool {
    exists|i: int| 0 <= i < items.len() && #[trigger] items[i] is Parent
}

/// The tree that the size header among the items of a response tells of.
pub open spec fn header_tree(items: Seq<ItemView>, block_size: BlockSize) -> BaoTree {
    match items[0] {
        ItemView::Header { size } => BaoTree::new_spec(ByteNum(size), block_size),
        _ => BaoTree::new_spec(ByteNum(0), block_size),
    }
}

/// Decodes the response in `encoded` to the query `ranges` into a target
/// in memory, and saves the hash pairs of the response to an outboard.
///
/// The outboard is made by `create` from the tree of the blob and the root
/// hash when the first hash pair arrives; a response without hash pairs
/// makes none. Every item is verified before it is written or saved. The
/// work ends at the first failure of the decoder, of `create`, of saving or
/// of writing; what was written and saved up to there stays.
pub fn decode_response_into<O: OutboardMut, F: FnOnce(BaoTree, crate::hash::Hash) -> Result<
    O,
    IoErrorKind,
>>(
    root: crate::hash::Hash,
    block_size: BlockSize,
    ranges: &RangeSetRef<u64>,
    encoded: &[u8],
    create: F,
    target: &mut Vec<u8>,
) -> (r: Result<Option<O>, DecodeError>)
    requires
        block_size.wf(),
        forall|t: BaoTree, h: crate::hash::Hash| #[trigger] create.requires((t, h)),
        forall|t: BaoTree, h: crate::hash::Hash, o: O|
            #[trigger] create.ensures((t, h), Ok(o)) ==> o.wf() && o.tree_spec() == t,
    ensures
        ({
            let run = decode_run(
                DecoderView {
                    phase: PhaseView::Header { ranges: range_boundaries(ranges), block_size },
                    stack: seq![root@],
                    input: encoded@,
                },
            );
            match r {
                Ok(ob) => run.1 is None && final(target)@ == leaves_written(run.0, old(target)@)
                    && (ob is Some <==> has_parent(run.0)) && (ob matches Some(o) ==> o.wf()
                    && o.tree_spec() == header_tree(run.0, block_size) && exists|made: O|
                    #[trigger] create.ensures((header_tree(run.0, block_size), root), Ok(made))
                        && o.pairs_spec() == parents_saved(
                        run.0,
                        header_tree(run.0, block_size),
                        made.pairs_spec(),
                    )),
                Err(e) => (!(e is Io) ==> run.1 == Some(e)) && exists|k: int|
                    0 <= k <= run.0.len() && final(target)@ == leaves_written(
                        #[trigger] run.0.take(k),
                        old(target)@,
                    ),
            }
        }),
        ({
            let run = decode_run(
                DecoderView {
                    phase: PhaseView::Header { ranges: range_boundaries(ranges), block_size },
                    stack: seq![root@],
                    input: encoded@,
                },
            );
            &&& run.1 is Some ==> r is Err
            &&& run.1 is None && !has_parent(run.0) && header_tree(run.0, block_size).size.0
                <= usize::MAX ==> r is Ok
            &&& (r matches Err(e) && e is Io) ==> (has_parent(run.0) || header_tree(
                run.0,
                block_size,
            ).size.0 > usize::MAX)
        }),
{
    let mut iter = DecodeResponseIter::new(root, block_size, encoded, ranges);
    let ghost start = iter@;
    let ghost all = decode_run(start);
    let mut outboard: Option<O> = None;
    let mut tree: Option<BaoTree> = None;
    let mut creator = Some(create);
    let ghost mut done = Seq::<ItemView>::empty();
    let ghost mut made: Option<O> = None;
    proof {
        assert(done + all.0 =~= all.0);
    }
    loop
        invariant
            iter.wf(),
            block_size.wf(),
            all == decode_run(
                DecoderView {
                    phase: PhaseView::Header { ranges: range_boundaries(ranges), block_size },
                    stack: seq![root@],
                    input: encoded@,
                },
            ),
            iter@.phase matches PhaseView::Header { block_size: bs, .. } ==> bs == block_size
                && done.len() == 0,
            iter@.phase matches PhaseView::Content { tree: t, .. } ==> done.len() > 0 && t
                == header_tree(done, block_size),
            done + decode_run(iter@).0 == all.0,
            decode_run(iter@).1 == all.1,
            target@ == leaves_written(done, old(target)@),
            outboard is Some <==> has_parent(done),
            outboard matches Some(o) ==> o.wf() && o.tree_spec() == header_tree(done, block_size)
                && made is Some && create.ensures(
                (header_tree(done, block_size), root),
                Ok(made->0),
            ) && o.pairs_spec() == parents_saved(
                done,
                header_tree(done, block_size),
                made->0.pairs_spec(),
            ),
            outboard is None ==> creator == Some(create) && (iter@.phase matches PhaseView::Content {
                tree: t,
                ..
            } ==> tree == Some(t)),
            forall|t: BaoTree, h: crate::hash::Hash| #[trigger] create.requires((t, h)),
            forall|t: BaoTree, h: crate::hash::Hash, o: O|
                #[trigger] create.ensures((t, h), Ok(o)) ==> o.wf() && o.tree_spec() == t,
        ensures
            decode_run(iter@).0.len() == 0,
            decode_run(iter@).1 is None,
        decreases decode_run(iter@).0.len(),
    {
        let ghost before = iter@;
        proof {
            lemma_decode_run_step(before);
        }
        let item = match iter.next() {
            None => {
                break ;
            },
            Some(Err(e)) => {
                proof {
                    assert(all.0.take(done.len() as int) =~= done);
                }
                return Err(e);
            },
            Some(Ok(item)) => item,
        };
        let ghost rest = decode_run(iter@).0;
        let ghost now = done + seq![item@];
        proof {
            assert(done + (seq![item@] + rest) =~= now + rest);
            lemma_leaves_written_push(done, item@, old(target)@);
            lemma_has_parent_push(done, item@);
            assert(now[0] == (if done.len() > 0 {
                done[0]
            } else {
                item@
            }));
            assert(all.0.take(done.len() as int) =~= done);
            assert(all.0[done.len() as int] == item@);
            assert(all.0[0] == now[0]);
        }
        match item {
            DecodeResponseItem::Header(Header { size }) => {
                tree = Some(BaoTree::new(size, block_size));
            },
            DecodeResponseItem::Parent(Parent { node, pair }) => {
                let mut ob = match outboard.take() {
                    Some(ob) => ob,
                    None => {
                        let create = creator.take().unwrap();
                        match create(tree.take().unwrap(), root) {
                            Ok(ob) => {
                                proof {
                                    made = Some(ob);
                                    lemma_parents_saved_none(
                                        done,
                                        header_tree(done, block_size),
                                        ob.pairs_spec(),
                                    );
                                }
                                ob
                            },
                            Err(e) => {
                                return Err(DecodeError::Io(e));
                            },
                        }
                    },
                };
                proof {
                    lemma_parents_saved_push(
                        done,
                        item@,
                        header_tree(done, block_size),
                        made->0.pairs_spec(),
                    );
                }
                match ob.save(node, &pair) {
                    Ok(()) => {},
                    Err(e) => {
                        return Err(DecodeError::Io(e));
                    },
                }
                outboard = Some(ob);
            },
            DecodeResponseItem::Leaf(Leaf { offset, data }) => {
                proof {
                    if made is Some {
                        lemma_parents_saved_push(
                            done,
                            item@,
                            header_tree(done, block_size),
                            made->0.pairs_spec(),
                        );
                    }
                }
                proof {
                    assert(before.phase is Content);
                    assert(offset.0 + bytes_content(data).len() <= header_tree(
                        all.0,
                        block_size,
                    ).size.0);
                }
                match write_all_at(target, offset.0, bytes_slice(&data)) {
                    Ok(()) => {},
                    Err(e) => {
                        return Err(DecodeError::Io(e));
                    },
                }
            },
        }
        proof {
            done = now;
        }
    }
    proof {
        assert(done + Seq::<ItemView>::empty() =~= done);
    }
    Ok(outboard)
}

/// Saving the hash pairs of items among which there is no hash pair saves
/// nothing.
pub proof fn lemma_parents_saved_none(items: Seq<ItemView>, tree: BaoTree, pairs: HashPairs)
    requires
        !has_parent(items),
    ensures
        parents_saved(items, tree, pairs) == pairs,
    decreases items.len(),
{
    if items.len() > 0 {
        assert(!(items[0] is Parent));
        assert forall|i: int| 0 <= i < items.skip(1).len() implies !(#[trigger] items.skip(
            1,
        )[i] is Parent) by {
            assert(items.skip(1)[i] == items[i + 1]);
        }
        lemma_parents_saved_none(items.skip(1), tree, pairs);
    }
}

/// Saving the hash pairs of the items of a response and then that of one
/// more item is saving the hash pairs of all.
pub proof fn lemma_parents_saved_push(
    items: Seq<ItemView>,
    item: ItemView,
    tree: BaoTree,
    pairs: HashPairs,
)
    ensures
        parents_saved(items + seq![item], tree, pairs) == (match item {
            ItemView::Parent { node, l, r } => if tree.is_persisted_spec(node) {
                parents_saved(items, tree, pairs).insert(node, (l, r))
            } else {
                parents_saved(items, tree, pairs)
            },
            _ => parents_saved(items, tree, pairs),
        }),
    decreases items.len(),
{
    let all = items + seq![item];
    if items.len() == 0 {
        assert(all =~= seq![item]);
        assert(all.skip(1) =~= Seq::<ItemView>::empty());
        let saved = match item {
            ItemView::Parent { node, l, r } => if tree.is_persisted_spec(node) {
                pairs.insert(node, (l, r))
            } else {
                pairs
            },
            _ => pairs,
        };
        assert(parents_saved(all.skip(1), tree, saved) == saved);
        assert(parents_saved(all, tree, pairs) == saved);
    } else {
        assert(all.skip(1) =~= items.skip(1) + seq![item]);
        assert(all[0] == items[0]);
        let saved = match items[0] {
            ItemView::Parent { node, l, r } => if tree.is_persisted_spec(node) {
                pairs.insert(node, (l, r))
            } else {
                pairs
            },
            _ => pairs,
        };
        lemma_parents_saved_push(items.skip(1), item, tree, saved);
    }
}

/// Writing the data of the items of a response and then that of one more
/// item is writing the data of all.
pub proof fn lemma_leaves_written_push(items: Seq<ItemView>, item: ItemView, target: Seq<u8>)
    ensures
        leaves_written(items + seq![item], target) == (match item {
            ItemView::Leaf { offset, data } => written_at(
                leaves_written(items, target),
                offset as int,
                data,
            ),
            _ => leaves_written(items, target),
        }),
    decreases items.len(),
{
    let all = items + seq![item];
    if items.len() == 0 {
        assert(all =~= seq![item]);
        assert(all.skip(1) =~= Seq::<ItemView>::empty());
        let written = match item {
            ItemView::Leaf { offset, data } => written_at(target, offset as int, data),
            _ => target,
        };
        assert(leaves_written(all.skip(1), written) == written);
        assert(leaves_written(all, target) == written);
    } else {
        assert(all.skip(1) =~= items.skip(1) + seq![item]);
        assert(all[0] == items[0]);
        let written = match items[0] {
            ItemView::Leaf { offset, data } => written_at(target, offset as int, data),
            _ => target,
        };
        lemma_leaves_written_push(items.skip(1), item, written);
    }
}

/// A sequence of items with one more item has a hash pair if it had one
/// or the item is one.
pub proof fn lemma_has_parent_push(items: Seq<ItemView>, item: ItemView)
    ensures
        has_parent(items + seq![item]) <==> has_parent(items) || item is Parent,
{
    let s = items + seq![item];
    if has_parent(items) {
        let i = choose|i: int| 0 <= i < items.len() && #[trigger] items[i] is Parent;
        assert(s[i] is Parent);
    }
    if item is Parent {
        assert(s[items.len() as int] is Parent);
    }
    if has_parent(s) {
        let i = choose|i: int| 0 <= i < s.len() && #[trigger] s[i] is Parent;
        if i < items.len() {
            assert(items[i] is Parent);
        }
    }
}

/// The ranges of `ranges` within `from`, each as its start and its end: a
/// last range without end ends at the end of `from`.
pub open spec fn ranges_within(b: Seq<u64>, end: u64) -> Seq<(u64, u64)>
    decreases b.len(),
{
    if b.len() == 0 {
        Seq::empty()
    } else if b.len() == 1 {
        seq![(b[0], end)]
    } else {
        seq![(b[0], b[1])] + ranges_within(b.skip(2), end)
    }
}

/// The ranges of a set within the first `end` bytes, each as its start and
/// its end, in their order: what [`write_ranges`] writes, one range after
/// the other.
pub fn byte_ranges(ranges: &RangeSetRef<u64>, end: u64) -> (v: Vec<(u64, u64)>)
    ensures
        v@ == ranges_within(range_boundaries(ranges), end),
{
    let b = boundaries(ranges);
    let mut v: Vec<(u64, u64)> = Vec::new();
    let mut i: usize = 0;
    assert(b@.skip(0) =~= b@);
    while i < b.len()
        invariant
            i <= b@.len(),
            v@ + ranges_within(b@.skip(i as int), end) == ranges_within(b@, end),
        decreases b@.len() - i,
    {
        let ghost rest = b@.skip(i as int);
        let ghost before = v@;
        let (start, stop, step): (u64, u64, usize) = if i + 1 < b.len() {
            (b[i], b[i + 1], 2)
        } else {
            (b[i], end, 1)
        };
        proof {
            assert(rest[0] == b@[i as int]);
            if step == 2 {
                assert(rest[1] == b@[i + 1]);
                assert(rest.skip(2) =~= b@.skip(i + 2));
            } else {
                assert(b@.skip(i + 1) =~= Seq::<u64>::empty());
                assert(ranges_within(b@.skip(i + 1), end) =~= Seq::<(u64, u64)>::empty());
            }
        }
        v.push((start, stop));
        proof {
            assert(v@ + ranges_within(b@.skip(i + step), end) =~= before + ranges_within(rest, end));
        }
        i = i + step;
    }
    proof {
        assert(b@.skip(b@.len() as int) =~= Seq::<u64>::empty());
        assert(v@ + Seq::<(u64, u64)>::empty() =~= v@);
    }
    v
}

/// The bytes of a target after the bytes of `from` in each of the ranges
/// were written to it at their own offsets.
pub open spec fn ranges_written(from: Seq<u8>, ranges: Seq<(u64, u64)>, target: Seq<u8>) -> Seq<u8>
    decreases ranges.len(),
{
    if ranges.len() == 0 {
        target
    } else {
        ranges_written(
            from,
            ranges.skip(1),
            written_at(
                target,
                ranges[0].0 as int,
                from.subrange(ranges[0].0 as int, ranges[0].1 as int),
            ),
        )
    }
}

/// Writes the bytes of `from` in each of the byte ranges of `ranges` to a
/// target in memory, at the same offsets. This is useful for writing
/// changes to outboards.
pub fn write_ranges(from: &[u8], to: &mut Vec<u8>, ranges: &RangeSetRef<u64>) -> (r: Result<
    (),
    IoErrorKind,
>)
    requires
        forall|i: int|
            0 <= i < range_boundaries(ranges).len() ==> range_boundaries(ranges)[i] <= from@.len(),
    ensures
        r is Ok,
        final(to)@ == ranges_written(
            from@,
            ranges_within(range_boundaries(ranges), from@.len() as u64),
            old(to)@,
        ),
{
    let b = boundaries(ranges);
    let n: usize = from.len();
    let end: u64 = n as u64;
    let mut i: usize = 0;
    assert(b@.skip(0) =~= b@);
    while i < b.len()
        invariant
            i <= b@.len(),
            end == from@.len(),
            n == from@.len(),
            crate::ranges::strictly_increasing(b@),
            forall|j: int| 0 <= j < b@.len() ==> b@[j] <= from@.len(),
            ranges_written(from@, ranges_within(b@.skip(i as int), end), to@) == ranges_written(
                from@,
                ranges_within(b@, end),
                old(to)@,
            ),
        decreases b@.len() - i,
    {
        let ghost rest = b@.skip(i as int);
        let ghost list = ranges_within(rest, end);
        let (start, stop, step): (u64, u64, usize) = if i + 1 < b.len() {
            (b[i], b[i + 1], 2)
        } else {
            (b[i], end, 1)
        };
        proof {
            assert(rest[0] == b@[i as int]);
            if step == 2 {
                assert(rest[1] == b@[i + 1]);
                assert(rest.skip(2) =~= b@.skip(i + 2));
                assert(list.skip(1) =~= ranges_within(rest.skip(2), end));
            } else {
                assert(list.skip(1) =~= Seq::<(u64, u64)>::empty());
                assert(b@.skip(i + 1) =~= Seq::<u64>::empty());
            }
            assert(list[0] == (start, stop));
        }
        let data = vstd::slice::slice_subrange(from, start as usize, stop as usize);
        let ghost to0 = to@;
        match write_all_at(to, start, data) {
            Ok(()) => {},
            Err(e) => {
                assert(false);
                return Err(e);
            },
        }
        proof {
            assert(ranges_written(from@, list, to0) == ranges_written(from@, list.skip(1), to@));
        }
        i = i + step;
    }
    proof {
        assert(b@.skip(b@.len() as int) =~= Seq::<u64>::empty());
    }
    Ok(())
}

} // verus!
