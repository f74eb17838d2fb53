//! The wire format of a slice and the stack discipline of the verifier,
//! stated over sequences of directives.
use vstd::prelude::*;
use crate::hash::{parent_cv_of, subtree_hash};
use crate::io::DecodeError;
use crate::io::error::EncodeError;
use crate::iter::{
    block_tree, chunk_fits, chunk_items, chunks_responses, infos_chunks, inner_response,
    lemma_half_leaf, node_info, nodes_post_chunks, partial_nodes, post_items, post_order_nodes,
    pre_order_chunks, response_items, verifier_chunk, verifier_chunks, BaoChunk, NodeInfoView,
};
use crate::ranges::is_all_spec;
use crate::rec::selected_wire;
use crate::tree::{
    lemma_children_contained, lemma_contains_bounds, lemma_tree_bounds, BaoTree, ChunkNum, TreeNode,
};

verus! {

/// The hash pairs of an outboard, by node.
pub type HashPairs = Map<TreeNode, (Seq<u8>, Seq<u8>)>;

/// True if what a directive asks for can be read: the hash pair of its node
/// is among `pairs`, or its data lies within a blob of `blob_len` bytes.
pub open spec fn readable<R>(pairs: HashPairs, blob_len: nat, c: BaoChunk<R>) -> bool {
    match c {
        BaoChunk::Parent { node, .. } => pairs.contains_key(node),
        BaoChunk::Leaf { start_chunk, size, .. } => start_chunk.0 * 1024 + size <= blob_len,
    }
}

/// The bytes of a directive on the wire: the left hash and the right hash
/// of a hash pair, or the data of a leaf.
pub open spec fn chunk_wire<R>(pairs: HashPairs, blob: Seq<u8>, c: BaoChunk<R>) -> Seq<u8> {
    match c {
        BaoChunk::Parent { node, .. } => pairs[node].0 + pairs[node].1,
        BaoChunk::Leaf { start_chunk, size, .. } => blob.subrange(
            start_chunk.0 * 1024,
            start_chunk.0 * 1024 + size,
        ),
    }
}

/// The bytes of a sequence of directives on the wire, one directive after
/// the other.
pub open spec fn wire<R>(pairs: HashPairs, blob: Seq<u8>, cs: Seq<BaoChunk<R>>) -> Seq<u8>
    decreases cs.len(),
{
    if cs.len() == 0 {
        Seq::empty()
    } else {
        chunk_wire(pairs, blob, cs[0]) + wire(pairs, blob, cs.skip(1))
    }
}

/// The bytes of a slice: the size of the blob as 8 bytes, the least
/// significant first, and the bytes of the directives.
pub open spec fn slice_bytes<R>(size: u64, pairs: HashPairs, blob: Seq<u8>, cs: Seq<BaoChunk<R>>) -> Seq<
    u8,
> {
    vstd::bytes::spec_u64_to_le_bytes(size) + wire(pairs, blob, cs)
}

/// The number of hashes that a directive of a traversal in pre-order puts on
/// the stack of the verifier after it has taken the expected hash off.
pub open spec fn pushes<R>(c: BaoChunk<R>) -> int {
    match c {
        BaoChunk::Parent { left, right, .. } => (if left {
            1int
        } else {
            0int
        }) + (if right {
            1int
        } else {
            0int
        }),
        BaoChunk::Leaf { .. } => 0,
    }
}

/// True if a stack of `d` hashes has an expected hash for every directive of
/// `cs`: the stack depth is at least the number of hashes that the verifier
/// owes the stream.
pub open spec fn fits<R>(d: int, cs: Seq<BaoChunk<R>>) -> bool
    decreases cs.len(),
{
    if cs.len() == 0 {
        true
    } else {
        d >= 1 && fits(d - 1 + pushes(cs[0]), cs.skip(1))
    }
}

/// The stack of the verifier after a hash pair was accepted: without the
/// expected hash, and with the right hash and then the left hash on top as
/// far as they are needed.
pub open spec fn stack_after_parent(
    stack: Seq<Seq<u8>>,
    l: Seq<u8>,
    r: Seq<u8>,
    left: bool,
    right: bool,
) -> Seq<Seq<u8>> {
    let below = stack.drop_last();
    let above = if right {
        below.push(r)
    } else {
        below
    };
    if left {
        above.push(l)
    } else {
        above
    }
}

/// True if the hash pair `(l, r)` hashes to the hash on top of the stack.
pub open spec fn parent_ok(stack: Seq<Seq<u8>>, l: Seq<u8>, r: Seq<u8>, is_root: bool) -> bool {
    stack.len() > 0 && parent_cv_of(l, r, is_root) == stack.last()
}

/// True if the data of a leaf hashes to the hash on top of the stack.
pub open spec fn leaf_ok(stack: Seq<Seq<u8>>, start_chunk: u64, data: Seq<u8>, is_root: bool) -> bool {
    stack.len() > 0 && subtree_hash(start_chunk, data, is_root) == stack.last()
}

/// A deeper stack fits what a shallower one fits.
pub proof fn lemma_fits_monotone<R>(d: int, e: int, cs: Seq<BaoChunk<R>>)
    requires
        fits(d, cs),
        d <= e,
    ensures
        fits(e, cs),
    decreases cs.len(),
{
    if cs.len() > 0 {
        lemma_fits_monotone(d - 1 + pushes(cs[0]), e - 1 + pushes(cs[0]), cs.skip(1));
    }
}

/// A stack fits a directive followed by more if it has a hash for the
/// directive and fits the rest afterwards.
pub proof fn lemma_fits_cons<R>(d: int, c: BaoChunk<R>, rest: Seq<BaoChunk<R>>)
    requires
        d >= 1,
        fits(d - 1 + pushes(c), rest),
    ensures
        fits(d, seq![c] + rest),
{
    assert((seq![c] + rest).skip(1) =~= rest);
}

/// The directives for two sequences of nodes, one after the other, are
/// those for the first followed by those for the second.
pub proof fn lemma_infos_chunks_concat(tree: BaoTree, a: Seq<NodeInfoView>, b: Seq<NodeInfoView>)
    ensures
        infos_chunks(tree, a + b) == infos_chunks(tree, a) + infos_chunks(tree, b),
    decreases a.len(),
{
    if a.len() == 0 {
        assert(a + b =~= b);
        assert(infos_chunks(tree, a) + infos_chunks(tree, b) =~= infos_chunks(tree, b));
    } else {
        lemma_infos_chunks_concat(tree, a.skip(1), b);
        assert((a + b).skip(1) =~= a.skip(1) + b);
        assert(chunk_items(tree, a[0]) + (infos_chunks(tree, a.skip(1)) + infos_chunks(tree, b))
            =~= chunk_items(tree, a[0]) + infos_chunks(tree, a.skip(1)) + infos_chunks(tree, b));
    }
}

/// The directives for one node.
pub proof fn lemma_infos_chunks_one(tree: BaoTree, info: NodeInfoView)
    ensures
        infos_chunks(tree, seq![info]) == chunk_items(tree, info),
{
    let s = seq![info];
    assert(s.skip(1) =~= Seq::<NodeInfoView>::empty());
    assert(infos_chunks(tree, s.skip(1)) =~= Seq::empty());
    assert(chunk_items(tree, info) + Seq::<BaoChunk<Seq<u64>>>::empty() =~= chunk_items(tree, info));
}

/// The directives for the part of a tree under a node take one hash off a
/// stack, or none: a stack with a hash for them that fits what follows
/// without that hash fits them and what follows.
#[verifier::rlimit(40)]
pub proof fn lemma_partial_fits(
    tree: BaoTree,
    node: TreeNode,
    ranges: Seq<u64>,
    max_skip_level: u8,
    is_root: bool,
    d: int,
    rest: Seq<BaoChunk<Seq<u64>>>,
)
    requires
        tree.wf(),
        tree.contains(node),
        d >= 1,
        fits(d - 1, rest),
    ensures
        fits(
            d,
            infos_chunks(tree, partial_nodes(tree, node, ranges, max_skip_level, is_root)) + rest,
        ),
    decreases node.level,
{
    let s = partial_nodes(tree, node, ranges, max_skip_level, is_root);
    if ranges.len() == 0 {
        assert(infos_chunks(tree, s) + rest =~= rest);
        lemma_fits_monotone(d - 1, d, rest);
    } else {
        let info = node_info(tree, node, ranges, max_skip_level, is_root);
        let items = chunk_items(tree, info);
        let l = info.l_ranges.len() > 0;
        let r = info.r_ranges.len() > 0;
        lemma_contains_bounds(tree, node);
        if node.level > 0 {
            lemma_children_contained(tree, node);
        }
        let descends = !info.query_leaf && (node.right_descendant_spec(tree.filled_size_spec())
            matches Some(rd) && rd.level < node.level);
        if !descends {
            assert(s == seq![info]);
            lemma_infos_chunks_one(tree, info);
            lemma_items_fit(tree, info, d, rest);
        } else {
            lemma_children_contained(tree, node);
            let rd = node.right_descendant_spec(tree.filled_size_spec())->0;
            let lc = node.left_child_spec();
            let sl = partial_nodes(tree, lc, info.l_ranges, max_skip_level, false);
            let sr = partial_nodes(tree, rd, info.r_ranges, max_skip_level, false);
            let cl = infos_chunks(tree, sl);
            let cr = infos_chunks(tree, sr);
            assert(s == seq![info] + sl + sr);
            lemma_infos_chunks_concat(tree, seq![info] + sl, sr);
            lemma_infos_chunks_concat(tree, seq![info], sl);
            lemma_infos_chunks_one(tree, info);
            assert(infos_chunks(tree, s) == items + cl + cr);
            // the right part
            let dr = d - 1 + (if r {
                1int
            } else {
                0int
            });
            if r {
                lemma_partial_fits(tree, rd, info.r_ranges, max_skip_level, false, dr, rest);
            } else {
                assert(cr + rest =~= rest);
            }
            assert(fits(dr, cr + rest));
            // the left part
            let dl = dr + (if l {
                1int
            } else {
                0int
            });
            if l {
                lemma_partial_fits(tree, lc, info.l_ranges, max_skip_level, false, dl, cr + rest);
            } else {
                assert(cl + (cr + rest) =~= cr + rest);
            }
            assert(fits(dl, cl + (cr + rest)));
            // the hash pair of the node
            let parent = items[0];
            assert(items =~= seq![parent]);
            lemma_fits_cons(d, parent, cl + (cr + rest));
            assert(seq![parent] + (cl + (cr + rest)) =~= items + cl + cr + rest);
        }
    }
}

/// The directives for a node at which a traversal stops take one hash off
/// a stack, or none.
pub proof fn lemma_items_fit(tree: BaoTree, info: NodeInfoView, d: int, rest: Seq<BaoChunk<Seq<u64>>>)
    requires
        d >= 1,
        fits(d - 1, rest),
        info.node.level == 0 || !info.is_half_leaf,
        info.node.level == 0 || info.query_leaf,
    ensures
        fits(d, chunk_items(tree, info) + rest),
{
    let items = chunk_items(tree, info);
    let l = info.l_ranges.len() > 0;
    let r = info.r_ranges.len() > 0;
    if info.node.level != 0 {
        assert(items =~= seq![items[0]]);
        lemma_fits_cons(d, items[0], rest);
    } else if info.is_half_leaf {
        if l {
            assert(items =~= seq![items[0]]);
            lemma_fits_cons(d, items[0], rest);
        } else {
            assert(items + rest =~= rest);
            lemma_fits_monotone(d - 1, d, rest);
        }
    } else {
        let parent = items[0];
        if l && r {
            assert(items =~= seq![parent, items[1], items[2]]);
            lemma_fits_cons(d, items[2], rest);
            lemma_fits_cons(d + 1, items[1], seq![items[2]] + rest);
            lemma_fits_cons(d, parent, seq![items[1]] + (seq![items[2]] + rest));
            assert(seq![parent] + (seq![items[1]] + (seq![items[2]] + rest)) =~= items + rest);
        } else if l || r {
            assert(items =~= seq![parent, items[1]]);
            lemma_fits_cons(d, items[1], rest);
            lemma_fits_cons(d, parent, seq![items[1]] + rest);
            assert(seq![parent] + (seq![items[1]] + rest) =~= items + rest);
        } else {
            assert(items =~= seq![parent]);
            lemma_fits_cons(d, parent, rest);
        }
    }
}

/// A stack with the root hash alone fits the directives of a traversal in
/// pre-order of a tree.
pub proof fn lemma_pre_order_fits(tree: BaoTree, ranges: Seq<u64>, max_skip_level: u8)
    requires
        tree.wf(),
    ensures
        fits(1, pre_order_chunks(tree, ranges, max_skip_level)),
{
    lemma_tree_bounds(tree);
    let rest = Seq::<BaoChunk<Seq<u64>>>::empty();
    lemma_partial_fits(tree, tree.root_spec(), ranges, max_skip_level, tree.is_root, 1, rest);
    assert(pre_order_chunks(tree, ranges, max_skip_level) + rest =~= pre_order_chunks(
        tree,
        ranges,
        max_skip_level,
    ));
}


/// Whether a stack has an expected hash for every directive depends only on
/// the numbers of hashes that the directives put on it.
pub proof fn lemma_fits_same_pushes<R, T>(d: int, a: Seq<BaoChunk<R>>, b: Seq<BaoChunk<T>>)
    requires
        a.len() == b.len(),
        forall|i: int| 0 <= i < a.len() ==> pushes(#[trigger] a[i]) == pushes(b[i]),
        fits(d, a),
    ensures
        fits(d, b),
    decreases a.len(),
{
    if a.len() > 0 {
        assert(pushes(a[0]) == pushes(b[0]));
        assert forall|i: int| 0 <= i < a.skip(1).len() implies pushes(#[trigger] a.skip(1)[i])
            == pushes(b.skip(1)[i]) by {
            assert(a.skip(1)[i] == a[i + 1]);
            assert(pushes(a[i + 1]) == pushes(b[i + 1]));
        }
        lemma_fits_same_pushes(d - 1 + pushes(a[0]), a.skip(1), b.skip(1));
    }
}

/// A stack that has an expected hash for every directive of a traversal of
/// the tree of blocks has one for every directive of the response: the
/// directives within a block take the expected hash of the block and leave
/// nothing.
pub proof fn lemma_response_fits(tree: BaoTree, cs: Seq<BaoChunk<Seq<u64>>>, d: int)
    requires
        tree.wf(),
        tree.start_chunk.0 == 0,
        forall|i: int| 0 <= i < cs.len() ==> chunk_fits(tree, #[trigger] cs[i]),
        fits(d, cs),
    ensures
        fits(d, verifier_chunks(chunks_responses(tree, cs))),
    decreases cs.len(),
{
    let flat = chunks_responses(tree, cs);
    if cs.len() == 0 {
        assert(verifier_chunks(flat) =~= Seq::<BaoChunk<Seq<u64>>>::empty());
    } else {
        let c = cs[0];
        let rest = cs.skip(1);
        assert forall|i: int| 0 <= i < rest.len() implies chunk_fits(tree, #[trigger] rest[i]) by {
            assert(rest[i] == cs[i + 1]);
        }
        lemma_response_fits(tree, rest, d - 1 + pushes(c));
        let tail = verifier_chunks(chunks_responses(tree, rest));
        let head = response_items(tree, c);
        assert(verifier_chunks(flat) =~= verifier_chunks(head) + tail);
        assert(chunk_fits(tree, c));
        match c {
            BaoChunk::Parent { .. } => {
                assert(verifier_chunks(head) =~= seq![verifier_chunk(head[0])]);
                lemma_fits_cons(d, verifier_chunk(head[0]), tail);
            },
            BaoChunk::Leaf { start_chunk, size, is_root, ranges } => {
                if tree.block_size.0 == 0 || crate::ranges::is_all_spec(ranges) {
                    assert(verifier_chunks(head) =~= seq![verifier_chunk(head[0])]);
                    lemma_fits_cons(d, verifier_chunk(head[0]), tail);
                } else {
                    let little = block_tree(start_chunk, size, is_root);
                    lemma_tree_bounds(tree);
                    assert(little.wf());
                    lemma_tree_bounds(little);
                    let inner = pre_order_chunks(little, ranges, u8::MAX);
                    lemma_partial_fits(
                        little,
                        little.root_spec(),
                        ranges,
                        u8::MAX,
                        little.is_root,
                        d,
                        tail,
                    );
                    let a = inner + tail;
                    let b = verifier_chunks(head) + tail;
                    assert forall|i: int| 0 <= i < a.len() implies pushes(#[trigger] a[i])
                        == pushes(b[i]) by {
                        if i < inner.len() {
                            assert(head[i] == inner_response(inner[i]));
                        }
                    }
                    lemma_fits_same_pushes(d, a, b);
                }
            },
        }
    }
}

/// What the verifier has accepted for a directive.
pub ghost enum StepView {
    /// The hash pair of a node.
    Parent { node: TreeNode, l: Seq<u8>, r: Seq<u8> },
    /// The data of a leaf.
    Leaf { start_chunk: ChunkNum, data: Seq<u8> },
}

/// One step of the verifier: for the directive `c`, a stack of expected
/// hashes and the input that is left, the failure, or what was accepted
/// with the stack and the input afterwards.
///
/// A hash pair is read as 64 bytes and must hash to the expected hash on top
/// of the stack; the right and then the left hash go on the stack as far as
/// they are needed. The data of a leaf is read as its number of bytes and
/// must hash to the expected hash. Input that ends early is a failure that
/// names the place.
pub open spec fn verify_step(c: BaoChunk<Seq<u64>>, stack: Seq<Seq<u8>>, input: Seq<u8>) -> Result<
    (StepView, Seq<Seq<u8>>, Seq<u8>),
    DecodeError,
> {
    match c {
        BaoChunk::Parent { node, is_root, left, right, .. } => if input.len() < 64 {
            Err(DecodeError::ParentNotFound(node))
        } else {
            let l = input.subrange(0, 32);
            let r = input.subrange(32, 64);
            if !parent_ok(stack, l, r, is_root) {
                Err(DecodeError::ParentHashMismatch(node))
            } else {
                Ok(
                    (
                        StepView::Parent { node, l, r },
                        stack_after_parent(stack, l, r, left, right),
                        input.skip(64),
                    ),
                )
            }
        },
        BaoChunk::Leaf { start_chunk, size, is_root, .. } => if input.len() < size {
            Err(DecodeError::LeafNotFound(start_chunk))
        } else {
            let data = input.take(size as int);
            if !leaf_ok(stack, start_chunk.0, data, is_root) {
                Err(DecodeError::LeafHashMismatch(start_chunk))
            } else {
                Ok((StepView::Leaf { start_chunk, data }, stack.drop_last(), input.skip(size as int)))
            }
        },
    }
}


/// True if everything that the directives ask for can be read.
pub open spec fn all_readable<R>(pairs: HashPairs, blob_len: nat, cs: Seq<BaoChunk<R>>) -> bool
    decreases cs.len(),
{
    cs.len() == 0 || (readable(pairs, blob_len, cs[0]) && all_readable(
        pairs,
        blob_len,
        cs.skip(1),
    ))
}

/// The bytes on the wire of the directives up to the first for which what
/// it asks for cannot be read.
pub open spec fn readable_wire<R>(pairs: HashPairs, blob: Seq<u8>, cs: Seq<BaoChunk<R>>) -> Seq<u8>
    decreases cs.len(),
{
    if cs.len() == 0 || !readable(pairs, blob.len(), cs[0]) {
        Seq::empty()
    } else {
        chunk_wire(pairs, blob, cs[0]) + readable_wire(pairs, blob, cs.skip(1))
    }
}

/// Where everything can be read, the bytes up to the first directive that
/// cannot be read are the bytes of all directives.
pub proof fn lemma_readable_wire<R>(pairs: HashPairs, blob: Seq<u8>, cs: Seq<BaoChunk<R>>)
    requires
        all_readable(pairs, blob.len(), cs),
    ensures
        readable_wire(pairs, blob, cs) == wire(pairs, blob, cs),
    decreases cs.len(),
{
    if cs.len() > 0 {
        lemma_readable_wire(pairs, blob, cs.skip(1));
    }
}

/// How an encoding that validates ended.
pub ghost enum RunEnd {
    /// All directives were read, verified and written.
    Done,
    /// What a directive asks for could not be read.
    Unreadable,
    /// What was read for a directive did not match the expected hash.
    Failed(EncodeError),
}

/// The failure of an encoder for a failure of the verifier.
pub open spec fn encode_error_of(e: DecodeError) -> EncodeError {
    match e {
        DecodeError::ParentHashMismatch(node) => EncodeError::ParentHashMismatch(node),
        DecodeError::ParentNotFound(node) => EncodeError::ParentHashMismatch(node),
        DecodeError::LeafHashMismatch(chunk) => EncodeError::LeafHashMismatch(chunk),
        DecodeError::LeafNotFound(chunk) => EncodeError::LeafHashMismatch(chunk),
        DecodeError::InvalidQueryRange => EncodeError::InvalidQueryRange,
        DecodeError::NotFound => EncodeError::Io(crate::io::error::IoErrorKind::UnexpectedEof),
        DecodeError::Io(k) => EncodeError::Io(k),
    }
}

/// The bytes that an encoder that validates writes for a directive: the
/// hash pair of a node, and the data of a leaf, or where `select` is true
/// and the query has only a part of the data, the selection within it.
pub open spec fn validated_wire(pairs: HashPairs, blob: Seq<u8>, c: BaoChunk<Seq<u64>>, select: bool) -> Seq<
    u8,
> {
    match c {
        BaoChunk::Leaf { start_chunk, ranges, .. } => if select && !is_all_spec(ranges) {
            selected_wire(start_chunk.0, chunk_wire(pairs, blob, c), ranges, true)
        } else {
            chunk_wire(pairs, blob, c)
        },
        _ => chunk_wire(pairs, blob, c),
    }
}

/// What an encoder that validates writes for the directives `cs`, and how
/// it ends: it reads what a directive asks for, lets the verifier take its
/// step on it with the stack of expected hashes, and writes only what the
/// verifier accepted.
pub open spec fn validated_run(
    cs: Seq<BaoChunk<Seq<u64>>>,
    stack: Seq<Seq<u8>>,
    pairs: HashPairs,
    blob: Seq<u8>,
    select: bool,
) -> (Seq<u8>, RunEnd)
    decreases cs.len(),
{
    if cs.len() == 0 {
        (Seq::empty(), RunEnd::Done)
    } else if !readable(pairs, blob.len(), cs[0]) {
        (Seq::empty(), RunEnd::Unreadable)
    } else {
        match verify_step(cs[0], stack, chunk_wire(pairs, blob, cs[0])) {
            Err(e) => (Seq::empty(), RunEnd::Failed(encode_error_of(e))),
            Ok((_, stack1, _)) => {
                let rest = validated_run(cs.skip(1), stack1, pairs, blob, select);
                (validated_wire(pairs, blob, cs[0], select) + rest.0, rest.1)
            },
        }
    }
}


/// The hashes of the two children of a node: for a leaf the hashes of its
/// two blocks, and above that the hashes of the left child and of the right
/// child within the tree.
pub open spec fn pair_of(tree: BaoTree, blob: Seq<u8>, node: TreeNode) -> (Seq<u8>, Seq<u8>)
    decreases node.level, 0int,
{
    if node.level == 0 {
        let s = tree.block_byte_spec(node.start_spec()) as int;
        let m = tree.block_byte_spec(node.mid_spec()) as int;
        let e = tree.block_byte_spec(node.end_spec()) as int;
        let l_start = tree.block_chunk_spec(node.start_spec());
        let r_start = l_start + tree.block_size.chunks_spec();
        (
            subtree_hash(l_start as u64, blob.subrange(s, m), false),
            subtree_hash(r_start as u64, blob.subrange(m, e), false),
        )
    } else {
        match node.right_descendant_spec(tree.filled_size_spec()) {
            Some(r) if r.level < node.level => (
                node_hash(tree, blob, node.left_child_spec(), false),
                node_hash(tree, blob, r, false),
            ),
            _ => (Seq::empty(), Seq::empty()),
        }
    }
}

/// The hash of the part of a blob under a node of its tree: for a leaf
/// whose right block holds no data the hash of its left block, and else the
/// parent hash of the hashes of its two children.
pub open spec fn node_hash(tree: BaoTree, blob: Seq<u8>, node: TreeNode, is_root: bool) -> Seq<u8>
    decreases node.level, 1int,
{
    let s = tree.block_byte_spec(node.start_spec()) as int;
    let m = tree.block_byte_spec(node.mid_spec()) as int;
    let e = tree.block_byte_spec(node.end_spec()) as int;
    if node.level == 0 && m == e {
        subtree_hash(tree.block_chunk_spec(node.start_spec()) as u64, blob.subrange(s, m), is_root)
    } else {
        let pair = pair_of(tree, blob, node);
        parent_cv_of(pair.0, pair.1, is_root)
    }
}

/// The root hash of a blob.
pub open spec fn root_hash(tree: BaoTree, blob: Seq<u8>) -> Seq<u8> {
    node_hash(tree, blob, tree.root_spec(), true)
}

/// The hash pairs of the outboard of a blob: for every node whose pair an
/// outboard keeps, the hashes of its two children.
pub open spec fn outboard_pairs(tree: BaoTree, blob: Seq<u8>) -> HashPairs {
    Map::new(|n: TreeNode| tree.is_persisted_spec(n), |n: TreeNode| pair_of(tree, blob, n))
}

/// The bytes of the hash pairs of the nodes under `node` that an outboard
/// keeps, in post-order.
pub open spec fn post_order_pairs(tree: BaoTree, blob: Seq<u8>, node: TreeNode) -> Seq<u8>
    decreases node.level,
{
    let pair = pair_of(tree, blob, node);
    let own = if tree.is_persisted_spec(node) {
        pair.0 + pair.1
    } else {
        Seq::empty()
    };
    if node.level == 0 {
        own
    } else {
        match node.right_descendant_spec(tree.filled_size_spec()) {
            Some(r) if r.level < node.level => post_order_pairs(tree, blob, node.left_child_spec())
                + post_order_pairs(tree, blob, r) + own,
            _ => own,
        }
    }
}

/// The bytes of the outboard of a blob in post-order: the hash pairs of the
/// nodes that an outboard keeps, in post-order, and the size of the blob as
/// 8 bytes, the least significant first.
pub open spec fn post_order_outboard(tree: BaoTree, blob: Seq<u8>) -> Seq<u8> {
    post_order_pairs(tree, blob, tree.root_spec()) + vstd::bytes::spec_u64_to_le_bytes(tree.size.0)
}

/// What a traversal in post-order has computed: the stack of hashes, the
/// bytes of the hash pairs in the order in which they were completed, and
/// the hash pairs by node.
pub ghost struct PostState {
    pub stack: Seq<Seq<u8>>,
    pub written: Seq<u8>,
    pub pairs: HashPairs,
}

/// The state of a traversal in post-order after the directives `cs`: the
/// data of a leaf puts its hash on the stack; a hash pair takes the right
/// and the left hash off the stack, is written and kept for its node, and
/// puts the parent hash on the stack.
pub open spec fn post_run(cs: Seq<BaoChunk<()>>, st: PostState, blob: Seq<u8>, can_be_root: bool) -> PostState
    decreases cs.len(),
{
    if cs.len() == 0 {
        st
    } else {
        post_run(cs.skip(1), post_step(cs[0], st, blob, can_be_root), blob, can_be_root)
    }
}

/// The state of a traversal in post-order after one directive.
pub open spec fn post_step(c: BaoChunk<()>, st: PostState, blob: Seq<u8>, can_be_root: bool) -> PostState {
    match c {
        BaoChunk::Leaf { start_chunk, size, is_root, .. } => PostState {
            stack: st.stack.push(
                subtree_hash(
                    start_chunk.0,
                    blob.subrange(start_chunk.0 * 1024, start_chunk.0 * 1024 + size),
                    can_be_root && is_root,
                ),
            ),
            written: st.written,
            pairs: st.pairs,
        },
        BaoChunk::Parent { node, is_root, .. } => {
            let r = st.stack.last();
            let l = st.stack.drop_last().last();
            PostState {
                stack: st.stack.drop_last().drop_last().push(
                    parent_cv_of(l, r, can_be_root && is_root),
                ),
                written: st.written + l + r,
                pairs: st.pairs.insert(node, (l, r)),
            }
        },
    }
}

/// The hash pairs `pairs` with the hash pairs of those of `nodes` whose
/// pair an outboard keeps.
pub open spec fn save_nodes(pairs: HashPairs, tree: BaoTree, blob: Seq<u8>, nodes: Seq<TreeNode>) -> HashPairs
    decreases nodes.len(),
{
    if nodes.len() == 0 {
        pairs
    } else {
        save_nodes(
            if tree.is_persisted_spec(nodes[0]) {
                pairs.insert(nodes[0], pair_of(tree, blob, nodes[0]))
            } else {
                pairs
            },
            tree,
            blob,
            nodes.skip(1),
        )
    }
}

/// True if a stack of `d` hashes has two hashes for every hash pair among
/// the directives `cs` of a traversal in post-order.
pub open spec fn post_fits(d: int, cs: Seq<BaoChunk<()>>) -> bool
    decreases cs.len(),
{
    if cs.len() == 0 {
        true
    } else {
        match cs[0] {
            BaoChunk::Leaf { .. } => post_fits(d + 1, cs.skip(1)),
            BaoChunk::Parent { .. } => d >= 2 && post_fits(d - 1, cs.skip(1)),
        }
    }
}

/// Running the directives of two sequences one after the other is running
/// the first and then the second.
pub proof fn lemma_post_run_concat(
    a: Seq<BaoChunk<()>>,
    b: Seq<BaoChunk<()>>,
    st: PostState,
    blob: Seq<u8>,
    can_be_root: bool,
)
    ensures
        post_run(a + b, st, blob, can_be_root) == post_run(
            b,
            post_run(a, st, blob, can_be_root),
            blob,
            can_be_root,
        ),
    decreases a.len(),
{
    if a.len() == 0 {
        assert(a + b =~= b);
    } else {
        assert((a + b).skip(1) =~= a.skip(1) + b);
        assert((a + b)[0] == a[0]);
        lemma_post_run_concat(a.skip(1), b, post_step(a[0], st, blob, can_be_root), blob, can_be_root);
    }
}

/// Keeping the hash pairs of two sequences of nodes one after the other is
/// keeping those of the first and then those of the second.
pub proof fn lemma_save_nodes_concat(
    pairs: HashPairs,
    tree: BaoTree,
    blob: Seq<u8>,
    a: Seq<TreeNode>,
    b: Seq<TreeNode>,
)
    ensures
        save_nodes(pairs, tree, blob, a + b) == save_nodes(
            save_nodes(pairs, tree, blob, a),
            tree,
            blob,
            b,
        ),
    decreases a.len(),
{
    if a.len() == 0 {
        assert(a + b =~= b);
    } else {
        assert((a + b).skip(1) =~= a.skip(1) + b);
        assert((a + b)[0] == a[0]);
        let kept = if tree.is_persisted_spec(a[0]) {
            pairs.insert(a[0], pair_of(tree, blob, a[0]))
        } else {
            pairs
        };
        lemma_save_nodes_concat(kept, tree, blob, a.skip(1), b);
    }
}

/// The directives for two sequences of nodes, one after the other, are
/// those for the first followed by those for the second.
pub proof fn lemma_nodes_post_chunks_concat(tree: BaoTree, a: Seq<TreeNode>, b: Seq<TreeNode>)
    ensures
        nodes_post_chunks(tree, a + b) == nodes_post_chunks(tree, a) + nodes_post_chunks(tree, b),
    decreases a.len(),
{
    if a.len() == 0 {
        assert(a + b =~= b);
        assert(nodes_post_chunks(tree, a) + nodes_post_chunks(tree, b) =~= nodes_post_chunks(
            tree,
            b,
        ));
    } else {
        lemma_nodes_post_chunks_concat(tree, a.skip(1), b);
        assert((a + b).skip(1) =~= a.skip(1) + b);
        assert(post_items(tree, a[0]) + (nodes_post_chunks(tree, a.skip(1)) + nodes_post_chunks(
            tree,
            b,
        )) =~= post_items(tree, a[0]) + nodes_post_chunks(tree, a.skip(1)) + nodes_post_chunks(
            tree,
            b,
        ));
    }
}

/// The directives for one node.
pub proof fn lemma_nodes_post_chunks_one(tree: BaoTree, node: TreeNode)
    ensures
        nodes_post_chunks(tree, seq![node]) == post_items(tree, node),
{
    let s = seq![node];
    assert(s.skip(1) =~= Seq::<TreeNode>::empty());
    assert(nodes_post_chunks(tree, s.skip(1)) =~= Seq::empty());
    assert(post_items(tree, node) + Seq::<BaoChunk<()>>::empty() =~= post_items(tree, node));
}

/// A node of a tree is at most as high as the root, and it is the root
/// only at the level of the root.
pub proof fn lemma_below_root(tree: BaoTree, node: TreeNode)
    requires
        tree.wf(),
        tree.contains(node),
    ensures
        node.level <= tree.root_spec().level,
        node.level == tree.root_spec().level ==> node == tree.root_spec(),
{
    lemma_tree_bounds(tree);
    crate::tree::lemma_root_level(tree.leaf_count());
    crate::tree::lemma_node_bounds(node);
    let rl = crate::tree::root_level(tree.leaf_count());
    let n = tree.leaf_count() as int;
    let p = vstd::arithmetic::power2::pow2(node.level as nat) as int;
    let pos = node.pos as int;
    assert((2 * pos + 1) * p >= p && (pos >= 1 ==> (2 * pos + 1) * p >= 3 * p)) by (nonlinear_arith)
        requires
            pos >= 0,
            p >= 0,
    ;
    if node.level > rl {
        crate::tree::lemma_pow2_monotone(rl + 1, node.level as nat);
        vstd::arithmetic::power2::lemma_pow2_unfold(rl + 1);
    }
    if node.level == rl && node.pos >= 1 {
    }
}

/// The directives for a leaf of a tree, with the bytes that they name.
pub proof fn lemma_post_items_leaf(tree: BaoTree, node: TreeNode)
    requires
        tree.wf(),
        tree.contains(node),
        node.level == 0,
    ensures
        ({
            let s = tree.block_byte_spec(node.start_spec()) as int;
            let m = tree.block_byte_spec(node.mid_spec()) as int;
            let e = tree.block_byte_spec(node.end_spec()) as int;
            let l_start = tree.block_chunk_spec(node.start_spec()) as int;
            let r_start = l_start + tree.block_size.chunks_spec();
            let items = post_items(tree, node);
            let is_root = node == tree.root_spec();
            &&& s == l_start * 1024
            &&& s <= m <= e
            &&& l_start <= u64::MAX
            &&& r_start <= u64::MAX
            &&& m - s <= usize::MAX
            &&& e - m <= usize::MAX
            &&& (m == e) == !tree.is_persisted_spec(node)
            &&& m == e ==> items == seq![
                BaoChunk::<()>::Leaf {
                    is_root,
                    start_chunk: ChunkNum(l_start as u64),
                    size: (m - s) as usize,
                    ranges: (),
                },
            ]
            &&& m != e ==> m == r_start * 1024 && items == seq![
                BaoChunk::<()>::Leaf {
                    is_root: false,
                    start_chunk: ChunkNum(l_start as u64),
                    size: (m - s) as usize,
                    ranges: (),
                },
                BaoChunk::<()>::Leaf {
                    is_root: false,
                    start_chunk: ChunkNum(r_start as u64),
                    size: (e - m) as usize,
                    ranges: (),
                },
                BaoChunk::<()>::Parent { node, is_root, left: true, right: true, ranges: () },
            ]
        }),
{
    lemma_contains_bounds(tree, node);
    lemma_half_leaf(tree, node);
    crate::iter::lemma_node_chunks(tree, node);
    crate::tree::lemma_block_chunk_bound(tree, node.start_spec());
    crate::tree::lemma_node_bounds(node);
    crate::iter::lemma_block_byte_diff(tree, node.start_spec(), node.mid_spec());
    crate::iter::lemma_block_byte_diff(tree, node.mid_spec(), node.end_spec());
    lemma_tree_bounds(tree);
    vstd::arithmetic::power2::lemma2_to64();
    let items = post_items(tree, node);
    let m = tree.block_byte_spec(node.mid_spec()) as int;
    let e = tree.block_byte_spec(node.end_spec()) as int;
    let bb = tree.block_bytes() as int;
    assert(1 * bb == bb) by (nonlinear_arith);
    if m == e {
        assert(items =~= seq![items[0]]);
    } else {
        assert(items =~= seq![items[0], items[1], items[2]]);
    }
}

/// Running the directives for a leaf of a tree puts the hash of the leaf on
/// the stack, and writes and keeps its hash pair if an outboard keeps it.
#[verifier::rlimit(40)]
pub proof fn lemma_post_run_leaf(
    tree: BaoTree,
    blob: Seq<u8>,
    node: TreeNode,
    st: PostState,
    can_be_root: bool,
)
    requires
        tree.wf(),
        tree.contains(node),
        node.level == 0,
    ensures
        post_run(post_items(tree, node), st, blob, can_be_root) == (PostState {
            stack: st.stack.push(
                node_hash(tree, blob, node, can_be_root && node == tree.root_spec()),
            ),
            written: st.written + post_order_pairs(tree, blob, node),
            pairs: save_nodes(st.pairs, tree, blob, seq![node]),
        }),
{
    lemma_post_items_leaf(tree, node);
    let items = post_items(tree, node);
    let one = seq![node];
    assert(one.skip(1) =~= Seq::<TreeNode>::empty());
    let kept = if tree.is_persisted_spec(node) {
        st.pairs.insert(node, pair_of(tree, blob, node))
    } else {
        st.pairs
    };
    assert(save_nodes(kept, tree, blob, one.skip(1)) == kept);
    assert(save_nodes(st.pairs, tree, blob, one) == kept);
    let s = tree.block_byte_spec(node.start_spec()) as int;
    let m = tree.block_byte_spec(node.mid_spec()) as int;
    let e = tree.block_byte_spec(node.end_spec()) as int;
    let l_start = tree.block_chunk_spec(node.start_spec()) as int;
    let r_start = l_start + tree.block_size.chunks_spec();
    let is_root = can_be_root && node == tree.root_spec();
    if m == e {
        assert(items.skip(1) =~= Seq::<BaoChunk<()>>::empty());
        assert(st.written + Seq::<u8>::empty() =~= st.written);
        let after_left = post_step(items[0], st, blob, can_be_root);
        assert(post_run(items.skip(1), after_left, blob, can_be_root) == after_left);
    } else {
        let lh = subtree_hash(l_start as u64, blob.subrange(s, m), false);
        let rh = subtree_hash(r_start as u64, blob.subrange(m, e), false);
        let tail_one = items.skip(1);
        let tail_two = tail_one.skip(1);
        let tail_three = tail_two.skip(1);
        assert(tail_one[0] == items[1]);
        assert(tail_two[0] == items[2]);
        assert(tail_three =~= Seq::<BaoChunk<()>>::empty());
        let after_left = post_step(items[0], st, blob, can_be_root);
        let after_right = post_step(items[1], after_left, blob, can_be_root);
        let after_pair = post_step(items[2], after_right, blob, can_be_root);
        assert(after_left.stack == st.stack.push(lh));
        assert(after_right.stack == after_left.stack.push(rh));
        assert(after_right.stack.drop_last() =~= after_left.stack);
        assert(after_left.stack.drop_last() =~= st.stack);
        assert(after_pair.stack =~= st.stack.push(parent_cv_of(lh, rh, is_root)));
        assert(after_pair.written =~= st.written + (lh + rh));
        assert(post_run(tail_three, after_pair, blob, can_be_root) == after_pair);
        assert(post_run(tail_two, after_right, blob, can_be_root) == after_pair);
        assert(post_run(tail_one, after_left, blob, can_be_root) == after_pair);
    }
}

/// Running the directive for a node above the leaves takes the hashes of
/// its children off the stack, writes and keeps them as its hash pair, and
/// puts the hash of the node on the stack.
pub proof fn lemma_post_run_inner(
    tree: BaoTree,
    blob: Seq<u8>,
    node: TreeNode,
    st: PostState,
    base: Seq<Seq<u8>>,
    can_be_root: bool,
)
    requires
        tree.wf(),
        tree.contains(node),
        node.level > 0,
        st.stack == base.push(pair_of(tree, blob, node).0).push(pair_of(tree, blob, node).1),
    ensures
        post_run(post_items(tree, node), st, blob, can_be_root) == (PostState {
            stack: base.push(node_hash(tree, blob, node, can_be_root && node == tree.root_spec())),
            written: st.written + pair_of(tree, blob, node).0 + pair_of(tree, blob, node).1,
            pairs: save_nodes(st.pairs, tree, blob, seq![node]),
        }),
{
    let items = post_items(tree, node);
    let one = seq![node];
    assert(one.skip(1) =~= Seq::<TreeNode>::empty());
    let kept = if tree.is_persisted_spec(node) {
        st.pairs.insert(node, pair_of(tree, blob, node))
    } else {
        st.pairs
    };
    assert(save_nodes(kept, tree, blob, one.skip(1)) == kept);
    assert(save_nodes(st.pairs, tree, blob, one) == kept);
    lemma_contains_bounds(tree, node);
    assert(items =~= seq![items[0]]);
    assert(items.skip(1) =~= Seq::<BaoChunk<()>>::empty());
    let lh = pair_of(tree, blob, node).0;
    let rh = pair_of(tree, blob, node).1;
    let above = base.push(lh);
    assert(st.stack.drop_last() =~= above);
    assert(above.drop_last() =~= base);
    let after_pair = post_step(items[0], st, blob, can_be_root);
    assert(post_run(items.skip(1), after_pair, blob, can_be_root) == after_pair);
}

/// Running the directives for the nodes under a node of the tree puts the
/// hash of the node on the stack, writes the hash pairs of the nodes under
/// it in post-order and keeps them by node.
#[verifier::rlimit(40)]
pub proof fn lemma_post_run_node(
    tree: BaoTree,
    blob: Seq<u8>,
    node: TreeNode,
    st: PostState,
    can_be_root: bool,
)
    requires
        tree.wf(),
        tree.contains(node),
    ensures
        post_run(
            nodes_post_chunks(tree, post_order_nodes(node, tree.filled_size_spec())),
            st,
            blob,
            can_be_root,
        ) == (PostState {
            stack: st.stack.push(
                node_hash(tree, blob, node, can_be_root && node == tree.root_spec()),
            ),
            written: st.written + post_order_pairs(tree, blob, node),
            pairs: save_nodes(
                st.pairs,
                tree,
                blob,
                post_order_nodes(node, tree.filled_size_spec()),
            ),
        }),
    decreases node.level,
{
    let len = tree.filled_size_spec();
    let one = seq![node];
    lemma_nodes_post_chunks_one(tree, node);
    if node.level == 0 {
        lemma_post_run_leaf(tree, blob, node, st, can_be_root);
    } else {
        lemma_children_contained(tree, node);
        lemma_contains_bounds(tree, node);
        let lc = node.left_child_spec();
        let rd = node.right_descendant_spec(len)->0;
        let pl = post_order_nodes(lc, len);
        let pr = post_order_nodes(rd, len);
        assert(post_order_nodes(node, len) == pl + pr + one);
        lemma_nodes_post_chunks_concat(tree, pl + pr, one);
        lemma_nodes_post_chunks_concat(tree, pl, pr);
        lemma_save_nodes_concat(st.pairs, tree, blob, pl + pr, one);
        lemma_save_nodes_concat(st.pairs, tree, blob, pl, pr);
        let cl = nodes_post_chunks(tree, pl);
        let cr = nodes_post_chunks(tree, pr);
        let items = post_items(tree, node);
        lemma_post_run_node(tree, blob, lc, st, can_be_root);
        lemma_below_root(tree, node);
        assert(lc != tree.root_spec());
        assert(rd != tree.root_spec());
        let after_left = post_run(cl, st, blob, can_be_root);
        lemma_post_run_node(tree, blob, rd, after_left, can_be_root);
        let after_right = post_run(cr, after_left, blob, can_be_root);
        lemma_post_run_concat(cl, cr, st, blob, can_be_root);
        lemma_post_run_concat(cl + cr, items, st, blob, can_be_root);
        lemma_post_run_inner(tree, blob, node, after_right, st.stack, can_be_root);
        let lh = pair_of(tree, blob, node).0;
        let rh = pair_of(tree, blob, node).1;
        assert(after_right.written + lh + rh =~= st.written + (post_order_pairs(tree, blob, lc)
            + post_order_pairs(tree, blob, rd) + (lh + rh)));
    }
}

/// The directives for the nodes under a node of the tree leave one hash more
/// on the stack than they found: a stack fits them and what follows if with
/// one hash more it fits what follows.
pub proof fn lemma_post_fits_node(tree: BaoTree, node: TreeNode, d: int, rest: Seq<BaoChunk<()>>)
    requires
        tree.wf(),
        tree.contains(node),
        d >= 0,
        post_fits(d + 1, rest),
    ensures
        post_fits(d, nodes_post_chunks(tree, post_order_nodes(node, tree.filled_size_spec())) + rest),
    decreases node.level,
{
    let len = tree.filled_size_spec();
    let items = post_items(tree, node);
    lemma_contains_bounds(tree, node);
    if node.level == 0 {
        lemma_nodes_post_chunks_one(tree, node);
        lemma_half_leaf(tree, node);
        let all = items + rest;
        assert(all[0] == items[0]);
        if items.len() == 1 {
            assert(all.skip(1) =~= rest);
            assert(post_fits(d, all));
        } else {
            assert(items.len() == 3);
            assert(all.skip(1).skip(1).skip(1) =~= rest);
            assert(all.skip(1)[0] == items[1]);
            assert(all.skip(1).skip(1)[0] == items[2]);
            assert(post_fits(d + 2, all.skip(1).skip(1)));
            assert(post_fits(d + 1, all.skip(1)));
            assert(post_fits(d, all));
        }
    } else {
        lemma_children_contained(tree, node);
        let lc = node.left_child_spec();
        let rd = node.right_descendant_spec(len)->0;
        let pl = post_order_nodes(lc, len);
        let pr = post_order_nodes(rd, len);
        lemma_nodes_post_chunks_concat(tree, pl + pr, seq![node]);
        lemma_nodes_post_chunks_concat(tree, pl, pr);
        lemma_nodes_post_chunks_one(tree, node);
        let cl = nodes_post_chunks(tree, pl);
        let cr = nodes_post_chunks(tree, pr);
        assert(items =~= seq![items[0]]);
        assert((items + rest).skip(1) =~= rest);
        assert((items + rest)[0] == items[0]);
        assert(post_fits(d + 2, items + rest));
        lemma_post_fits_node(tree, rd, d + 1, items + rest);
        lemma_post_fits_node(tree, lc, d, cr + (items + rest));
        assert(cl + (cr + (items + rest)) =~= cl + cr + items + rest);
        assert(post_order_nodes(node, len) == pl + pr + seq![node]);
    }
}


/// How a run of the verifier ended.
pub ghost struct VerifyEnd {
    /// What the verifier accepted, in the order of the directives.
    pub accepted: Seq<StepView>,
    /// The failure at which the run ended, if it did not reach the end.
    pub failure: Option<DecodeError>,
    /// The stack of expected hashes at the end.
    pub stack: Seq<Seq<u8>>,
    /// The input that was left at the end.
    pub input: Seq<u8>,
}

/// The run of the verifier over the directives `cs`: one step for each
/// directive, up to the first failure.
pub open spec fn verify_run(cs: Seq<BaoChunk<Seq<u64>>>, stack: Seq<Seq<u8>>, input: Seq<u8>) -> VerifyEnd
    decreases cs.len(),
{
    if cs.len() == 0 {
        VerifyEnd { accepted: Seq::empty(), failure: None, stack, input }
    } else {
        match verify_step(cs[0], stack, input) {
            Err(e) => VerifyEnd { accepted: Seq::empty(), failure: Some(e), stack, input },
            Ok((item, stack1, input1)) => {
                let rest = verify_run(cs.skip(1), stack1, input1);
                VerifyEnd {
                    accepted: seq![item] + rest.accepted,
                    failure: rest.failure,
                    stack: rest.stack,
                    input: rest.input,
                }
            },
        }
    }
}

} // verus!
