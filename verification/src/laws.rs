//! What holds of the codec as a whole.
use vstd::prelude::*;
use crate::codec::{
    all_readable, chunk_wire, leaf_ok, lemma_infos_chunks_concat, lemma_infos_chunks_one, node_hash,
    pair_of, parent_ok, post_order_pairs, readable, readable_wire, root_hash, save_nodes,
    slice_bytes, stack_after_parent, verify_run, verify_step, wire, HashPairs, StepView, VerifyEnd,
};
use crate::hash::{lemma_subtree_hash_len, parent_cv_of, subtree_hash};
use crate::io::DecodeError;
use crate::io::outboard::{
    holds, lemma_post_order_distinct, lemma_stored_lookup, pair_at, place, stored_pairs,
};
use crate::io::sync::{
    chunks_up_to, decode_run, step_item, valid_file_set, DecoderView, ItemView, PhaseView,
};
use crate::iter::{
    block_sized, chunk_fits, chunk_items, chunks_responses, infos_chunks, lemma_block_byte_diff,
    lemma_half_leaf, lemma_node_chunks, node_info, partial_nodes, plain_response, post_items,
    post_order_nodes, pre_order_chunks, response_items, verifier_chunk, verifier_chunks, BaoChunk,
    NodeInfoView, ResponseChunk,
};
use crate::offsets::{
    lemma_descend_within, lemma_within_child, lemma_within_root, persisted_post, within,
};
use crate::ranges::{chunk_interval, count_below, is_all_spec, split_left, split_right};
use crate::tree::{
    lemma_block_byte, lemma_block_chunk_bound, lemma_children_contained, lemma_children_wf,
    lemma_contains_bounds, lemma_descend, lemma_node_bounds, lemma_root_covers, lemma_tree_bounds,
    BaoTree, BlockSize, ByteNum, ChunkNum, TreeNode,
};

verus! {

/// True if two different hash pairs have the same parent hash, or two
/// different pieces of data of one length have the same hash as subtrees
/// at one place.
pub open spec fn hash_collision() -> bool {
    ||| exists|
        good_left: Seq<u8>,
        good_right: Seq<u8>,
        bad_left: Seq<u8>,
        bad_right: Seq<u8>,
        is_root: bool,
    |
        #![trigger
            parent_cv_of(good_left, good_right, is_root),
            parent_cv_of(bad_left, bad_right, is_root)
        ]
        good_left.len() == 32 && good_right.len() == 32 && bad_left.len() == 32
            && bad_right.len() == 32 && (good_left != bad_left || good_right != bad_right)
            && parent_cv_of(good_left, good_right, is_root) == parent_cv_of(
            bad_left,
            bad_right,
            is_root,
        )
    ||| exists|c: u64, good_data: Seq<u8>, bad_data: Seq<u8>, is_root: bool|
        #![trigger subtree_hash(c, good_data, is_root), subtree_hash(c, bad_data, is_root)]
        good_data.len() == bad_data.len() && good_data != bad_data && subtree_hash(
            c,
            good_data,
            is_root,
        ) == subtree_hash(
            c,
            bad_data,
            is_root,
        )
}

/// The number of bytes that the directives `cs` ask for.
pub open spec fn wire_len<R>(cs: Seq<BaoChunk<R>>) -> nat
    decreases cs.len(),
{
    if cs.len() == 0 {
        0
    } else {
        (match cs[0] {
            BaoChunk::Parent { .. } => 64nat,
            BaoChunk::Leaf { size, .. } => size as nat,
        }) + wire_len(cs.skip(1))
    }
}

/// A run of the verifier that reaches the end has read as many bytes as
/// the directives ask for.
pub proof fn lemma_accepted_len(cs: Seq<BaoChunk<Seq<u64>>>, stack: Seq<Seq<u8>>, input: Seq<u8>)
    requires
        verify_run(cs, stack, input).failure is None,
    ensures
        input.len() >= wire_len(cs),
        verify_run(cs, stack, input).input == input.skip(wire_len(cs) as int),
    decreases cs.len(),
{
    if cs.len() == 0 {
        assert(input.skip(0) =~= input);
    } else {
        match verify_step(cs[0], stack, input) {
            Ok((item, st, inp)) => {
                lemma_accepted_len(cs.skip(1), st, inp);
                let n = match cs[0] {
                    BaoChunk::Parent { .. } => 64int,
                    BaoChunk::Leaf { size, .. } => size as int,
                };
                assert(input.skip(n).skip(wire_len(cs.skip(1)) as int) =~= input.skip(
                    wire_len(cs) as int,
                ));
            },
            Err(_) => {},
        }
    }
}

/// Tamper detection: if the verifier accepts a stream for a sequence of
/// directives, then for every other stream of the same length that
/// differs from it in one of the bytes that the directives ask for, the
/// verifier fails with a hash that does not match, unless the two streams
/// show a collision of the hash function.
#[verifier::rlimit(40)]
pub proof fn lemma_tamper_detected(
    cs: Seq<BaoChunk<Seq<u64>>>,
    stack: Seq<Seq<u8>>,
    good: Seq<u8>,
    bad: Seq<u8>,
)
    requires
        verify_run(cs, stack, good).failure is None,
        forall|i: int| 0 <= i < stack.len() ==> (#[trigger] stack[i]).len() == 32,
        bad.len() == good.len(),
        bad.take(wire_len(cs) as int) != good.take(wire_len(cs) as int),
    ensures
        hash_collision() || (verify_run(cs, stack, bad).failure matches Some(e) && (e
            is ParentHashMismatch || e is LeafHashMismatch)),
    decreases cs.len(),
{
    lemma_accepted_len(cs, stack, good);
    if cs.len() == 0 {
        assert(bad.take(0) =~= good.take(0));
    } else {
        let rest = cs.skip(1);
        match cs[0] {
            BaoChunk::Parent { node, is_root, left, right, .. } => {
                let good_left = good.subrange(0, 32);
                let good_right = good.subrange(32, 64);
                let bad_left = bad.subrange(0, 32);
                let bad_right = bad.subrange(32, 64);
                if parent_ok(stack, bad_left, bad_right, is_root) {
                    if good_left != bad_left || good_right != bad_right {
                        assert(parent_cv_of(good_left, good_right, is_root) == parent_cv_of(
                            bad_left,
                            bad_right,
                            is_root,
                        ));
                        assert(hash_collision());
                    } else {
                        let st = stack_after_parent(stack, good_left, good_right, left, right);
                        assert(good.take(64) =~= good_left + good_right);
                        assert(bad.take(64) =~= bad_left + bad_right);
                        let n = wire_len(rest) as int;
                        if bad.skip(64).take(n) =~= good.skip(64).take(n) {
                            assert(bad.take(64 + n) =~= bad.take(64) + bad.skip(64).take(n));
                            assert(good.take(64 + n) =~= good.take(64) + good.skip(64).take(n));
                            assert(false);
                        }
                        lemma_tamper_detected(rest, st, good.skip(64), bad.skip(64));
                    }
                }
            },
            BaoChunk::Leaf { start_chunk, size, is_root, .. } => {
                let good_data = good.take(size as int);
                let bad_data = bad.take(size as int);
                if leaf_ok(stack, start_chunk.0, bad_data, is_root) {
                    if good_data != bad_data {
                        assert(subtree_hash(start_chunk.0, good_data, is_root) == subtree_hash(
                            start_chunk.0,
                            bad_data,
                            is_root,
                        ));
                        assert(hash_collision());
                    } else {
                        let st = stack.drop_last();
                        let n = wire_len(rest) as int;
                        let k = size as int;
                        if bad.skip(k).take(n) =~= good.skip(k).take(n) {
                            assert(bad.take(k + n) =~= bad.take(k) + bad.skip(k).take(n));
                            assert(good.take(k + n) =~= good.take(k) + good.skip(k).take(n));
                            assert(false);
                        }
                        lemma_tamper_detected(rest, st, good.skip(k), bad.skip(k));
                    }
                }
            },
        }
    }
}

/// Half-leaf correctness: a leaf of a tree whose right block holds no data
/// has no hash pair among the directives of a traversal. In a traversal in
/// post-order its only directive is the data of its left block, which is
/// hashed as a root exactly if the leaf is the root of the tree; in a
/// traversal by ranges its only directive, where the query reaches it, is
/// that data too, hashed as a root exactly if the traversal says so of the
/// node.
pub proof fn lemma_half_leaf_directives(tree: BaoTree, node: TreeNode, info: NodeInfoView)
    requires
        tree.wf(),
        tree.is_half_leaf_spec(node),
        info.node == node,
        info.is_half_leaf == !tree.is_persisted_spec(node),
    ensures
        post_items(tree, node) == seq![
            BaoChunk::<()>::Leaf {
                is_root: node == tree.root_spec(),
                start_chunk: ChunkNum(tree.block_chunk_spec(node.start_spec()) as u64),
                size: (tree.block_byte_spec(node.mid_spec()) - tree.block_byte_spec(
                    node.start_spec(),
                )) as usize,
                ranges: (),
            },
        ],
        forall|i: int|
            0 <= i < chunk_items(tree, info).len() ==> ((#[trigger] chunk_items(tree, info)[i])
                matches BaoChunk::Leaf { is_root, .. } && is_root == info.is_root),
        chunk_items(tree, info).len() <= 1,
{
    crate::iter::lemma_half_leaf(tree, node);
    assert(post_items(tree, node) =~= seq![post_items(tree, node)[0]]);
}


/// True if `pairs` holds, for every node whose pair an outboard keeps, the
/// hashes of the two children of the node over `blob`.
pub open spec fn vouches(tree: BaoTree, blob: Seq<u8>, pairs: HashPairs) -> bool {
    forall|n: TreeNode|
        tree.is_persisted_spec(n) ==> #[trigger] pairs.contains_key(n) && pairs[n] == pair_of(
            tree,
            blob,
            n,
        )
}

/// The blocks of a node of a tree start at whole chunks, and their bytes
/// lie in the order of the blocks.
pub proof fn lemma_node_bytes(tree: BaoTree, node: TreeNode)
    requires
        tree.wf(),
        tree.contains(node),
    ensures
        ({
            let s = tree.block_byte_spec(node.start_spec());
            let m = tree.block_byte_spec(node.mid_spec());
            let e = tree.block_byte_spec(node.end_spec());
            &&& s <= m <= e <= tree.start_chunk.0 * 1024 + tree.size.0
            &&& chunks_up_to(s) == tree.block_chunk_spec(node.start_spec())
            &&& chunks_up_to(s) <= chunks_up_to(m) <= chunks_up_to(e)
            &&& node.mid_spec() < tree.blocks_spec() ==> chunks_up_to(m) == tree.block_chunk_spec(
                node.mid_spec(),
            )
            &&& node.end_spec() >= tree.blocks_spec() ==> e == tree.start_chunk.0 * 1024
                + tree.size.0
            &&& chunks_up_to(s) <= u64::MAX && chunks_up_to(m) <= u64::MAX
        }),
{
    lemma_node_chunks(tree, node);
    lemma_node_bounds(node);
    lemma_contains_bounds(tree, node);
    lemma_tree_bounds(tree);
    lemma_block_byte_diff(tree, node.start_spec(), node.mid_spec());
    lemma_block_byte_diff(tree, node.mid_spec(), node.end_spec());
    lemma_block_byte(tree, node.end_spec());
    lemma_block_chunk_bound(tree, node.start_spec());
    lemma_block_chunk_bound(tree, node.mid_spec());
}

/// Outboard consistency below a node: where an outboard holds for every
/// node the hashes of its two children over a blob, the outboard and the
/// blob agree on all chunks under a node, if the node is given its own
/// hash.
pub proof fn lemma_valid_file_node(
    tree: BaoTree,
    blob: Seq<u8>,
    pairs: HashPairs,
    node: TreeNode,
    is_root: bool,
)
    requires
        tree.wf(),
        tree.contains(node),
        vouches(tree, blob, pairs),
    ensures
        valid_file_set(tree, pairs, blob, node, node_hash(tree, blob, node, is_root), is_root)
            == chunk_interval(
            chunks_up_to(tree.block_byte_spec(node.start_spec())),
            chunks_up_to(tree.block_byte_spec(node.end_spec())),
        ),
    decreases node.level,
{
    lemma_node_bytes(tree, node);
    lemma_contains_bounds(tree, node);
    let s = tree.block_byte_spec(node.start_spec());
    let m = tree.block_byte_spec(node.mid_spec());
    let e = tree.block_byte_spec(node.end_spec());
    let sc = chunks_up_to(s);
    let mc = chunks_up_to(m);
    let ec = chunks_up_to(e);
    let v = valid_file_set(tree, pairs, blob, node, node_hash(tree, blob, node, is_root), is_root);
    if node.level == 0 {
        lemma_half_leaf(tree, node);
        lemma_node_chunks(tree, node);
        if tree.is_persisted_spec(node) {
            assert(pairs.contains_key(node));
            assert(pairs[node] == pair_of(tree, blob, node));
            assert(v == chunk_interval(sc, mc).union(chunk_interval(mc, ec)));
            assert(chunk_interval(sc, mc).union(chunk_interval(mc, ec)) =~= chunk_interval(sc, ec));
        } else {
            assert(v == chunk_interval(sc, mc));
            assert(v =~= chunk_interval(sc, ec));
        }
    } else {
        lemma_children_contained(tree, node);
        lemma_children_wf(node);
        let lc = node.left_child_spec();
        let rd = node.right_descendant_spec(tree.filled_size_spec())->0;
        assert(pairs.contains_key(node));
        lemma_valid_file_node(tree, blob, pairs, lc, false);
        lemma_valid_file_node(tree, blob, pairs, rd, false);
        lemma_node_bytes(tree, lc);
        lemma_node_bytes(tree, rd);
        lemma_tree_bounds(tree);
        let re = chunks_up_to(tree.block_byte_spec(rd.end_spec()));
        assert(pairs[node] == pair_of(tree, blob, node));
        assert(re == ec);
        assert(v == valid_file_set(tree, pairs, blob, lc, node_hash(tree, blob, lc, false), false)
            .union(valid_file_set(tree, pairs, blob, rd, node_hash(tree, blob, rd, false), false)));
        assert(chunk_interval(sc, mc).union(chunk_interval(mc, ec)) =~= chunk_interval(sc, ec));
    }
}

/// Outboard consistency: where an outboard holds for every node the hashes
/// of its two children over a blob, and the root hash is that of the blob,
/// the chunks for which the outboard and the blob agree are all chunks of
/// the blob.
pub proof fn lemma_outboard_consistency(tree: BaoTree, blob: Seq<u8>, pairs: HashPairs)
    requires
        tree.wf(),
        tree.start_chunk.0 == 0,
        vouches(tree, blob, pairs),
    ensures
        valid_file_set(tree, pairs, blob, tree.root_spec(), root_hash(tree, blob), true)
            == chunk_interval(0, tree.chunks_spec() as int),
{
    lemma_tree_bounds(tree);
    let root = tree.root_spec();
    lemma_valid_file_node(tree, blob, pairs, root, true);
    lemma_node_bytes(tree, root);
    lemma_root_covers(tree);
    assert(0 * tree.block_bytes() == 0);
    assert(2 * 0 * vstd::arithmetic::power2::pow2(root.level as nat) == 0) by (nonlinear_arith);
}

/// The query of all chunks stays the query of all chunks on both sides of
/// a split above chunk 0.
pub proof fn lemma_split_all(mid: u64)
    requires
        mid >= 1,
    ensures
        split_left(seq![0u64], mid) == seq![0u64],
        split_right(seq![0u64], mid) == seq![0u64],
{
    let b = seq![0u64];
    assert(b.skip(1) =~= Seq::<u64>::empty());
    assert(count_below(b.skip(1), mid as int) == 0);
    assert(count_below(b, mid as int) == 1);
    assert(b.take(1) =~= b);
    assert(b.skip(0) =~= b);
}

/// The bytes on the wire of two sequences of directives, one after the
/// other, are those of the first followed by those of the second.
pub proof fn lemma_wire_concat<R>(
    pairs: HashPairs,
    blob: Seq<u8>,
    a: Seq<BaoChunk<R>>,
    b: Seq<BaoChunk<R>>,
)
    ensures
        wire(pairs, blob, a + b) == wire(pairs, blob, a) + wire(pairs, blob, b),
    decreases a.len(),
{
    if a.len() == 0 {
        assert(a + b =~= b);
        assert(wire(pairs, blob, a) + wire(pairs, blob, b) =~= wire(pairs, blob, b));
    } else {
        lemma_wire_concat(pairs, blob, a.skip(1), b);
        assert((a + b).skip(1) =~= a.skip(1) + b);
        assert((a + b)[0] == a[0]);
        let w = chunk_wire(pairs, blob, a[0]);
        assert(w + (wire(pairs, blob, a.skip(1)) + wire(pairs, blob, b)) =~= (w + wire(
            pairs,
            blob,
            a.skip(1),
        )) + wire(pairs, blob, b));
    }
}

/// The bytes on the wire of one directive.
pub proof fn lemma_wire_one<R>(pairs: HashPairs, blob: Seq<u8>, c: BaoChunk<R>)
    ensures
        wire(pairs, blob, seq![c]) == chunk_wire(pairs, blob, c),
{
    let s = seq![c];
    assert(s.skip(1) =~= Seq::<BaoChunk<R>>::empty());
    assert(wire(pairs, blob, s.skip(1)) =~= Seq::<u8>::empty());
    assert(chunk_wire(pairs, blob, c) + Seq::<u8>::empty() =~= chunk_wire(pairs, blob, c));
}

/// A run of the verifier over two sequences of directives, one after the
/// other, is the run over the first, and if that reaches its end, the run
/// over the second from where the first ended.
pub proof fn lemma_verify_run_concat(
    a: Seq<BaoChunk<Seq<u64>>>,
    b: Seq<BaoChunk<Seq<u64>>>,
    stack: Seq<Seq<u8>>,
    input: Seq<u8>,
)
    ensures
        ({
            let ra = verify_run(a, stack, input);
            let rb = verify_run(b, ra.stack, ra.input);
            verify_run(a + b, stack, input) == (if ra.failure is Some {
                ra
            } else {
                VerifyEnd {
                    accepted: ra.accepted + rb.accepted,
                    failure: rb.failure,
                    stack: rb.stack,
                    input: rb.input,
                }
            })
        }),
    decreases a.len(),
{
    if a.len() == 0 {
        assert(a + b =~= b);
        let rb = verify_run(b, stack, input);
        assert(Seq::<StepView>::empty() + rb.accepted =~= rb.accepted);
    } else {
        assert((a + b).skip(1) =~= a.skip(1) + b);
        assert((a + b)[0] == a[0]);
        match verify_step(a[0], stack, input) {
            Err(_) => {},
            Ok((item, st, inp)) => {
                lemma_verify_run_concat(a.skip(1), b, st, inp);
                let run_rest = verify_run(a.skip(1), st, inp);
                let rb = verify_run(b, run_rest.stack, run_rest.input);
                assert(seq![item] + (run_rest.accepted + rb.accepted) =~= (seq![item] + run_rest.accepted)
                    + rb.accepted);
            },
        }
    }
}

/// The data that the verifier has accepted, piece after piece.
pub open spec fn steps_data(acc: Seq<StepView>) -> Seq<u8>
    decreases acc.len(),
{
    if acc.len() == 0 {
        Seq::empty()
    } else {
        (match acc[0] {
            StepView::Leaf { data, .. } => data,
            _ => Seq::empty(),
        }) + steps_data(acc.skip(1))
    }
}

/// True if every piece of data that the verifier has accepted starts, by
/// its chunk number, at the byte at which the piece before it ended, and
/// the first at the byte `from`.
pub open spec fn steps_tile(acc: Seq<StepView>, from: int) -> bool
    decreases acc.len(),
{
    if acc.len() == 0 {
        true
    } else {
        match acc[0] {
            StepView::Leaf { start_chunk, data } => start_chunk.0 * 1024 == from && steps_tile(
                acc.skip(1),
                from + data.len(),
            ),
            _ => steps_tile(acc.skip(1), from),
        }
    }
}

/// The data of two sequences of accepted steps, and how they lie, one
/// after the other.
pub proof fn lemma_steps_concat(a: Seq<StepView>, b: Seq<StepView>, from: int)
    ensures
        steps_data(a + b) == steps_data(a) + steps_data(b),
        steps_tile(a + b, from) == (steps_tile(a, from) && steps_tile(
            b,
            from + steps_data(a).len(),
        )),
    decreases a.len(),
{
    if a.len() == 0 {
        assert(a + b =~= b);
        assert(steps_data(a) + steps_data(b) =~= steps_data(b));
    } else {
        assert((a + b).skip(1) =~= a.skip(1) + b);
        assert((a + b)[0] == a[0]);
        let own = match a[0] {
            StepView::Leaf { data, .. } => data,
            _ => Seq::<u8>::empty(),
        };
        lemma_steps_concat(a.skip(1), b, from + own.len());
        assert(own + (steps_data(a.skip(1)) + steps_data(b)) =~= (own + steps_data(a.skip(1)))
            + steps_data(b));
    }
}

/// The verifier accepts a hash pair that is on the wire if it hashes to
/// the expected hash.
pub proof fn lemma_step_parent(
    c: BaoChunk<Seq<u64>>,
    stack: Seq<Seq<u8>>,
    l: Seq<u8>,
    r: Seq<u8>,
    tail: Seq<u8>,
)
    requires
        c is Parent,
        l.len() == 32,
        r.len() == 32,
        stack.len() > 0,
        parent_cv_of(l, r, c->Parent_is_root) == stack.last(),
    ensures
        verify_step(c, stack, l + r + tail) == Ok::<
            (StepView, Seq<Seq<u8>>, Seq<u8>),
            DecodeError,
        >(
            (
                StepView::Parent { node: c->Parent_node, l, r },
                stack_after_parent(stack, l, r, c->Parent_left, c->Parent_right),
                tail,
            ),
        ),
{
    let input = l + r + tail;
    assert(input.subrange(0, 32) =~= l);
    assert(input.subrange(32, 64) =~= r);
    assert(input.skip(64) =~= tail);
}

/// The verifier accepts data that is on the wire if it hashes to the
/// expected hash.
pub proof fn lemma_step_leaf(c: BaoChunk<Seq<u64>>, stack: Seq<Seq<u8>>, data: Seq<u8>, tail: Seq<u8>)
    requires
        c is Leaf,
        data.len() == c->Leaf_size,
        stack.len() > 0,
        subtree_hash((c->Leaf_start_chunk).0, data, c->Leaf_is_root) == stack.last(),
    ensures
        verify_step(c, stack, data + tail) == Ok::<
            (StepView, Seq<Seq<u8>>, Seq<u8>),
            DecodeError,
        >((StepView::Leaf { start_chunk: c->Leaf_start_chunk, data }, stack.drop_last(), tail)),
{
    let input = data + tail;
    assert(input.take(data.len() as int) =~= data);
    assert(input.skip(data.len() as int) =~= tail);
}

/// A run of the verifier over a directive and more directives, where the
/// verifier accepts the first.
pub proof fn lemma_run_cons(
    c: BaoChunk<Seq<u64>>,
    rest: Seq<BaoChunk<Seq<u64>>>,
    stack: Seq<Seq<u8>>,
    input: Seq<u8>,
)
    requires
        verify_step(c, stack, input) is Ok,
    ensures
        ({
            let step = verify_step(c, stack, input)->Ok_0;
            let end = verify_run(rest, step.1, step.2);
            verify_run(seq![c] + rest, stack, input) == (VerifyEnd {
                accepted: seq![step.0] + end.accepted,
                failure: end.failure,
                stack: end.stack,
                input: end.input,
            })
        }),
{
    let all = seq![c] + rest;
    assert(all.skip(1) =~= rest);
    assert(all[0] == c);
}


/// The data of one accepted step, and how it lies.
pub proof fn lemma_steps_one(x: StepView, from: int)
    ensures
        steps_data(seq![x]) == (match x {
            StepView::Leaf { data, .. } => data,
            _ => Seq::<u8>::empty(),
        }),
        steps_tile(seq![x], from) == (match x {
            StepView::Leaf { start_chunk, .. } => start_chunk.0 * 1024 == from,
            _ => true,
        }),
{
    let s = seq![x];
    assert(s.skip(1) =~= Seq::<StepView>::empty());
    assert(steps_data(s.skip(1)) =~= Seq::<u8>::empty());
    let own = match x {
        StepView::Leaf { data, .. } => data,
        _ => Seq::<u8>::empty(),
    };
    assert(own + Seq::<u8>::empty() =~= own);
    assert(steps_tile(s.skip(1), from));
    assert(steps_tile(s.skip(1), from + own.len()));
    assert(s[0] == x);
}

/// The directives of a traversal in pre-order of all that lies under a
/// node.
pub open spec fn all_chunks(tree: BaoTree, node: TreeNode, is_root: bool) -> Seq<BaoChunk<Seq<u64>>> {
    infos_chunks(tree, partial_nodes(tree, node, seq![0u64], 0, is_root))
}

/// True if the verifier, with the hash `expected` on top of `stack`,
/// accepts the bytes on the wire of the directives `cs`, followed by
/// `tail`, takes the hash off the stack, leaves `tail`, and has accepted
/// the bytes of `blob` from `s` up to `e`, piece after piece.
pub open spec fn accepts(
    cs: Seq<BaoChunk<Seq<u64>>>,
    pairs: HashPairs,
    blob: Seq<u8>,
    expected: Seq<u8>,
    stack: Seq<Seq<u8>>,
    tail: Seq<u8>,
    s: int,
    e: int,
) -> bool {
    let end = verify_run(cs, stack.push(expected), wire(pairs, blob, cs) + tail);
    &&& end.failure is None
    &&& end.stack == stack
    &&& end.input == tail
    &&& steps_tile(end.accepted, s)
    &&& steps_data(end.accepted) == blob.subrange(s, e)
}

/// What a traversal of all chunks knows of a node.
pub proof fn lemma_info_all(tree: BaoTree, node: TreeNode, is_root: bool)
    requires
        tree.wf(),
        tree.contains(node),
    ensures
        ({
            let info = node_info(tree, node, seq![0u64], 0, is_root);
            &&& info.l_ranges == seq![0u64]
            &&& info.r_ranges == seq![0u64]
            &&& info.ranges == seq![0u64]
            &&& info.query_leaf == (node.level == 0)
            &&& info.is_half_leaf == !tree.is_persisted_spec(node)
            &&& info.is_root == is_root
            &&& info.node == node
        }),
{
    lemma_contains_bounds(tree, node);
    lemma_node_bounds(node);
    lemma_tree_bounds(tree);
    lemma_block_chunk_bound(tree, node.mid_spec());
    lemma_node_chunks(tree, node);
    let mid = tree.block_chunk_spec(node.mid_spec());
    let c = tree.block_size.chunks_spec() as int;
    let m = node.mid_spec() as int;
    assert(m * c >= 1) by (nonlinear_arith)
        requires
            m >= 1,
            c >= 1,
    ;
    lemma_split_all(mid as u64);
}

/// Round trip for a leaf whose right block holds no data: the verifier
/// accepts the data of the leaf, given its hash.
pub proof fn lemma_round_trip_half_leaf(
    leaf: BaoChunk<Seq<u64>>,
    pairs: HashPairs,
    blob: Seq<u8>,
    stack: Seq<Seq<u8>>,
    tail: Seq<u8>,
    s: int,
    m: int,
)
    requires
        leaf is Leaf,
        0 <= s <= m <= blob.len(),
        (leaf->Leaf_start_chunk).0 * 1024 == s,
        leaf->Leaf_size == m - s,
    ensures
        accepts(
            seq![leaf],
            pairs,
            blob,
            subtree_hash((leaf->Leaf_start_chunk).0, blob.subrange(s, m), leaf->Leaf_is_root),
            stack,
            tail,
            s,
            m,
        ),
{
    let none = Seq::<BaoChunk<Seq<u64>>>::empty();
    let h = subtree_hash((leaf->Leaf_start_chunk).0, blob.subrange(s, m), leaf->Leaf_is_root);
    let data = blob.subrange(s, m);
    lemma_wire_one(pairs, blob, leaf);
    assert(chunk_wire(pairs, blob, leaf) == data);
    lemma_step_leaf(leaf, stack.push(h), data, tail);
    lemma_run_cons(leaf, none, stack.push(h), data + tail);
    assert(seq![leaf] + none =~= seq![leaf]);
    assert(stack.push(h).drop_last() =~= stack);
    let acc = seq![StepView::Leaf { start_chunk: leaf->Leaf_start_chunk, data }];
    assert(acc + Seq::<StepView>::empty() =~= acc);
    lemma_steps_one(acc[0], s);
}

/// Round trip for a leaf with two blocks of data: the verifier accepts the
/// hash pair of the leaf and the data of its two blocks, given the hash of
/// the leaf.
#[verifier::rlimit(40)]
pub proof fn lemma_round_trip_full_leaf(
    parent: BaoChunk<Seq<u64>>,
    left: BaoChunk<Seq<u64>>,
    right: BaoChunk<Seq<u64>>,
    pairs: HashPairs,
    blob: Seq<u8>,
    stack: Seq<Seq<u8>>,
    tail: Seq<u8>,
    s: int,
    m: int,
    e: int,
)
    requires
        parent matches BaoChunk::Parent { left: l, right: r, .. } && l && r,
        left matches BaoChunk::Leaf { is_root, .. } && !is_root,
        right matches BaoChunk::Leaf { is_root, .. } && !is_root,
        0 <= s <= m <= e <= blob.len(),
        (left->Leaf_start_chunk).0 * 1024 == s,
        left->Leaf_size == m - s,
        (right->Leaf_start_chunk).0 * 1024 == m,
        right->Leaf_size == e - m,
        pairs[parent->Parent_node] == (
            subtree_hash((left->Leaf_start_chunk).0, blob.subrange(s, m), false),
            subtree_hash((right->Leaf_start_chunk).0, blob.subrange(m, e), false),
        ),
    ensures
        accepts(
            seq![parent, left, right],
            pairs,
            blob,
            parent_cv_of(
                pairs[parent->Parent_node].0,
                pairs[parent->Parent_node].1,
                parent->Parent_is_root,
            ),
            stack,
            tail,
            s,
            e,
        ),
{
    let none = Seq::<BaoChunk<Seq<u64>>>::empty();
    let pair = pairs[parent->Parent_node];
    let ld = blob.subrange(s, m);
    let rd = blob.subrange(m, e);
    lemma_subtree_hash_len((left->Leaf_start_chunk).0, ld, false);
    lemma_subtree_hash_len((right->Leaf_start_chunk).0, rd, false);
    let hr = pair.1;
    lemma_round_trip_half_leaf(right, pairs, blob, stack, tail, m, e);
    lemma_wire_one(pairs, blob, right);
    assert(chunk_wire(pairs, blob, right) == rd);
    lemma_round_trip_half_leaf(left, pairs, blob, stack.push(hr), rd + tail, s, m);
    lemma_round_trip_inner(
        parent,
        seq![left],
        seq![right],
        pairs,
        blob,
        pair.0,
        hr,
        stack,
        tail,
        s,
        m,
        e,
    );
    assert(seq![parent] + (seq![left] + seq![right]) =~= seq![parent, left, right]);
}

/// Round trip for a leaf: the verifier accepts the bytes on the wire of
/// the directives for a leaf and hands out its data.
pub proof fn lemma_round_trip_leaf(
    tree: BaoTree,
    blob: Seq<u8>,
    pairs: HashPairs,
    node: TreeNode,
    is_root: bool,
    stack: Seq<Seq<u8>>,
    tail: Seq<u8>,
)
    requires
        tree.wf(),
        tree.contains(node),
        node.level == 0,
        vouches(tree, blob, pairs),
        tree.start_chunk.0 * 1024 + tree.size.0 <= blob.len(),
    ensures
        accepts(
            all_chunks(tree, node, is_root),
            pairs,
            blob,
            node_hash(tree, blob, node, is_root),
            stack,
            tail,
            tree.block_byte_spec(node.start_spec()) as int,
            tree.block_byte_spec(node.end_spec()) as int,
        ),
{
    lemma_info_all(tree, node, is_root);
    let info = node_info(tree, node, seq![0u64], 0, is_root);
    lemma_infos_chunks_one(tree, info);
    let items = chunk_items(tree, info);
    crate::codec::lemma_post_items_leaf(tree, node);
    lemma_node_bytes(tree, node);
    let s = tree.block_byte_spec(node.start_spec()) as int;
    let m = tree.block_byte_spec(node.mid_spec()) as int;
    let e = tree.block_byte_spec(node.end_spec()) as int;
    if m == e {
        assert(items =~= seq![items[0]]);
        lemma_round_trip_half_leaf(items[0], pairs, blob, stack, tail, s, m);
    } else {
        assert(items =~= seq![items[0], items[1], items[2]]);
        assert(pairs.contains_key(node));
        lemma_round_trip_full_leaf(items[0], items[1], items[2], pairs, blob, stack, tail, s, m, e);
    }
}

/// Round trip above the leaves: if the verifier accepts what is on the
/// wire for the two children of a node, given their hashes, then it
/// accepts what is on the wire for the node, given its hash.
pub proof fn lemma_round_trip_inner(
    parent: BaoChunk<Seq<u64>>,
    cl: Seq<BaoChunk<Seq<u64>>>,
    cr: Seq<BaoChunk<Seq<u64>>>,
    pairs: HashPairs,
    blob: Seq<u8>,
    hl: Seq<u8>,
    hr: Seq<u8>,
    stack: Seq<Seq<u8>>,
    tail: Seq<u8>,
    s: int,
    m: int,
    e: int,
)
    requires
        parent matches BaoChunk::Parent { left, right, .. } && left && right,
        pairs[parent->Parent_node] == (hl, hr),
        hl.len() == 32,
        hr.len() == 32,
        0 <= s <= m <= e <= blob.len(),
        accepts(cl, pairs, blob, hl, stack.push(hr), wire(pairs, blob, cr) + tail, s, m),
        accepts(cr, pairs, blob, hr, stack, tail, m, e),
    ensures
        accepts(
            seq![parent] + (cl + cr),
            pairs,
            blob,
            parent_cv_of(hl, hr, parent->Parent_is_root),
            stack,
            tail,
            s,
            e,
        ),
{
    let cs = seq![parent] + (cl + cr);
    let h = parent_cv_of(hl, hr, parent->Parent_is_root);
    let wl = wire(pairs, blob, cl);
    let wr = wire(pairs, blob, cr);
    lemma_wire_concat(pairs, blob, seq![parent], cl + cr);
    lemma_wire_concat(pairs, blob, cl, cr);
    lemma_wire_one(pairs, blob, parent);
    let w = wire(pairs, blob, cs);
    assert(w + tail =~= hl + hr + (wl + (wr + tail)));
    let stack_top = stack.push(h);
    lemma_step_parent(parent, stack_top, hl, hr, wl + (wr + tail));
    assert(stack_top.drop_last() =~= stack);
    let stack_pair = stack.push(hr).push(hl);
    lemma_verify_run_concat(cl, cr, stack_pair, wl + (wr + tail));
    lemma_run_cons(parent, cl + cr, stack_top, hl + hr + (wl + (wr + tail)));
    let ra = verify_run(cl, stack_pair, wl + (wr + tail));
    let rb = verify_run(cr, stack.push(hr), wr + tail);
    let a_p = StepView::Parent { node: parent->Parent_node, l: hl, r: hr };
    lemma_steps_concat(ra.accepted, rb.accepted, s);
    lemma_steps_concat(seq![a_p], ra.accepted + rb.accepted, s);
    lemma_steps_one(a_p, s);
    assert(blob.subrange(s, m) + blob.subrange(m, e) =~= blob.subrange(s, e));
    assert(Seq::<u8>::empty() + blob.subrange(s, e) =~= blob.subrange(s, e));
}

/// Round trip below a node: where an outboard holds for every node the
/// hashes of its two children over a blob, the verifier, given the hash of
/// a node, accepts the bytes on the wire of the directives for all that
/// lies under the node, and hands out the bytes of the blob under the
/// node, piece after piece.
#[verifier::rlimit(40)]
pub proof fn lemma_round_trip_node(
    tree: BaoTree,
    blob: Seq<u8>,
    pairs: HashPairs,
    node: TreeNode,
    is_root: bool,
    stack: Seq<Seq<u8>>,
    tail: Seq<u8>,
)
    requires
        tree.wf(),
        tree.contains(node),
        vouches(tree, blob, pairs),
        tree.start_chunk.0 * 1024 + tree.size.0 <= blob.len(),
    ensures
        accepts(
            all_chunks(tree, node, is_root),
            pairs,
            blob,
            node_hash(tree, blob, node, is_root),
            stack,
            tail,
            tree.block_byte_spec(node.start_spec()) as int,
            tree.block_byte_spec(node.end_spec()) as int,
        ),
    decreases node.level,
{
    if node.level == 0 {
        lemma_round_trip_leaf(tree, blob, pairs, node, is_root, stack, tail);
    } else {
        lemma_info_all(tree, node, is_root);
        lemma_children_contained(tree, node);
        lemma_contains_bounds(tree, node);
        let info = node_info(tree, node, seq![0u64], 0, is_root);
        let lc = node.left_child_spec();
        let rd = node.right_descendant_spec(tree.filled_size_spec())->0;
        let pl = partial_nodes(tree, lc, seq![0u64], 0, false);
        let pr = partial_nodes(tree, rd, seq![0u64], 0, false);
        assert(partial_nodes(tree, node, seq![0u64], 0, is_root) == seq![info] + pl + pr);
        lemma_infos_chunks_concat(tree, seq![info] + pl, pr);
        lemma_infos_chunks_concat(tree, seq![info], pl);
        lemma_infos_chunks_one(tree, info);
        let items = chunk_items(tree, info);
        let parent = items[0];
        assert(items =~= seq![parent]);
        let cl = all_chunks(tree, lc, false);
        let cr = all_chunks(tree, rd, false);
        let cs = all_chunks(tree, node, is_root);
        assert(cs =~= seq![parent] + (cl + cr));
        assert(pairs.contains_key(node));
        let hl = node_hash(tree, blob, lc, false);
        let hr = node_hash(tree, blob, rd, false);
        assert(pair_of(tree, blob, node) == (hl, hr));
        lemma_node_hash_len(tree, blob, lc, false);
        lemma_node_hash_len(tree, blob, rd, false);
        let wr = wire(pairs, blob, cr);
        lemma_round_trip_node(tree, blob, pairs, lc, false, stack.push(hr), wr + tail);
        lemma_round_trip_node(tree, blob, pairs, rd, false, stack, tail);
        let s = tree.block_byte_spec(node.start_spec()) as int;
        let m = tree.block_byte_spec(node.mid_spec()) as int;
        let e = tree.block_byte_spec(node.end_spec()) as int;
        lemma_node_bytes(tree, node);
        lemma_node_bytes(tree, rd);
        lemma_tree_bounds(tree);
        lemma_children_wf(node);
        assert(tree.block_byte_spec(rd.end_spec()) == e);
        lemma_round_trip_inner(parent, cl, cr, pairs, blob, hl, hr, stack, tail, s, m, e);
    }
}

/// The hash of a node has 32 bytes.
pub proof fn lemma_node_hash_len(tree: BaoTree, blob: Seq<u8>, node: TreeNode, is_root: bool)
    ensures
        node_hash(tree, blob, node, is_root).len() == 32,
{
    let s = tree.block_byte_spec(node.start_spec()) as int;
    let m = tree.block_byte_spec(node.mid_spec()) as int;
    lemma_subtree_hash_len(
        tree.block_chunk_spec(node.start_spec()) as u64,
        blob.subrange(s, m),
        is_root,
    );
}

/// The directives for a node that a traversal visits are directives for
/// the tree: their hash pairs are kept by an outboard, and their data lies
/// within the blob.
pub proof fn lemma_chunk_items_fit(tree: BaoTree, info: NodeInfoView, i: int)
    requires
        tree.wf(),
        tree.contains(info.node),
        info.is_half_leaf == !tree.is_persisted_spec(info.node),
        info.is_root ==> info.node == tree.root_spec(),
        tree.size.0 <= usize::MAX || info.node.level == 0 || !info.query_leaf,
        0 <= i < chunk_items(tree, info).len(),
    ensures
        chunk_fits(tree, chunk_items(tree, info)[i]),
{
    let node = info.node;
    lemma_root_covers(tree);
    lemma_node_bytes(tree, node);
    lemma_node_chunks(tree, node);
    lemma_contains_bounds(tree, node);
    lemma_node_bounds(node);
    lemma_tree_bounds(tree);
    lemma_block_byte_diff(tree, node.start_spec(), node.mid_spec());
    lemma_block_byte_diff(tree, node.mid_spec(), node.end_spec());
    lemma_block_byte_diff(tree, node.start_spec(), node.end_spec());
    lemma_block_chunk_bound(tree, node.start_spec());
    vstd::arithmetic::power2::lemma2_to64();
    let bb = tree.block_bytes() as int;
    assert(1 * bb == bb) by (nonlinear_arith);
    if node.level == 0 {
        lemma_half_leaf(tree, node);
    }
}

/// Everything that the directives for the part of a tree under a node ask
/// for can be read from an outboard that holds the hash pair of every node
/// and from a blob that is as long as the tree says.
pub proof fn lemma_partial_readable(
    tree: BaoTree,
    blob_len: nat,
    pairs: HashPairs,
    node: TreeNode,
    ranges: Seq<u64>,
    is_root: bool,
)
    requires
        tree.wf(),
        tree.contains(node),
        is_root ==> node == tree.root_spec(),
        forall|n: TreeNode| tree.is_persisted_spec(n) ==> #[trigger] pairs.contains_key(n),
        tree.start_chunk.0 * 1024 + tree.size.0 <= blob_len,
    ensures
        all_readable(pairs, blob_len, infos_chunks(tree, partial_nodes(tree, node, ranges, 0, is_root))),
    decreases node.level,
{
    let p = partial_nodes(tree, node, ranges, 0, is_root);
    if ranges.len() > 0 {
        let info = node_info(tree, node, ranges, 0, is_root);
        let items = chunk_items(tree, info);
        lemma_contains_bounds(tree, node);
        assert forall|i: int| 0 <= i < items.len() implies readable(pairs, blob_len, #[trigger] items[i]) by {
            lemma_chunk_items_fit(tree, info, i);
        }
        lemma_all_readable_items(pairs, blob_len, items);
        if node.level == 0 {
            assert(p == seq![info]);
            lemma_infos_chunks_one(tree, info);
        } else {
            lemma_children_contained(tree, node);
            let lc = node.left_child_spec();
            let rd = node.right_descendant_spec(tree.filled_size_spec())->0;
            let pl = partial_nodes(tree, lc, info.l_ranges, 0, false);
            let pr = partial_nodes(tree, rd, info.r_ranges, 0, false);
            assert(p == seq![info] + pl + pr);
            lemma_infos_chunks_concat(tree, seq![info] + pl, pr);
            lemma_infos_chunks_concat(tree, seq![info], pl);
            lemma_infos_chunks_one(tree, info);
            lemma_partial_readable(tree, blob_len, pairs, lc, info.l_ranges, false);
            lemma_partial_readable(tree, blob_len, pairs, rd, info.r_ranges, false);
            lemma_all_readable_concat(pairs, blob_len, items, infos_chunks(tree, pl));
            lemma_all_readable_concat(
                pairs,
                blob_len,
                items + infos_chunks(tree, pl),
                infos_chunks(tree, pr),
            );
        }
    }
}

/// Everything that a sequence of directives asks for can be read if what
/// each of them asks for can be read.
pub proof fn lemma_all_readable_items<R>(pairs: HashPairs, blob_len: nat, cs: Seq<BaoChunk<R>>)
    requires
        forall|i: int| 0 <= i < cs.len() ==> readable(pairs, blob_len, #[trigger] cs[i]),
    ensures
        all_readable(pairs, blob_len, cs),
    decreases cs.len(),
{
    if cs.len() > 0 {
        assert forall|i: int| 0 <= i < cs.skip(1).len() implies readable(
            pairs,
            blob_len,
            #[trigger] cs.skip(1)[i],
        ) by {
            assert(cs.skip(1)[i] == cs[i + 1]);
        }
        lemma_all_readable_items(pairs, blob_len, cs.skip(1));
    }
}

/// Everything that two sequences of directives, one after the other, ask
/// for can be read if it can for each of the two.
pub proof fn lemma_all_readable_concat<R>(
    pairs: HashPairs,
    blob_len: nat,
    a: Seq<BaoChunk<R>>,
    b: Seq<BaoChunk<R>>,
)
    requires
        all_readable(pairs, blob_len, a),
        all_readable(pairs, blob_len, b),
    ensures
        all_readable(pairs, blob_len, a + b),
    decreases a.len(),
{
    if a.len() == 0 {
        assert(a + b =~= b);
    } else {
        assert((a + b).skip(1) =~= a.skip(1) + b);
        assert((a + b)[0] == a[0]);
        lemma_all_readable_concat(pairs, blob_len, a.skip(1), b);
    }
}

/// True if the query has all of the data of every leaf among the
/// directives `cs`.
pub open spec fn whole_leaves(cs: Seq<BaoChunk<Seq<u64>>>) -> bool {
    forall|i: int|
        0 <= i < cs.len() ==> match #[trigger] cs[i] {
            BaoChunk::Leaf { ranges, .. } => is_all_spec(ranges),
            BaoChunk::Parent { .. } => true,
        }
}

/// A traversal of all that lies under a node has all of the data of every
/// leaf.
pub proof fn lemma_all_chunks_whole(tree: BaoTree, node: TreeNode, is_root: bool)
    requires
        tree.wf(),
        tree.contains(node),
    ensures
        whole_leaves(all_chunks(tree, node, is_root)),
    decreases node.level,
{
    lemma_info_all(tree, node, is_root);
    let info = node_info(tree, node, seq![0u64], 0, is_root);
    let items = chunk_items(tree, info);
    let p = partial_nodes(tree, node, seq![0u64], 0, is_root);
    let cs = all_chunks(tree, node, is_root);
    assert forall|i: int| 0 <= i < items.len() implies match #[trigger] items[i] {
        BaoChunk::Leaf { ranges, .. } => is_all_spec(ranges),
        BaoChunk::Parent { .. } => true,
    } by {}
    if node.level == 0 {
        assert(p == seq![info]);
        lemma_infos_chunks_one(tree, info);
    } else {
        lemma_children_contained(tree, node);
        let lc = node.left_child_spec();
        let rd = node.right_descendant_spec(tree.filled_size_spec())->0;
        let pl = partial_nodes(tree, lc, seq![0u64], 0, false);
        let pr = partial_nodes(tree, rd, seq![0u64], 0, false);
        assert(p == seq![info] + pl + pr);
        lemma_infos_chunks_concat(tree, seq![info] + pl, pr);
        lemma_infos_chunks_concat(tree, seq![info], pl);
        lemma_infos_chunks_one(tree, info);
        lemma_all_chunks_whole(tree, lc, false);
        lemma_all_chunks_whole(tree, rd, false);
        let cl = infos_chunks(tree, pl);
        let cr = infos_chunks(tree, pr);
        assert(cs == items + cl + cr);
        assert forall|i: int| 0 <= i < cs.len() implies match #[trigger] cs[i] {
            BaoChunk::Leaf { ranges, .. } => is_all_spec(ranges),
            BaoChunk::Parent { .. } => true,
        } by {
            if i < items.len() {
                assert(cs[i] == items[i]);
            } else if i < items.len() + cl.len() {
                assert(cs[i] == cl[i - items.len()]);
            } else {
                assert(cs[i] == cr[i - items.len() - cl.len()]);
            }
        }
    }
}

/// Where blocks are chunks, and where the query has all of the data of
/// every leaf, the directives of the response are those of the traversal of
/// the tree of blocks: a decoder reads what an encoder that does not
/// validate has written.
pub proof fn lemma_whole_response(tree: BaoTree, cs: Seq<BaoChunk<Seq<u64>>>)
    requires
        tree.block_size.0 == 0 || whole_leaves(cs),
    ensures
        chunks_responses(tree, cs) == cs.map_values(|c: BaoChunk<Seq<u64>>| plain_response(c)),
    decreases cs.len(),
{
    let f = |c: BaoChunk<Seq<u64>>| plain_response(c);
    if cs.len() == 0 {
        assert(chunks_responses(tree, cs) =~= cs.map_values(f));
    } else {
        let rest = cs.skip(1);
        if tree.block_size.0 != 0 {
            assert forall|i: int| 0 <= i < rest.len() implies match #[trigger] rest[i] {
                BaoChunk::Leaf { ranges, .. } => is_all_spec(ranges),
                BaoChunk::Parent { .. } => true,
            } by {
                assert(rest[i] == cs[i + 1]);
            }
        }
        lemma_whole_response(tree, rest);
        assert(response_items(tree, cs[0]) =~= seq![plain_response(cs[0])]);
        assert(chunks_responses(tree, cs) =~= cs.map_values(f));
    }
}

/// The verifier does with the directives of a response that were taken as
/// they are what it does with the directives of the traversal of the tree
/// of blocks.
pub proof fn lemma_verify_run_plain(cs: Seq<BaoChunk<Seq<u64>>>, stack: Seq<Seq<u8>>, input: Seq<u8>)
    ensures
        verify_run(
            verifier_chunks(cs.map_values(|c: BaoChunk<Seq<u64>>| plain_response(c))),
            stack,
            input,
        ) == verify_run(cs, stack, input),
    decreases cs.len(),
{
    let f = |c: BaoChunk<Seq<u64>>| plain_response(c);
    let vs = verifier_chunks(cs.map_values(f));
    if cs.len() > 0 {
        assert(vs[0] == verifier_chunk(plain_response(cs[0])));
        assert(vs.skip(1) =~= verifier_chunks(cs.skip(1).map_values(f)));
        match verify_step(cs[0], stack, input) {
            Ok((item, st, inp)) => {
                lemma_verify_run_plain(cs.skip(1), st, inp);
            },
            Err(_) => {},
        }
    }
}

/// Round trip: for every blob and block size, where an outboard holds for
/// every node the hashes of its two children over the blob, the slice for
/// the query of all chunks can be encoded in full, and a decoder that
/// knows the root hash of the blob reads it to its end without a failure:
/// it hands out the size of the blob, and the data that it hands out is
/// the blob, piece after piece from byte 0 on, each piece at its offset.
pub proof fn lemma_round_trip(size: u64, block_size: BlockSize, blob: Seq<u8>, pairs: HashPairs)
    requires
        block_size.wf(),
        blob.len() == size,
        vouches(BaoTree::new_spec(ByteNum(size), block_size), blob, pairs),
    ensures
        ({
            let tree = BaoTree::new_spec(ByteNum(size), block_size);
            let cs = pre_order_chunks(tree, seq![0u64], 0);
            let encoded = slice_bytes(size, pairs, blob, cs);
            let start = DecoderView {
                phase: PhaseView::Header { ranges: seq![0u64], block_size },
                stack: seq![root_hash(tree, blob)],
                input: encoded,
            };
            let run = decode_run(start);
            let end = verify_run(
                pre_order_chunks(
                    tree,
                    crate::ranges::truncate_spec(seq![0u64], tree.chunks_spec() as u64),
                    0,
                ),
                seq![root_hash(tree, blob)],
                wire(pairs, blob, cs),
            );
            &&& all_readable(pairs, blob.len(), cs)
            &&& run.1 is None
            &&& run.0 == seq![ItemView::Header { size }] + end.accepted.map_values(
                |s: StepView| step_item(s),
            )
            &&& steps_tile(end.accepted, 0)
            &&& steps_data(end.accepted) == blob
        }),
{
    let tree = BaoTree::new_spec(ByteNum(size), block_size);
    let root = tree.root_spec();
    lemma_tree_bounds(tree);
    let cs = pre_order_chunks(tree, seq![0u64], 0);
    let w = wire(pairs, blob, cs);
    let header = vstd::bytes::spec_u64_to_le_bytes(size);
    let encoded = slice_bytes(size, pairs, blob, cs);
    vstd::bytes::lemma_auto_spec_u64_to_from_le_bytes();
    assert(encoded.take(8) =~= header);
    assert(encoded.skip(8) =~= w);
    lemma_partial_readable(tree, blob.len(), pairs, root, seq![0u64], true);
    let start = DecoderView {
        phase: PhaseView::Header { ranges: seq![0u64], block_size },
        stack: seq![root_hash(tree, blob)],
        input: encoded,
    };
    let chunks = tree.chunks_spec() as u64;
    let stack = Seq::<Seq<u8>>::empty();
    let tail = Seq::<u8>::empty();
    assert(stack.push(root_hash(tree, blob)) =~= seq![root_hash(tree, blob)]);
    lemma_root_covers(tree);
    lemma_node_bytes(tree, root);
    assert(0 * tree.block_bytes() == 0);
    if size == 0 {
        let b = seq![0u64];
        assert(count_below(b, 0) == 0);
        assert(b.take(0) =~= Seq::<u64>::empty());
        let dirs = pre_order_chunks(tree, Seq::<u64>::empty(), 0);
        assert(dirs =~= Seq::<BaoChunk<Seq<u64>>>::empty());
        let accepted = Seq::<StepView>::empty();
        let f = |s: StepView| step_item(s);
        assert(chunks_responses(tree, dirs) =~= Seq::<ResponseChunk>::empty());
        assert(verifier_chunks(chunks_responses(tree, dirs)) =~= dirs);
        assert(decode_run(start).0 =~= seq![ItemView::Header { size }] + accepted.map_values(f));
        assert(steps_data(accepted) =~= blob);
        assert(verify_run(dirs, seq![root_hash(tree, blob)], w).accepted =~= accepted);
    } else {
        lemma_split_all(chunks);
        lemma_round_trip_node(tree, blob, pairs, root, true, stack, tail);
        assert(w + tail =~= w);
        let end = verify_run(cs, seq![root_hash(tree, blob)], w);
        assert(blob.subrange(0, size as int) =~= blob);
        let f = |s: StepView| step_item(s);
        lemma_all_chunks_whole(tree, root, true);
        lemma_whole_response(tree, cs);
        lemma_verify_run_plain(cs, seq![root_hash(tree, blob)], w);
        assert(decode_run(start).0 == seq![ItemView::Header { size }] + end.accepted.map_values(f));
    }
}


/// Every node of a tree within a node, whose hash pair an outboard keeps,
/// has a place in the sequence in post-order of the nodes under that node.
pub proof fn lemma_persisted_post_index(tree: BaoTree, c: TreeNode, n: TreeNode) -> (k: int)
    requires
        tree.wf(),
        tree.contains(c),
        tree.is_persisted_spec(n),
        within(n, c),
    ensures
        0 <= k < persisted_post(tree, c).len(),
        persisted_post(tree, c)[k] == n,
    decreases c.level,
{
    lemma_node_bounds(c);
    lemma_node_bounds(n);
    lemma_contains_bounds(tree, c);
    if n == c {
        (persisted_post(tree, c).len() - 1) as int
    } else {
        lemma_within_child(n, c);
        lemma_children_contained(tree, c);
        lemma_children_wf(c);
        let lc = c.left_child_spec();
        let len = tree.filled_size_spec();
        let rd = c.right_descendant_spec(len)->0;
        let l = persisted_post(tree, lc);
        if n.start_spec() < c.mid_spec() {
            lemma_persisted_post_index(tree, lc, n)
        } else {
            lemma_descend(c.right_child_spec(), len);
            lemma_descend_within(c.right_child_spec(), len, n);
            let k = lemma_persisted_post_index(tree, rd, n);
            l.len() + k
        }
    }
}

/// Every node of a tree within a node has a place in the sequence in
/// post-order of the nodes under that node.
pub proof fn lemma_post_order_index(tree: BaoTree, c: TreeNode, n: TreeNode) -> (k: int)
    requires
        tree.wf(),
        tree.contains(c),
        tree.contains(n),
        within(n, c),
    ensures
        0 <= k < post_order_nodes(c, tree.filled_size_spec()).len(),
        post_order_nodes(c, tree.filled_size_spec())[k] == n,
    decreases c.level,
{
    lemma_node_bounds(c);
    lemma_node_bounds(n);
    lemma_contains_bounds(tree, c);
    let len = tree.filled_size_spec();
    if n == c {
        (post_order_nodes(c, len).len() - 1) as int
    } else {
        lemma_within_child(n, c);
        lemma_children_contained(tree, c);
        lemma_children_wf(c);
        let lc = c.left_child_spec();
        let rd = c.right_descendant_spec(len)->0;
        let l = post_order_nodes(lc, len);
        if n.start_spec() < c.mid_spec() {
            lemma_post_order_index(tree, lc, n)
        } else {
            lemma_descend(c.right_child_spec(), len);
            lemma_descend_within(c.right_child_spec(), len, n);
            let k = lemma_post_order_index(tree, rd, n);
            l.len() + k
        }
    }
}

/// The hashes of the two children of a node of a tree have 32 bytes each.
pub proof fn lemma_pair_len(tree: BaoTree, blob: Seq<u8>, n: TreeNode)
    requires
        tree.wf(),
        tree.contains(n),
    ensures
        pair_of(tree, blob, n).0.len() == 32,
        pair_of(tree, blob, n).1.len() == 32,
{
    if n.level == 0 {
        let s = tree.block_byte_spec(n.start_spec()) as int;
        let m = tree.block_byte_spec(n.mid_spec()) as int;
        let e = tree.block_byte_spec(n.end_spec()) as int;
        let l_start = tree.block_chunk_spec(n.start_spec());
        let r_start = l_start + tree.block_size.chunks_spec();
        lemma_subtree_hash_len(l_start as u64, blob.subrange(s, m), false);
        lemma_subtree_hash_len(r_start as u64, blob.subrange(m, e), false);
    } else {
        lemma_children_contained(tree, n);
        let rd = n.right_descendant_spec(tree.filled_size_spec())->0;
        lemma_node_hash_len(tree, blob, n.left_child_spec(), false);
        lemma_node_hash_len(tree, blob, rd, false);
    }
}

/// The bytes of the hash pairs of a sequence of nodes, node after node.
pub open spec fn pairs_bytes(tree: BaoTree, blob: Seq<u8>, nodes: Seq<TreeNode>) -> Seq<u8>
    decreases nodes.len(),
{
    if nodes.len() == 0 {
        Seq::empty()
    } else {
        pair_of(tree, blob, nodes[0]).0 + pair_of(tree, blob, nodes[0]).1 + pairs_bytes(
            tree,
            blob,
            nodes.skip(1),
        )
    }
}

/// The bytes of the hash pairs of two sequences of nodes, one after the
/// other.
pub proof fn lemma_pairs_bytes_concat(tree: BaoTree, blob: Seq<u8>, a: Seq<TreeNode>, b: Seq<TreeNode>)
    ensures
        pairs_bytes(tree, blob, a + b) == pairs_bytes(tree, blob, a) + pairs_bytes(tree, blob, b),
    decreases a.len(),
{
    if a.len() == 0 {
        assert(a + b =~= b);
        assert(pairs_bytes(tree, blob, a) + pairs_bytes(tree, blob, b) =~= pairs_bytes(
            tree,
            blob,
            b,
        ));
    } else {
        assert((a + b).skip(1) =~= a.skip(1) + b);
        assert((a + b)[0] == a[0]);
        lemma_pairs_bytes_concat(tree, blob, a.skip(1), b);
        let own = pair_of(tree, blob, a[0]).0 + pair_of(tree, blob, a[0]).1;
        assert(own + (pairs_bytes(tree, blob, a.skip(1)) + pairs_bytes(tree, blob, b)) =~= (own
            + pairs_bytes(tree, blob, a.skip(1))) + pairs_bytes(tree, blob, b));
    }
}

/// The bytes of an outboard in post-order under a node are the bytes of the
/// hash pairs of the nodes under it whose pair an outboard keeps, in
/// post-order.
pub proof fn lemma_post_order_pairs_bytes(tree: BaoTree, blob: Seq<u8>, node: TreeNode)
    requires
        tree.wf(),
        tree.contains(node),
    ensures
        post_order_pairs(tree, blob, node) == pairs_bytes(tree, blob, persisted_post(tree, node)),
    decreases node.level,
{
    let own_nodes = if tree.is_persisted_spec(node) {
        seq![node]
    } else {
        Seq::<TreeNode>::empty()
    };
    let pair = pair_of(tree, blob, node);
    if tree.is_persisted_spec(node) {
        assert(own_nodes.skip(1) =~= Seq::<TreeNode>::empty());
    }
    assert(pair.0 + pair.1 + Seq::<u8>::empty() =~= pair.0 + pair.1);
    assert(pairs_bytes(tree, blob, Seq::<TreeNode>::empty()) =~= Seq::<u8>::empty());
    let own = pairs_bytes(tree, blob, own_nodes);
    if node.level > 0 {
        lemma_children_contained(tree, node);
        lemma_contains_bounds(tree, node);
        let lc = node.left_child_spec();
        let rd = node.right_descendant_spec(tree.filled_size_spec())->0;
        lemma_post_order_pairs_bytes(tree, blob, lc);
        lemma_post_order_pairs_bytes(tree, blob, rd);
        let l = persisted_post(tree, lc);
        let r = persisted_post(tree, rd);
        lemma_pairs_bytes_concat(tree, blob, l + r, own_nodes);
        lemma_pairs_bytes_concat(tree, blob, l, r);
    }
}

/// The bytes of the hash pairs of a sequence of nodes of a tree hold the
/// hash pair of the node in the `k`-th place in the `k`-th place.
pub proof fn lemma_pairs_bytes_at(tree: BaoTree, blob: Seq<u8>, nodes: Seq<TreeNode>, k: int)
    requires
        tree.wf(),
        forall|i: int| 0 <= i < nodes.len() ==> tree.contains(#[trigger] nodes[i]),
        0 <= k < nodes.len(),
    ensures
        pairs_bytes(tree, blob, nodes).len() == 64 * nodes.len(),
        pair_at(pairs_bytes(tree, blob, nodes), k) == pair_of(tree, blob, nodes[k]),
    decreases nodes.len(),
{
    lemma_pairs_bytes_len(tree, blob, nodes);
    let rest = nodes.skip(1);
    assert forall|i: int| 0 <= i < rest.len() implies tree.contains(#[trigger] rest[i]) by {
        assert(rest[i] == nodes[i + 1]);
    }
    lemma_pairs_bytes_len(tree, blob, rest);
    lemma_pair_len(tree, blob, nodes[0]);
    let pair = pair_of(tree, blob, nodes[0]);
    let all = pairs_bytes(tree, blob, nodes);
    let tail = pairs_bytes(tree, blob, rest);
    if k == 0 {
        assert(all.subrange(0, 32) =~= pair.0);
        assert(all.subrange(32, 64) =~= pair.1);
    } else {
        lemma_pairs_bytes_at(tree, blob, rest, k - 1);
        assert(rest[k - 1] == nodes[k]);
        assert(all.subrange(64 * k, 64 * k + 32) =~= tail.subrange(64 * (k - 1), 64 * (k - 1) + 32));
        assert(all.subrange(64 * k + 32, 64 * k + 64) =~= tail.subrange(
            64 * (k - 1) + 32,
            64 * (k - 1) + 64,
        ));
    }
}

/// The bytes of the hash pairs of a sequence of nodes of a tree are 64
/// bytes for every node.
pub proof fn lemma_pairs_bytes_len(tree: BaoTree, blob: Seq<u8>, nodes: Seq<TreeNode>)
    requires
        tree.wf(),
        forall|i: int| 0 <= i < nodes.len() ==> tree.contains(#[trigger] nodes[i]),
    ensures
        pairs_bytes(tree, blob, nodes).len() == 64 * nodes.len(),
    decreases nodes.len(),
{
    if nodes.len() > 0 {
        let rest = nodes.skip(1);
        assert forall|i: int| 0 <= i < rest.len() implies tree.contains(#[trigger] rest[i]) by {
            assert(rest[i] == nodes[i + 1]);
        }
        lemma_pairs_bytes_len(tree, blob, rest);
        lemma_pair_len(tree, blob, nodes[0]);
    }
}

/// An outboard in post-order that holds the bytes that the builder writes
/// for a blob holds for every node the hashes of its two children over the
/// blob.
pub proof fn lemma_post_order_outboard_vouches(tree: BaoTree, blob: Seq<u8>)
    requires
        tree.wf(),
    ensures
        vouches(
            tree,
            blob,
            stored_pairs(
                tree.post_order_persisted(),
                post_order_pairs(tree, blob, tree.root_spec()),
            ),
        ),
{
    lemma_tree_bounds(tree);
    let root = tree.root_spec();
    let order = tree.post_order_persisted();
    let data = post_order_pairs(tree, blob, root);
    lemma_post_order_pairs_bytes(tree, blob, root);
    lemma_post_order_distinct(tree);
    assert forall|i: int| 0 <= i < order.len() implies tree.contains(#[trigger] order[i]) by {
        crate::offsets::lemma_persisted_post_within(tree, root, i);
    }
    lemma_pairs_bytes_len(tree, blob, order);
    let pairs = stored_pairs(order, data);
    assert forall|n: TreeNode| tree.is_persisted_spec(n) implies #[trigger] pairs.contains_key(n)
        && pairs[n] == pair_of(tree, blob, n) by {
        lemma_within_root(tree, n);
        let k = lemma_persisted_post_index(tree, root, n);
        lemma_pairs_bytes_at(tree, blob, order, k);
        lemma_stored_lookup(order, data, k);
    }
}

/// Keeping the hash pairs of a sequence of nodes keeps, for every node in
/// it whose pair an outboard keeps, the hashes of its two children, and
/// changes nothing else of what was kept of nodes whose pairs were right.
pub proof fn lemma_save_nodes_keeps(
    pairs: HashPairs,
    tree: BaoTree,
    blob: Seq<u8>,
    nodes: Seq<TreeNode>,
    n: TreeNode,
)
    requires
        tree.is_persisted_spec(n),
        (exists|k: int| 0 <= k < nodes.len() && #[trigger] nodes[k] == n) || (pairs.contains_key(n)
            && pairs[n] == pair_of(tree, blob, n)),
    ensures
        save_nodes(pairs, tree, blob, nodes).contains_key(n),
        save_nodes(pairs, tree, blob, nodes)[n] == pair_of(tree, blob, n),
    decreases nodes.len(),
{
    if nodes.len() > 0 {
        let kept = if tree.is_persisted_spec(nodes[0]) {
            pairs.insert(nodes[0], pair_of(tree, blob, nodes[0]))
        } else {
            pairs
        };
        let rest = nodes.skip(1);
        if !(kept.contains_key(n) && kept[n] == pair_of(tree, blob, n)) {
            let k = choose|k: int| 0 <= k < nodes.len() && #[trigger] nodes[k] == n;
            assert(k > 0);
            assert(rest[k - 1] == n);
        }
        lemma_save_nodes_keeps(kept, tree, blob, rest, n);
    }
}

/// An outboard that was filled from a blob in memory holds for every node
/// the hashes of its two children over the blob.
pub proof fn lemma_filled_outboard_vouches(tree: BaoTree, blob: Seq<u8>, pairs: HashPairs)
    requires
        tree.wf(),
    ensures
        vouches(
            tree,
            blob,
            save_nodes(
                pairs,
                tree,
                blob,
                post_order_nodes(tree.root_spec(), tree.filled_size_spec()),
            ),
        ),
{
    lemma_tree_bounds(tree);
    let root = tree.root_spec();
    let nodes = post_order_nodes(root, tree.filled_size_spec());
    let saved = save_nodes(pairs, tree, blob, nodes);
    assert forall|n: TreeNode| tree.is_persisted_spec(n) implies #[trigger] saved.contains_key(n)
        && saved[n] == pair_of(tree, blob, n) by {
        lemma_within_root(tree, n);
        let k = lemma_post_order_index(tree, root, n);
        lemma_save_nodes_keeps(pairs, tree, blob, nodes, n);
    }
}


/// True if every directive of `cs` is one for `tree`.
pub open spec fn all_fit<R>(tree: BaoTree, cs: Seq<BaoChunk<R>>) -> bool {
    forall|i: int| 0 <= i < cs.len() ==> chunk_fits(tree, #[trigger] cs[i])
}

/// The directives for the part of a tree under a node are directives for
/// the tree.
pub proof fn lemma_partial_all_fit(tree: BaoTree, node: TreeNode, ranges: Seq<u64>, is_root: bool)
    requires
        tree.wf(),
        tree.contains(node),
        is_root ==> node == tree.root_spec(),
    ensures
        all_fit(tree, infos_chunks(tree, partial_nodes(tree, node, ranges, 0, is_root))),
    decreases node.level,
{
    let p = partial_nodes(tree, node, ranges, 0, is_root);
    if ranges.len() > 0 {
        let info = node_info(tree, node, ranges, 0, is_root);
        let items = chunk_items(tree, info);
        lemma_contains_bounds(tree, node);
        assert forall|i: int| 0 <= i < items.len() implies chunk_fits(tree, #[trigger] items[i]) by {
            lemma_chunk_items_fit(tree, info, i);
        }
        if node.level == 0 {
            assert(p == seq![info]);
            lemma_infos_chunks_one(tree, info);
        } else {
            lemma_children_contained(tree, node);
            let lc = node.left_child_spec();
            let rd = node.right_descendant_spec(tree.filled_size_spec())->0;
            let pl = partial_nodes(tree, lc, info.l_ranges, 0, false);
            let pr = partial_nodes(tree, rd, info.r_ranges, 0, false);
            assert(p == seq![info] + pl + pr);
            lemma_infos_chunks_concat(tree, seq![info] + pl, pr);
            lemma_infos_chunks_concat(tree, seq![info], pl);
            lemma_infos_chunks_one(tree, info);
            lemma_partial_all_fit(tree, lc, info.l_ranges, false);
            lemma_partial_all_fit(tree, rd, info.r_ranges, false);
        }
    }
}

/// True if every leaf among the directives `cs` holds at most one block of
/// data.
pub open spec fn all_block_sized<R>(tree: BaoTree, cs: Seq<BaoChunk<R>>) -> bool {
    forall|i: int| 0 <= i < cs.len() ==> block_sized(tree, #[trigger] cs[i])
}

/// Every leaf among the directives for the part of a tree under a node
/// holds at most one block of data.
pub proof fn lemma_partial_block_sized(tree: BaoTree, node: TreeNode, ranges: Seq<u64>, is_root: bool)
    requires
        tree.wf(),
        tree.contains(node),
    ensures
        all_block_sized(tree, infos_chunks(tree, partial_nodes(tree, node, ranges, 0, is_root))),
    decreases node.level,
{
    let p = partial_nodes(tree, node, ranges, 0, is_root);
    if ranges.len() > 0 {
        let info = node_info(tree, node, ranges, 0, is_root);
        let items = chunk_items(tree, info);
        lemma_contains_bounds(tree, node);
        lemma_node_bounds(node);
        lemma_tree_bounds(tree);
        lemma_block_byte_diff(tree, node.start_spec(), node.mid_spec());
        lemma_block_byte_diff(tree, node.mid_spec(), node.end_spec());
        if node.level == 0 {
            vstd::arithmetic::power2::lemma2_to64();
            let bb = tree.block_bytes() as int;
            assert(1 * bb == bb) by (nonlinear_arith);
            assert forall|i: int| 0 <= i < items.len() implies block_sized(
                tree,
                #[trigger] items[i],
            ) by {}
            assert(p == seq![info]);
            lemma_infos_chunks_one(tree, info);
        } else {
            assert forall|i: int| 0 <= i < items.len() implies block_sized(
                tree,
                #[trigger] items[i],
            ) by {}
            lemma_children_contained(tree, node);
            let lc = node.left_child_spec();
            let rd = node.right_descendant_spec(tree.filled_size_spec())->0;
            let pl = partial_nodes(tree, lc, info.l_ranges, 0, false);
            let pr = partial_nodes(tree, rd, info.r_ranges, 0, false);
            assert(p == seq![info] + pl + pr);
            lemma_infos_chunks_concat(tree, seq![info] + pl, pr);
            lemma_infos_chunks_concat(tree, seq![info], pl);
            lemma_infos_chunks_one(tree, info);
            lemma_partial_block_sized(tree, lc, info.l_ranges, false);
            lemma_partial_block_sized(tree, rd, info.r_ranges, false);
        }
    }
}

/// Two outboards that hold the same hash pairs for the nodes whose pair an
/// outboard keeps give the same bytes on the wire for directives for the
/// tree, and what the directives ask for can be read from both or from
/// none.
pub proof fn lemma_wire_agrees<R>(
    tree: BaoTree,
    pairs1: HashPairs,
    pairs2: HashPairs,
    blob: Seq<u8>,
    cs: Seq<BaoChunk<R>>,
)
    requires
        all_fit(tree, cs),
        forall|n: TreeNode|
            tree.is_persisted_spec(n) ==> (#[trigger] pairs1.contains_key(n)
                == pairs2.contains_key(n)) && (pairs1.contains_key(n) ==> pairs1[n] == pairs2[n]),
    ensures
        readable_wire(pairs1, blob, cs) == readable_wire(pairs2, blob, cs),
        all_readable(pairs1, blob.len(), cs) == all_readable(pairs2, blob.len(), cs),
    decreases cs.len(),
{
    if cs.len() > 0 {
        assert(chunk_fits(tree, cs[0]));
        assert forall|i: int| 0 <= i < cs.skip(1).len() implies chunk_fits(
            tree,
            #[trigger] cs.skip(1)[i],
        ) by {
            assert(cs.skip(1)[i] == cs[i + 1]);
        }
        lemma_wire_agrees(tree, pairs1, pairs2, blob, cs.skip(1));
        match cs[0] {
            BaoChunk::Parent { node, .. } => {
                assert(pairs1.contains_key(node) == pairs2.contains_key(node));
            },
            _ => {},
        }
    }
}

/// Determinism: the bytes of the slice for a query are the same whatever
/// outboard the hash pairs come from, if each of the outboards holds for
/// every node the hashes of its two children over the blob: an outboard in
/// pre-order and one in post-order that were built from one blob give the
/// same slice.
pub proof fn lemma_encode_deterministic(
    tree: BaoTree,
    blob: Seq<u8>,
    pairs1: HashPairs,
    pairs2: HashPairs,
    ranges: Seq<u64>,
)
    requires
        tree.wf(),
        vouches(tree, blob, pairs1),
        vouches(tree, blob, pairs2),
    ensures
        readable_wire(pairs1, blob, pre_order_chunks(tree, ranges, 0)) == readable_wire(
            pairs2,
            blob,
            pre_order_chunks(tree, ranges, 0),
        ),
        all_readable(pairs1, blob.len(), pre_order_chunks(tree, ranges, 0)) == all_readable(
            pairs2,
            blob.len(),
            pre_order_chunks(tree, ranges, 0),
        ),
{
    lemma_tree_bounds(tree);
    lemma_partial_all_fit(tree, tree.root_spec(), ranges, tree.is_root);
    assert forall|n: TreeNode| tree.is_persisted_spec(n) implies (#[trigger] pairs1.contains_key(n)
        == pairs2.contains_key(n)) && (pairs1.contains_key(n) ==> pairs1[n] == pairs2[n]) by {
        assert(pairs1.contains_key(n) && pairs2.contains_key(n));
    }
    lemma_wire_agrees(tree, pairs1, pairs2, blob, pre_order_chunks(tree, ranges, 0));
}


/// The root of a tree stands for the whole blob: the bytes under it are the
/// bytes of the blob.
pub proof fn lemma_root_byte_range(tree: BaoTree)
    requires
        tree.wf(),
    ensures
        tree.block_byte_spec(tree.root_spec().start_spec()) == tree.start_chunk.0 * 1024,
        tree.block_byte_spec(tree.root_spec().end_spec()) == tree.start_chunk.0 * 1024
            + tree.size.0,
{
    lemma_tree_bounds(tree);
    lemma_root_covers(tree);
    lemma_block_byte(tree, tree.root_spec().end_spec());
    assert(0 * tree.block_bytes() == 0);
}

/// An outboard keeps one hash pair less than the blob has blocks, in
/// pre-order as in post-order: its size in bytes is 8 and 64 for each of
/// them.
pub proof fn lemma_outboard_pairs(tree: BaoTree)
    requires
        tree.wf(),
    ensures
        tree.pre_order_persisted().len() == tree.blocks_spec() - 1,
        tree.post_order_persisted().len() == tree.blocks_spec() - 1,
{
    lemma_tree_bounds(tree);
    lemma_root_covers(tree);
    crate::offsets::lemma_persisted_count(tree, tree.root_spec());
}

/// The children of a node of a tree divide the bytes under it: the left
/// child has the bytes up to the middle of the node, and the right child
/// within the tree all bytes of the blob from there on that are under the
/// node.
pub proof fn lemma_children_byte_ranges(tree: BaoTree, node: TreeNode)
    requires
        tree.wf(),
        tree.contains(node),
        node.level > 0,
    ensures
        ({
            let left = node.left_child_spec();
            let right = node.right_descendant_spec(tree.filled_size_spec())->0;
            &&& tree.contains(left) && tree.contains(right)
            &&& tree.block_byte_spec(left.start_spec()) == tree.block_byte_spec(node.start_spec())
            &&& tree.block_byte_spec(left.end_spec()) == tree.block_byte_spec(node.mid_spec())
            &&& tree.block_byte_spec(right.start_spec()) == tree.block_byte_spec(node.mid_spec())
            &&& tree.block_byte_spec(right.end_spec()) == tree.block_byte_spec(node.end_spec())
            &&& tree.block_byte_spec(node.start_spec()) < tree.block_byte_spec(node.mid_spec())
                < tree.block_byte_spec(node.end_spec())
        }),
{
    lemma_children_contained(tree, node);
    lemma_children_wf(node);
    lemma_contains_bounds(tree, node);
    lemma_tree_bounds(tree);
    lemma_node_bounds(node);
    let right = node.right_descendant_spec(tree.filled_size_spec())->0;
    lemma_block_byte(tree, right.end_spec());
    lemma_block_byte(tree, node.end_spec());
    lemma_block_byte(tree, node.mid_spec());
    lemma_block_byte(tree, node.start_spec());
    let bb = tree.block_bytes() as int;
    let a = node.start_spec() as int;
    let m = node.mid_spec() as int;
    let e = node.end_spec() as int;
    assert(a * bb < m * bb && m * bb < e * bb) by (nonlinear_arith)
        requires
            0 <= a < m < e,
            bb > 0,
    ;
    assert(tree.size.0 > 0) by {
        if tree.size.0 == 0 {
            assert(tree.blocks_spec() == 1);
        }
    }
    lemma_node_bounds(right);
}

} // verus!
