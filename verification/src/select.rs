//! A decoder of responses reads what an encoder that validates writes.
//!
//! Where a query has only a part of a block, an encoder that validates
//! writes the selection within the block, and a decoder of responses goes
//! through the directives of the tree of chunks over the block. This module
//! shows that, for every query, the verifier accepts on these directives
//! the bytes that the encoder writes from a blob and an outboard that holds
//! for every node the hashes of its two children.
use vstd::prelude::*;
use crate::accept::{
    admits, lemma_admits_leaf, lemma_admits_parent, lemma_pieces_true, lemma_validated_done,
    pieces_true, steps_true,
};
use crate::codec::{
    chunk_wire, lemma_infos_chunks_concat, lemma_infos_chunks_one, node_hash, outboard_pairs,
    pair_of, readable, root_hash, validated_run, validated_wire, verify_run, verify_step, wire,
    HashPairs, RunEnd, StepView,
};
use crate::coverage::{
    block_limit, bounded, lemma_block_limit, lemma_block_limit_monotone, lemma_right_part,
};
use crate::hash::{lemma_subtree_hash_len, subtree_hash};
use crate::io::{decoder_start, leaves_of, lemma_leaves_of_concat, lemma_leaves_of_push};
use crate::io::sync::{chunks_up_to, decode_run, step_item, ItemView};
use crate::iter::{
    block_tree, chunk_items, chunks_responses, infos_chunks, inner_response, lemma_block_byte_diff,
    lemma_half_leaf, lemma_node_chunks, node_info, partial_nodes, pre_order_chunks, response_items,
    verifier_chunk, verifier_chunks, BaoChunk, ResponseChunk,
};
use crate::laws::{
    lemma_node_bytes, lemma_node_hash_len, lemma_wire_concat, lemma_wire_one, vouches,
};
use crate::ranges::{
    is_all_spec, lemma_count_below, lemma_split, split_left, split_right, strictly_increasing,
    truncate_spec,
};
use crate::rec::selected_wire;
use crate::response::{chunks_of, items_chunks, lemma_chunk_limit, lemma_decoded_chunks};
use crate::shape::{
    chunk_limit, lemma_left_bounded, lemma_node_hash_is_subtree_hash, lemma_selection_is_traversal,
};
use crate::tree::{
    lemma_block_chunk_bound, lemma_children_contained, lemma_children_wf, lemma_contains_bounds,
    lemma_node_bounds, lemma_root_covers, lemma_tree_bounds, BaoTree, BlockSize, ByteNum, ChunkNum,
    TreeNode,
};

verus! {

/// True if two directives ask the verifier for the same: both for a hash
/// pair with the same flags, or both for the same data.
pub open spec fn alike(a: BaoChunk<Seq<u64>>, b: BaoChunk<Seq<u64>>) -> bool {
    match a {
        BaoChunk::Parent { is_root, left, right, .. } => b is Parent && b->Parent_is_root == is_root
            && b->Parent_left == left && b->Parent_right == right,
        BaoChunk::Leaf { start_chunk, size, is_root, .. } => b is Leaf && b->Leaf_start_chunk
            == start_chunk && b->Leaf_size == size && b->Leaf_is_root == is_root,
    }
}

/// The verifier admits directives that ask for the same as directives
/// that it admits.
pub proof fn lemma_alike_admits(
    a: Seq<BaoChunk<Seq<u64>>>,
    b: Seq<BaoChunk<Seq<u64>>>,
    top: Seq<Seq<u8>>,
    input: Seq<u8>,
    blob: Seq<u8>,
)
    requires
        a.len() == b.len(),
        forall|i: int| 0 <= i < a.len() ==> alike(#[trigger] a[i], b[i]),
        verify_run(a, top, input).failure is None,
        steps_true(verify_run(a, top, input).accepted, blob),
    ensures
        verify_run(b, top, input).failure is None,
        verify_run(b, top, input).stack == verify_run(a, top, input).stack,
        verify_run(b, top, input).input == verify_run(a, top, input).input,
        steps_true(verify_run(b, top, input).accepted, blob),
    decreases a.len(),
{
    if a.len() > 0 {
        assert(alike(a[0], b[0]));
        assert forall|i: int| 0 <= i < a.skip(1).len() implies alike(
            #[trigger] a.skip(1)[i],
            b.skip(1)[i],
        ) by {
            assert(a.skip(1)[i] == a[i + 1]);
            assert(alike(a[i + 1], b[i + 1]));
        }
        match verify_step(a[0], top, input) {
            Ok((item, st, inp)) => {
                let ra = verify_run(a.skip(1), st, inp);
                let ea = verify_run(a, top, input);
                assert(ea.accepted == seq![item] + ra.accepted);
                assert forall|i: int| 0 <= i < ra.accepted.len() implies match #[trigger] ra.accepted[i] {
                    StepView::Leaf { start_chunk, data } => start_chunk.0 * 1024 + data.len()
                        <= blob.len() && data == blob.subrange(
                        start_chunk.0 * 1024,
                        start_chunk.0 * 1024 + data.len(),
                    ),
                    StepView::Parent { .. } => true,
                } by {
                    assert(ra.accepted[i] == ea.accepted[i + 1]);
                }
                lemma_alike_admits(a.skip(1), b.skip(1), st, inp, blob);
                let rb = verify_run(b.skip(1), st, inp);
                let eb = verify_run(b, top, input);
                let other = verify_step(b[0], top, input)->Ok_0.0;
                assert(eb.accepted == seq![other] + rb.accepted);
                assert(ea.accepted[0] == item);
                assert forall|i: int| 0 <= i < eb.accepted.len() implies match #[trigger] eb.accepted[i] {
                    StepView::Leaf { start_chunk, data } => start_chunk.0 * 1024 + data.len()
                        <= blob.len() && data == blob.subrange(
                        start_chunk.0 * 1024,
                        start_chunk.0 * 1024 + data.len(),
                    ),
                    StepView::Parent { .. } => true,
                } by {
                    if i > 0 {
                        assert(eb.accepted[i] == rb.accepted[i - 1]);
                    }
                }
            },
            Err(_) => {},
        }
    }
}

/// Round trip within a block for a leaf of the tree of chunks over the
/// block: the verifier, given the hash of the leaf, admits the bytes on the
/// wire of the directives for the chunks of the leaf that a query has.
#[verifier::rlimit(100)]
pub proof fn lemma_chunk_admits_leaf(
    tree: BaoTree,
    blob: Seq<u8>,
    node: TreeNode,
    r: Seq<u64>,
    is_root: bool,
    stack: Seq<Seq<u8>>,
    tail: Seq<u8>,
)
    requires
        tree.wf(),
        tree.block_size.0 == 0,
        tree.size.0 <= usize::MAX,
        tree.contains(node),
        tree.start_chunk.0 * 1024 + tree.size.0 <= blob.len(),
        strictly_increasing(r),
        bounded(r, chunk_limit(tree, node.end_spec())),
        r.len() > 0,
        node.level == 0,
    ensures
        ({
            let cs = infos_chunks(tree, partial_nodes(tree, node, r, u8::MAX, is_root));
            admits(
                cs,
                node_hash(tree, blob, node, is_root),
                stack,
                wire(outboard_pairs(tree, blob), blob, cs) + tail,
                tail,
                blob,
            )
        }),
{
    let pairs = outboard_pairs(tree, blob);
    let start = node.start_spec();
    let mid = node.mid_spec();
    let end = node.end_spec();
    let sb = tree.block_byte_spec(start) as int;
    let mb = tree.block_byte_spec(mid) as int;
    let eb = tree.block_byte_spec(end) as int;
    let first = tree.block_chunk_spec(start) as u64;
    let second = tree.block_chunk_spec(mid) as u64;
    let u = chunk_limit(tree, end);
    let p = partial_nodes(tree, node, r, u8::MAX, is_root);
    let cs = infos_chunks(tree, p);
    let info = node_info(tree, node, r, u8::MAX, is_root);
    let items = chunk_items(tree, info);
    let ql = split_left(r, second);
    let qr = split_right(r, second);
    let none = Seq::<BaoChunk<Seq<u64>>>::empty();
    let nothing = Seq::<u8>::empty();
    lemma_node_bounds(node);
    lemma_contains_bounds(tree, node);
    lemma_tree_bounds(tree);
    lemma_node_chunks(tree, node);
    lemma_node_bytes(tree, node);
    lemma_chunk_limit(tree, start);
    lemma_chunk_limit(tree, mid);
    lemma_chunk_limit(tree, end);
    lemma_block_chunk_bound(tree, start);
    lemma_block_chunk_bound(tree, mid);
    lemma_block_byte_diff(tree, start, mid);
    lemma_block_byte_diff(tree, mid, end);
    lemma_block_byte_diff(tree, start, end);
    lemma_split(r, second);
    lemma_count_below(r, second as int);
    lemma_left_bounded(r, second, u);
    lemma_right_part(r, second, u);
    assert(first == tree.start_chunk.0 + start) by {
        assert(start * 1 == start) by (nonlinear_arith);
    }
    assert(second == tree.start_chunk.0 + mid) by {
        assert(mid * 1 == mid) by (nonlinear_arith);
    }
    assert(info.l_ranges == ql && info.r_ranges == qr);
    assert(p == seq![info]);
    lemma_infos_chunks_one(tree, info);
    lemma_half_leaf(tree, node);
    vstd::arithmetic::power2::lemma2_to64();
    assert(mid == start + 1 && end == mid + 1);
    assert(mb - sb <= 1024 && eb - mb <= 1024);
    let ldata = blob.subrange(sb, mb);
    if mb == eb {
        assert(u <= second);
        assert(r[0] < second);
        assert(ql.len() > 0);
        let leaf = BaoChunk::Leaf {
            start_chunk: ChunkNum(first),
            is_root: info.is_root && info.is_half_leaf,
            size: (mb - sb) as usize,
            ranges: ql,
        };
        assert(items =~= seq![leaf]);
        lemma_wire_one(pairs, blob, leaf);
        lemma_admits_leaf(leaf, stack, tail, blob);
    } else {
        let rdata = blob.subrange(mb, eb);
        assert(tree.is_persisted_spec(node));
        assert(mb == 1024 * second);
        let parent = BaoChunk::Parent {
            node,
            is_root: info.is_root,
            left: ql.len() > 0,
            right: qr.len() > 0,
            ranges: r,
        };
        let l = BaoChunk::Leaf {
            start_chunk: ChunkNum(first),
            is_root: false,
            size: (mb - sb) as usize,
            ranges: ql,
        };
        let rt = BaoChunk::Leaf {
            start_chunk: ChunkNum(second),
            is_root: false,
            size: (eb - mb) as usize,
            ranges: qr,
        };
        let cl = if ql.len() > 0 {
            seq![l]
        } else {
            none
        };
        let cr = if qr.len() > 0 {
            seq![rt]
        } else {
            none
        };
        let wl = if ql.len() > 0 {
            ldata
        } else {
            nothing
        };
        let wr = if qr.len() > 0 {
            rdata
        } else {
            nothing
        };
        assert(items =~= seq![parent] + (cl + cr));
        assert(pairs.contains_key(node));
        let hl = subtree_hash(first, ldata, false);
        let hr = subtree_hash(second, rdata, false);
        assert(pairs[node] == (hl, hr));
        lemma_subtree_hash_len(first, ldata, false);
        lemma_subtree_hash_len(second, rdata, false);
        lemma_wire_concat(pairs, blob, seq![parent], cl + cr);
        lemma_wire_concat(pairs, blob, cl, cr);
        lemma_wire_one(pairs, blob, parent);
        if ql.len() > 0 {
            lemma_wire_one(pairs, blob, l);
            lemma_admits_leaf(
                l,
                if qr.len() > 0 {
                    stack.push(hr)
                } else {
                    stack
                },
                wr + tail,
                blob,
            );
        }
        if qr.len() > 0 {
            lemma_wire_one(pairs, blob, rt);
            lemma_admits_leaf(rt, stack, tail, blob);
        }
        assert(wire(pairs, blob, cl) == wl);
        assert(wire(pairs, blob, cr) == wr);
        assert(wire(pairs, blob, items) + tail =~= hl + hr + (wl + (wr + tail)));
        lemma_admits_parent(parent, cl, cr, hl, hr, wl, wr, stack, tail, blob);
    }
}

/// Round trip within a block, below a node of the tree of chunks over the
/// block: the verifier, given the hash of the node, admits the bytes on the
/// wire of the directives for the chunks under the node that a query has,
/// with the hash pairs of the tree of chunks.
#[verifier::rlimit(100)]
pub proof fn lemma_chunk_admits(
    tree: BaoTree,
    blob: Seq<u8>,
    node: TreeNode,
    r: Seq<u64>,
    is_root: bool,
    stack: Seq<Seq<u8>>,
    tail: Seq<u8>,
)
    requires
        tree.wf(),
        tree.block_size.0 == 0,
        tree.size.0 <= usize::MAX,
        tree.contains(node),
        tree.start_chunk.0 * 1024 + tree.size.0 <= blob.len(),
        strictly_increasing(r),
        bounded(r, chunk_limit(tree, node.end_spec())),
        r.len() > 0,
    ensures
        ({
            let cs = infos_chunks(tree, partial_nodes(tree, node, r, u8::MAX, is_root));
            admits(
                cs,
                node_hash(tree, blob, node, is_root),
                stack,
                wire(outboard_pairs(tree, blob), blob, cs) + tail,
                tail,
                blob,
            )
        }),
    decreases node.level,
{
    let pairs = outboard_pairs(tree, blob);
    let start = node.start_spec();
    let mid = node.mid_spec();
    let end = node.end_spec();
    let sb = tree.block_byte_spec(start) as int;
    let mb = tree.block_byte_spec(mid) as int;
    let eb = tree.block_byte_spec(end) as int;
    let first = tree.block_chunk_spec(start) as u64;
    let second = tree.block_chunk_spec(mid) as u64;
    let u = chunk_limit(tree, end);
    let p = partial_nodes(tree, node, r, u8::MAX, is_root);
    let cs = infos_chunks(tree, p);
    let info = node_info(tree, node, r, u8::MAX, is_root);
    let items = chunk_items(tree, info);
    let ql = split_left(r, second);
    let qr = split_right(r, second);
    let none = Seq::<BaoChunk<Seq<u64>>>::empty();
    let nothing = Seq::<u8>::empty();
    lemma_node_bounds(node);
    lemma_contains_bounds(tree, node);
    lemma_tree_bounds(tree);
    lemma_node_chunks(tree, node);
    lemma_node_bytes(tree, node);
    lemma_chunk_limit(tree, start);
    lemma_chunk_limit(tree, mid);
    lemma_chunk_limit(tree, end);
    lemma_block_chunk_bound(tree, start);
    lemma_block_chunk_bound(tree, mid);
    lemma_block_byte_diff(tree, start, mid);
    lemma_block_byte_diff(tree, mid, end);
    lemma_block_byte_diff(tree, start, end);
    lemma_split(r, second);
    lemma_count_below(r, second as int);
    lemma_left_bounded(r, second, u);
    lemma_right_part(r, second, u);
    assert(first == tree.start_chunk.0 + start) by {
        assert(start * 1 == start) by (nonlinear_arith);
    }
    assert(second == tree.start_chunk.0 + mid) by {
        assert(mid * 1 == mid) by (nonlinear_arith);
    }
    assert(info.l_ranges == ql && info.r_ranges == qr);
    if node.level == 0 {
        lemma_chunk_admits_leaf(tree, blob, node, r, is_root, stack, tail);
    } else {
        assert(tree.size.0 > 0);
        if info.full {
            assert(info.query_leaf);
            assert(p == seq![info]);
            lemma_infos_chunks_one(tree, info);
            let whole = BaoChunk::Leaf {
                start_chunk: ChunkNum(first),
                is_root: info.is_root,
                size: (eb - sb) as usize,
                ranges: r,
            };
            assert(items =~= seq![whole]);
            lemma_wire_one(pairs, blob, whole);
            lemma_node_hash_is_subtree_hash(tree, blob, node, is_root);
            lemma_admits_leaf(whole, stack, tail, blob);
        } else {
            lemma_children_contained(tree, node);
            lemma_children_wf(node);
            let lc = node.left_child_spec();
            let rd = node.right_descendant_spec(tree.filled_size_spec())->0;
            lemma_node_bounds(lc);
            lemma_node_bounds(rd);
            lemma_chunk_limit(tree, rd.end_spec());
            assert(lc.end_spec() == mid);
            assert(chunk_limit(tree, rd.end_spec()) == u);
            assert(chunk_limit(tree, mid) == second);
            let pl = partial_nodes(tree, lc, ql, u8::MAX, false);
            let pr = partial_nodes(tree, rd, qr, u8::MAX, false);
            assert(!info.query_leaf);
            assert(p == seq![info] + pl + pr);
            lemma_infos_chunks_concat(tree, seq![info] + pl, pr);
            lemma_infos_chunks_concat(tree, seq![info], pl);
            lemma_infos_chunks_one(tree, info);
            let cl = infos_chunks(tree, pl);
            let cr = infos_chunks(tree, pr);
            let parent = BaoChunk::Parent {
                node,
                is_root: info.is_root,
                left: ql.len() > 0,
                right: qr.len() > 0,
                ranges: r,
            };
            assert(items =~= seq![parent]);
            assert(cs =~= seq![parent] + (cl + cr));
            assert(pairs.contains_key(node));
            let hl = node_hash(tree, blob, lc, false);
            let hr = node_hash(tree, blob, rd, false);
            assert(pair_of(tree, blob, node) == (hl, hr));
            lemma_node_hash_len(tree, blob, lc, false);
            lemma_node_hash_len(tree, blob, rd, false);
            let wl = wire(pairs, blob, cl);
            let wr = wire(pairs, blob, cr);
            lemma_wire_concat(pairs, blob, seq![parent], cl + cr);
            lemma_wire_concat(pairs, blob, cl, cr);
            lemma_wire_one(pairs, blob, parent);
            if ql.len() > 0 {
                lemma_chunk_admits(
                    tree,
                    blob,
                    lc,
                    ql,
                    false,
                    if qr.len() > 0 {
                        stack.push(hr)
                    } else {
                        stack
                    },
                    wr + tail,
                );
            } else {
                assert(cl =~= none);
            }
            if qr.len() > 0 {
                lemma_chunk_admits(tree, blob, rd, qr, false, stack, tail);
            } else {
                assert(cr =~= none);
            }
            assert(wire(pairs, blob, cs) + tail =~= hl + hr + (wl + (wr + tail)));
            lemma_admits_parent(parent, cl, cr, hl, hr, wl, wr, stack, tail, blob);
        }
    }
}

/// Round trip for a leaf of the traversal of the tree of blocks: the
/// verifier, given the hash of the data of the leaf, admits on the
/// directives of the response for the leaf what an encoder that validates
/// writes for it: the data, or the selection within it.
#[verifier::rlimit(60)]
pub proof fn lemma_leaf_admits(
    tree: BaoTree,
    pairs: HashPairs,
    blob: Seq<u8>,
    leaf: BaoChunk<Seq<u64>>,
    stack: Seq<Seq<u8>>,
    tail: Seq<u8>,
)
    requires
        tree.wf(),
        leaf is Leaf,
        (leaf->Leaf_start_chunk).0 * 1024 + leaf->Leaf_size <= blob.len(),
        blob.len() <= u64::MAX,
        (leaf->Leaf_is_root) ==> (leaf->Leaf_start_chunk).0 == 0,
        (leaf->Leaf_ranges).len() > 0,
        strictly_increasing(leaf->Leaf_ranges),
        bounded(
            leaf->Leaf_ranges,
            (leaf->Leaf_start_chunk).0 + chunks_up_to(leaf->Leaf_size as nat),
        ),
        tree.block_size.0 == 0 ==> leaf->Leaf_size <= 1024,
    ensures
        ({
            let s = (leaf->Leaf_start_chunk).0 * 1024;
            let data = blob.subrange(s, s + leaf->Leaf_size);
            admits(
                verifier_chunks(response_items(tree, leaf)),
                subtree_hash((leaf->Leaf_start_chunk).0, data, leaf->Leaf_is_root),
                stack,
                validated_wire(pairs, blob, leaf, true) + tail,
                tail,
                blob,
            )
        }),
{
    let start_chunk = leaf->Leaf_start_chunk;
    let size = leaf->Leaf_size;
    let is_root = leaf->Leaf_is_root;
    let ranges = leaf->Leaf_ranges;
    let s = start_chunk.0 * 1024;
    let data = blob.subrange(s, s + size);
    let h = subtree_hash(start_chunk.0, data, is_root);
    let head = verifier_chunks(response_items(tree, leaf));
    assert(chunk_wire(pairs, blob, leaf) == data);
    if tree.block_size.0 == 0 || is_all_spec(ranges) {
        let plain = BaoChunk::Leaf { start_chunk, size, is_root, ranges: Seq::<u64>::empty() };
        assert(head =~= seq![plain]);
        lemma_admits_leaf(plain, stack, tail, blob);
        if !is_all_spec(ranges) {
            // one chunk of data, of which the query has a part: the data itself
            assert(selected_wire(start_chunk.0, data, ranges, true) == data);
        }
    } else {
        let little = block_tree(start_chunk, size, is_root);
        assert(little.wf());
        lemma_tree_bounds(little);
        lemma_root_covers(little);
        let root = little.root_spec();
        lemma_node_bounds(root);
        lemma_chunk_limit(little, root.start_spec());
        lemma_chunk_limit(little, root.end_spec());
        crate::tree::lemma_block_byte(little, root.end_spec());
        assert(0 * little.block_bytes() == 0);
        assert(chunk_limit(little, root.end_spec()) == start_chunk.0 + chunks_up_to(size as nat));
        let inner = pre_order_chunks(little, ranges, u8::MAX);
        lemma_chunk_admits(little, blob, root, ranges, is_root, stack, tail);
        lemma_node_hash_is_subtree_hash(little, blob, root, is_root);
        assert(little.block_byte_spec(root.start_spec()) == s);
        assert(little.block_byte_spec(root.end_spec()) == s + size);
        assert(little.block_chunk_spec(root.start_spec()) == start_chunk.0);
        lemma_selection_is_traversal(start_chunk, size, is_root, blob, ranges);
        let bytes = selected_wire(start_chunk.0, data, ranges, true);
        assert(admits(inner, h, stack, bytes + tail, tail, blob));
        let f = |c: BaoChunk<Seq<u64>>| inner_response(c);
        assert(head =~= verifier_chunks(inner.map_values(f)));
        assert forall|i: int| 0 <= i < inner.len() implies alike(#[trigger] inner[i], head[i]) by {
            assert(head[i] == verifier_chunk(inner_response(inner[i])));
        }
        lemma_alike_admits(inner, head, stack.push(h), bytes + tail, blob);
    }
}

/// What an encoder that validates writes for the directives `cs`: for each
/// the hash pair, the data or the selection within the data.
pub open spec fn validated_bytes(pairs: HashPairs, blob: Seq<u8>, cs: Seq<BaoChunk<Seq<u64>>>) -> Seq<
    u8,
>
    decreases cs.len(),
{
    if cs.len() == 0 {
        Seq::empty()
    } else {
        validated_wire(pairs, blob, cs[0], true) + validated_bytes(pairs, blob, cs.skip(1))
    }
}

/// What an encoder that validates writes for two sequences of directives,
/// one after the other.
pub proof fn lemma_validated_bytes_concat(
    pairs: HashPairs,
    blob: Seq<u8>,
    a: Seq<BaoChunk<Seq<u64>>>,
    b: Seq<BaoChunk<Seq<u64>>>,
)
    ensures
        validated_bytes(pairs, blob, a + b) == validated_bytes(pairs, blob, a) + validated_bytes(
            pairs,
            blob,
            b,
        ),
    decreases a.len(),
{
    if a.len() == 0 {
        assert(a + b =~= b);
        assert(validated_bytes(pairs, blob, a) + validated_bytes(pairs, blob, b) =~= validated_bytes(
            pairs,
            blob,
            b,
        ));
    } else {
        lemma_validated_bytes_concat(pairs, blob, a.skip(1), b);
        assert((a + b).skip(1) =~= a.skip(1) + b);
        assert((a + b)[0] == a[0]);
        assert(validated_wire(pairs, blob, a[0], true) + (validated_bytes(pairs, blob, a.skip(1))
            + validated_bytes(pairs, blob, b)) =~= validated_wire(pairs, blob, a[0], true)
            + validated_bytes(pairs, blob, a.skip(1)) + validated_bytes(pairs, blob, b));
    }
}

/// What an encoder that validates writes for one directive.
pub proof fn lemma_validated_bytes_one(pairs: HashPairs, blob: Seq<u8>, c: BaoChunk<Seq<u64>>)
    ensures
        validated_bytes(pairs, blob, seq![c]) == validated_wire(pairs, blob, c, true),
{
    let s = seq![c];
    assert(s.skip(1) =~= Seq::<BaoChunk<Seq<u64>>>::empty());
    assert(validated_bytes(pairs, blob, s.skip(1)) =~= Seq::<u8>::empty());
    assert(validated_wire(pairs, blob, c, true) + Seq::<u8>::empty() =~= validated_wire(
        pairs,
        blob,
        c,
        true,
    ));
}

/// The directives of a response for two sequences of directives of the
/// traversal of the tree of blocks, one after the other.
pub proof fn lemma_responses_concat(
    tree: BaoTree,
    a: Seq<BaoChunk<Seq<u64>>>,
    b: Seq<BaoChunk<Seq<u64>>>,
)
    ensures
        chunks_responses(tree, a + b) == chunks_responses(tree, a) + chunks_responses(tree, b),
    decreases a.len(),
{
    if a.len() == 0 {
        assert(a + b =~= b);
        assert(chunks_responses(tree, a) + chunks_responses(tree, b) =~= chunks_responses(tree, b));
    } else {
        lemma_responses_concat(tree, a.skip(1), b);
        assert((a + b).skip(1) =~= a.skip(1) + b);
        assert((a + b)[0] == a[0]);
        assert(response_items(tree, a[0]) + (chunks_responses(tree, a.skip(1)) + chunks_responses(
            tree,
            b,
        )) =~= response_items(tree, a[0]) + chunks_responses(tree, a.skip(1)) + chunks_responses(
            tree,
            b,
        ));
    }
}

/// The directives of a response for one directive of the traversal of the
/// tree of blocks.
pub proof fn lemma_responses_one(tree: BaoTree, c: BaoChunk<Seq<u64>>)
    ensures
        chunks_responses(tree, seq![c]) == response_items(tree, c),
{
    let s = seq![c];
    assert(s.skip(1) =~= Seq::<BaoChunk<Seq<u64>>>::empty());
    assert(chunks_responses(tree, s.skip(1)) =~= Seq::<ResponseChunk>::empty());
    assert(response_items(tree, c) + Seq::<ResponseChunk>::empty() =~= response_items(tree, c));
}

/// The directives for the verifier of the directives of a response for a
/// sequence of directives of the traversal of the tree of blocks.
pub open spec fn flat(tree: BaoTree, cs: Seq<BaoChunk<Seq<u64>>>) -> Seq<BaoChunk<Seq<u64>>> {
    verifier_chunks(chunks_responses(tree, cs))
}

/// The directives for the verifier for two sequences of directives, one
/// after the other.
pub proof fn lemma_flat_concat(tree: BaoTree, a: Seq<BaoChunk<Seq<u64>>>, b: Seq<BaoChunk<Seq<u64>>>)
    ensures
        flat(tree, a + b) == flat(tree, a) + flat(tree, b),
{
    lemma_responses_concat(tree, a, b);
    assert(verifier_chunks(chunks_responses(tree, a) + chunks_responses(tree, b)) =~= flat(tree, a)
        + flat(tree, b));
}

/// Round trip of a response for a leaf of the tree of blocks: the
/// verifier, given the hash of the leaf, admits on the directives of the
/// response what an encoder that validates writes for the blocks of the
/// leaf that a query reaches, where the right block of the leaf holds no data.
#[verifier::rlimit(80)]
pub proof fn lemma_response_admits_half(
    tree: BaoTree,
    blob: Seq<u8>,
    pairs: HashPairs,
    node: TreeNode,
    r: Seq<u64>,
    is_root: bool,
    stack: Seq<Seq<u8>>,
    tail: Seq<u8>,
)
    requires
        tree.wf(),
        tree.start_chunk.0 == 0,
        tree.contains(node),
        vouches(tree, blob, pairs),
        tree.size.0 == blob.len(),
        strictly_increasing(r),
        bounded(r, block_limit(tree, node.end_spec() as int)),
        r.len() > 0,
        is_root ==> node == tree.root_spec(),
        node.level == 0,
        tree.block_byte_spec(node.mid_spec()) == tree.block_byte_spec(node.end_spec()),
    ensures
        ({
            let cs = infos_chunks(tree, partial_nodes(tree, node, r, 0, is_root));
            admits(
                flat(tree, cs),
                node_hash(tree, blob, node, is_root),
                stack,
                validated_bytes(pairs, blob, cs) + tail,
                tail,
                blob,
            )
        }),
{
    let start = node.start_spec();
    let mid = node.mid_spec();
    let end = node.end_spec();
    let sb = tree.block_byte_spec(start) as int;
    let mb = tree.block_byte_spec(mid) as int;
    let eb = tree.block_byte_spec(end) as int;
    let first = tree.block_chunk_spec(start) as u64;
    let second = tree.block_chunk_spec(mid) as u64;
    let u = block_limit(tree, end as int);
    let p = partial_nodes(tree, node, r, 0, is_root);
    let cs = infos_chunks(tree, p);
    let info = node_info(tree, node, r, 0, is_root);
    let items = chunk_items(tree, info);
    let ql = split_left(r, second);
    let qr = split_right(r, second);
    let none = Seq::<BaoChunk<Seq<u64>>>::empty();
    let nothing = Seq::<u8>::empty();
    lemma_node_bounds(node);
    lemma_contains_bounds(tree, node);
    lemma_tree_bounds(tree);
    lemma_root_covers(tree);
    lemma_node_chunks(tree, node);
    lemma_node_bytes(tree, node);
    lemma_block_limit(tree, start as int);
    lemma_block_limit(tree, mid as int);
    lemma_block_limit(tree, end as int);
    lemma_block_limit_monotone(tree, mid as int, end as int);
    lemma_block_chunk_bound(tree, start);
    lemma_block_chunk_bound(tree, mid);
    lemma_block_byte_diff(tree, start, mid);
    lemma_block_byte_diff(tree, mid, end);
    lemma_split(r, second);
    lemma_count_below(r, second as int);
    lemma_left_bounded(r, second, u);
    lemma_right_part(r, second, u);
    assert(info.l_ranges == ql && info.r_ranges == qr);
    let parent = BaoChunk::Parent {
        node,
        is_root: info.is_root,
        left: ql.len() > 0,
        right: qr.len() > 0,
        ranges: r,
    };
    let seen = verifier_chunk(
        ResponseChunk::Parent {
            node: Some(node),
            is_root: info.is_root,
            left: ql.len() > 0,
            right: qr.len() > 0,
        },
    );
    lemma_responses_one(tree, parent);
    lemma_validated_bytes_one(pairs, blob, parent);
    assert(flat(tree, seq![parent]) =~= seq![seen]);
    assert(p == seq![info]);
    lemma_infos_chunks_one(tree, info);
    lemma_half_leaf(tree, node);
    vstd::arithmetic::power2::lemma2_to64();
    let bb = tree.block_bytes() as int;
    assert(1 * bb == bb) by (nonlinear_arith);
    assert(mb - sb <= bb && eb - mb <= bb);
    let ldata = blob.subrange(sb, mb);
    let l = BaoChunk::Leaf {
        start_chunk: ChunkNum(first),
        is_root: info.is_root && info.is_half_leaf,
        size: (mb - sb) as usize,
        ranges: ql,
    };
    assert(first + chunks_up_to((mb - sb) as nat) == block_limit(tree, mid as int));
    assert(block_limit(tree, mid as int) == tree.chunks_spec());
    assert(r[0] < second);
    assert(ql.len() > 0);
    assert(items =~= seq![l]);
    lemma_responses_one(tree, l);
    lemma_validated_bytes_one(pairs, blob, l);
    assert(info.is_root ==> first == 0);
    lemma_leaf_admits(tree, pairs, blob, l, stack, tail);
}

/// Round trip of a response for a leaf of the tree of blocks: the
/// verifier, given the hash of the leaf, admits on the directives of the
/// response what an encoder that validates writes for the blocks of the
/// leaf that a query reaches, where both blocks of the leaf hold data.
#[verifier::rlimit(80)]
pub proof fn lemma_response_admits_pair(
    tree: BaoTree,
    blob: Seq<u8>,
    pairs: HashPairs,
    node: TreeNode,
    r: Seq<u64>,
    is_root: bool,
    stack: Seq<Seq<u8>>,
    tail: Seq<u8>,
)
    requires
        tree.wf(),
        tree.start_chunk.0 == 0,
        tree.contains(node),
        vouches(tree, blob, pairs),
        tree.size.0 == blob.len(),
        strictly_increasing(r),
        bounded(r, block_limit(tree, node.end_spec() as int)),
        r.len() > 0,
        is_root ==> node == tree.root_spec(),
        node.level == 0,
        tree.block_byte_spec(node.mid_spec()) != tree.block_byte_spec(node.end_spec()),
    ensures
        ({
            let cs = infos_chunks(tree, partial_nodes(tree, node, r, 0, is_root));
            admits(
                flat(tree, cs),
                node_hash(tree, blob, node, is_root),
                stack,
                validated_bytes(pairs, blob, cs) + tail,
                tail,
                blob,
            )
        }),
{
    let start = node.start_spec();
    let mid = node.mid_spec();
    let end = node.end_spec();
    let sb = tree.block_byte_spec(start) as int;
    let mb = tree.block_byte_spec(mid) as int;
    let eb = tree.block_byte_spec(end) as int;
    let first = tree.block_chunk_spec(start) as u64;
    let second = tree.block_chunk_spec(mid) as u64;
    let u = block_limit(tree, end as int);
    let p = partial_nodes(tree, node, r, 0, is_root);
    let cs = infos_chunks(tree, p);
    let info = node_info(tree, node, r, 0, is_root);
    let items = chunk_items(tree, info);
    let ql = split_left(r, second);
    let qr = split_right(r, second);
    let none = Seq::<BaoChunk<Seq<u64>>>::empty();
    let nothing = Seq::<u8>::empty();
    lemma_node_bounds(node);
    lemma_contains_bounds(tree, node);
    lemma_tree_bounds(tree);
    lemma_root_covers(tree);
    lemma_node_chunks(tree, node);
    lemma_node_bytes(tree, node);
    lemma_block_limit(tree, start as int);
    lemma_block_limit(tree, mid as int);
    lemma_block_limit(tree, end as int);
    lemma_block_limit_monotone(tree, mid as int, end as int);
    lemma_block_chunk_bound(tree, start);
    lemma_block_chunk_bound(tree, mid);
    lemma_block_byte_diff(tree, start, mid);
    lemma_block_byte_diff(tree, mid, end);
    lemma_split(r, second);
    lemma_count_below(r, second as int);
    lemma_left_bounded(r, second, u);
    lemma_right_part(r, second, u);
    assert(info.l_ranges == ql && info.r_ranges == qr);
    let parent = BaoChunk::Parent {
        node,
        is_root: info.is_root,
        left: ql.len() > 0,
        right: qr.len() > 0,
        ranges: r,
    };
    let seen = verifier_chunk(
        ResponseChunk::Parent {
            node: Some(node),
            is_root: info.is_root,
            left: ql.len() > 0,
            right: qr.len() > 0,
        },
    );
    lemma_responses_one(tree, parent);
    lemma_validated_bytes_one(pairs, blob, parent);
    assert(flat(tree, seq![parent]) =~= seq![seen]);
    assert(p == seq![info]);
    lemma_infos_chunks_one(tree, info);
    lemma_half_leaf(tree, node);
    vstd::arithmetic::power2::lemma2_to64();
    let bb = tree.block_bytes() as int;
    assert(1 * bb == bb) by (nonlinear_arith);
    assert(mb - sb <= bb && eb - mb <= bb);
    let ldata = blob.subrange(sb, mb);
    let l = BaoChunk::Leaf {
        start_chunk: ChunkNum(first),
        is_root: info.is_root && info.is_half_leaf,
        size: (mb - sb) as usize,
        ranges: ql,
    };
    assert(first + chunks_up_to((mb - sb) as nat) == block_limit(tree, mid as int));
    let rdata = blob.subrange(mb, eb);
    assert(tree.is_persisted_spec(node));
    assert(mb == 1024 * second);
    assert(second + chunks_up_to((eb - mb) as nat) == u);
    let rt = BaoChunk::Leaf {
        start_chunk: ChunkNum(second),
        is_root: false,
        size: (eb - mb) as usize,
        ranges: qr,
    };
    let cl = if ql.len() > 0 {
        seq![l]
    } else {
        none
    };
    let cr = if qr.len() > 0 {
        seq![rt]
    } else {
        none
    };
    assert(items =~= seq![parent] + (cl + cr));
    assert(pairs.contains_key(node));
    let hl = subtree_hash(first, ldata, false);
    let hr = subtree_hash(second, rdata, false);
    assert(pairs[node] == (hl, hr));
    lemma_subtree_hash_len(first, ldata, false);
    lemma_subtree_hash_len(second, rdata, false);
    let wl = validated_bytes(pairs, blob, cl);
    let wr = validated_bytes(pairs, blob, cr);
    lemma_validated_bytes_concat(pairs, blob, seq![parent], cl + cr);
    lemma_validated_bytes_concat(pairs, blob, cl, cr);
    lemma_flat_concat(tree, seq![parent], cl + cr);
    lemma_flat_concat(tree, cl, cr);
    if ql.len() > 0 {
        lemma_responses_one(tree, l);
        lemma_validated_bytes_one(pairs, blob, l);
        lemma_leaf_admits(
            tree,
            pairs,
            blob,
            l,
            if qr.len() > 0 {
                stack.push(hr)
            } else {
                stack
            },
            wr + tail,
        );
    } else {
        assert(flat(tree, cl) =~= none);
    }
    if qr.len() > 0 {
        lemma_responses_one(tree, rt);
        lemma_validated_bytes_one(pairs, blob, rt);
        lemma_leaf_admits(tree, pairs, blob, rt, stack, tail);
    } else {
        assert(flat(tree, cr) =~= none);
    }
    assert(validated_bytes(pairs, blob, items) + tail =~= hl + hr + (wl + (wr + tail)));
    lemma_admits_parent(
        seen,
        flat(tree, cl),
        flat(tree, cr),
        hl,
        hr,
        wl,
        wr,
        stack,
        tail,
        blob,
    );
}

/// Round trip of a response for a leaf of the tree of blocks: the
/// verifier, given the hash of the leaf, admits on the directives of the
/// response what an encoder that validates writes for the blocks of the
/// leaf that a query reaches.
pub proof fn lemma_response_admits_leaf(
    tree: BaoTree,
    blob: Seq<u8>,
    pairs: HashPairs,
    node: TreeNode,
    r: Seq<u64>,
    is_root: bool,
    stack: Seq<Seq<u8>>,
    tail: Seq<u8>,
)
    requires
        tree.wf(),
        tree.start_chunk.0 == 0,
        tree.contains(node),
        vouches(tree, blob, pairs),
        tree.size.0 == blob.len(),
        strictly_increasing(r),
        bounded(r, block_limit(tree, node.end_spec() as int)),
        r.len() > 0,
        is_root ==> node == tree.root_spec(),
        node.level == 0,
    ensures
        ({
            let cs = infos_chunks(tree, partial_nodes(tree, node, r, 0, is_root));
            admits(
                flat(tree, cs),
                node_hash(tree, blob, node, is_root),
                stack,
                validated_bytes(pairs, blob, cs) + tail,
                tail,
                blob,
            )
        }),
{
    if tree.block_byte_spec(node.mid_spec()) == tree.block_byte_spec(node.end_spec()) {
        lemma_response_admits_half(tree, blob, pairs, node, r, is_root, stack, tail);
    } else {
        lemma_response_admits_pair(tree, blob, pairs, node, r, is_root, stack, tail);
    }
}

/// Round trip of a response below a node, for every query: where an
/// outboard holds for every node the hashes of its two children over a
/// blob, the verifier, given the hash of a node, admits on the directives
/// of the response what an encoder that validates writes for the part of
/// the tree under the node that a query reaches.
#[verifier::rlimit(80)]
pub proof fn lemma_response_admits(
    tree: BaoTree,
    blob: Seq<u8>,
    pairs: HashPairs,
    node: TreeNode,
    r: Seq<u64>,
    is_root: bool,
    stack: Seq<Seq<u8>>,
    tail: Seq<u8>,
)
    requires
        tree.wf(),
        tree.start_chunk.0 == 0,
        tree.contains(node),
        vouches(tree, blob, pairs),
        tree.size.0 == blob.len(),
        strictly_increasing(r),
        bounded(r, block_limit(tree, node.end_spec() as int)),
        r.len() > 0,
        is_root ==> node == tree.root_spec(),
    ensures
        ({
            let cs = infos_chunks(tree, partial_nodes(tree, node, r, 0, is_root));
            admits(
                flat(tree, cs),
                node_hash(tree, blob, node, is_root),
                stack,
                validated_bytes(pairs, blob, cs) + tail,
                tail,
                blob,
            )
        }),
    decreases node.level,
{
    let mid = node.mid_spec();
    let end = node.end_spec();
    let second = tree.block_chunk_spec(mid) as u64;
    let u = block_limit(tree, end as int);
    let p = partial_nodes(tree, node, r, 0, is_root);
    let cs = infos_chunks(tree, p);
    let info = node_info(tree, node, r, 0, is_root);
    let items = chunk_items(tree, info);
    let ql = split_left(r, second);
    let qr = split_right(r, second);
    let none = Seq::<BaoChunk<Seq<u64>>>::empty();
    if node.level == 0 {
        lemma_response_admits_leaf(tree, blob, pairs, node, r, is_root, stack, tail);
    } else {
        lemma_node_bounds(node);
        lemma_contains_bounds(tree, node);
        lemma_tree_bounds(tree);
        lemma_node_chunks(tree, node);
        lemma_block_limit(tree, mid as int);
        lemma_block_limit(tree, end as int);
        lemma_block_chunk_bound(tree, mid);
        lemma_split(r, second);
        lemma_left_bounded(r, second, u);
        lemma_right_part(r, second, u);
        assert(info.l_ranges == ql && info.r_ranges == qr);
        let parent = BaoChunk::Parent {
            node,
            is_root: info.is_root,
            left: ql.len() > 0,
            right: qr.len() > 0,
            ranges: r,
        };
        let seen = verifier_chunk(
            ResponseChunk::Parent {
                node: Some(node),
                is_root: info.is_root,
                left: ql.len() > 0,
                right: qr.len() > 0,
            },
        );
        lemma_responses_one(tree, parent);
        lemma_validated_bytes_one(pairs, blob, parent);
        assert(flat(tree, seq![parent]) =~= seq![seen]);
        lemma_children_contained(tree, node);
        lemma_children_wf(node);
        let lc = node.left_child_spec();
        let rd = node.right_descendant_spec(tree.filled_size_spec())->0;
        lemma_node_bounds(lc);
        lemma_node_bounds(rd);
        lemma_block_limit(tree, rd.end_spec() as int);
        assert(lc.end_spec() == mid);
        assert(block_limit(tree, rd.end_spec() as int) == u);
        assert(block_limit(tree, mid as int) == second);
        let pl = partial_nodes(tree, lc, ql, 0, false);
        let pr = partial_nodes(tree, rd, qr, 0, false);
        assert(p == seq![info] + pl + pr);
        lemma_infos_chunks_concat(tree, seq![info] + pl, pr);
        lemma_infos_chunks_concat(tree, seq![info], pl);
        lemma_infos_chunks_one(tree, info);
        let cl = infos_chunks(tree, pl);
        let cr = infos_chunks(tree, pr);
        assert(items =~= seq![parent]);
        assert(cs =~= seq![parent] + (cl + cr));
        assert(pairs.contains_key(node));
        let hl = node_hash(tree, blob, lc, false);
        let hr = node_hash(tree, blob, rd, false);
        assert(pair_of(tree, blob, node) == (hl, hr));
        lemma_node_hash_len(tree, blob, lc, false);
        lemma_node_hash_len(tree, blob, rd, false);
        let wl = validated_bytes(pairs, blob, cl);
        let wr = validated_bytes(pairs, blob, cr);
        lemma_validated_bytes_concat(pairs, blob, seq![parent], cl + cr);
        lemma_validated_bytes_concat(pairs, blob, cl, cr);
        lemma_flat_concat(tree, seq![parent], cl + cr);
        lemma_flat_concat(tree, cl, cr);
        if ql.len() > 0 {
            lemma_response_admits(
                tree,
                blob,
                pairs,
                lc,
                ql,
                false,
                if qr.len() > 0 {
                    stack.push(hr)
                } else {
                    stack
                },
                wr + tail,
            );
        } else {
            assert(cl =~= none);
            assert(flat(tree, cl) =~= none);
        }
        if qr.len() > 0 {
            lemma_response_admits(tree, blob, pairs, rd, qr, false, stack, tail);
        } else {
            assert(cr =~= none);
            assert(flat(tree, cr) =~= none);
        }
        assert(validated_bytes(pairs, blob, cs) + tail =~= hl + hr + (wl + (wr + tail)));
        lemma_admits_parent(seen, flat(tree, cl), flat(tree, cr), hl, hr, wl, wr, stack, tail, blob);
    }
}

/// An encoder that validates and reaches its end has written, for every
/// directive, the hash pair, the data or the selection within the data.
pub proof fn lemma_validated_output(
    cs: Seq<BaoChunk<Seq<u64>>>,
    stack: Seq<Seq<u8>>,
    pairs: HashPairs,
    blob: Seq<u8>,
)
    requires
        validated_run(cs, stack, pairs, blob, true).1 == RunEnd::Done,
    ensures
        validated_run(cs, stack, pairs, blob, true).0 == validated_bytes(pairs, blob, cs),
    decreases cs.len(),
{
    if cs.len() > 0 && readable(pairs, blob.len(), cs[0]) {
        match verify_step(cs[0], stack, chunk_wire(pairs, blob, cs[0])) {
            Ok((_, st, _)) => {
                lemma_validated_output(cs.skip(1), st, pairs, blob);
            },
            Err(_) => {},
        }
    }
}

/// Round trip of a response, for every query: for every blob, block size
/// and query, where an outboard holds for every node the hashes of its two
/// children over the blob, a decoder of responses that knows the root hash
/// of the blob reads the size of the blob followed by what an encoder that
/// validates writes for the directives to its end without a failure. The
/// data that it hands out is the data of the blob at its offset, and
/// together it is the data of exactly the chunks of the query that the blob
/// has.
pub proof fn lemma_response_round_trip(
    size: u64,
    block_size: BlockSize,
    blob: Seq<u8>,
    pairs: HashPairs,
    b: Seq<u64>,
)
    requires
        block_size.wf(),
        blob.len() == size,
        vouches(BaoTree::new_spec(ByteNum(size), block_size), blob, pairs),
        strictly_increasing(b),
    ensures
        ({
            let tree = BaoTree::new_spec(ByteNum(size), block_size);
            let cs = pre_order_chunks(tree, truncate_spec(b, tree.chunks_spec() as u64), 0);
            let encoded = vstd::bytes::spec_u64_to_le_bytes(size) + validated_bytes(pairs, blob, cs);
            let run = decode_run(decoder_start(root_hash(tree, blob), block_size, encoded, b));
            &&& validated_run(cs, seq![root_hash(tree, blob)], pairs, blob, true) == (
                validated_bytes(pairs, blob, cs),
                RunEnd::Done,
            )
            &&& run.1 is None
            &&& pieces_true(leaves_of(run.0), blob)
            &&& items_chunks(run.0) == chunks_of(b, 0, tree.chunks_spec() as int)
        }),
{
    let tree = BaoTree::new_spec(ByteNum(size), block_size);
    let root = tree.root_spec();
    let chunks = tree.chunks_spec() as u64;
    let t = truncate_spec(b, chunks);
    let cs = pre_order_chunks(tree, t, 0);
    let w = validated_bytes(pairs, blob, cs);
    let header = vstd::bytes::spec_u64_to_le_bytes(size);
    let encoded = header + w;
    let h = root_hash(tree, blob);
    let start = decoder_start(h, block_size, encoded, b);
    let f = |s: StepView| step_item(s);
    let none = Seq::<Seq<u8>>::empty();
    let nothing = Seq::<u8>::empty();
    lemma_tree_bounds(tree);
    lemma_root_covers(tree);
    lemma_node_bounds(root);
    vstd::bytes::lemma_auto_spec_u64_to_from_le_bytes();
    assert(encoded.take(8) =~= header);
    assert(encoded.skip(8) =~= w);
    lemma_validated_done(tree, blob, pairs, b, true);
    lemma_validated_output(cs, seq![h], pairs, blob);
    lemma_split(b, chunks);
    lemma_left_bounded(b, chunks, chunks as int);
    lemma_block_limit(tree, root.end_spec() as int);
    assert(none.push(h) =~= seq![h]);
    let end = verify_run(flat(tree, cs), seq![h], w);
    assert(decode_run(start).0 == seq![ItemView::Header { size }] + end.accepted.map_values(f));
    assert(decode_run(start).1 == end.failure);
    if t.len() == 0 {
        assert(cs =~= Seq::<BaoChunk<Seq<u64>>>::empty());
        assert(flat(tree, cs) =~= Seq::<BaoChunk<Seq<u64>>>::empty());
        assert(steps_true(end.accepted, blob));
    } else {
        assert(0 * tree.block_size.chunks_spec() == 0);
        lemma_response_admits(tree, blob, pairs, root, t, true, none, nothing);
        assert(w + nothing =~= w);
    }
    lemma_pieces_true(end.accepted, blob);
    lemma_leaves_of_concat(seq![ItemView::Header { size }], end.accepted.map_values(f));
    lemma_leaves_of_push(Seq::<ItemView>::empty(), ItemView::Header { size });
    assert(Seq::<ItemView>::empty() + seq![ItemView::Header { size }] =~= seq![
        ItemView::Header { size },
    ]);
    assert(leaves_of(decode_run(start).0) =~= leaves_of(end.accepted.map_values(f)));
    lemma_decoded_chunks(seq![h], block_size, encoded, b);
}

} // verus!
