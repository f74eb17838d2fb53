//! A decoder of slices reads what an encoder writes.
//!
//! An encoder and a decoder of slices go through the same directives: those
//! of the traversal in pre-order of the tree of blocks for the query cut off
//! at the end of the blob. This module shows that, for every query, the
//! verifier accepts the bytes that an encoder writes from a blob and an
//! outboard that holds for every node the hashes of its two children, and
//! that an encoder that validates reaches its end on them.
use vstd::prelude::*;
use crate::codec::{
    all_readable, chunk_wire, lemma_infos_chunks_concat, lemma_infos_chunks_one, node_hash, pair_of,
    readable, root_hash, slice_bytes, validated_run, verify_run, verify_step, wire, HashPairs,
    RunEnd, StepView,
};
use crate::coverage::{
    block_limit, bounded, lemma_block_limit, lemma_block_limit_monotone, lemma_range_fidelity,
    lemma_response_in_order, lemma_right_part, wanted_in,
};
use crate::hash::{lemma_subtree_hash_len, parent_cv_of, subtree_hash};
use crate::io::{
    block_directives, block_run, decoder_start, leaves_of, lemma_leaves_of_concat,
    lemma_leaves_of_push, slice_run,
};
use crate::io::sync::{step_item, valid_outboard_set, ItemView};
use crate::iter::{
    chunk_items, infos_chunks, lemma_block_byte_diff, lemma_half_leaf, lemma_node_chunks, node_info,
    partial_nodes, plain_response, pre_order_chunks, BaoChunk,
};
use crate::laws::{
    lemma_node_bytes, lemma_node_hash_len, lemma_pair_len, lemma_partial_readable, lemma_run_cons,
    lemma_step_leaf, lemma_step_parent, lemma_verify_run_concat, lemma_verify_run_plain,
    lemma_wire_concat, lemma_wire_one, vouches,
};
use crate::ranges::{
    chunk_interval, lemma_count_below, lemma_split, split_left, split_right, strictly_increasing,
    truncate_spec,
};
use crate::response::{items_chunks, lemma_accepted_cover, lemma_ordered_bounds};
use crate::shape::lemma_left_bounded;
use crate::tree::{
    lemma_block_chunk_bound, lemma_children_contained, lemma_children_wf, lemma_contains_bounds,
    lemma_node_bounds, lemma_root_covers, lemma_tree_bounds, BaoTree, BlockSize, ByteNum, ChunkNum,
    TreeNode,
};

verus! {

/// True if every piece of data that the verifier has accepted is the data
/// of `blob` at the place that its chunk number gives.
pub open spec fn steps_true(acc: Seq<StepView>, blob: Seq<u8>) -> bool {
    forall|i: int|
        0 <= i < acc.len() ==> match #[trigger] acc[i] {
            StepView::Leaf { start_chunk, data } => start_chunk.0 * 1024 + data.len() <= blob.len()
                && data == blob.subrange(
                start_chunk.0 * 1024,
                start_chunk.0 * 1024 + data.len(),
            ),
            StepView::Parent { .. } => true,
        }
}

/// True if the verifier, with the hash `expected` on top of `stack`, goes
/// through the directives `cs` on `input` without a failure, takes the hash
/// off the stack and leaves nothing else on it, leaves `tail` of the input,
/// and has accepted only data of `blob`.
pub open spec fn admits(
    cs: Seq<BaoChunk<Seq<u64>>>,
    expected: Seq<u8>,
    stack: Seq<Seq<u8>>,
    input: Seq<u8>,
    tail: Seq<u8>,
    blob: Seq<u8>,
) -> bool {
    let end = verify_run(cs, stack.push(expected), input);
    &&& end.failure is None
    &&& end.stack == stack
    &&& end.input == tail
    &&& steps_true(end.accepted, blob)
}

/// The verifier admits the data of a leaf that lies in the blob, given its
/// hash.
pub proof fn lemma_admits_leaf(leaf: BaoChunk<Seq<u64>>, stack: Seq<Seq<u8>>, tail: Seq<u8>, blob: Seq<u8>)
    requires
        leaf is Leaf,
        (leaf->Leaf_start_chunk).0 * 1024 + leaf->Leaf_size <= blob.len(),
    ensures
        ({
            let s = (leaf->Leaf_start_chunk).0 * 1024;
            let data = blob.subrange(s, s + leaf->Leaf_size);
            admits(
                seq![leaf],
                subtree_hash((leaf->Leaf_start_chunk).0, data, leaf->Leaf_is_root),
                stack,
                data + tail,
                tail,
                blob,
            )
        }),
{
    let s = (leaf->Leaf_start_chunk).0 * 1024;
    let data = blob.subrange(s, s + leaf->Leaf_size);
    let h = subtree_hash((leaf->Leaf_start_chunk).0, data, leaf->Leaf_is_root);
    let none = Seq::<BaoChunk<Seq<u64>>>::empty();
    lemma_step_leaf(leaf, stack.push(h), data, tail);
    lemma_run_cons(leaf, none, stack.push(h), data + tail);
    assert(seq![leaf] + none =~= seq![leaf]);
    assert(stack.push(h).drop_last() =~= stack);
    let acc = seq![StepView::Leaf { start_chunk: leaf->Leaf_start_chunk, data }];
    assert(acc + Seq::<StepView>::empty() =~= acc);
}

/// The verifier admits a hash pair and what follows it for the two
/// children of its node, given the hash of the node, if it admits what
/// follows for each child that the query reaches, given the hash of the
/// child.
#[verifier::rlimit(40)]
pub proof fn lemma_admits_parent(
    parent: BaoChunk<Seq<u64>>,
    cl: Seq<BaoChunk<Seq<u64>>>,
    cr: Seq<BaoChunk<Seq<u64>>>,
    hl: Seq<u8>,
    hr: Seq<u8>,
    wl: Seq<u8>,
    wr: Seq<u8>,
    stack: Seq<Seq<u8>>,
    tail: Seq<u8>,
    blob: Seq<u8>,
)
    requires
        parent is Parent,
        hl.len() == 32,
        hr.len() == 32,
        parent->Parent_left ==> admits(
            cl,
            hl,
            if parent->Parent_right {
                stack.push(hr)
            } else {
                stack
            },
            wl + (wr + tail),
            wr + tail,
            blob,
        ),
        !parent->Parent_left ==> cl.len() == 0 && wl.len() == 0,
        parent->Parent_right ==> admits(cr, hr, stack, wr + tail, tail, blob),
        !parent->Parent_right ==> cr.len() == 0 && wr.len() == 0,
    ensures
        admits(
            seq![parent] + (cl + cr),
            parent_cv_of(hl, hr, parent->Parent_is_root),
            stack,
            hl + hr + (wl + (wr + tail)),
            tail,
            blob,
        ),
{
    let left = parent->Parent_left;
    let right = parent->Parent_right;
    let h = parent_cv_of(hl, hr, parent->Parent_is_root);
    let top = stack.push(h);
    let rest = wl + (wr + tail);
    lemma_step_parent(parent, top, hl, hr, rest);
    assert(top.drop_last() =~= stack);
    let below = if right {
        stack.push(hr)
    } else {
        stack
    };
    let after = if left {
        below.push(hl)
    } else {
        below
    };
    lemma_run_cons(parent, cl + cr, top, hl + hr + rest);
    lemma_verify_run_concat(cl, cr, after, rest);
    let ra = verify_run(cl, after, rest);
    if !left {
        assert(rest =~= wr + tail);
    }
    assert(ra.failure is None && ra.stack == below && ra.input == wr + tail);
    let rb = verify_run(cr, below, wr + tail);
    if !right {
        assert(wr + tail =~= tail);
    }
    assert(rb.failure is None && rb.stack == stack && rb.input == tail);
    let end = verify_run(seq![parent] + (cl + cr), top, hl + hr + rest);
    let item = StepView::Parent { node: parent->Parent_node, l: hl, r: hr };
    assert(end.accepted == seq![item] + (ra.accepted + rb.accepted));
    assert forall|i: int| 0 <= i < end.accepted.len() implies match #[trigger] end.accepted[i] {
        StepView::Leaf { start_chunk, data } => start_chunk.0 * 1024 + data.len() <= blob.len()
            && data == blob.subrange(start_chunk.0 * 1024, start_chunk.0 * 1024 + data.len()),
        StepView::Parent { .. } => true,
    } by {
        if i == 0 {
        } else if i < 1 + ra.accepted.len() {
            assert(end.accepted[i] == ra.accepted[i - 1]);
        } else {
            assert(end.accepted[i] == rb.accepted[i - 1 - ra.accepted.len()]);
        }
    }
}

/// Round trip below a node, for every query: where an outboard holds for
/// every node the hashes of its two children over a blob, the verifier,
/// given the hash of a node, admits the bytes on the wire of the directives
/// for the part of the tree under the node that a query reaches.
#[verifier::rlimit(100)]
pub proof fn lemma_query_admits(
    tree: BaoTree,
    blob: Seq<u8>,
    pairs: HashPairs,
    node: TreeNode,
    r: Seq<u64>,
    is_root: bool,
    stack: Seq<Seq<u8>>,
    tail: Seq<u8>,
)
    requires
        tree.wf(),
        tree.start_chunk.0 == 0,
        tree.contains(node),
        vouches(tree, blob, pairs),
        tree.size.0 <= blob.len(),
        strictly_increasing(r),
        bounded(r, block_limit(tree, node.end_spec() as int)),
        r.len() > 0,
    ensures
        ({
            let cs = infos_chunks(tree, partial_nodes(tree, node, r, 0, is_root));
            admits(
                cs,
                node_hash(tree, blob, node, is_root),
                stack,
                wire(pairs, blob, cs) + tail,
                tail,
                blob,
            )
        }),
    decreases node.level,
{
    let start = node.start_spec();
    let mid = node.mid_spec();
    let end = node.end_spec();
    let sb = tree.block_byte_spec(start) as int;
    let mb = tree.block_byte_spec(mid) as int;
    let eb = tree.block_byte_spec(end) as int;
    let first = tree.block_chunk_spec(start) as u64;
    let second = tree.block_chunk_spec(mid) as u64;
    let u = block_limit(tree, end as int);
    let p = partial_nodes(tree, node, r, 0, is_root);
    let cs = infos_chunks(tree, p);
    let info = node_info(tree, node, r, 0, is_root);
    let items = chunk_items(tree, info);
    let ql = split_left(r, second);
    let qr = split_right(r, second);
    let none = Seq::<BaoChunk<Seq<u64>>>::empty();
    let nothing = Seq::<u8>::empty();
    lemma_node_bounds(node);
    lemma_contains_bounds(tree, node);
    lemma_tree_bounds(tree);
    lemma_node_chunks(tree, node);
    lemma_node_bytes(tree, node);
    lemma_block_limit(tree, start as int);
    lemma_block_limit(tree, mid as int);
    lemma_block_limit(tree, end as int);
    lemma_block_limit_monotone(tree, mid as int, end as int);
    lemma_block_chunk_bound(tree, start);
    lemma_block_chunk_bound(tree, mid);
    lemma_block_byte_diff(tree, start, mid);
    lemma_block_byte_diff(tree, mid, end);
    lemma_split(r, second);
    lemma_count_below(r, second as int);
    lemma_left_bounded(r, second, u);
    lemma_right_part(r, second, u);
    assert(info.l_ranges == ql && info.r_ranges == qr);
    if node.level == 0 {
        assert(p == seq![info]);
        lemma_infos_chunks_one(tree, info);
        lemma_half_leaf(tree, node);
        vstd::arithmetic::power2::lemma2_to64();
        let bb = tree.block_bytes() as int;
        assert(1 * bb == bb) by (nonlinear_arith);
        assert(mb - sb <= bb && eb - mb <= bb);
        let ldata = blob.subrange(sb, mb);
        if mb == eb {
            // the right block holds no data: the query reaches the left block
            assert(block_limit(tree, mid as int) == tree.chunks_spec());
            assert(r[0] < second);
            assert(ql.len() > 0);
            let leaf = BaoChunk::Leaf {
                start_chunk: ChunkNum(first),
                is_root: info.is_root && info.is_half_leaf,
                size: (mb - sb) as usize,
                ranges: ql,
            };
            assert(items =~= seq![leaf]);
            lemma_wire_one(pairs, blob, leaf);
            lemma_admits_leaf(leaf, stack, tail, blob);
        } else {
            let rdata = blob.subrange(mb, eb);
            assert(tree.is_persisted_spec(node));
            assert(mb == 1024 * second);
            let parent = BaoChunk::Parent {
                node,
                is_root: info.is_root,
                left: ql.len() > 0,
                right: qr.len() > 0,
                ranges: r,
            };
            let l = BaoChunk::Leaf {
                start_chunk: ChunkNum(first),
                is_root: false,
                size: (mb - sb) as usize,
                ranges: ql,
            };
            let rt = BaoChunk::Leaf {
                start_chunk: ChunkNum(second),
                is_root: false,
                size: (eb - mb) as usize,
                ranges: qr,
            };
            let cl = if ql.len() > 0 {
                seq![l]
            } else {
                none
            };
            let cr = if qr.len() > 0 {
                seq![rt]
            } else {
                none
            };
            let wl = if ql.len() > 0 {
                ldata
            } else {
                nothing
            };
            let wr = if qr.len() > 0 {
                rdata
            } else {
                nothing
            };
            assert(items =~= seq![parent] + (cl + cr));
            assert(pairs.contains_key(node));
            let hl = subtree_hash(first, ldata, false);
            let hr = subtree_hash(second, rdata, false);
            assert(pairs[node] == (hl, hr));
            lemma_subtree_hash_len(first, ldata, false);
            lemma_subtree_hash_len(second, rdata, false);
            lemma_wire_concat(pairs, blob, seq![parent], cl + cr);
            lemma_wire_concat(pairs, blob, cl, cr);
            lemma_wire_one(pairs, blob, parent);
            if ql.len() > 0 {
                lemma_wire_one(pairs, blob, l);
                lemma_admits_leaf(
                    l,
                    if qr.len() > 0 {
                        stack.push(hr)
                    } else {
                        stack
                    },
                    wr + tail,
                    blob,
                );
            }
            if qr.len() > 0 {
                lemma_wire_one(pairs, blob, rt);
                lemma_admits_leaf(rt, stack, tail, blob);
            }
            assert(wire(pairs, blob, cl) == wl);
            assert(wire(pairs, blob, cr) == wr);
            assert(wire(pairs, blob, items) + tail =~= hl + hr + (wl + (wr + tail)));
            lemma_admits_parent(parent, cl, cr, hl, hr, wl, wr, stack, tail, blob);
        }
    } else {
        lemma_children_contained(tree, node);
        lemma_children_wf(node);
        let lc = node.left_child_spec();
        let rd = node.right_descendant_spec(tree.filled_size_spec())->0;
        lemma_node_bounds(lc);
        lemma_node_bounds(rd);
        lemma_block_limit(tree, rd.end_spec() as int);
        assert(lc.end_spec() == mid);
        assert(block_limit(tree, rd.end_spec() as int) == u);
        assert(block_limit(tree, mid as int) == second);
        let pl = partial_nodes(tree, lc, ql, 0, false);
        let pr = partial_nodes(tree, rd, qr, 0, false);
        assert(p == seq![info] + pl + pr);
        lemma_infos_chunks_concat(tree, seq![info] + pl, pr);
        lemma_infos_chunks_concat(tree, seq![info], pl);
        lemma_infos_chunks_one(tree, info);
        let cl = infos_chunks(tree, pl);
        let cr = infos_chunks(tree, pr);
        let parent = BaoChunk::Parent {
            node,
            is_root: info.is_root,
            left: ql.len() > 0,
            right: qr.len() > 0,
            ranges: r,
        };
        assert(items =~= seq![parent]);
        assert(cs =~= seq![parent] + (cl + cr));
        assert(pairs.contains_key(node));
        let hl = node_hash(tree, blob, lc, false);
        let hr = node_hash(tree, blob, rd, false);
        assert(pair_of(tree, blob, node) == (hl, hr));
        lemma_node_hash_len(tree, blob, lc, false);
        lemma_node_hash_len(tree, blob, rd, false);
        let wl = wire(pairs, blob, cl);
        let wr = wire(pairs, blob, cr);
        lemma_wire_concat(pairs, blob, seq![parent], cl + cr);
        lemma_wire_concat(pairs, blob, cl, cr);
        lemma_wire_one(pairs, blob, parent);
        if ql.len() > 0 {
            lemma_query_admits(
                tree,
                blob,
                pairs,
                lc,
                ql,
                false,
                if qr.len() > 0 {
                    stack.push(hr)
                } else {
                    stack
                },
                wr + tail,
            );
        } else {
            assert(cl =~= none);
        }
        if qr.len() > 0 {
            lemma_query_admits(tree, blob, pairs, rd, qr, false, stack, tail);
        } else {
            assert(cr =~= none);
        }
        assert(wire(pairs, blob, cs) + tail =~= hl + hr + (wl + (wr + tail)));
        lemma_admits_parent(parent, cl, cr, hl, hr, wl, wr, stack, tail, blob);
    }
}

/// True if every piece of data is the data of `blob` at its byte offset.
pub open spec fn pieces_true(pieces: Seq<(u64, Seq<u8>)>, blob: Seq<u8>) -> bool {
    forall|i: int|
        0 <= i < pieces.len() ==> (#[trigger] pieces[i]).0 + pieces[i].1.len() <= blob.len()
            && pieces[i].1 == blob.subrange(
            pieces[i].0 as int,
            pieces[i].0 + pieces[i].1.len(),
        )
}

/// The data among the items for accepted steps that hold only data of a
/// blob is data of the blob, each piece at its byte offset.
pub proof fn lemma_pieces_true(acc: Seq<StepView>, blob: Seq<u8>)
    requires
        steps_true(acc, blob),
        blob.len() <= u64::MAX,
    ensures
        pieces_true(leaves_of(acc.map_values(|s: StepView| step_item(s))), blob),
    decreases acc.len(),
{
    let f = |s: StepView| step_item(s);
    let items = acc.map_values(f);
    if acc.len() > 0 {
        let rest = acc.skip(1);
        assert forall|i: int| 0 <= i < rest.len() implies match #[trigger] rest[i] {
            StepView::Leaf { start_chunk, data } => start_chunk.0 * 1024 + data.len() <= blob.len()
                && data == blob.subrange(start_chunk.0 * 1024, start_chunk.0 * 1024 + data.len()),
            StepView::Parent { .. } => true,
        } by {
            assert(rest[i] == acc[i + 1]);
        }
        lemma_pieces_true(rest, blob);
        assert(items.skip(1) =~= rest.map_values(f));
        assert(items[0] == step_item(acc[0]));
        let tail = leaves_of(items.skip(1));
        let all = leaves_of(items);
        assert(acc[0] == acc[0]);
        assert forall|i: int| 0 <= i < all.len() implies (#[trigger] all[i]).0 + all[i].1.len()
            <= blob.len() && all[i].1 == blob.subrange(all[i].0 as int, all[i].0 + all[i].1.len()) by {
            match acc[0] {
                StepView::Leaf { start_chunk, data } => {
                    if i == 0 {
                    } else {
                        assert(all[i] == tail[i - 1]);
                    }
                },
                StepView::Parent { .. } => {
                    assert(all =~= tail);
                },
            }
        }
    }
}

/// Round trip for every query: for every blob, block size and query, where
/// an outboard holds for every node the hashes of its two children over the
/// blob, an encoder can read all that the directives ask for, and a decoder
/// of slices that knows the root hash of the blob reads what the encoder
/// has written to its end without a failure. Every piece of data that it
/// hands out is the data of the blob at its offset, and together the
/// pieces are the blocks of the blob of which the query has a chunk.
pub proof fn lemma_slice_round_trip(
    size: u64,
    block_size: BlockSize,
    blob: Seq<u8>,
    pairs: HashPairs,
    b: Seq<u64>,
)
    requires
        block_size.wf(),
        blob.len() == size,
        vouches(BaoTree::new_spec(ByteNum(size), block_size), blob, pairs),
        strictly_increasing(b),
    ensures
        ({
            let tree = BaoTree::new_spec(ByteNum(size), block_size);
            let cs = pre_order_chunks(tree, truncate_spec(b, tree.chunks_spec() as u64), 0);
            let encoded = slice_bytes(size, pairs, blob, cs);
            let start = decoder_start(root_hash(tree, blob), block_size, encoded, b);
            &&& all_readable(pairs, blob.len(), cs)
            &&& block_run(start).1 is None
            &&& pieces_true(slice_run(start).0, blob)
            &&& items_chunks(block_run(start).0) == wanted_in(tree, b, 0, tree.blocks_spec() as int)
        }),
{
    let tree = BaoTree::new_spec(ByteNum(size), block_size);
    let root = tree.root_spec();
    let chunks = tree.chunks_spec() as u64;
    let t = truncate_spec(b, chunks);
    let cs = pre_order_chunks(tree, t, 0);
    let w = wire(pairs, blob, cs);
    let header = vstd::bytes::spec_u64_to_le_bytes(size);
    let encoded = slice_bytes(size, pairs, blob, cs);
    let h = root_hash(tree, blob);
    let start = decoder_start(h, block_size, encoded, b);
    let f = |s: StepView| step_item(s);
    let none = Seq::<Seq<u8>>::empty();
    let nothing = Seq::<u8>::empty();
    lemma_tree_bounds(tree);
    lemma_root_covers(tree);
    lemma_node_bounds(root);
    vstd::bytes::lemma_auto_spec_u64_to_from_le_bytes();
    assert(encoded.take(8) =~= header);
    assert(encoded.skip(8) =~= w);
    lemma_partial_readable(tree, blob.len(), pairs, root, t, true);
    lemma_split(b, chunks);
    lemma_left_bounded(b, chunks, chunks as int);
    lemma_block_limit(tree, root.end_spec() as int);
    assert(none.push(h) =~= seq![h]);
    lemma_verify_run_plain(cs, seq![h], w);
    let end = verify_run(cs, seq![h], w);
    assert(block_directives(tree, b) == cs.map_values(|c: BaoChunk<Seq<u64>>| plain_response(c)));
    assert(block_run(start).0 == seq![ItemView::Header { size }] + end.accepted.map_values(f));
    assert(block_run(start).1 == end.failure);
    if t.len() == 0 {
        assert(cs =~= Seq::<BaoChunk<Seq<u64>>>::empty());
        assert(steps_true(end.accepted, blob));
    } else {
        assert(0 * tree.block_size.chunks_spec() == 0);
        lemma_query_admits(tree, blob, pairs, root, t, true, none, nothing);
        assert(w + nothing =~= w);
    }
    lemma_pieces_true(end.accepted, blob);
    lemma_leaves_of_concat(seq![ItemView::Header { size }], end.accepted.map_values(f));
    lemma_leaves_of_push(Seq::<ItemView>::empty(), ItemView::Header { size });
    assert(Seq::<ItemView>::empty() + seq![ItemView::Header { size }] =~= seq![
        ItemView::Header { size },
    ]);
    assert(slice_run(start).0 =~= leaves_of(end.accepted.map_values(f)));
    // the blocks that the pieces cover
    lemma_response_in_order(tree, t);
    lemma_ordered_bounds(cs, 0, chunks as int);
    lemma_accepted_cover(cs, seq![h], w, chunks as int);
    lemma_range_fidelity(tree, b);
    assert(block_run(start).0.skip(1) =~= end.accepted.map_values(f));
    assert(items_chunks(block_run(start).0) =~= items_chunks(block_run(start).0.skip(1)));
}

/// An encoder that validates reaches its end where the verifier goes
/// through the bytes on the wire of the directives without a failure, and
/// writes what it has validated for every directive.
pub proof fn lemma_validated_follows(
    tree: BaoTree,
    cs: Seq<BaoChunk<Seq<u64>>>,
    stack: Seq<Seq<u8>>,
    pairs: HashPairs,
    blob: Seq<u8>,
    tail: Seq<u8>,
    select: bool,
)
    requires
        all_readable(pairs, blob.len(), cs),
        forall|i: int|
            0 <= i < cs.len() ==> match #[trigger] cs[i] {
                BaoChunk::Parent { node, .. } => pairs[node].0.len() == 32 && pairs[node].1.len()
                    == 32,
                BaoChunk::Leaf { .. } => true,
            },
        verify_run(cs, stack, wire(pairs, blob, cs) + tail).failure is None,
    ensures
        validated_run(cs, stack, pairs, blob, select).1 == RunEnd::Done,
    decreases cs.len(),
{
    if cs.len() > 0 {
        let c = cs[0];
        let rest = cs.skip(1);
        let own = chunk_wire(pairs, blob, c);
        let more = wire(pairs, blob, rest) + tail;
        assert(wire(pairs, blob, cs) + tail =~= own + more);
        assert(readable(pairs, blob.len(), c));
        assert forall|i: int| 0 <= i < rest.len() implies match #[trigger] rest[i] {
            BaoChunk::Parent { node, .. } => pairs[node].0.len() == 32 && pairs[node].1.len() == 32,
            BaoChunk::Leaf { .. } => true,
        } by {
            assert(rest[i] == cs[i + 1]);
        }
        match c {
            BaoChunk::Parent { node, .. } => {
                assert(own.len() == 64);
                assert((own + more).subrange(0, 32) =~= own.subrange(0, 32));
                assert((own + more).subrange(32, 64) =~= own.subrange(32, 64));
                assert((own + more).skip(64) =~= more);
            },
            BaoChunk::Leaf { size, .. } => {
                assert(own.len() == size);
                assert((own + more).take(size as int) =~= own.take(size as int));
                assert((own + more).skip(size as int) =~= more);
            },
        }
        match verify_step(c, stack, own + more) {
            Ok((item, st, inp)) => {
                assert(inp == more);
                assert(verify_step(c, stack, own) is Ok);
                assert(verify_step(c, stack, own)->Ok_0.1 == st);
                lemma_validated_follows(tree, rest, st, pairs, blob, tail, select);
            },
            Err(_) => {},
        }
    }
}

/// An encoder that validates reaches its end for every query, where the
/// blob has the size of the tree and the outboard holds for every node the
/// hashes of its two children over the blob.
pub proof fn lemma_validated_done(tree: BaoTree, blob: Seq<u8>, pairs: HashPairs, b: Seq<u64>, select: bool)
    requires
        tree.wf(),
        tree.start_chunk.0 == 0,
        tree.is_root,
        blob.len() == tree.size.0,
        vouches(tree, blob, pairs),
        strictly_increasing(b),
    ensures
        validated_run(
            pre_order_chunks(tree, truncate_spec(b, tree.chunks_spec() as u64), 0),
            seq![root_hash(tree, blob)],
            pairs,
            blob,
            select,
        ).1 == RunEnd::Done,
{
    let root = tree.root_spec();
    let chunks = tree.chunks_spec() as u64;
    let t = truncate_spec(b, chunks);
    let cs = pre_order_chunks(tree, t, 0);
    let h = root_hash(tree, blob);
    let none = Seq::<Seq<u8>>::empty();
    let nothing = Seq::<u8>::empty();
    lemma_tree_bounds(tree);
    lemma_root_covers(tree);
    lemma_node_bounds(root);
    lemma_partial_readable(tree, blob.len(), pairs, root, t, true);
    lemma_split(b, chunks);
    lemma_left_bounded(b, chunks, chunks as int);
    lemma_block_limit(tree, root.end_spec() as int);
    assert(none.push(h) =~= seq![h]);
    crate::laws::lemma_partial_all_fit(tree, root, t, true);
    assert forall|i: int| 0 <= i < cs.len() implies match #[trigger] cs[i] {
        BaoChunk::Parent { node, .. } => pairs[node].0.len() == 32 && pairs[node].1.len() == 32,
        BaoChunk::Leaf { .. } => true,
    } by {
        match cs[i] {
            BaoChunk::Parent { node, .. } => {
                assert(crate::iter::chunk_fits(tree, cs[i]));
                assert(tree.is_persisted_spec(node));
                assert(pairs.contains_key(node));
                lemma_pair_len(tree, blob, node);
            },
            BaoChunk::Leaf { .. } => {},
        }
    }
    if t.len() == 0 {
        assert(cs =~= Seq::<BaoChunk<Seq<u64>>>::empty());
    } else {
        assert(0 * tree.block_size.chunks_spec() == 0);
        lemma_query_admits(tree, blob, pairs, root, t, true, none, nothing);
    }
    lemma_validated_follows(tree, cs, seq![h], pairs, blob, nothing, select);
}

/// Below a node, an outboard that holds for every node the hashes of its
/// two children over a blob vouches for all chunks under the node, if the
/// node is given its own hash.
#[verifier::rlimit(40)]
pub proof fn lemma_valid_outboard_node(
    tree: BaoTree,
    blob: Seq<u8>,
    pairs: HashPairs,
    node: TreeNode,
    is_root: bool,
)
    requires
        tree.wf(),
        tree.start_chunk.0 == 0,
        tree.contains(node),
        vouches(tree, blob, pairs),
    ensures
        valid_outboard_set(tree, pairs, node, node_hash(tree, blob, node, is_root), is_root)
            == chunk_interval(
            block_limit(tree, node.start_spec() as int),
            block_limit(tree, node.end_spec() as int),
        ),
    decreases node.level,
{
    let start = node.start_spec() as int;
    let mid = node.mid_spec() as int;
    let end = node.end_spec() as int;
    lemma_node_bounds(node);
    lemma_contains_bounds(tree, node);
    lemma_tree_bounds(tree);
    lemma_node_chunks(tree, node);
    lemma_block_limit(tree, start);
    lemma_block_limit(tree, mid);
    lemma_block_limit(tree, end);
    lemma_block_limit_monotone(tree, start, mid);
    lemma_block_limit_monotone(tree, mid, end);
    lemma_block_chunk_bound(tree, node.start_spec());
    let s = block_limit(tree, start);
    let m = block_limit(tree, mid);
    let u = block_limit(tree, end);
    let c = tree.block_size.chunks_spec() as int;
    let v = valid_outboard_set(tree, pairs, node, node_hash(tree, blob, node, is_root), is_root);
    if node.level == 0 {
        lemma_half_leaf(tree, node);
        vstd::arithmetic::power2::lemma2_to64();
        assert(mid == start + 1 && end == start + 2);
        assert((start + 1) * c == start * c + c && (start + 2) * c == start * c + 2 * c)
            by (nonlinear_arith);
        let first = tree.block_chunk_spec(node.start_spec()) as int;
        assert(first == start * c);
        if tree.size.0 > 0 {
            assert(s == first);
        } else {
            assert(tree.chunks_spec() == 0);
        }
        if tree.is_persisted_spec(node) {
            assert(pairs.contains_key(node));
            assert(pairs[node] == pair_of(tree, blob, node));
        }
        assert(v =~= chunk_interval(s, u));
    } else {
        lemma_children_contained(tree, node);
        lemma_children_wf(node);
        let lc = node.left_child_spec();
        let rd = node.right_descendant_spec(tree.filled_size_spec())->0;
        lemma_node_bounds(lc);
        lemma_node_bounds(rd);
        lemma_block_limit(tree, rd.end_spec() as int);
        assert(pairs.contains_key(node));
        assert(pairs[node] == pair_of(tree, blob, node));
        lemma_valid_outboard_node(tree, blob, pairs, lc, false);
        lemma_valid_outboard_node(tree, blob, pairs, rd, false);
        assert(lc.start_spec() == start && lc.end_spec() == mid);
        assert(block_limit(tree, rd.end_spec() as int) == u);
        assert(chunk_interval(s, m).union(chunk_interval(m, u)) =~= chunk_interval(s, u));
    }
}

/// An outboard that holds for every node the hashes of its two children
/// over a blob, with the root hash of the blob, vouches for all chunks of
/// the blob.
pub proof fn lemma_valid_outboard(tree: BaoTree, blob: Seq<u8>, pairs: HashPairs)
    requires
        tree.wf(),
        tree.start_chunk.0 == 0,
        vouches(tree, blob, pairs),
    ensures
        valid_outboard_set(tree, pairs, tree.root_spec(), root_hash(tree, blob), true)
            == chunk_interval(0, tree.chunks_spec() as int),
{
    let root = tree.root_spec();
    lemma_tree_bounds(tree);
    lemma_root_covers(tree);
    lemma_node_bounds(root);
    lemma_block_limit(tree, 0);
    lemma_block_limit(tree, root.end_spec() as int);
    assert(0 * tree.block_size.chunks_spec() == 0);
    lemma_valid_outboard_node(tree, blob, pairs, root, true);
}

} // verus!
