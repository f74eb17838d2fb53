//! What the verifier accepts hashes to what it expected.
//!
//! The verifier checks every hash pair and all data against the hash that
//! it expects. This module shows that, where it goes through the
//! directives for all that lies under a node without a failure, the data
//! that it has accepted, piece after piece, hashes to the hash that it was
//! given for the node. So a decoder that was told a wrong size of the blob
//! ends in a failure, unless data of two lengths has the same hash.
use vstd::prelude::*;
use crate::codec::{
    lemma_infos_chunks_concat, lemma_infos_chunks_one, root_hash, verify_run, verify_step, StepView,
};
use crate::hash::{left_len_spec, parent_cv_of, subtree_hash};
use crate::io::{block_run, decoder_start};
use crate::io::sync::{decode_run, ItemView};
use crate::iter::{
    chunk_items, lemma_block_byte_diff, lemma_half_leaf, lemma_node_chunks, node_info,
    partial_nodes, pre_order_chunks, BaoChunk,
};
use crate::laws::{
    all_chunks, lemma_all_chunks_whole, lemma_info_all, lemma_node_bytes, lemma_split_all,
    lemma_steps_concat, lemma_steps_one, lemma_verify_run_concat, lemma_verify_run_plain,
    lemma_whole_response, steps_data,
};
use crate::shape::{lemma_left_half, lemma_root_hash_is_subtree_hash};
use crate::tree::{
    lemma_block_byte, lemma_block_chunk_bound, lemma_children_contained, lemma_children_wf,
    lemma_contains_bounds, lemma_node_bounds, lemma_root_covers, lemma_tree_bounds, BaoTree,
    BlockSize, ByteNum, TreeNode,
};

verus! {

/// True if data of two different lengths has the same hash as a subtree at
/// one place.
pub open spec fn length_collision() -> bool {
    exists|c: u64, one: Seq<u8>, other: Seq<u8>, is_root: bool|
        #![trigger subtree_hash(c, one, is_root), subtree_hash(c, other, is_root)]
        one.len() != other.len() && subtree_hash(c, one, is_root) == subtree_hash(
            c,
            other,
            is_root,
        )
}

/// True if the verifier, with the hash `expected` on top of `stack`, went
/// through the directives `cs` on `input` and took the hash off the stack,
/// and what it has accepted is `size` bytes of data that hash, as the
/// subtree that starts at the chunk `first`, to the hash.
pub open spec fn sound(
    cs: Seq<BaoChunk<Seq<u64>>>,
    expected: Seq<u8>,
    stack: Seq<Seq<u8>>,
    input: Seq<u8>,
    first: u64,
    size: int,
    is_root: bool,
) -> bool {
    let end = verify_run(cs, stack.push(expected), input);
    &&& end.stack == stack
    &&& steps_data(end.accepted).len() == size
    &&& expected == subtree_hash(first, steps_data(end.accepted), is_root)
}

/// The hash of data in two parts is the parent hash of the hashes of the
/// parts, if the first part is the left subtree of the data.
pub proof fn lemma_hash_of_parts(first: u64, left: Seq<u8>, right: Seq<u8>, is_root: bool)
    requires
        left.len() >= 1024,
        right.len() > 0,
        left_len_spec(left.len() + right.len()) == left.len(),
    ensures
        subtree_hash(first, left + right, is_root) == parent_cv_of(
            subtree_hash(first, left, false),
            subtree_hash((first + left.len() / 1024) as u64, right, false),
            is_root,
        ),
{
    let data = left + right;
    assert(data.subrange(0, left.len() as int) =~= left);
    assert(data.subrange(left.len() as int, data.len() as int) =~= right);
}

/// The verifier is sound for a hash pair and what follows it for the two
/// children of its node, if it is sound for what follows for each child.
#[verifier::rlimit(60)]
pub proof fn lemma_sound_parent(
    parent: BaoChunk<Seq<u64>>,
    cl: Seq<BaoChunk<Seq<u64>>>,
    cr: Seq<BaoChunk<Seq<u64>>>,
    h: Seq<u8>,
    stack: Seq<Seq<u8>>,
    input: Seq<u8>,
    first: u64,
    left_size: int,
    right_size: int,
)
    requires
        parent is Parent,
        parent->Parent_left,
        parent->Parent_right,
        verify_run(seq![parent] + (cl + cr), stack.push(h), input).failure is None,
        left_size >= 1024,
        right_size > 0,
        left_len_spec((left_size + right_size) as nat) == left_size,
        forall|l: Seq<u8>, below: Seq<Seq<u8>>, rest: Seq<u8>|
            verify_run(cl, below.push(l), rest).failure is None ==> #[trigger] sound(
                cl,
                l,
                below,
                rest,
                first,
                left_size,
                false,
            ),
        forall|r: Seq<u8>, below: Seq<Seq<u8>>, rest: Seq<u8>|
            verify_run(cr, below.push(r), rest).failure is None ==> #[trigger] sound(
                cr,
                r,
                below,
                rest,
                (first + left_size / 1024) as u64,
                right_size,
                false,
            ),
    ensures
        sound(
            seq![parent] + (cl + cr),
            h,
            stack,
            input,
            first,
            left_size + right_size,
            parent->Parent_is_root,
        ),
{
    let all = seq![parent] + (cl + cr);
    let top = stack.push(h);
    assert(all[0] == parent);
    assert(all.skip(1) =~= cl + cr);
    assert(top.drop_last() =~= stack);
    match verify_step(parent, top, input) {
        Ok((item, st, inp)) => {
            let l = input.subrange(0, 32);
            let r = input.subrange(32, 64);
            assert(st == stack.push(r).push(l));
            assert(parent_cv_of(l, r, parent->Parent_is_root) == h);
            lemma_verify_run_concat(cl, cr, st, inp);
            let ra = verify_run(cl, st, inp);
            assert(ra.failure is None);
            assert(sound(cl, l, stack.push(r), inp, first, left_size, false));
            let rb = verify_run(cr, ra.stack, ra.input);
            assert(rb.failure is None);
            assert(sound(
                cr,
                r,
                stack,
                ra.input,
                (first + left_size / 1024) as u64,
                right_size,
                false,
            ));
            let end = verify_run(all, top, input);
            assert(end.accepted == seq![item] + (ra.accepted + rb.accepted));
            lemma_steps_concat(seq![item], ra.accepted + rb.accepted, 0);
            lemma_steps_concat(ra.accepted, rb.accepted, 0);
            lemma_steps_one(item, 0);
            let dl = steps_data(ra.accepted);
            let dr = steps_data(rb.accepted);
            assert(steps_data(end.accepted) =~= dl + dr);
            lemma_hash_of_parts(first, dl, dr, parent->Parent_is_root);
        },
        Err(_) => {},
    }
}

/// The verifier is sound for the data of a leaf.
pub proof fn lemma_sound_leaf(leaf: BaoChunk<Seq<u64>>, h: Seq<u8>, stack: Seq<Seq<u8>>, input: Seq<u8>)
    requires
        leaf is Leaf,
        verify_run(seq![leaf], stack.push(h), input).failure is None,
    ensures
        sound(
            seq![leaf],
            h,
            stack,
            input,
            (leaf->Leaf_start_chunk).0,
            leaf->Leaf_size as int,
            leaf->Leaf_is_root,
        ),
{
    let all = seq![leaf];
    let top = stack.push(h);
    assert(all[0] == leaf);
    assert(all.skip(1) =~= Seq::<BaoChunk<Seq<u64>>>::empty());
    assert(top.drop_last() =~= stack);
    match verify_step(leaf, top, input) {
        Ok((item, st, inp)) => {
            let end = verify_run(all, top, input);
            let after = verify_run(all.skip(1), st, inp);
            assert(after.accepted =~= Seq::<StepView>::empty());
            assert(end.accepted == seq![item] + after.accepted);
            assert(end.accepted =~= seq![item]);
            lemma_steps_one(item, 0);
        },
        Err(_) => {},
    }
}

/// Soundness below a node: where the verifier, given a hash for a node,
/// goes through the directives for all that lies under the node without a
/// failure, the data that it has accepted has the length of the data under
/// the node and hashes, as the subtree under the node, to the hash.
#[verifier::rlimit(80)]
pub proof fn lemma_sound_node(
    tree: BaoTree,
    node: TreeNode,
    is_root: bool,
    h: Seq<u8>,
    stack: Seq<Seq<u8>>,
    input: Seq<u8>,
)
    requires
        tree.wf(),
        tree.contains(node),
        verify_run(all_chunks(tree, node, is_root), stack.push(h), input).failure is None,
    ensures
        sound(
            all_chunks(tree, node, is_root),
            h,
            stack,
            input,
            tree.block_chunk_spec(node.start_spec()) as u64,
            tree.block_byte_spec(node.end_spec()) - tree.block_byte_spec(node.start_spec()),
            is_root,
        ),
    decreases node.level,
{
    let start = node.start_spec();
    let mid = node.mid_spec();
    let end = node.end_spec();
    let sb = tree.block_byte_spec(start) as int;
    let mb = tree.block_byte_spec(mid) as int;
    let eb = tree.block_byte_spec(end) as int;
    let first = tree.block_chunk_spec(start) as u64;
    let second = tree.block_chunk_spec(mid) as u64;
    let cs = all_chunks(tree, node, is_root);
    let info = node_info(tree, node, seq![0u64], 0, is_root);
    let items = chunk_items(tree, info);
    lemma_info_all(tree, node, is_root);
    lemma_node_bounds(node);
    lemma_contains_bounds(tree, node);
    lemma_tree_bounds(tree);
    lemma_node_chunks(tree, node);
    lemma_node_bytes(tree, node);
    lemma_block_chunk_bound(tree, start);
    lemma_block_chunk_bound(tree, mid);
    lemma_block_byte_diff(tree, start, mid);
    lemma_block_byte_diff(tree, mid, end);
    if node.level == 0 && mb == eb {
        lemma_half_leaf(tree, node);
        assert(partial_nodes(tree, node, seq![0u64], 0, is_root) == seq![info]);
        lemma_infos_chunks_one(tree, info);
        assert(items =~= seq![items[0]]);
        lemma_sound_leaf(items[0], h, stack, input);
    } else {
        lemma_left_half(tree, node);
        let parent = BaoChunk::Parent {
            node,
            is_root: info.is_root,
            left: true,
            right: true,
            ranges: seq![0u64],
        };
        if node.level == 0 {
            lemma_half_leaf(tree, node);
            vstd::arithmetic::power2::lemma2_to64();
            let bb = tree.block_bytes() as int;
            assert(1 * bb == bb) by (nonlinear_arith);
            assert(partial_nodes(tree, node, seq![0u64], 0, is_root) == seq![info]);
            lemma_infos_chunks_one(tree, info);
            let l = items[1];
            let r = items[2];
            assert(items =~= seq![parent] + (seq![l] + seq![r]));
            assert forall|hl: Seq<u8>, below: Seq<Seq<u8>>, rest: Seq<u8>|
                verify_run(seq![l], below.push(hl), rest).failure is None implies #[trigger] sound(
                seq![l],
                hl,
                below,
                rest,
                first,
                mb - sb,
                false,
            ) by {
                lemma_sound_leaf(l, hl, below, rest);
            }
            assert forall|hr: Seq<u8>, below: Seq<Seq<u8>>, rest: Seq<u8>|
                verify_run(seq![r], below.push(hr), rest).failure is None implies #[trigger] sound(
                seq![r],
                hr,
                below,
                rest,
                (first + (mb - sb) / 1024) as u64,
                eb - mb,
                false,
            ) by {
                lemma_sound_leaf(r, hr, below, rest);
            }
            lemma_sound_parent(parent, seq![l], seq![r], h, stack, input, first, mb - sb, eb - mb);
        } else {
            lemma_children_contained(tree, node);
            lemma_children_wf(node);
            let lc = node.left_child_spec();
            let rd = node.right_descendant_spec(tree.filled_size_spec())->0;
            lemma_node_bounds(lc);
            lemma_node_bounds(rd);
            lemma_node_bytes(tree, rd);
            lemma_block_byte(tree, rd.end_spec());
            lemma_block_byte(tree, end);
            let pl = partial_nodes(tree, lc, seq![0u64], 0, false);
            let pr = partial_nodes(tree, rd, seq![0u64], 0, false);
            assert(partial_nodes(tree, node, seq![0u64], 0, is_root) == seq![info] + pl + pr);
            lemma_infos_chunks_concat(tree, seq![info] + pl, pr);
            lemma_infos_chunks_concat(tree, seq![info], pl);
            lemma_infos_chunks_one(tree, info);
            let cl = all_chunks(tree, lc, false);
            let cr = all_chunks(tree, rd, false);
            assert(items =~= seq![parent]);
            assert(cs =~= seq![parent] + (cl + cr));
            assert(lc.start_spec() == start && lc.end_spec() == mid);
            assert(tree.block_byte_spec(rd.end_spec()) == eb);
            assert forall|hl: Seq<u8>, below: Seq<Seq<u8>>, rest: Seq<u8>|
                verify_run(cl, below.push(hl), rest).failure is None implies #[trigger] sound(
                cl,
                hl,
                below,
                rest,
                first,
                mb - sb,
                false,
            ) by {
                lemma_sound_node(tree, lc, false, hl, below, rest);
            }
            assert forall|hr: Seq<u8>, below: Seq<Seq<u8>>, rest: Seq<u8>|
                verify_run(cr, below.push(hr), rest).failure is None implies #[trigger] sound(
                cr,
                hr,
                below,
                rest,
                (first + (mb - sb) / 1024) as u64,
                eb - mb,
                false,
            ) by {
                lemma_sound_node(tree, rd, false, hr, below, rest);
            }
            lemma_sound_parent(parent, cl, cr, h, stack, input, first, mb - sb, eb - mb);
        }
    }
}

/// A changed size is found: a decoder for the query of all chunks that is
/// given the root hash of a blob and reads, in place of the size of the
/// blob, another size that is not 0, hands out the size that it has read
/// and ends in a failure, whatever follows the size, unless data of two
/// lengths has the same hash. This holds of a decoder of responses and of a
/// decoder of slices.
pub proof fn lemma_changed_size(
    size: u64,
    told: u64,
    block_size: BlockSize,
    blob: Seq<u8>,
    rest: Seq<u8>,
)
    requires
        block_size.wf(),
        blob.len() == size,
        told != size,
        told > 0,
    ensures
        ({
            let tree = BaoTree::new_spec(ByteNum(size), block_size);
            let encoded = vstd::bytes::spec_u64_to_le_bytes(told) + rest;
            let start = decoder_start(root_hash(tree, blob), block_size, encoded, seq![0u64]);
            &&& decode_run(start) == block_run(start)
            &&& decode_run(start).1 is None ==> decode_run(start).0.len() > 0 && decode_run(start).0[0]
                == ItemView::Header { size: told }
            &&& decode_run(start).1 is Some || length_collision()
        }),
{
    let tree = BaoTree::new_spec(ByteNum(size), block_size);
    let other = BaoTree::new_spec(ByteNum(told), block_size);
    let header = vstd::bytes::spec_u64_to_le_bytes(told);
    let encoded = header + rest;
    let h = root_hash(tree, blob);
    let start = decoder_start(h, block_size, encoded, seq![0u64]);
    let root = other.root_spec();
    let chunks = other.chunks_spec() as u64;
    let none = Seq::<Seq<u8>>::empty();
    vstd::bytes::lemma_auto_spec_u64_to_from_le_bytes();
    assert(encoded.take(8) =~= header);
    assert(encoded.skip(8) =~= rest);
    lemma_tree_bounds(tree);
    lemma_tree_bounds(other);
    lemma_root_covers(other);
    lemma_node_bounds(root);
    lemma_block_byte(other, root.end_spec());
    assert(0 * other.block_bytes() == 0);
    assert(0 * other.block_size.chunks_spec() == 0);
    assert(chunks >= 1);
    lemma_split_all(chunks);
    let cs = pre_order_chunks(other, seq![0u64], 0);
    assert(cs == all_chunks(other, root, true));
    lemma_all_chunks_whole(other, root, true);
    lemma_whole_response(other, cs);
    lemma_verify_run_plain(cs, seq![h], rest);
    assert(none.push(h) =~= seq![h]);
    let end = verify_run(cs, seq![h], rest);
    assert(decode_run(start).1 == end.failure);
    assert(block_run(start).1 == end.failure);
    if end.failure is None {
        lemma_sound_node(other, root, true, h, none, rest);
        let data = steps_data(end.accepted);
        assert(data.len() == told);
        lemma_root_hash_is_subtree_hash(tree, blob);
        assert(subtree_hash(0, data, true) == subtree_hash(0, blob, true));
        assert(length_collision());
    }
}

} // verus!
