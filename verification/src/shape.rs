//! The tree of blocks and the tree of chunks.
//!
//! The hash of a node of a tree of blocks is built from the hashes of its
//! blocks by the shape of the tree. This module shows that it is the hash of
//! the subtree over the bytes under the node, which is built from chunks
//! alone: the root hash of a blob is the same at every block size.
use vstd::prelude::*;
use vstd::arithmetic::power2::{lemma_pow2_adds, lemma_pow2_pos, lemma_pow2_unfold, pow2};
use crate::codec::{
    lemma_infos_chunks_concat, lemma_infos_chunks_one, node_hash, outboard_pairs, pair_of,
    root_hash, validated_wire, wire,
};
use crate::coverage::{
    block_limit, bounded, lemma_block_limit, lemma_block_limit_monotone, lemma_right_part,
};
use crate::hash::{left_len_from, left_len_spec, lemma_left_len, parent_cv_of, subtree_hash};
use crate::io::sync::chunks_up_to;
use crate::iter::{
    block_tree, chunk_items, infos_chunks, lemma_block_byte_diff, lemma_half_leaf,
    lemma_node_chunks, node_info, partial_nodes, pre_order_chunks, BaoChunk,
};
use crate::laws::{lemma_partial_all_fit, lemma_wire_concat, lemma_wire_one};
use crate::ranges::{
    is_all_spec, lemma_count_below, lemma_split, split_left, split_right, strictly_increasing,
    truncate_spec,
};
use crate::rec::{full_from, selected_wire};
use crate::tree::{
    lemma_block_byte, lemma_block_chunk_bound, lemma_children_contained, lemma_children_wf,
    lemma_contains_bounds, lemma_node_bounds, lemma_root_covers, lemma_tree_bounds, BaoTree,
    ChunkNum, TreeNode,
};

verus! {

/// Doubling from `q` stops at `p`, if `p` is `q` doubled `k` times and `n`
/// is more than `p` and at most twice `p`.
pub proof fn lemma_left_len_is(q: nat, p: nat, n: nat, k: nat)
    requires
        q >= 1,
        p == q * pow2(k),
        p < n <= 2 * p,
    ensures
        left_len_from(q, n) == p,
    decreases k,
{
    lemma_pow2_pos(k);
    if k == 0 {
        assert(pow2(0) == 1) by {
            vstd::arithmetic::power2::lemma2_to64();
        }
        assert(q * 1 == q) by (nonlinear_arith);
    } else {
        lemma_pow2_unfold(k);
        let h = pow2((k - 1) as nat);
        lemma_pow2_pos((k - 1) as nat);
        assert(q * (2 * h) == (2 * q) * h && (2 * q) * h >= 2 * q) by (nonlinear_arith)
            requires
                h >= 1,
                q >= 1,
        ;
        lemma_left_len_is(2 * q, p, n, (k - 1) as nat);
    }
}

/// Where the right half of a node of a tree holds data, the left subtree of
/// the subtree over the bytes under the node holds the bytes of the left
/// half of the node.
pub proof fn lemma_left_half(tree: BaoTree, node: TreeNode)
    requires
        tree.wf(),
        tree.contains(node),
        node.level > 0 || tree.block_byte_spec(node.mid_spec()) != tree.block_byte_spec(
            node.end_spec(),
        ),
    ensures
        tree.block_byte_spec(node.mid_spec()) < tree.block_byte_spec(node.end_spec()),
        node.mid_spec() < tree.blocks_spec(),
        tree.size.0 > 0,
        tree.block_byte_spec(node.start_spec()) == tree.start_chunk.0 * 1024 + node.start_spec()
            * tree.block_bytes(),
        tree.block_byte_spec(node.mid_spec()) == tree.block_byte_spec(node.start_spec())
            + node.half_span_spec() * tree.block_bytes(),
        node.half_span_spec() * tree.block_bytes() >= 1024,
        left_len_spec(
            (tree.block_byte_spec(node.end_spec()) - tree.block_byte_spec(
                node.start_spec(),
            )) as nat,
        ) == node.half_span_spec() * tree.block_bytes(),
        tree.block_chunk_spec(node.start_spec()) + (node.half_span_spec() * tree.block_bytes())
            / 1024 == tree.block_chunk_spec(node.mid_spec()),
        tree.block_chunk_spec(node.mid_spec()) <= u64::MAX,
{
    let start = node.start_spec();
    let mid = node.mid_spec();
    let end = node.end_spec();
    let s = tree.block_byte_spec(start) as int;
    let m = tree.block_byte_spec(mid) as int;
    let e = tree.block_byte_spec(end) as int;
    let bb = tree.block_bytes() as int;
    let c = tree.block_size.chunks_spec() as int;
    let half = node.half_span_spec() as int;
    let off = tree.start_chunk.0 * 1024;
    lemma_node_bounds(node);
    lemma_contains_bounds(tree, node);
    lemma_tree_bounds(tree);
    lemma_block_byte(tree, start);
    lemma_block_byte(tree, mid);
    lemma_block_byte(tree, end);
    lemma_block_byte_diff(tree, start, mid);
    lemma_block_byte_diff(tree, mid, end);
    lemma_block_chunk_bound(tree, start);
    assert(mid * bb < end * bb) by (nonlinear_arith)
        requires
            mid < end,
            bb >= 1,
    ;
    assert(m < e);
    assert(mid < tree.blocks_spec());
    lemma_block_chunk_bound(tree, mid);
    assert(s == off + start * bb);
    assert(m == off + mid * bb);
    assert(m - s == half * bb && e - m <= half * bb && half * bb == 1024 * (half * c) && mid * c
        == start * c + half * c && half * c >= 1) by (nonlinear_arith)
        requires
            mid == start + half,
            end == mid + half,
            s == off + start * bb,
            m == off + mid * bb,
            e <= off + end * bb,
            bb == 1024 * c,
            half >= 1,
            c >= 1,
    ;
    let left = half * bb;
    lemma_pow2_adds(tree.block_size.0 as nat, node.level as nat);
    assert(1024 * (pow2(tree.block_size.0 as nat) * pow2(node.level as nat)) == left)
        by (nonlinear_arith)
        requires
            left == half * bb,
            bb == 1024 * pow2(tree.block_size.0 as nat),
            half == pow2(node.level as nat),
    ;
    lemma_left_len_is(1024, left as nat, (e - s) as nat, (tree.block_size.0 + node.level) as nat);
    assert(left / 1024 == half * c);
}

/// The hash of a node of a tree of blocks is the hash of the subtree over
/// the bytes under the node.
pub proof fn lemma_node_hash_is_subtree_hash(
    tree: BaoTree,
    blob: Seq<u8>,
    node: TreeNode,
    is_root: bool,
)
    requires
        tree.wf(),
        tree.start_chunk.0 * 1024 + tree.size.0 <= blob.len(),
        tree.contains(node),
    ensures
        node_hash(tree, blob, node, is_root) == subtree_hash(
            tree.block_chunk_spec(node.start_spec()) as u64,
            blob.subrange(
                tree.block_byte_spec(node.start_spec()) as int,
                tree.block_byte_spec(node.end_spec()) as int,
            ),
            is_root,
        ),
    decreases node.level,
{
    let start = node.start_spec();
    let mid = node.mid_spec();
    let end = node.end_spec();
    let s = tree.block_byte_spec(start) as int;
    let m = tree.block_byte_spec(mid) as int;
    let e = tree.block_byte_spec(end) as int;
    let first = tree.block_chunk_spec(start) as u64;
    lemma_node_bounds(node);
    lemma_block_byte_diff(tree, start, mid);
    lemma_block_byte_diff(tree, mid, end);
    lemma_block_chunk_bound(tree, start);
    let data = blob.subrange(s, e);
    if node.level == 0 && m == e {
        assert(data =~= blob.subrange(s, m));
    } else {
        lemma_left_half(tree, node);
        let left = m - s;
        assert(data.subrange(0, left) =~= blob.subrange(s, m));
        assert(data.subrange(left, data.len() as int) =~= blob.subrange(m, e));
        let second = (first + left / 1024) as u64;
        assert(subtree_hash(first, data, is_root) == parent_cv_of(
            subtree_hash(first, blob.subrange(s, m), false),
            subtree_hash(second, blob.subrange(m, e), false),
            is_root,
        ));
        if node.level == 0 {
            assert(node.half_span_spec() == 1) by {
                vstd::arithmetic::power2::lemma2_to64();
            }
            let c = tree.block_size.chunks_spec() as int;
            assert((start + 1) * c == start * c + c) by (nonlinear_arith);
            lemma_tree_bounds(tree);
        } else {
            lemma_children_contained(tree, node);
            lemma_children_wf(node);
            let lc = node.left_child_spec();
            let rd = node.right_descendant_spec(tree.filled_size_spec())->0;
            lemma_node_bounds(lc);
            lemma_node_bounds(rd);
            lemma_block_byte(tree, end);
            lemma_block_byte(tree, rd.end_spec());
            lemma_node_hash_is_subtree_hash(tree, blob, lc, false);
            lemma_node_hash_is_subtree_hash(tree, blob, rd, false);
            assert(lc.start_spec() == start && lc.end_spec() == mid);
            assert(tree.block_byte_spec(rd.end_spec()) == e);
        }
    }
}

/// The root hash of a blob is the hash of the subtree over its bytes: it is
/// the same at every block size.
pub proof fn lemma_root_hash_is_subtree_hash(tree: BaoTree, blob: Seq<u8>)
    requires
        tree.wf(),
        tree.start_chunk.0 == 0,
        blob.len() == tree.size.0,
    ensures
        root_hash(tree, blob) == subtree_hash(0, blob, true),
{
    let root = tree.root_spec();
    lemma_tree_bounds(tree);
    lemma_root_covers(tree);
    lemma_node_bounds(root);
    lemma_block_byte(tree, root.end_spec());
    lemma_node_hash_is_subtree_hash(tree, blob, root, true);
    assert(0 * tree.block_bytes() == 0);
    assert(0 * tree.block_size.chunks_spec() == 0);
    assert(blob.subrange(0, blob.len() as int) =~= blob);
}

/// The number of the chunk at which block `k` of a tree of chunks starts,
/// or the number of the chunk after the last one of its data for a block
/// beyond that.
pub open spec fn chunk_limit(tree: BaoTree, k: nat) -> int {
    tree.start_chunk.0 + if k <= tree.chunks_spec() {
        k
    } else {
        tree.chunks_spec()
    }
}

/// The selection within up to one chunk of data is the data, if the query
/// has boundaries, and else nothing.
pub proof fn lemma_selected_chunk(start_chunk: u64, data: Seq<u8>, query: Seq<u64>)
    requires
        data.len() <= 1024,
    ensures
        selected_wire(start_chunk, data, query, true) == if query.len() > 0 {
            data
        } else {
            Seq::empty()
        },
{
}

/// The selection within the bytes under a node of a tree of chunks is what
/// the directives of the traversal by ranges under the node put on the
/// wire, where the traversal stops wherever the query has a node with all
/// that follows it, and the hash pairs are those of the tree.
#[verifier::rlimit(100)]
pub proof fn lemma_selection_under_node(
    tree: BaoTree,
    blob: Seq<u8>,
    node: TreeNode,
    query: Seq<u64>,
    is_root: bool,
)
    requires
        tree.wf(),
        tree.block_size.0 == 0,
        tree.size.0 <= usize::MAX,
        tree.start_chunk.0 * 1024 + tree.size.0 <= blob.len(),
        tree.contains(node),
        strictly_increasing(query),
        bounded(query, chunk_limit(tree, node.end_spec())),
    ensures
        selected_wire(
            tree.block_chunk_spec(node.start_spec()) as u64,
            blob.subrange(
                tree.block_byte_spec(node.start_spec()) as int,
                tree.block_byte_spec(node.end_spec()) as int,
            ),
            query,
            true,
        ) == wire(
            outboard_pairs(tree, blob),
            blob,
            infos_chunks(tree, partial_nodes(tree, node, query, u8::MAX, is_root)),
        ),
    decreases node.level,
{
    let start = node.start_spec();
    let mid = node.mid_spec();
    let end = node.end_spec();
    let s = tree.block_byte_spec(start) as int;
    let m = tree.block_byte_spec(mid) as int;
    let e = tree.block_byte_spec(end) as int;
    let first = tree.block_chunk_spec(start) as u64;
    let second = tree.block_chunk_spec(mid) as u64;
    let pairs = outboard_pairs(tree, blob);
    let data = blob.subrange(s, e);
    let p = partial_nodes(tree, node, query, u8::MAX, is_root);
    let cs = infos_chunks(tree, p);
    let none = Seq::<BaoChunk<Seq<u64>>>::empty();
    let nothing = Seq::<u8>::empty();
    vstd::arithmetic::power2::lemma2_to64();
    lemma_node_bounds(node);
    lemma_contains_bounds(tree, node);
    lemma_tree_bounds(tree);
    lemma_node_chunks(tree, node);
    lemma_block_byte(tree, start);
    lemma_block_byte(tree, mid);
    lemma_block_byte(tree, end);
    lemma_block_byte_diff(tree, start, mid);
    lemma_block_byte_diff(tree, mid, end);
    lemma_block_chunk_bound(tree, start);
    lemma_block_chunk_bound(tree, mid);
    assert(tree.block_size.chunks_spec() == 1);
    assert(tree.block_bytes() == 1024);
    assert(tree.blocks_spec() >= tree.chunks_spec()) by {
        crate::response::lemma_chunk_limit(tree, 0);
    }
    if query.len() == 0 {
        assert(cs =~= none);
        if data.len() > 1024 {
            lemma_left_len(1024, data.len());
        }
    } else {
        let info = node_info(tree, node, query, u8::MAX, is_root);
        let items = chunk_items(tree, info);
        let ql = split_left(query, second);
        let qr = split_right(query, second);
        lemma_split(query, second);
        lemma_count_below(query, second as int);
        lemma_right_part(query, second, chunk_limit(tree, end));
        assert(info.l_ranges == ql && info.r_ranges == qr);
        if node.level == 0 {
            assert(p == seq![info]);
            lemma_infos_chunks_one(tree, info);
            lemma_half_leaf(tree, node);
            assert(1 * 1024 == 1024);
            let left = if ql.len() > 0 {
                seq![
                    BaoChunk::Leaf {
                        start_chunk: ChunkNum(first),
                        is_root: info.is_root && info.is_half_leaf,
                        size: (m - s) as usize,
                        ranges: ql,
                    },
                ]
            } else {
                none
            };
            let ldata = blob.subrange(s, m);
            let lsel = if ql.len() > 0 {
                ldata
            } else {
                nothing
            };
            if ql.len() > 0 {
                lemma_wire_one(pairs, blob, left[0]);
                assert(left =~= seq![left[0]]);
            }
            assert(wire(pairs, blob, left) == lsel);
            lemma_selected_chunk(first, ldata, ql);
            if m == e {
                // the right block holds no data
                assert(info.is_half_leaf);
                assert(data =~= ldata);
                assert(query[0] < second);
                assert(ql.len() > 0);
                assert(items =~= left);
            } else {
                lemma_left_half(tree, node);
                assert(node.half_span_spec() == 1);
                let head = seq![
                    BaoChunk::Parent {
                        node,
                        is_root: info.is_root,
                        left: ql.len() > 0,
                        right: qr.len() > 0,
                        ranges: query,
                    },
                ];
                let right = if qr.len() > 0 {
                    seq![
                        BaoChunk::Leaf {
                            start_chunk: ChunkNum(second),
                            is_root: false,
                            size: (e - m) as usize,
                            ranges: qr,
                        },
                    ]
                } else {
                    none
                };
                let rdata = blob.subrange(m, e);
                let rsel = if qr.len() > 0 {
                    rdata
                } else {
                    nothing
                };
                if qr.len() > 0 {
                    lemma_wire_one(pairs, blob, right[0]);
                    assert(right =~= seq![right[0]]);
                }
                assert(wire(pairs, blob, right) == rsel);
                lemma_selected_chunk(second, rdata, qr);
                assert(items =~= head + left + right);
                lemma_wire_concat(pairs, blob, head + left, right);
                lemma_wire_concat(pairs, blob, head, left);
                lemma_wire_one(pairs, blob, head[0]);
                assert(pairs[node] == pair_of(tree, blob, node));
                assert(data.subrange(0, 1024) =~= ldata);
                assert(data.subrange(1024, data.len() as int) =~= rdata);
                assert(selected_wire(first, data, query, true) == subtree_hash(first, ldata, false)
                    + subtree_hash(second, rdata, false) + selected_wire(first, ldata, ql, true)
                    + selected_wire(second, rdata, qr, true));
            }
        } else {
            lemma_left_half(tree, node);
            let half = m - s;
            let ldata = blob.subrange(s, m);
            let rdata = blob.subrange(m, e);
            assert(data.subrange(0, half) =~= ldata);
            assert(data.subrange(half, data.len() as int) =~= rdata);
            assert(half >= 2048) by {
                vstd::arithmetic::power2::lemma_pow2_strictly_increases(0, node.level as nat);
                assert(node.half_span_spec() >= 2);
                assert(node.half_span_spec() * 1024 >= 2048) by (nonlinear_arith)
                    requires
                        node.half_span_spec() >= 2,
                ;
            }
            assert(info.full == full_from(query, first));
            if info.full {
                assert(info.query_leaf);
                assert(p == seq![info]);
                lemma_infos_chunks_one(tree, info);
                let whole = BaoChunk::Leaf {
                    start_chunk: ChunkNum(first),
                    is_root: info.is_root,
                    size: (e - s) as usize,
                    ranges: query,
                };
                assert(items =~= seq![whole]);
                lemma_wire_one(pairs, blob, whole);
            } else {
                lemma_children_contained(tree, node);
                lemma_children_wf(node);
                let lc = node.left_child_spec();
                let rd = node.right_descendant_spec(tree.filled_size_spec())->0;
                lemma_node_bounds(lc);
                lemma_node_bounds(rd);
                lemma_block_byte(tree, rd.end_spec());
                assert(lc.start_spec() == start && lc.end_spec() == mid);
                assert(tree.block_byte_spec(rd.end_spec()) == e);
                assert(chunk_limit(tree, rd.end_spec()) == chunk_limit(tree, end));
                assert(bounded(ql, chunk_limit(tree, mid))) by {
                    assert forall|j: int| 0 <= j < ql.len() implies ql[j] < chunk_limit(
                        tree,
                        mid,
                    ) by {
                        assert(ql[j] == query[j]);
                    }
                }
                let pl = partial_nodes(tree, lc, ql, u8::MAX, false);
                let pr = partial_nodes(tree, rd, qr, u8::MAX, false);
                assert(!info.query_leaf);
                assert(p == seq![info] + pl + pr);
                lemma_infos_chunks_concat(tree, seq![info] + pl, pr);
                lemma_infos_chunks_concat(tree, seq![info], pl);
                lemma_infos_chunks_one(tree, info);
                let cl = infos_chunks(tree, pl);
                let cr = infos_chunks(tree, pr);
                let head = BaoChunk::Parent {
                    node,
                    is_root: info.is_root,
                    left: ql.len() > 0,
                    right: qr.len() > 0,
                    ranges: query,
                };
                assert(items =~= seq![head]);
                lemma_wire_concat(pairs, blob, items + cl, cr);
                lemma_wire_concat(pairs, blob, items, cl);
                lemma_wire_one(pairs, blob, head);
                lemma_selection_under_node(tree, blob, lc, ql, false);
                lemma_selection_under_node(tree, blob, rd, qr, false);
                lemma_node_hash_is_subtree_hash(tree, blob, lc, false);
                lemma_node_hash_is_subtree_hash(tree, blob, rd, false);
                assert(pairs[node] == pair_of(tree, blob, node));
                assert(selected_wire(first, data, query, true) == subtree_hash(first, ldata, false)
                    + subtree_hash(second, rdata, false) + selected_wire(first, ldata, ql, true)
                    + selected_wire(second, rdata, qr, true));
            }
        }
    }
}

/// The selection within the data of a block is what the directives for the
/// tree of chunks over the data put on the wire: the bytes that an encoder
/// writes for a part of a block are those that a decoder of the directives
/// of the response reads.
pub proof fn lemma_selection_is_traversal(
    start_chunk: ChunkNum,
    size: usize,
    is_root: bool,
    blob: Seq<u8>,
    query: Seq<u64>,
)
    requires
        block_tree(start_chunk, size, is_root).wf(),
        start_chunk.0 * 1024 + size <= blob.len(),
        strictly_increasing(query),
        bounded(query, start_chunk.0 + (size + 1023) / 1024),
    ensures
        selected_wire(
            start_chunk.0,
            blob.subrange(start_chunk.0 * 1024, start_chunk.0 * 1024 + size),
            query,
            true,
        ) == wire(
            outboard_pairs(block_tree(start_chunk, size, is_root), blob),
            blob,
            pre_order_chunks(block_tree(start_chunk, size, is_root), query, u8::MAX),
        ),
{
    let tree = block_tree(start_chunk, size, is_root);
    let root = tree.root_spec();
    vstd::arithmetic::power2::lemma2_to64();
    lemma_tree_bounds(tree);
    lemma_root_covers(tree);
    lemma_node_bounds(root);
    lemma_block_byte(tree, root.end_spec());
    assert(tree.block_size.chunks_spec() == 1);
    assert(tree.block_bytes() == 1024);
    assert(0 * tree.block_bytes() == 0);
    assert(tree.chunks_spec() == (size + 1023) / 1024);
    crate::response::lemma_chunk_limit(tree, 0);
    assert(tree.blocks_spec() >= tree.chunks_spec());
    assert(chunk_limit(tree, root.end_spec()) == start_chunk.0 + (size + 1023) / 1024);
    lemma_selection_under_node(tree, blob, root, query, is_root);
}

/// True if the query of every leaf among the directives `cs` has strictly
/// increasing boundaries, all of them below the end of the data of the
/// leaf.
pub open spec fn queries_bounded(cs: Seq<BaoChunk<Seq<u64>>>) -> bool {
    forall|i: int|
        0 <= i < cs.len() ==> match #[trigger] cs[i] {
            BaoChunk::Leaf { start_chunk, size, ranges, .. } => strictly_increasing(ranges)
                && bounded(ranges, start_chunk.0 + chunks_up_to(size as nat)),
            BaoChunk::Parent { .. } => true,
        }
}

/// The boundaries of the left part of a split lie below the split, and
/// below what the boundaries of the whole lie below.
pub proof fn lemma_left_bounded(r: Seq<u64>, at: u64, u: int)
    requires
        strictly_increasing(r),
    ensures
        strictly_increasing(split_left(r, at)),
        bounded(split_left(r, at), at as int),
        bounded(r, u) ==> bounded(split_left(r, at), if at <= u { at as int } else { u }),
{
    lemma_split(r, at);
    lemma_count_below(r, at as int);
    let l = split_left(r, at);
    assert forall|j: int| 0 <= j < l.len() implies l[j] < at && (bounded(r, u) ==> l[j] < u) by {
        assert(l[j] == r[j]);
    }
}

/// A traversal by ranges hands every leaf under a node a query within the
/// data of the leaf, if it hands the node one within the data under the
/// node.
#[verifier::rlimit(40)]
pub proof fn lemma_queries_bounded(tree: BaoTree, node: TreeNode, r: Seq<u64>, is_root: bool)
    requires
        tree.wf(),
        tree.start_chunk.0 == 0,
        tree.contains(node),
        strictly_increasing(r),
        bounded(r, block_limit(tree, node.end_spec() as int)),
    ensures
        queries_bounded(infos_chunks(tree, partial_nodes(tree, node, r, 0, is_root))),
    decreases node.level,
{
    let start = node.start_spec() as int;
    let mid = node.mid_spec() as int;
    let end = node.end_spec() as int;
    lemma_node_bounds(node);
    lemma_contains_bounds(tree, node);
    lemma_tree_bounds(tree);
    lemma_node_chunks(tree, node);
    lemma_block_limit(tree, start);
    lemma_block_limit(tree, mid);
    lemma_block_limit(tree, end);
    lemma_block_limit_monotone(tree, start, mid);
    lemma_block_limit_monotone(tree, mid, end);
    lemma_block_chunk_bound(tree, node.start_spec());
    lemma_block_chunk_bound(tree, node.mid_spec());
    let u = block_limit(tree, end);
    let p = partial_nodes(tree, node, r, 0, is_root);
    let cs = infos_chunks(tree, p);
    if r.len() == 0 {
        assert(cs =~= Seq::<BaoChunk<Seq<u64>>>::empty());
    } else {
        let info = node_info(tree, node, r, 0, is_root);
        let items = chunk_items(tree, info);
        let second = tree.block_chunk_spec(node.mid_spec()) as u64;
        let ql = split_left(r, second);
        let qr = split_right(r, second);
        lemma_left_bounded(r, second, u);
        lemma_right_part(r, second, u);
        if node.level == 0 {
            assert(p == seq![info]);
            lemma_infos_chunks_one(tree, info);
            lemma_half_leaf(tree, node);
            lemma_block_byte_diff(tree, node.start_spec(), node.mid_spec());
            lemma_block_byte_diff(tree, node.mid_spec(), node.end_spec());
            let bb = tree.block_bytes() as int;
            assert(1 * bb == bb) by (nonlinear_arith);
            vstd::arithmetic::power2::lemma2_to64();
            let sb = tree.block_byte_spec(node.start_spec()) as int;
            let mb = tree.block_byte_spec(node.mid_spec()) as int;
            let eb = tree.block_byte_spec(node.end_spec()) as int;
            let first = tree.block_chunk_spec(node.start_spec()) as int;
            assert(first + chunks_up_to((mb - sb) as nat) == block_limit(tree, mid));
            if tree.is_persisted_spec(node) {
                assert(second + chunks_up_to((eb - mb) as nat) == u);
            }
            assert forall|i: int| 0 <= i < items.len() implies match #[trigger] items[i] {
                BaoChunk::Leaf { start_chunk, size, ranges, .. } => strictly_increasing(ranges)
                    && bounded(ranges, start_chunk.0 + chunks_up_to(size as nat)),
                BaoChunk::Parent { .. } => true,
            } by {}
        } else {
            lemma_children_contained(tree, node);
            lemma_children_wf(node);
            let lc = node.left_child_spec();
            let rd = node.right_descendant_spec(tree.filled_size_spec())->0;
            lemma_node_bounds(lc);
            lemma_node_bounds(rd);
            lemma_block_limit(tree, rd.end_spec() as int);
            assert(block_limit(tree, rd.end_spec() as int) == u);
            assert(lc.end_spec() == mid);
            let pl = partial_nodes(tree, lc, ql, 0, false);
            let pr = partial_nodes(tree, rd, qr, 0, false);
            assert(p == seq![info] + pl + pr);
            lemma_infos_chunks_concat(tree, seq![info] + pl, pr);
            lemma_infos_chunks_concat(tree, seq![info], pl);
            lemma_infos_chunks_one(tree, info);
            let cl = infos_chunks(tree, pl);
            let cr = infos_chunks(tree, pr);
            lemma_queries_bounded(tree, lc, ql, false);
            lemma_queries_bounded(tree, rd, qr, false);
            assert(items.len() == 1 && items[0] is Parent);
            assert(cs == items + cl + cr);
            assert forall|i: int| 0 <= i < cs.len() implies match #[trigger] cs[i] {
                BaoChunk::Leaf { start_chunk, size, ranges, .. } => strictly_increasing(ranges)
                    && bounded(ranges, start_chunk.0 + chunks_up_to(size as nat)),
                BaoChunk::Parent { .. } => true,
            } by {
                if i == 0 {
                    assert(cs[i] == items[0]);
                } else if i < 1 + cl.len() {
                    assert(cs[i] == cl[i - 1]);
                } else {
                    assert(cs[i] == cr[i - 1 - cl.len()]);
                }
            }
        }
    }
}

/// What an encoder that validates writes for a part of a block is what the
/// directives of a response for it put on the wire: for every leaf of which
/// the query has only a part, the bytes written are those of the traversal
/// of the tree of chunks over the data of the leaf, which stops wherever
/// the query has a node with all that follows it.
pub proof fn lemma_selection_interoperates(
    tree: BaoTree,
    pairs: crate::codec::HashPairs,
    blob: Seq<u8>,
    b: Seq<u64>,
    i: int,
)
    requires
        tree.wf(),
        tree.start_chunk.0 == 0,
        blob.len() == tree.size.0,
        strictly_increasing(b),
        0 <= i < pre_order_chunks(tree, truncate_spec(b, tree.chunks_spec() as u64), 0).len(),
    ensures
        match pre_order_chunks(tree, truncate_spec(b, tree.chunks_spec() as u64), 0)[i] {
            BaoChunk::Leaf { start_chunk, size, is_root, ranges } => !is_all_spec(ranges)
                ==> validated_wire(
                pairs,
                blob,
                pre_order_chunks(tree, truncate_spec(b, tree.chunks_spec() as u64), 0)[i],
                true,
            ) == wire(
                outboard_pairs(block_tree(start_chunk, size, is_root), blob),
                blob,
                pre_order_chunks(block_tree(start_chunk, size, is_root), ranges, u8::MAX),
            ),
            BaoChunk::Parent { .. } => true,
        },
{
    let t = truncate_spec(b, tree.chunks_spec() as u64);
    let cs = pre_order_chunks(tree, t, 0);
    let root = tree.root_spec();
    lemma_tree_bounds(tree);
    lemma_root_covers(tree);
    lemma_node_bounds(root);
    lemma_block_limit(tree, root.end_spec() as int);
    lemma_left_bounded(b, tree.chunks_spec() as u64, tree.chunks_spec() as int);
    lemma_queries_bounded(tree, root, t, tree.is_root);
    lemma_partial_all_fit(tree, root, t, tree.is_root);
    match cs[i] {
        BaoChunk::Leaf { start_chunk, size, is_root, ranges } => {
            assert(crate::iter::chunk_fits(tree, cs[i]));
            vstd::arithmetic::power2::lemma2_to64();
            if !is_all_spec(ranges) {
                lemma_selection_is_traversal(start_chunk, size, is_root, blob, ranges);
            }
        },
        BaoChunk::Parent { .. } => {},
    }
}

} // verus!
