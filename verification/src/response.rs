//! Which chunks the data of a response holds.
//!
//! A decoder walks the directives of a response: those of the traversal of
//! the tree of blocks, and within a block of which the query has only a part
//! those of the tree of chunks over the block. This module shows that the
//! data among them is the data of exactly the chunks of the query that the
//! blob has.
use vstd::prelude::*;
use vstd::arithmetic::div_mod::{
    lemma_fundamental_div_mod, lemma_fundamental_div_mod_converse, lemma_mod_bound,
};
use crate::codec::{
    lemma_infos_chunks_concat, lemma_infos_chunks_one, verify_run, verify_step, StepView,
};
use crate::coverage::{
    agree, anchored, block_chunks, block_limit, block_wanted, bounded, covered, leaf_chunks,
    leaves_ordered, lemma_block_limit, lemma_block_limit_monotone, lemma_contains_first,
    lemma_covered_concat, lemma_covered_one, lemma_leaves_ordered_concat,
    lemma_leaves_ordered_wider, lemma_left_part, lemma_left_reaches, lemma_range_fidelity,
    lemma_response_in_order, lemma_right_part, lemma_right_reaches, reaches, wanted_in,
};
use crate::io::sync::{
    chunks_up_to, decode_run, header_tree, step_item, DecoderView, ItemView, PhaseView,
};
use crate::iter::{
    block_tree, chunk_fits, chunk_items, chunks_responses, infos_chunks, inner_response,
    lemma_block_byte_diff, lemma_half_leaf, lemma_node_chunks, node_info, partial_nodes,
    pre_order_chunks, response_chunks, response_items, verifier_chunk, verifier_chunks, BaoChunk,
    ResponseChunk,
};
use crate::laws::lemma_partial_all_fit;
use crate::ranges::{
    chunk_interval, is_all_spec, lemma_count_below, lemma_split, ranges_contain, split_left,
    split_right, strictly_increasing, truncate_spec,
};
use crate::shape::chunk_limit;
use crate::tree::{
    lemma_block_byte, lemma_block_chunk_bound, lemma_children_contained, lemma_children_wf,
    lemma_contains_bounds, lemma_node_bounds, lemma_root_covers, lemma_tree_bounds, BaoTree,
    BlockSize, ByteNum, ChunkNum, TreeNode,
};

verus! {

/// The chunks from `lo` up to `hi` that the set with the boundaries `r`
/// has.
pub open spec fn chunks_of(r: Seq<u64>, lo: int, hi: int) -> Set<int> {
    Set::new(|x: int| lo <= x < hi && ranges_contain(r, x))
}

/// The chunks at which the blocks of a tree of chunks start rise with the
/// blocks, from the first chunk of the tree up to the end of its data.
pub proof fn lemma_chunk_limit(tree: BaoTree, k: nat)
    requires
        tree.wf(),
        tree.block_size.0 == 0,
    ensures
        tree.start_chunk.0 <= chunk_limit(tree, k) <= chunk_limit(tree, k + 1)
            <= tree.start_chunk.0 + tree.chunks_spec(),
        tree.block_byte_spec(k) == tree.start_chunk.0 * 1024 + (if k * 1024 <= tree.size.0 {
            (k * 1024) as int
        } else {
            tree.size.0 as int
        }),
        tree.start_chunk.0 + chunks_up_to((tree.block_byte_spec(k) - tree.start_chunk.0 * 1024) as nat)
            == chunk_limit(tree, k),
        tree.blocks_spec() >= tree.chunks_spec(),
        tree.size.0 > 0 ==> tree.blocks_spec() == tree.chunks_spec(),
        tree.block_size.chunks_spec() == 1,
        tree.block_bytes() == 1024,
{
    vstd::arithmetic::power2::lemma2_to64();
    lemma_tree_bounds(tree);
    assert(tree.block_size.chunks_spec() == 1);
    assert(tree.block_bytes() == 1024);
    let size = tree.size.0 as int;
    let q = size / 1024;
    let r = size % 1024;
    let chunks = q + (if r != 0 {
        1int
    } else {
        0int
    });
    lemma_fundamental_div_mod(size, 1024);
    lemma_mod_bound(size, 1024);
    // the number of chunks, by the quotient and the remainder of the size
    if r == 0 {
        lemma_fundamental_div_mod_converse(size + 1023, 1024, q, 1023);
    } else {
        lemma_fundamental_div_mod_converse(size + 1023, 1024, q + 1, r - 1);
    }
    assert(tree.chunks_spec() == chunks);
    assert(tree.blocks_spec() == (if chunks <= 0 {
        1int
    } else {
        chunks
    }));
    // the chunk at which block `k` starts
    let rel = if k * 1024 <= size {
        (k * 1024) as int
    } else {
        size
    };
    assert(tree.block_byte_spec(k) == tree.start_chunk.0 * 1024 + rel);
    if k * 1024 <= size {
        lemma_fundamental_div_mod_converse((k * 1024 + 1023) as int, 1024, k as int, 1023);
        assert(k <= chunks) by {
            if k > chunks {
                assert(k * 1024 >= (q + 1) * 1024);
            }
        }
    } else {
        assert(k >= chunks) by {
            if k < chunks {
                assert(k * 1024 <= (chunks - 1) * 1024);
            }
        }
        assert(chunks_up_to(size as nat) == chunks);
    }
    assert(chunks_up_to(rel as nat) == (if k <= chunks {
        k as int
    } else {
        chunks
    }));
    let next = (k + 1) as nat;
    assert(chunk_limit(tree, k) <= chunk_limit(tree, next));
}

/// The data among the directives for the part of a tree of chunks under a
/// node, where the traversal stops wherever the query has a node with all
/// that follows it, is the data of the chunks under the node that the query
/// has.
#[verifier::rlimit(100)]
pub proof fn lemma_chunk_cover_node(tree: BaoTree, node: TreeNode, r: Seq<u64>, is_root: bool)
    requires
        tree.wf(),
        tree.block_size.0 == 0,
        tree.size.0 <= usize::MAX,
        tree.contains(node),
        strictly_increasing(r),
        anchored(r, chunk_limit(tree, node.start_spec())),
        bounded(r, chunk_limit(tree, node.end_spec())),
    ensures
        covered(infos_chunks(tree, partial_nodes(tree, node, r, u8::MAX, is_root))) == chunks_of(
            r,
            chunk_limit(tree, node.start_spec()),
            chunk_limit(tree, node.end_spec()),
        ),
    decreases node.level,
{
    let start = node.start_spec();
    let mid = node.mid_spec();
    let end = node.end_spec();
    let s = chunk_limit(tree, start);
    let m = chunk_limit(tree, mid);
    let u = chunk_limit(tree, end);
    let sb = tree.block_byte_spec(start) as int;
    let mb = tree.block_byte_spec(mid) as int;
    let eb = tree.block_byte_spec(end) as int;
    let first = tree.block_chunk_spec(start) as u64;
    let second = tree.block_chunk_spec(mid) as u64;
    let p = partial_nodes(tree, node, r, u8::MAX, is_root);
    let cs = infos_chunks(tree, p);
    let want = chunks_of(r, s, u);
    let none = Seq::<BaoChunk<Seq<u64>>>::empty();
    lemma_node_bounds(node);
    lemma_contains_bounds(tree, node);
    lemma_tree_bounds(tree);
    lemma_node_chunks(tree, node);
    lemma_chunk_limit(tree, start);
    lemma_chunk_limit(tree, mid);
    lemma_chunk_limit(tree, end);
    lemma_block_chunk_bound(tree, start);
    lemma_block_chunk_bound(tree, mid);
    assert(first == tree.start_chunk.0 + start) by {
        assert(start * 1 == start) by (nonlinear_arith);
    }
    assert(second == tree.start_chunk.0 + mid) by {
        assert(mid * 1 == mid) by (nonlinear_arith);
    }
    if r.len() == 0 {
        assert(cs =~= none);
        assert(covered(cs) =~= want);
    } else {
        let info = node_info(tree, node, r, u8::MAX, is_root);
        let items = chunk_items(tree, info);
        let ql = split_left(r, second);
        let qr = split_right(r, second);
        lemma_split(r, second);
        lemma_count_below(r, second as int);
        lemma_left_part(r, s, second, u);
        lemma_right_part(r, second, u);
        if node.level == 0 {
            assert(p == seq![info]);
            lemma_infos_chunks_one(tree, info);
            lemma_half_leaf(tree, node);
            assert(mid == start + 1 && end == mid + 1) by {
                vstd::arithmetic::power2::lemma2_to64();
            }
            let left = if ql.len() > 0 {
                seq![
                    BaoChunk::Leaf {
                        start_chunk: ChunkNum(first),
                        is_root: info.is_root && info.is_half_leaf,
                        size: (mb - sb) as usize,
                        ranges: ql,
                    },
                ]
            } else {
                none
            };
            let right = if qr.len() > 0 && !info.is_half_leaf {
                seq![
                    BaoChunk::Leaf {
                        start_chunk: ChunkNum(second),
                        is_root: false,
                        size: (eb - mb) as usize,
                        ranges: qr,
                    },
                ]
            } else {
                none
            };
            let head = if info.is_half_leaf {
                none
            } else {
                seq![
                    BaoChunk::Parent {
                        node,
                        is_root: info.is_root,
                        left: ql.len() > 0,
                        right: qr.len() > 0,
                        ranges: r,
                    },
                ]
            };
            assert(items =~= head + left + right);
            lemma_covered_concat(head + left, right);
            lemma_covered_concat(head, left);
            if !info.is_half_leaf {
                lemma_covered_one(head[0]);
            }
            assert(covered(head) =~= Set::<int>::empty());
            if ql.len() > 0 {
                lemma_covered_one(left[0]);
            }
            if qr.len() > 0 && !info.is_half_leaf {
                lemma_covered_one(right[0]);
            }
            assert(first + chunks_up_to((mb - sb) as nat) == m);
            assert(covered(left) =~= (if ql.len() > 0 {
                chunk_interval(first as int, m)
            } else {
                Set::<int>::empty()
            }));
            if s < u {
                assert(s == first);
                lemma_left_reaches(r, s, second, u);
                let hi = if second <= u {
                    second as int
                } else {
                    u
                };
                assert(hi == s + 1);
                assert(m == s + 1);
                if reaches(r, s, hi) {
                    let y = choose|y: int| s <= y < hi && #[trigger] ranges_contain(r, y);
                    assert(y == s);
                }
                if ranges_contain(r, s) {
                    assert(reaches(r, s, hi));
                }
                assert((ql.len() > 0) == ranges_contain(r, s));
                if tree.is_persisted_spec(node) {
                    assert(second == m && u == m + 1);
                    lemma_right_reaches(r, second, u);
                    if reaches(r, second as int, u) {
                        let y = choose|y: int| second <= y < u && #[trigger] ranges_contain(r, y);
                        assert(y == m);
                    }
                    if ranges_contain(r, m) {
                        assert(reaches(r, second as int, u));
                    }
                    assert((qr.len() > 0) == ranges_contain(r, m));
                    assert(second + chunks_up_to((eb - mb) as nat) == u);
                    assert(covered(right) =~= (if qr.len() > 0 {
                        chunk_interval(m, u)
                    } else {
                        Set::<int>::empty()
                    }));
                } else {
                    assert(u == m);
                    assert(covered(right) =~= Set::<int>::empty());
                }
                assert(covered(items) =~= want);
            } else {
                assert(m == s && u == s);
                assert(!tree.is_persisted_spec(node));
                assert(covered(items) =~= want);
            }
        } else {
            lemma_block_byte_diff(tree, start, end);
            assert(tree.size.0 > 0);
            assert(m == second);
            assert(s == first);
            if info.full {
                assert(info.query_leaf);
                assert(p == seq![info]);
                lemma_infos_chunks_one(tree, info);
                let whole = BaoChunk::Leaf {
                    start_chunk: ChunkNum(first),
                    is_root: info.is_root,
                    size: (eb - sb) as usize,
                    ranges: r,
                };
                assert(items =~= seq![whole]);
                lemma_covered_one(whole);
                assert(first + chunks_up_to((eb - sb) as nat) == u);
                assert forall|x: int| s <= x < u implies ranges_contain(r, x) by {
                    lemma_contains_first(r, x);
                }
                assert(covered(items) =~= want);
            } else {
                lemma_children_contained(tree, node);
                lemma_children_wf(node);
                let lc = node.left_child_spec();
                let rd = node.right_descendant_spec(tree.filled_size_spec())->0;
                lemma_node_bounds(lc);
                lemma_node_bounds(rd);
                lemma_chunk_limit(tree, rd.end_spec());
                assert(lc.start_spec() == start && lc.end_spec() == mid);
                assert(chunk_limit(tree, rd.end_spec()) == u);
                assert(m <= u);
                let pl = partial_nodes(tree, lc, ql, u8::MAX, false);
                let pr = partial_nodes(tree, rd, qr, u8::MAX, false);
                assert(!info.query_leaf);
                assert(p == seq![info] + pl + pr);
                lemma_infos_chunks_concat(tree, seq![info] + pl, pr);
                lemma_infos_chunks_concat(tree, seq![info], pl);
                lemma_infos_chunks_one(tree, info);
                let cl = infos_chunks(tree, pl);
                let cr = infos_chunks(tree, pr);
                assert(items =~= seq![items[0]]);
                lemma_covered_one(items[0]);
                lemma_covered_concat(items + cl, cr);
                lemma_covered_concat(items, cl);
                lemma_chunk_cover_node(tree, lc, ql, false);
                lemma_chunk_cover_node(tree, rd, qr, false);
                assert(covered(cs) =~= want);
            }
        }
    }
}

/// True if every leaf among the directives `cs` of a traversal of the tree
/// of blocks was handed the chunks of the query `t` within its data: its own
/// query has boundaries, at most one of them before its data and none from
/// its end on, and has the chunks of `t` there.
pub open spec fn faithful(tree: BaoTree, t: Seq<u64>, cs: Seq<BaoChunk<Seq<u64>>>) -> bool {
    forall|i: int|
        0 <= i < cs.len() ==> match #[trigger] cs[i] {
            BaoChunk::Leaf { start_chunk, size, ranges, .. } => {
                let end = start_chunk.0 + chunks_up_to(size as nat);
                &&& ranges.len() > 0
                &&& strictly_increasing(ranges)
                &&& anchored(ranges, start_chunk.0 as int)
                &&& bounded(ranges, end)
                &&& agree(ranges, t, start_chunk.0 as int, end)
                &&& tree.block_size.0 == 0 ==> size <= 1024
            },
            BaoChunk::Parent { .. } => true,
        }
}

/// A traversal by ranges hands every leaf under a node the chunks of the
/// query within its data, if it hands the node those within the data
/// under the node.
#[verifier::rlimit(80)]
pub proof fn lemma_faithful(tree: BaoTree, t: Seq<u64>, node: TreeNode, r: Seq<u64>, is_root: bool)
    requires
        tree.wf(),
        tree.start_chunk.0 == 0,
        tree.size.0 > 0,
        tree.contains(node),
        strictly_increasing(r),
        anchored(r, block_limit(tree, node.start_spec() as int)),
        bounded(r, block_limit(tree, node.end_spec() as int)),
        agree(
            r,
            t,
            block_limit(tree, node.start_spec() as int),
            block_limit(tree, node.end_spec() as int),
        ),
    ensures
        faithful(tree, t, infos_chunks(tree, partial_nodes(tree, node, r, 0, is_root))),
    decreases node.level,
{
    let start = node.start_spec() as int;
    let mid = node.mid_spec() as int;
    let end = node.end_spec() as int;
    lemma_node_bounds(node);
    lemma_contains_bounds(tree, node);
    lemma_tree_bounds(tree);
    lemma_node_chunks(tree, node);
    lemma_block_limit(tree, start);
    lemma_block_limit(tree, mid);
    lemma_block_limit(tree, end);
    lemma_block_limit_monotone(tree, start, mid);
    lemma_block_limit_monotone(tree, mid, end);
    lemma_block_chunk_bound(tree, node.start_spec());
    lemma_block_chunk_bound(tree, node.mid_spec());
    let s = block_limit(tree, start);
    let ml = block_limit(tree, mid);
    let u = block_limit(tree, end);
    let p = partial_nodes(tree, node, r, 0, is_root);
    let cs = infos_chunks(tree, p);
    if r.len() == 0 {
        assert(cs =~= Seq::<BaoChunk<Seq<u64>>>::empty());
    } else {
        let info = node_info(tree, node, r, 0, is_root);
        let items = chunk_items(tree, info);
        let first = tree.block_chunk_spec(node.start_spec()) as int;
        let second = tree.block_chunk_spec(node.mid_spec()) as u64;
        let ql = split_left(r, second);
        let qr = split_right(r, second);
        lemma_split(r, second);
        lemma_left_part(r, s, second, u);
        lemma_right_part(r, second, u);
        assert(s == first);
        assert(ml == (if second <= u { second as int } else { u }));
        assert(agree(ql, t, s, ml));
        if node.level == 0 {
            assert(p == seq![info]);
            lemma_infos_chunks_one(tree, info);
            lemma_half_leaf(tree, node);
            lemma_block_byte_diff(tree, node.start_spec(), node.mid_spec());
            lemma_block_byte_diff(tree, node.mid_spec(), node.end_spec());
            let bb = tree.block_bytes() as int;
            assert(1 * bb == bb) by (nonlinear_arith);
            vstd::arithmetic::power2::lemma2_to64();
            let sb = tree.block_byte_spec(node.start_spec()) as int;
            let mb = tree.block_byte_spec(node.mid_spec()) as int;
            let eb = tree.block_byte_spec(node.end_spec()) as int;
            assert(first + chunks_up_to((mb - sb) as nat) == ml);
            if tree.is_persisted_spec(node) {
                assert(second == ml);
                assert(second + chunks_up_to((eb - mb) as nat) == u);
                assert(agree(qr, t, second as int, u));
            }
            assert forall|i: int| 0 <= i < items.len() implies match #[trigger] items[i] {
                BaoChunk::Leaf { start_chunk, size, ranges, .. } => {
                    let end = start_chunk.0 + chunks_up_to(size as nat);
                    &&& ranges.len() > 0
                    &&& strictly_increasing(ranges)
                    &&& anchored(ranges, start_chunk.0 as int)
                    &&& bounded(ranges, end)
                    &&& agree(ranges, t, start_chunk.0 as int, end)
                    &&& tree.block_size.0 == 0 ==> size <= 1024
                },
                BaoChunk::Parent { .. } => true,
            } by {}
        } else {
            lemma_children_contained(tree, node);
            lemma_children_wf(node);
            let lc = node.left_child_spec();
            let rd = node.right_descendant_spec(tree.filled_size_spec())->0;
            lemma_node_bounds(lc);
            lemma_node_bounds(rd);
            lemma_block_limit(tree, rd.end_spec() as int);
            assert(block_limit(tree, rd.end_spec() as int) == u);
            assert(lc.end_spec() == mid && lc.start_spec() == start);
            assert(second == ml);
            assert(agree(qr, t, second as int, u));
            let pl = partial_nodes(tree, lc, ql, 0, false);
            let pr = partial_nodes(tree, rd, qr, 0, false);
            assert(p == seq![info] + pl + pr);
            lemma_infos_chunks_concat(tree, seq![info] + pl, pr);
            lemma_infos_chunks_concat(tree, seq![info], pl);
            lemma_infos_chunks_one(tree, info);
            let cl = infos_chunks(tree, pl);
            let cr = infos_chunks(tree, pr);
            lemma_faithful(tree, t, lc, ql, false);
            lemma_faithful(tree, t, rd, qr, false);
            assert(items.len() == 1 && items[0] is Parent);
            assert(cs == items + cl + cr);
            assert forall|i: int| 0 <= i < cs.len() implies match #[trigger] cs[i] {
                BaoChunk::Leaf { start_chunk, size, ranges, .. } => {
                    let end = start_chunk.0 + chunks_up_to(size as nat);
                    &&& ranges.len() > 0
                    &&& strictly_increasing(ranges)
                    &&& anchored(ranges, start_chunk.0 as int)
                    &&& bounded(ranges, end)
                    &&& agree(ranges, t, start_chunk.0 as int, end)
                    &&& tree.block_size.0 == 0 ==> size <= 1024
                },
                BaoChunk::Parent { .. } => true,
            } by {
                if i == 0 {
                    assert(cs[i] == items[0]);
                } else if i < 1 + cl.len() {
                    assert(cs[i] == cl[i - 1]);
                } else {
                    assert(cs[i] == cr[i - 1 - cl.len()]);
                }
            }
        }
    }
}

/// The data among directives depends only on their leaves.
pub proof fn lemma_covered_inner(inner: Seq<BaoChunk<Seq<u64>>>)
    ensures
        covered(
            verifier_chunks(inner.map_values(|c: BaoChunk<Seq<u64>>| inner_response(c))),
        ) == covered(inner),
    decreases inner.len(),
{
    let f = |c: BaoChunk<Seq<u64>>| inner_response(c);
    let v = verifier_chunks(inner.map_values(f));
    if inner.len() > 0 {
        assert(v.skip(1) =~= verifier_chunks(inner.skip(1).map_values(f)));
        assert(v[0] == verifier_chunk(inner_response(inner[0])));
        assert(leaf_chunks(v[0]) == leaf_chunks(inner[0]));
        lemma_covered_inner(inner.skip(1));
    }
}

/// The data among the directives of a response is the data among the
/// directives of the traversal of the tree of blocks, as far as the query
/// has its chunks.
#[verifier::rlimit(60)]
pub proof fn lemma_flat_cover(tree: BaoTree, t: Seq<u64>, cs: Seq<BaoChunk<Seq<u64>>>)
    requires
        tree.wf(),
        tree.start_chunk.0 == 0,
        faithful(tree, t, cs),
        forall|i: int| 0 <= i < cs.len() ==> chunk_fits(tree, #[trigger] cs[i]),
    ensures
        covered(verifier_chunks(chunks_responses(tree, cs))) == Set::new(
            |x: int| covered(cs).contains(x) && ranges_contain(t, x),
        ),
    decreases cs.len(),
{
    let flat = verifier_chunks(chunks_responses(tree, cs));
    let want = Set::new(|x: int| covered(cs).contains(x) && ranges_contain(t, x));
    if cs.len() == 0 {
        assert(flat =~= Seq::<BaoChunk<Seq<u64>>>::empty());
        assert(covered(flat) =~= want);
    } else {
        let c = cs[0];
        let rest = cs.skip(1);
        assert forall|i: int| 0 <= i < rest.len() implies chunk_fits(tree, #[trigger] rest[i]) by {
            assert(rest[i] == cs[i + 1]);
        }
        assert(faithful(tree, t, rest)) by {
            assert forall|i: int| 0 <= i < rest.len() implies match #[trigger] rest[i] {
                BaoChunk::Leaf { start_chunk, size, ranges, .. } => {
                    let end = start_chunk.0 + chunks_up_to(size as nat);
                    &&& ranges.len() > 0
                    &&& strictly_increasing(ranges)
                    &&& anchored(ranges, start_chunk.0 as int)
                    &&& bounded(ranges, end)
                    &&& agree(ranges, t, start_chunk.0 as int, end)
                    &&& tree.block_size.0 == 0 ==> size <= 1024
                },
                BaoChunk::Parent { .. } => true,
            } by {
                assert(rest[i] == cs[i + 1]);
            }
        }
        lemma_flat_cover(tree, t, rest);
        let head = verifier_chunks(response_items(tree, c));
        let tail = verifier_chunks(chunks_responses(tree, rest));
        assert(flat =~= head + tail);
        lemma_covered_concat(head, tail);
        assert(chunk_fits(tree, c));
        let own = Set::new(|x: int| leaf_chunks(c).contains(x) && ranges_contain(t, x));
        match c {
            BaoChunk::Parent { .. } => {
                assert(head =~= seq![head[0]]);
                lemma_covered_one(head[0]);
                assert(covered(head) =~= own);
            },
            BaoChunk::Leaf { start_chunk, size, is_root, ranges } => {
                let a = start_chunk.0 as int;
                let e = a + chunks_up_to(size as nat);
                if tree.block_size.0 == 0 || is_all_spec(ranges) {
                    assert(head =~= seq![head[0]]);
                    lemma_covered_one(head[0]);
                    assert forall|x: int| a <= x < e implies ranges_contain(ranges, x) by {
                        if is_all_spec(ranges) {
                            lemma_contains_first(ranges, x);
                        } else {
                            assert(e <= a + 1);
                            assert(ranges[0] < e);
                            lemma_contains_first(ranges, x);
                        }
                    }
                    assert(covered(head) =~= own);
                } else {
                    let little = block_tree(start_chunk, size, is_root);
                    lemma_tree_bounds(tree);
                    assert(little.wf());
                    lemma_tree_bounds(little);
                    lemma_root_covers(little);
                    let root = little.root_spec();
                    lemma_node_bounds(root);
                    lemma_chunk_limit(little, root.start_spec());
                    lemma_chunk_limit(little, root.end_spec());
                    assert(chunk_limit(little, root.start_spec()) == a);
                    assert(chunk_limit(little, root.end_spec()) == e);
                    lemma_chunk_cover_node(little, root, ranges, is_root);
                    let inner = pre_order_chunks(little, ranges, u8::MAX);
                    lemma_covered_inner(inner);
                    assert(covered(head) =~= own);
                }
            },
        }
        assert(covered(flat) =~= want);
    }
}

/// Range fidelity: the data that a decoder hands out for a query is the
/// data of exactly the chunks of the query that the blob has.
pub proof fn lemma_response_fidelity(tree: BaoTree, b: Seq<u64>)
    requires
        tree.wf(),
        tree.start_chunk.0 == 0,
        strictly_increasing(b),
    ensures
        covered(
            verifier_chunks(response_chunks(tree, truncate_spec(b, tree.chunks_spec() as u64), 0)),
        ) == chunks_of(b, 0, tree.chunks_spec() as int),
{
    lemma_tree_bounds(tree);
    let c = tree.chunks_spec() as u64;
    let t = truncate_spec(b, c);
    let root = tree.root_spec();
    let cs = pre_order_chunks(tree, t, 0);
    let blocks = tree.blocks_spec() as int;
    let got = covered(verifier_chunks(response_chunks(tree, t, 0)));
    let want = chunks_of(b, 0, c as int);
    lemma_split(b, c);
    lemma_count_below(b, c as int);
    lemma_root_covers(tree);
    lemma_node_bounds(root);
    if tree.size.0 == 0 {
        assert(t =~= Seq::<u64>::empty());
        assert(cs =~= Seq::<BaoChunk<Seq<u64>>>::empty());
        assert(chunks_responses(tree, cs) =~= Seq::<ResponseChunk>::empty());
        assert(verifier_chunks(chunks_responses(tree, cs)) =~= Seq::<BaoChunk<Seq<u64>>>::empty());
        assert(got =~= want);
    } else {
        lemma_block_limit(tree, 0);
        lemma_block_limit(tree, root.end_spec() as int);
        assert(0 * tree.block_size.chunks_spec() == 0);
        assert(bounded(t, c as int));
        lemma_faithful(tree, t, root, t, tree.is_root);
        lemma_partial_all_fit(tree, root, t, tree.is_root);
        lemma_flat_cover(tree, t, cs);
        lemma_range_fidelity(tree, b);
        let w = wanted_in(tree, b, 0, blocks);
        assert forall|x: int| got.contains(x) <==> want.contains(x) by {
            if got.contains(x) {
                let k = choose|k: int|
                    0 <= k < blocks && #[trigger] block_wanted(tree, b, k) && block_chunks(
                        tree,
                        k,
                    ).contains(x);
                lemma_block_limit(tree, k);
            }
            if want.contains(x) {
                let per = tree.block_size.chunks_spec() as int;
                let k = x / per;
                lemma_fundamental_div_mod(x, per);
                lemma_mod_bound(x, per);
                assert(k * per <= x < (k + 1) * per) by (nonlinear_arith)
                    requires
                        x == per * k + x % per,
                        0 <= x % per < per,
                ;
                assert(0 <= k) by (nonlinear_arith)
                    requires
                        k * per <= x,
                        x < (k + 1) * per,
                        per >= 1,
                        x >= 0,
                ;
                lemma_block_limit(tree, k);
                lemma_block_limit(tree, k + 1);
                lemma_block_byte(tree, k as nat);
                assert(k < blocks) by {
                    if k >= blocks {
                        assert(k * tree.block_bytes() == 1024 * (k * per)) by (nonlinear_arith)
                            requires
                                tree.block_bytes() == 1024 * per,
                        ;
                    }
                }
                assert(block_limit(tree, k) <= x < block_limit(tree, k + 1));
                assert(ranges_contain(b, x));
                assert(block_wanted(tree, b, k));
                assert(block_chunks(tree, k).contains(x));
                assert(w.contains(x));
            }
        }
        assert(got =~= want);
    }
}

/// The data among the directives for the part of a tree of chunks under a
/// node lies under the node, the data of every leaf after the data of the
/// leaves before it.
#[verifier::rlimit(100)]
pub proof fn lemma_chunks_in_order(tree: BaoTree, node: TreeNode, r: Seq<u64>, is_root: bool)
    requires
        tree.wf(),
        tree.block_size.0 == 0,
        tree.size.0 <= usize::MAX,
        tree.contains(node),
    ensures
        leaves_ordered(
            infos_chunks(tree, partial_nodes(tree, node, r, u8::MAX, is_root)),
            chunk_limit(tree, node.start_spec()),
            chunk_limit(tree, node.end_spec()),
        ),
    decreases node.level,
{
    let start = node.start_spec();
    let mid = node.mid_spec();
    let end = node.end_spec();
    let s = chunk_limit(tree, start);
    let m = chunk_limit(tree, mid);
    let u = chunk_limit(tree, end);
    let sb = tree.block_byte_spec(start) as int;
    let mb = tree.block_byte_spec(mid) as int;
    let eb = tree.block_byte_spec(end) as int;
    let first = tree.block_chunk_spec(start) as u64;
    let second = tree.block_chunk_spec(mid) as u64;
    let p = partial_nodes(tree, node, r, u8::MAX, is_root);
    let cs = infos_chunks(tree, p);
    let none = Seq::<BaoChunk<Seq<u64>>>::empty();
    lemma_node_bounds(node);
    lemma_contains_bounds(tree, node);
    lemma_tree_bounds(tree);
    lemma_node_chunks(tree, node);
    lemma_chunk_limit(tree, start);
    lemma_chunk_limit(tree, mid);
    lemma_chunk_limit(tree, end);
    lemma_block_chunk_bound(tree, start);
    lemma_block_chunk_bound(tree, mid);
    assert(first == tree.start_chunk.0 + start) by {
        assert(start * 1 == start) by (nonlinear_arith);
    }
    assert(second == tree.start_chunk.0 + mid) by {
        assert(mid * 1 == mid) by (nonlinear_arith);
    }
    assert(s <= m <= u);
    if r.len() == 0 {
        assert(cs =~= none);
    } else {
        let info = node_info(tree, node, r, u8::MAX, is_root);
        let items = chunk_items(tree, info);
        let ql = split_left(r, second);
        let qr = split_right(r, second);
        if node.level == 0 {
            assert(p == seq![info]);
            lemma_infos_chunks_one(tree, info);
            lemma_half_leaf(tree, node);
            assert(mid == start + 1 && end == mid + 1) by {
                vstd::arithmetic::power2::lemma2_to64();
            }
            let left = if ql.len() > 0 {
                seq![
                    BaoChunk::Leaf {
                        start_chunk: ChunkNum(first),
                        is_root: info.is_root && info.is_half_leaf,
                        size: (mb - sb) as usize,
                        ranges: ql,
                    },
                ]
            } else {
                none
            };
            let right = if qr.len() > 0 && !info.is_half_leaf {
                seq![
                    BaoChunk::Leaf {
                        start_chunk: ChunkNum(second),
                        is_root: false,
                        size: (eb - mb) as usize,
                        ranges: qr,
                    },
                ]
            } else {
                none
            };
            assert(first + chunks_up_to((mb - sb) as nat) == m);
            if ql.len() > 0 {
                assert(left.skip(1) =~= none);
                assert(leaves_ordered(left.skip(1), m, m));
            }
            assert(leaves_ordered(left, s, m));
            if qr.len() > 0 && !info.is_half_leaf {
                assert(right.skip(1) =~= none);
                assert(second + chunks_up_to((eb - mb) as nat) == u);
                assert(leaves_ordered(right.skip(1), u, u));
            }
            assert(leaves_ordered(right, m, u));
            lemma_leaves_ordered_concat(left, right, s, m, u);
            if info.is_half_leaf {
                assert(items =~= left + right);
            } else {
                let head = seq![items[0]];
                assert(items =~= head + (left + right));
                assert((head + (left + right)).skip(1) =~= left + right);
                assert(items[0] is Parent);
            }
            assert(leaves_ordered(items, s, u));
        } else {
            lemma_block_byte_diff(tree, start, end);
            if info.full {
                assert(p == seq![info]);
                lemma_infos_chunks_one(tree, info);
                let whole = BaoChunk::Leaf {
                    start_chunk: ChunkNum(first),
                    is_root: info.is_root,
                    size: (eb - sb) as usize,
                    ranges: r,
                };
                assert(items =~= seq![whole]);
                assert(first + chunks_up_to((eb - sb) as nat) == u);
                assert(items.skip(1) =~= none);
                assert(leaves_ordered(items.skip(1), u, u));
                assert(leaves_ordered(items, s, u));
            } else {
                lemma_children_contained(tree, node);
                lemma_children_wf(node);
                let lc = node.left_child_spec();
                let rd = node.right_descendant_spec(tree.filled_size_spec())->0;
                lemma_node_bounds(lc);
                lemma_node_bounds(rd);
                lemma_chunk_limit(tree, rd.end_spec());
                assert(lc.start_spec() == start && lc.end_spec() == mid);
                assert(chunk_limit(tree, rd.end_spec()) == u);
                let pl = partial_nodes(tree, lc, ql, u8::MAX, false);
                let pr = partial_nodes(tree, rd, qr, u8::MAX, false);
                assert(p == seq![info] + pl + pr);
                lemma_infos_chunks_concat(tree, seq![info] + pl, pr);
                lemma_infos_chunks_concat(tree, seq![info], pl);
                lemma_infos_chunks_one(tree, info);
                let cl = infos_chunks(tree, pl);
                let cr = infos_chunks(tree, pr);
                lemma_chunks_in_order(tree, lc, ql, false);
                lemma_chunks_in_order(tree, rd, qr, false);
                lemma_leaves_ordered_concat(cl, cr, s, m, u);
                assert(items =~= seq![items[0]]);
                assert(items[0] is Parent);
                assert((items + (cl + cr)).skip(1) =~= cl + cr);
                assert(items + cl + cr =~= items + (cl + cr));
                assert(leaves_ordered(items + (cl + cr), s, u));
            }
        }
    }
}

/// The order of data among directives depends only on their leaves.
pub proof fn lemma_ordered_inner(inner: Seq<BaoChunk<Seq<u64>>>, from: int, to: int)
    requires
        leaves_ordered(inner, from, to),
    ensures
        leaves_ordered(
            verifier_chunks(inner.map_values(|c: BaoChunk<Seq<u64>>| inner_response(c))),
            from,
            to,
        ),
    decreases inner.len(),
{
    let f = |c: BaoChunk<Seq<u64>>| inner_response(c);
    let v = verifier_chunks(inner.map_values(f));
    if inner.len() > 0 {
        assert(v.skip(1) =~= verifier_chunks(inner.skip(1).map_values(f)));
        assert(v[0] == verifier_chunk(inner_response(inner[0])));
        match inner[0] {
            BaoChunk::Leaf { start_chunk, size, .. } => {
                lemma_ordered_inner(inner.skip(1), start_chunk.0 + chunks_up_to(size as nat), to);
            },
            BaoChunk::Parent { .. } => {
                lemma_ordered_inner(inner.skip(1), from, to);
            },
        }
    }
}

/// The data among the directives of a response lies in their order where
/// the data among the directives of the traversal of the tree of blocks
/// does.
pub proof fn lemma_flat_ordered(tree: BaoTree, cs: Seq<BaoChunk<Seq<u64>>>, from: int, to: int)
    requires
        tree.wf(),
        tree.start_chunk.0 == 0,
        leaves_ordered(cs, from, to),
        forall|i: int| 0 <= i < cs.len() ==> chunk_fits(tree, #[trigger] cs[i]),
    ensures
        leaves_ordered(verifier_chunks(chunks_responses(tree, cs)), from, to),
    decreases cs.len(),
{
    let flat = verifier_chunks(chunks_responses(tree, cs));
    if cs.len() == 0 {
        assert(flat =~= Seq::<BaoChunk<Seq<u64>>>::empty());
    } else {
        let c = cs[0];
        let rest = cs.skip(1);
        assert forall|i: int| 0 <= i < rest.len() implies chunk_fits(tree, #[trigger] rest[i]) by {
            assert(rest[i] == cs[i + 1]);
        }
        let head = verifier_chunks(response_items(tree, c));
        let tail = verifier_chunks(chunks_responses(tree, rest));
        assert(flat =~= head + tail);
        assert(chunk_fits(tree, c));
        match c {
            BaoChunk::Parent { .. } => {
                lemma_flat_ordered(tree, rest, from, to);
                assert(head =~= seq![head[0]]);
                assert((head + tail).skip(1) =~= tail);
                assert((head + tail)[0] == head[0]);
            },
            BaoChunk::Leaf { start_chunk, size, is_root, ranges } => {
                let a = start_chunk.0 as int;
                let e = a + chunks_up_to(size as nat);
                lemma_flat_ordered(tree, rest, e, to);
                if tree.block_size.0 == 0 || is_all_spec(ranges) {
                    assert(head =~= seq![head[0]]);
                    assert((head + tail).skip(1) =~= tail);
                    assert((head + tail)[0] == head[0]);
                } else {
                    let little = block_tree(start_chunk, size, is_root);
                    lemma_tree_bounds(tree);
                    assert(little.wf());
                    lemma_tree_bounds(little);
                    lemma_root_covers(little);
                    let root = little.root_spec();
                    lemma_node_bounds(root);
                    lemma_chunk_limit(little, root.start_spec());
                    lemma_chunk_limit(little, root.end_spec());
                    assert(chunk_limit(little, root.start_spec()) == a);
                    assert(chunk_limit(little, root.end_spec()) == e);
                    lemma_chunks_in_order(little, root, ranges, is_root);
                    let inner = pre_order_chunks(little, ranges, u8::MAX);
                    lemma_ordered_inner(inner, a, e);
                    lemma_leaves_ordered_wider(head, a, e, from, e);
                    lemma_leaves_ordered_concat(head, tail, from, e, to);
                }
            },
        }
    }
}

/// Order of the data of a response: whatever the query, the data that a
/// decoder hands out lies within the blob, and the data of every leaf
/// comes after the data of the leaves before it.
pub proof fn lemma_response_ordered(tree: BaoTree, r: Seq<u64>)
    requires
        tree.wf(),
        tree.start_chunk.0 == 0,
    ensures
        leaves_ordered(verifier_chunks(response_chunks(tree, r, 0)), 0, tree.chunks_spec() as int),
{
    lemma_tree_bounds(tree);
    lemma_response_in_order(tree, r);
    lemma_partial_all_fit(tree, tree.root_spec(), r, tree.is_root);
    lemma_flat_ordered(tree, pre_order_chunks(tree, r, 0), 0, tree.chunks_spec() as int);
}

/// The chunks of the data among the items that a decoder has handed out.
pub open spec fn items_chunks(items: Seq<ItemView>) -> Set<int>
    decreases items.len(),
{
    if items.len() == 0 {
        Set::empty()
    } else {
        (match items[0] {
            ItemView::Leaf { offset, data } => chunk_interval(
                offset as int / 1024,
                offset as int / 1024 + chunks_up_to(data.len()),
            ),
            _ => Set::empty(),
        }).union(items_chunks(items.skip(1)))
    }
}

/// Data that lies in order between two chunks lies between them.
pub proof fn lemma_ordered_bounds<R>(cs: Seq<BaoChunk<R>>, from: int, to: int)
    requires
        leaves_ordered(cs, from, to),
    ensures
        from <= to,
        forall|i: int|
            0 <= i < cs.len() ==> match #[trigger] cs[i] {
                BaoChunk::Leaf { start_chunk, size, .. } => from <= start_chunk.0
                    && start_chunk.0 + chunks_up_to(size as nat) <= to,
                BaoChunk::Parent { .. } => true,
            },
    decreases cs.len(),
{
    if cs.len() > 0 {
        let next = match cs[0] {
            BaoChunk::Leaf { start_chunk, size, .. } => start_chunk.0 + chunks_up_to(size as nat),
            BaoChunk::Parent { .. } => from,
        };
        lemma_ordered_bounds(cs.skip(1), next, to);
        assert forall|i: int| 0 <= i < cs.len() implies match #[trigger] cs[i] {
            BaoChunk::Leaf { start_chunk, size, .. } => from <= start_chunk.0 && start_chunk.0
                + chunks_up_to(size as nat) <= to,
            BaoChunk::Parent { .. } => true,
        } by {
            if i > 0 {
                assert(cs[i] == cs.skip(1)[i - 1]);
            }
        }
    }
}

/// Where the verifier reaches the end of the directives, the data that it
/// has accepted is the data of the directives.
pub proof fn lemma_accepted_cover(
    cs: Seq<BaoChunk<Seq<u64>>>,
    stack: Seq<Seq<u8>>,
    input: Seq<u8>,
    to: int,
)
    requires
        verify_run(cs, stack, input).failure is None,
        0 <= to <= 0x40_0000_0000_0000,
        forall|i: int|
            0 <= i < cs.len() ==> match #[trigger] cs[i] {
                BaoChunk::Leaf { start_chunk, size, .. } => size > 0 ==> start_chunk.0 < to,
                BaoChunk::Parent { .. } => true,
            },
    ensures
        items_chunks(
            verify_run(cs, stack, input).accepted.map_values(|s: StepView| step_item(s)),
        ) == covered(cs),
    decreases cs.len(),
{
    let f = |s: StepView| step_item(s);
    let end = verify_run(cs, stack, input);
    if cs.len() == 0 {
        assert(end.accepted.map_values(f) =~= Seq::<ItemView>::empty());
    } else {
        match verify_step(cs[0], stack, input) {
            Ok((item, st, inp)) => {
                let rest = verify_run(cs.skip(1), st, inp);
                assert forall|i: int| 0 <= i < cs.skip(1).len() implies match #[trigger] cs.skip(
                    1,
                )[i] {
                    BaoChunk::Leaf { start_chunk, size, .. } => size > 0 ==> start_chunk.0 < to,
                    BaoChunk::Parent { .. } => true,
                } by {
                    assert(cs.skip(1)[i] == cs[i + 1]);
                }
                lemma_accepted_cover(cs.skip(1), st, inp, to);
                let items = end.accepted.map_values(f);
                assert(items.skip(1) =~= rest.accepted.map_values(f));
                assert(items[0] == step_item(item));
                match cs[0] {
                    BaoChunk::Leaf { start_chunk, size, .. } => {
                        if size > 0 {
                            assert(start_chunk.0 < to);
                            let bytes = start_chunk.0 * 1024;
                            assert(0 <= bytes <= 0x1_0000_0000_0000_0000 - 1);
                            assert(bytes as u64 == bytes);
                            assert(bytes / 1024 == start_chunk.0);
                        } else {
                            assert(chunks_up_to(0) == 0);
                            let o = (start_chunk.0 * 1024) as u64 as int / 1024;
                            assert(chunk_interval(o, o + 0) =~= chunk_interval(
                                start_chunk.0 as int,
                                start_chunk.0 + 0,
                            ));
                        }
                    },
                    BaoChunk::Parent { .. } => {},
                }
            },
            Err(_) => {},
        }
    }
}

/// Range fidelity of a decoder: where a decoder reads a response to its
/// end without a failure, the data that it has handed out is the data of
/// exactly the chunks of the query that the blob of the size in the header
/// has, and the data of every item comes after the data of the items
/// before it.
pub proof fn lemma_decoded_chunks(
    stack: Seq<Seq<u8>>,
    block_size: BlockSize,
    input: Seq<u8>,
    b: Seq<u64>,
)
    requires
        block_size.wf(),
        strictly_increasing(b),
        decode_run(
            DecoderView { phase: PhaseView::Header { ranges: b, block_size }, stack, input },
        ).1 is None,
        input.len() >= 8,
    ensures
        ({
            let run = decode_run(
                DecoderView { phase: PhaseView::Header { ranges: b, block_size }, stack, input },
            );
            let tree = header_tree(run.0, block_size);
            &&& run.0.len() > 0
            &&& run.0[0] == ItemView::Header {
                size: vstd::bytes::spec_u64_from_le_bytes(input.take(8)),
            }
            &&& items_chunks(run.0) == chunks_of(b, 0, tree.chunks_spec() as int)
        }),
{
    let start = DecoderView { phase: PhaseView::Header { ranges: b, block_size }, stack, input };
    let run = decode_run(start);
    let size = vstd::bytes::spec_u64_from_le_bytes(input.take(8));
    let tree = BaoTree::new_spec(ByteNum(size), block_size);
    let t = truncate_spec(b, tree.chunks_spec() as u64);
    let cs = verifier_chunks(response_chunks(tree, t, 0));
    let end = verify_run(cs, stack, input.skip(8));
    let f = |s: StepView| step_item(s);
    assert(run.0 == seq![ItemView::Header { size }] + end.accepted.map_values(f));
    assert(run.0.skip(1) =~= end.accepted.map_values(f));
    assert(tree.wf() && tree.start_chunk.0 == 0);
    lemma_tree_bounds(tree);
    lemma_response_ordered(tree, t);
    lemma_ordered_bounds(cs, 0, tree.chunks_spec() as int);
    lemma_accepted_cover(cs, stack, input.skip(8), tree.chunks_spec() as int);
    lemma_response_fidelity(tree, b);
    assert(items_chunks(run.0) =~= items_chunks(run.0.skip(1)));
}

} // verus!
