//! Which blocks the data of a traversal of the tree of blocks covers.
//!
//! A traversal by ranges hands a node the part of the query that reaches
//! it. This module shows that the data among its directives is the data of
//! exactly the blocks that the query reaches.
use vstd::prelude::*;
use crate::codec::{lemma_infos_chunks_concat, lemma_infos_chunks_one};
use crate::io::sync::chunks_up_to;
use crate::iter::{
    chunk_items, infos_chunks, lemma_half_leaf, lemma_node_chunks, node_info, partial_nodes,
    pre_order_chunks, BaoChunk,
};
use crate::ranges::{
    chunk_interval, count_below, lemma_count_below, lemma_count_below_is,
    lemma_count_below_monotone, lemma_split, ranges_contain, split_left, split_right,
    strictly_increasing, truncate_spec,
};
use crate::tree::{
    lemma_block_byte, lemma_block_chunk_bound, lemma_children_contained, lemma_children_wf,
    lemma_contains_bounds, lemma_node_bounds, lemma_root_covers, lemma_tree_bounds, BaoTree,
    TreeNode,
};

verus! {

/// True if the set with the boundaries `r` has a chunk from `lo` up to
/// `hi`.
pub open spec fn reaches(r: Seq<u64>, lo: int, hi: int) -> bool {
    exists|y: int| lo <= y < hi && #[trigger] ranges_contain(r, y)
}

/// True if at most one boundary of `r` lies below `s`, and the set has the
/// chunk `s` if one does.
pub open spec fn anchored(r: Seq<u64>, s: int) -> bool {
    r.len() == 0 || r[0] >= s || r.len() == 1 || r[1] > s
}

/// True if all boundaries of `r` lie below `u`.
pub open spec fn bounded(r: Seq<u64>, u: int) -> bool {
    forall|j: int| 0 <= j < r.len() ==> r[j] < u
}

/// True if the sets with the boundaries `r` and `t` have the same chunks
/// from `lo` up to `hi`.
pub open spec fn agree(r: Seq<u64>, t: Seq<u64>, lo: int, hi: int) -> bool {
    forall|x: int| lo <= x < hi ==> ranges_contain(r, x) == ranges_contain(t, x)
}

/// The set with strictly increasing boundaries has its first boundary, and
/// a chunk above a single boundary below it.
pub proof fn lemma_contains_first(r: Seq<u64>, y: int)
    requires
        strictly_increasing(r),
        r.len() > 0,
        r[0] <= y,
        r.len() == 1 || r[1] > y,
    ensures
        ranges_contain(r, y),
{
    assert forall|j: int| 1 <= j < r.len() implies r[j] >= y + 1 by {
        if j > 1 {
            assert(r[1] < r[j]);
        }
    }
    lemma_count_below_is(r, y + 1, 1);
}

/// The left part of a split has boundaries exactly if the set reaches below
/// the split.
pub proof fn lemma_left_reaches(r: Seq<u64>, s: int, m: u64, u: int)
    requires
        strictly_increasing(r),
        anchored(r, s),
        bounded(r, u),
        0 <= s < m,
        s < u,
    ensures
        split_left(r, m).len() > 0 <==> reaches(r, s, if m <= u { m as int } else { u }),
{
    lemma_count_below(r, m as int);
    let hi = if m <= u {
        m as int
    } else {
        u
    };
    if split_left(r, m).len() > 0 {
        assert(r[0] < m);
        if r[0] >= s {
            if r.len() > 1 {
                assert(r[0] < r[1]);
            }
            lemma_contains_first(r, r[0] as int);
            assert(ranges_contain(r, r[0] as int));
        } else {
            lemma_contains_first(r, s);
            assert(ranges_contain(r, s));
        }
    }
    if reaches(r, s, hi) {
        let y = choose|y: int| s <= y < hi && #[trigger] ranges_contain(r, y);
        lemma_count_below(r, y + 1);
        lemma_count_below_monotone(r, y + 1, m as int);
    }
}

/// The right part of a split has boundaries exactly if the set reaches from
/// the split on.
pub proof fn lemma_right_reaches(r: Seq<u64>, m: u64, u: int)
    requires
        strictly_increasing(r),
        bounded(r, u),
        m < u,
    ensures
        split_right(r, m).len() > 0 <==> reaches(r, m as int, u),
{
    lemma_count_below(r, m as int);
    let i = count_below(r, m as int) as int;
    let right = split_right(r, m);
    if right.len() > 0 {
        if i % 2 == 0 {
            let y = r[i] as int;
            assert forall|j: int| i + 1 <= j < r.len() implies r[j] >= y + 1 by {
                assert(r[i] < r[j]);
            }
            lemma_count_below_is(r, y + 1, i + 1);
            assert(ranges_contain(r, y));
        } else if i < r.len() && r[i] == m {
            let y = r[i + 1] as int;
            assert forall|j: int| i + 2 <= j < r.len() implies r[j] >= y + 1 by {
                assert(r[i + 1] < r[j]);
            }
            assert forall|j: int| 0 <= j < i + 2 implies r[j] < y + 1 by {
                if j < i + 1 {
                    assert(r[j] < r[i + 1]);
                }
            }
            lemma_count_below_is(r, y + 1, i + 2);
            assert(ranges_contain(r, y));
        } else {
            let y = m as int;
            assert forall|j: int| i <= j < r.len() implies r[j] >= y + 1 by {
                if j > i {
                    assert(r[i] < r[j]);
                }
            }
            lemma_count_below_is(r, y + 1, i);
            assert(ranges_contain(r, y));
        }
    }
    if reaches(r, m as int, u) {
        let y = choose|y: int| m <= y < u && #[trigger] ranges_contain(r, y);
        lemma_count_below(r, y + 1);
        lemma_count_below_monotone(r, m as int, y + 1);
        let c = count_below(r, y + 1) as int;
        if i % 2 == 0 {
            if i == r.len() {
                assert(c == i);
            }
        } else if i < r.len() && r[i] == m {
            if i + 1 == r.len() {
                if c < i + 1 {
                    assert(r[i] >= y + 1);
                }
                assert(c == i + 1);
            }
        }
    }
}

/// What holds of the left part of a split of boundaries of which at most
/// one lies below `s`.
pub proof fn lemma_left_part(r: Seq<u64>, s: int, m: u64, u: int)
    requires
        strictly_increasing(r),
        anchored(r, s),
        bounded(r, u),
    ensures
        strictly_increasing(split_left(r, m)),
        anchored(split_left(r, m), s),
        bounded(split_left(r, m), if m <= u { m as int } else { u }),
{
    lemma_split(r, m);
    lemma_count_below(r, m as int);
    let l = split_left(r, m);
    assert(l == r.take(count_below(r, m as int) as int));
    if l.len() > 1 {
        assert(l[0] == r[0]);
        assert(l[1] == r[1]);
    }
    if l.len() > 0 {
        assert(l[0] == r[0]);
    }
    assert forall|j: int| 0 <= j < l.len() implies l[j] < u by {
        assert(l[j] == r[j]);
    }
}

/// What holds of the right part of a split of boundaries.
pub proof fn lemma_right_part(r: Seq<u64>, m: u64, u: int)
    requires
        strictly_increasing(r),
        bounded(r, u),
    ensures
        strictly_increasing(split_right(r, m)),
        anchored(split_right(r, m), m as int),
        bounded(split_right(r, m), u),
{
    lemma_split(r, m);
    lemma_count_below(r, m as int);
    let i = count_below(r, m as int) as int;
    let right = split_right(r, m);
    let k = if i % 2 == 0 {
        i
    } else if i < r.len() && r[i] == m {
        i + 1
    } else {
        i - 1
    };
    assert(right == r.skip(k));
    assert forall|j: int| 0 <= j < right.len() implies right[j] < u by {
        assert(right[j] == r[j + k]);
    }
    if right.len() > 0 {
        assert(right[0] == r[k]);
        if right.len() > 1 {
            assert(right[1] == r[k + 1]);
            if k == i + 1 {
                assert(r[i] < r[i + 1]);
            }
            if k == i - 1 {
                assert(r[i] >= m);
                if r[i] == m {
                    assert(false);
                }
            }
        }
    }
}

/// The chunks of the data of a directive.
pub open spec fn leaf_chunks<R>(c: BaoChunk<R>) -> Set<int> {
    match c {
        BaoChunk::Leaf { start_chunk, size, .. } => chunk_interval(
            start_chunk.0 as int,
            start_chunk.0 + chunks_up_to(size as nat),
        ),
        BaoChunk::Parent { .. } => Set::empty(),
    }
}

/// The chunks of the data of a sequence of directives.
pub open spec fn covered<R>(cs: Seq<BaoChunk<R>>) -> Set<int>
    decreases cs.len(),
{
    if cs.len() == 0 {
        Set::empty()
    } else {
        leaf_chunks(cs[0]).union(covered(cs.skip(1)))
    }
}

/// The chunks of the data of two sequences of directives, one after the
/// other.
pub proof fn lemma_covered_concat<R>(a: Seq<BaoChunk<R>>, b: Seq<BaoChunk<R>>)
    ensures
        covered(a + b) == covered(a).union(covered(b)),
    decreases a.len(),
{
    if a.len() == 0 {
        assert(a + b =~= b);
        assert(covered(a).union(covered(b)) =~= covered(b));
    } else {
        assert((a + b).skip(1) =~= a.skip(1) + b);
        assert((a + b)[0] == a[0]);
        lemma_covered_concat(a.skip(1), b);
        assert(leaf_chunks(a[0]).union(covered(a.skip(1)).union(covered(b))) =~= leaf_chunks(a[0])
            .union(covered(a.skip(1))).union(covered(b)));
    }
}

/// The chunks of the data of one directive.
pub proof fn lemma_covered_one<R>(c: BaoChunk<R>)
    ensures
        covered(seq![c]) == leaf_chunks(c),
{
    let s = seq![c];
    assert(s.skip(1) =~= Seq::<BaoChunk<R>>::empty());
    assert(covered(s.skip(1)) =~= Set::<int>::empty());
    assert(leaf_chunks(c).union(Set::<int>::empty()) =~= leaf_chunks(c));
}

/// The number of the chunk at which block `k` of a tree that starts at
/// chunk 0 starts, or the number of chunks of the blob for a block beyond
/// it.
pub open spec fn block_limit(tree: BaoTree, k: int) -> int {
    let c = k * tree.block_size.chunks_spec();
    if c <= tree.chunks_spec() {
        c
    } else {
        tree.chunks_spec() as int
    }
}

/// The chunks of block `k` of a blob.
pub open spec fn block_chunks(tree: BaoTree, k: int) -> Set<int> {
    chunk_interval(block_limit(tree, k), block_limit(tree, k + 1))
}

/// True if the query with the boundaries `t` has a chunk of block `k`.
pub open spec fn block_wanted(tree: BaoTree, t: Seq<u64>, k: int) -> bool {
    reaches(t, block_limit(tree, k), block_limit(tree, k + 1))
}

/// The chunks of the blocks from `lo` up to `hi` of which the query with
/// the boundaries `t` has a chunk.
pub open spec fn wanted_in(tree: BaoTree, t: Seq<u64>, lo: int, hi: int) -> Set<int> {
    Set::new(
        |x: int|
            exists|k: int|
                lo <= k < hi && #[trigger] block_wanted(tree, t, k) && block_chunks(
                    tree,
                    k,
                ).contains(x),
    )
}

/// The chunk numbers at which the blocks of a tree that starts at chunk 0
/// start rise with the blocks, up to the number of chunks of the blob; the
/// bytes at which they start are these chunks.
pub proof fn lemma_block_limit(tree: BaoTree, k: int)
    requires
        tree.wf(),
        tree.start_chunk.0 == 0,
        0 <= k,
    ensures
        0 <= block_limit(tree, k) <= block_limit(tree, k + 1) <= tree.chunks_spec(),
        chunks_up_to(tree.block_byte_spec(k as nat)) == block_limit(tree, k),
        k < tree.blocks_spec() && tree.size.0 > 0 ==> block_limit(tree, k) == k
            * tree.block_size.chunks_spec() && block_limit(tree, k) < tree.chunks_spec(),
        k >= tree.blocks_spec() ==> block_limit(tree, k) == tree.chunks_spec(),
        tree.block_byte_spec(k as nat) % 1024 == 0 || tree.block_byte_spec(k as nat)
            == tree.size.0,
{
    lemma_tree_bounds(tree);
    lemma_block_byte(tree, k as nat);
    let c = tree.block_size.chunks_spec() as int;
    let bb = tree.block_bytes() as int;
    assert(k * bb == 1024 * (k * c) && (k + 1) * c == k * c + c && k * c >= 0) by (nonlinear_arith)
        requires
            bb == 1024 * c,
            k >= 0,
            c >= 1,
    ;
}


/// The chunks that a query has in the blocks from `lo` up to `hi` are those
/// that it has in the blocks up to `mid` and in the blocks from `mid` on.
pub proof fn lemma_wanted_split(tree: BaoTree, t: Seq<u64>, lo: int, mid: int, hi: int)
    requires
        lo <= mid <= hi,
    ensures
        wanted_in(tree, t, lo, hi) == wanted_in(tree, t, lo, mid).union(
            wanted_in(tree, t, mid, hi),
        ),
{
    let a = wanted_in(tree, t, lo, hi);
    let b = wanted_in(tree, t, lo, mid).union(wanted_in(tree, t, mid, hi));
    assert forall|x: int| a.contains(x) <==> b.contains(x) by {
        if a.contains(x) {
            let k = choose|k: int|
                lo <= k < hi && #[trigger] block_wanted(tree, t, k) && block_chunks(
                    tree,
                    k,
                ).contains(x);
            if k < mid {
                assert(wanted_in(tree, t, lo, mid).contains(x));
            } else {
                assert(wanted_in(tree, t, mid, hi).contains(x));
            }
        }
        if wanted_in(tree, t, lo, mid).contains(x) {
            let k = choose|k: int|
                lo <= k < mid && #[trigger] block_wanted(tree, t, k) && block_chunks(
                    tree,
                    k,
                ).contains(x);
            assert(lo <= k < hi);
        }
        if wanted_in(tree, t, mid, hi).contains(x) {
            let k = choose|k: int|
                mid <= k < hi && #[trigger] block_wanted(tree, t, k) && block_chunks(
                    tree,
                    k,
                ).contains(x);
            assert(lo <= k < hi);
        }
    }
    assert(a =~= b);
}

/// The chunks that a query has in one block.
pub proof fn lemma_wanted_one(tree: BaoTree, t: Seq<u64>, k: int)
    ensures
        wanted_in(tree, t, k, k + 1) == (if block_wanted(tree, t, k) {
            block_chunks(tree, k)
        } else {
            Set::<int>::empty()
        }),
{
    let a = wanted_in(tree, t, k, k + 1);
    let b = if block_wanted(tree, t, k) {
        block_chunks(tree, k)
    } else {
        Set::<int>::empty()
    };
    assert forall|x: int| a.contains(x) <==> b.contains(x) by {
        if a.contains(x) {
            let j = choose|j: int|
                k <= j < k + 1 && #[trigger] block_wanted(tree, t, j) && block_chunks(
                    tree,
                    j,
                ).contains(x);
            assert(j == k);
        }
        if b.contains(x) {
            assert(k <= k < k + 1 && block_wanted(tree, t, k));
        }
    }
    assert(a =~= b);
}

/// A query has no chunk in blocks beyond the blob.
pub proof fn lemma_wanted_beyond(tree: BaoTree, t: Seq<u64>, lo: int, hi: int)
    requires
        tree.wf(),
        tree.start_chunk.0 == 0,
        lo >= tree.blocks_spec(),
    ensures
        wanted_in(tree, t, lo, hi) == Set::<int>::empty(),
{
    let a = wanted_in(tree, t, lo, hi);
    assert forall|x: int| !a.contains(x) by {
        if a.contains(x) {
            let k = choose|k: int|
                lo <= k < hi && #[trigger] block_wanted(tree, t, k) && block_chunks(
                    tree,
                    k,
                ).contains(x);
            lemma_block_limit(tree, k);
            lemma_block_limit(tree, k + 1);
        }
    }
    assert(a =~= Set::<int>::empty());
}

/// A query has no chunk in blocks in which a part of it that has the same
/// chunks there has no boundary.
pub proof fn lemma_wanted_none(tree: BaoTree, t: Seq<u64>, r: Seq<u64>, lo: int, hi: int)
    requires
        tree.wf(),
        tree.start_chunk.0 == 0,
        0 <= lo <= hi,
        r.len() == 0,
        agree(r, t, block_limit(tree, lo), block_limit(tree, hi)),
    ensures
        wanted_in(tree, t, lo, hi) == Set::<int>::empty(),
{
    let a = wanted_in(tree, t, lo, hi);
    assert forall|x: int| !a.contains(x) by {
        if a.contains(x) {
            let k = choose|k: int|
                lo <= k < hi && #[trigger] block_wanted(tree, t, k) && block_chunks(
                    tree,
                    k,
                ).contains(x);
            lemma_block_limit_monotone(tree, lo, k);
            lemma_block_limit_monotone(tree, k + 1, hi);
            let y = choose|y: int|
                block_limit(tree, k) <= y < block_limit(tree, k + 1) && #[trigger] ranges_contain(
                    t,
                    y,
                );
            assert(ranges_contain(r, y) == ranges_contain(t, y));
            assert(count_below(r, y + 1) == 0);
        }
    }
    assert(a =~= Set::<int>::empty());
}

/// The chunk numbers at which blocks start rise with the blocks.
pub proof fn lemma_block_limit_monotone(tree: BaoTree, a: int, b: int)
    requires
        tree.wf(),
        tree.start_chunk.0 == 0,
        0 <= a <= b,
    ensures
        block_limit(tree, a) <= block_limit(tree, b),
    decreases b - a,
{
    if a < b {
        lemma_block_limit(tree, a);
        lemma_block_limit_monotone(tree, a + 1, b);
    }
}

/// A query reaches a range of chunks exactly if a part of it that has the
/// same chunks there does.
pub proof fn lemma_reaches_agree(r: Seq<u64>, t: Seq<u64>, lo: int, hi: int, s: int, u: int)
    requires
        agree(r, t, s, u),
        s <= lo,
        hi <= u,
    ensures
        reaches(r, lo, hi) == reaches(t, lo, hi),
{
    if reaches(r, lo, hi) {
        let y = choose|y: int| lo <= y < hi && #[trigger] ranges_contain(r, y);
        assert(ranges_contain(t, y));
    }
    if reaches(t, lo, hi) {
        let y = choose|y: int| lo <= y < hi && #[trigger] ranges_contain(t, y);
        assert(ranges_contain(r, y));
    }
}

/// Range fidelity for a leaf: the data among the directives for a leaf is
/// the data of those of its two blocks that the query reaches.
#[verifier::rlimit(40)]
pub proof fn lemma_cover_leaf(
    tree: BaoTree,
    t: Seq<u64>,
    node: TreeNode,
    r: Seq<u64>,
    is_root: bool,
)
    requires
        tree.wf(),
        tree.start_chunk.0 == 0,
        tree.size.0 > 0,
        tree.contains(node),
        node.level == 0,
        r.len() > 0,
        strictly_increasing(r),
        anchored(r, block_limit(tree, node.start_spec() as int)),
        bounded(r, block_limit(tree, node.end_spec() as int)),
        agree(
            r,
            t,
            block_limit(tree, node.start_spec() as int),
            block_limit(tree, node.end_spec() as int),
        ),
    ensures
        covered(chunk_items(tree, node_info(tree, node, r, 0, is_root))) == wanted_in(
            tree,
            t,
            node.start_spec() as int,
            node.end_spec() as int,
        ),
{
    let start = node.start_spec() as int;
    let mid = node.mid_spec() as int;
    let end = node.end_spec() as int;
    lemma_contains_bounds(tree, node);
    lemma_node_bounds(node);
    lemma_tree_bounds(tree);
    lemma_node_chunks(tree, node);
    lemma_half_leaf(tree, node);
    lemma_block_chunk_bound(tree, node.start_spec());
    lemma_block_chunk_bound(tree, node.mid_spec());
    lemma_block_limit(tree, start);
    lemma_block_limit(tree, mid);
    lemma_block_limit(tree, end);
    vstd::arithmetic::power2::lemma2_to64();
    let s = block_limit(tree, start);
    let ml = block_limit(tree, mid);
    let u = block_limit(tree, end);
    let m = tree.block_chunk_spec(node.mid_spec()) as u64;
    let info = node_info(tree, node, r, 0, is_root);
    let items = chunk_items(tree, info);
    let l = info.l_ranges;
    let rr = info.r_ranges;
    assert(l == split_left(r, m));
    assert(rr == split_right(r, m));
    assert(s == tree.block_chunk_spec(node.start_spec()));
    assert(s < m);
    lemma_left_reaches(r, s, m, u);
    lemma_reaches_agree(r, t, s, ml, s, u);
    assert(ml == (if m <= u { m as int } else { u }));
    assert((l.len() > 0) == block_wanted(tree, t, start));
    let persisted = tree.is_persisted_spec(node);
    if persisted {
        assert(m < u);
        lemma_right_reaches(r, m, u);
        lemma_reaches_agree(r, t, m as int, u, s, u);
        assert(ml == m);
        assert((rr.len() > 0) == block_wanted(tree, t, mid));
    } else {
        assert(ml == u);
        assert(!block_wanted(tree, t, mid));
    }
    lemma_wanted_split(tree, t, start, mid, end);
    lemma_wanted_one(tree, t, start);
    lemma_wanted_one(tree, t, mid);
    // the directives
    let sb = tree.block_byte_spec(node.start_spec()) as int;
    let mb = tree.block_byte_spec(node.mid_spec()) as int;
    let eb = tree.block_byte_spec(node.end_spec()) as int;
    crate::iter::lemma_block_byte_diff(tree, node.start_spec(), node.mid_spec());
    crate::iter::lemma_block_byte_diff(tree, node.mid_spec(), node.end_spec());
    let bb = tree.block_bytes() as int;
    assert(1 * bb == bb) by (nonlinear_arith);
    let head = if info.is_half_leaf {
        Seq::<BaoChunk<Seq<u64>>>::empty()
    } else {
        seq![
            BaoChunk::Parent {
                node,
                is_root: info.is_root,
                left: l.len() > 0,
                right: rr.len() > 0,
                ranges: r,
            },
        ]
    };
    let left = if l.len() > 0 {
        seq![
            BaoChunk::Leaf {
                start_chunk: crate::tree::ChunkNum(s as u64),
                is_root: info.is_root && info.is_half_leaf,
                size: (mb - sb) as usize,
                ranges: l,
            },
        ]
    } else {
        Seq::<BaoChunk<Seq<u64>>>::empty()
    };
    let right = if rr.len() > 0 && !info.is_half_leaf {
        seq![
            BaoChunk::Leaf {
                start_chunk: crate::tree::ChunkNum(m),
                is_root: false,
                size: (eb - mb) as usize,
                ranges: rr,
            },
        ]
    } else {
        Seq::<BaoChunk<Seq<u64>>>::empty()
    };
    assert(items == head + left + right);
    lemma_covered_concat(head + left, right);
    lemma_covered_concat(head, left);
    if !info.is_half_leaf {
        lemma_covered_one(head[0]);
    }
    assert(covered(head) =~= Set::<int>::empty());
    if l.len() > 0 {
        lemma_covered_one(left[0]);
        assert(s + chunks_up_to((mb - sb) as nat) == ml);
        assert(covered(left) == block_chunks(tree, start));
    }
    if rr.len() > 0 && !info.is_half_leaf {
        lemma_covered_one(right[0]);
        assert(m + chunks_up_to((eb - mb) as nat) == u);
        assert(covered(right) == block_chunks(tree, mid));
    }
    assert(covered(items) =~= wanted_in(tree, t, start, end));
}


/// Range fidelity below a node: the data among the directives for the part
/// of a tree under a node is the data of the blocks under the node that the
/// query reaches, if the part of the query that the node was handed has
/// the chunks of the query under the node.
#[verifier::rlimit(40)]
pub proof fn lemma_cover_node(
    tree: BaoTree,
    t: Seq<u64>,
    node: TreeNode,
    r: Seq<u64>,
    is_root: bool,
)
    requires
        tree.wf(),
        tree.start_chunk.0 == 0,
        tree.size.0 > 0,
        tree.contains(node),
        strictly_increasing(r),
        anchored(r, block_limit(tree, node.start_spec() as int)),
        bounded(r, block_limit(tree, node.end_spec() as int)),
        agree(
            r,
            t,
            block_limit(tree, node.start_spec() as int),
            block_limit(tree, node.end_spec() as int),
        ),
    ensures
        covered(infos_chunks(tree, partial_nodes(tree, node, r, 0, is_root))) == wanted_in(
            tree,
            t,
            node.start_spec() as int,
            node.end_spec() as int,
        ),
    decreases node.level,
{
    let start = node.start_spec() as int;
    let mid = node.mid_spec() as int;
    let end = node.end_spec() as int;
    lemma_node_bounds(node);
    let p = partial_nodes(tree, node, r, 0, is_root);
    if r.len() == 0 {
        lemma_wanted_none(tree, t, r, start, end);
        assert(covered(infos_chunks(tree, p)) =~= Set::<int>::empty());
    } else if node.level == 0 {
        let info = node_info(tree, node, r, 0, is_root);
        assert(p == seq![info]);
        lemma_infos_chunks_one(tree, info);
        lemma_cover_leaf(tree, t, node, r, is_root);
    } else {
        lemma_contains_bounds(tree, node);
        lemma_tree_bounds(tree);
        lemma_children_contained(tree, node);
        lemma_children_wf(node);
        lemma_node_chunks(tree, node);
        lemma_block_chunk_bound(tree, node.mid_spec());
        lemma_block_limit(tree, start);
        lemma_block_limit(tree, mid);
        lemma_block_limit(tree, end);
        lemma_block_limit_monotone(tree, mid, end);
        let info = node_info(tree, node, r, 0, is_root);
        let lc = node.left_child_spec();
        let rd = node.right_descendant_spec(tree.filled_size_spec())->0;
        let s = block_limit(tree, start);
        let u = block_limit(tree, end);
        let m = tree.block_chunk_spec(node.mid_spec()) as u64;
        assert(m == block_limit(tree, mid));
        assert(m <= u);
        let l = info.l_ranges;
        let rr = info.r_ranges;
        assert(l == split_left(r, m));
        assert(rr == split_right(r, m));
        lemma_split(r, m);
        lemma_left_part(r, s, m, u);
        lemma_right_part(r, m, u);
        let pl = partial_nodes(tree, lc, l, 0, false);
        let pr = partial_nodes(tree, rd, rr, 0, false);
        assert(p == seq![info] + pl + pr);
        lemma_infos_chunks_concat(tree, seq![info] + pl, pr);
        lemma_infos_chunks_concat(tree, seq![info], pl);
        lemma_infos_chunks_one(tree, info);
        let items = chunk_items(tree, info);
        assert(items =~= seq![items[0]]);
        lemma_covered_one(items[0]);
        lemma_covered_concat(items + infos_chunks(tree, pl), infos_chunks(tree, pr));
        lemma_covered_concat(items, infos_chunks(tree, pl));
        // the left child
        assert(agree(l, t, s, m as int));
        lemma_cover_node(tree, t, lc, l, false);
        // the right child within the tree
        let rd_end = rd.end_spec() as int;
        lemma_node_bounds(rd);
        lemma_block_limit(tree, rd_end);
        assert(block_limit(tree, rd_end) == u);
        assert(agree(rr, t, m as int, u));
        lemma_cover_node(tree, t, rd, rr, false);
        lemma_wanted_split(tree, t, start, mid, end);
        lemma_wanted_split(tree, t, mid, rd_end, end);
        if rd_end < end {
            lemma_wanted_beyond(tree, t, rd_end, end);
        } else {
            assert(wanted_in(tree, t, rd_end, end) =~= Set::<int>::empty());
        }
        assert(covered(infos_chunks(tree, p)) =~= wanted_in(tree, t, start, end));
    }
}

/// The data among the directives of the traversal of the tree of blocks
/// for a query, which an encoder that does not validate puts on the wire, is
/// the data of exactly the blocks of the blob of which the query has a
/// chunk. In a tree whose blocks are chunks these are the chunks of the
/// query within the blob.
#[verifier::rlimit(40)]
pub proof fn lemma_range_fidelity(tree: BaoTree, b: Seq<u64>)
    requires
        tree.wf(),
        tree.start_chunk.0 == 0,
        strictly_increasing(b),
    ensures
        covered(pre_order_chunks(tree, truncate_spec(b, tree.chunks_spec() as u64), 0))
            == wanted_in(tree, b, 0, tree.blocks_spec() as int),
        tree.block_size.0 == 0 ==> wanted_in(tree, b, 0, tree.blocks_spec() as int) == Set::new(
            |x: int| 0 <= x < tree.chunks_spec() && ranges_contain(b, x),
        ),
{
    lemma_tree_bounds(tree);
    let c = tree.chunks_spec() as u64;
    let t = truncate_spec(b, c);
    let root = tree.root_spec();
    let blocks = tree.blocks_spec() as int;
    lemma_split(b, c);
    lemma_root_covers(tree);
    lemma_node_bounds(root);
    let end = root.end_spec() as int;
    if tree.size.0 == 0 {
        lemma_count_below(b, 0);
        assert(t =~= Seq::<u64>::empty());
        assert(covered(pre_order_chunks(tree, t, 0)) =~= Set::<int>::empty());
        let w = wanted_in(tree, b, 0, blocks);
        assert forall|x: int| !w.contains(x) by {
            if w.contains(x) {
                let k = choose|k: int|
                    0 <= k < blocks && #[trigger] block_wanted(tree, b, k) && block_chunks(
                        tree,
                        k,
                    ).contains(x);
                lemma_block_limit(tree, k);
                lemma_block_limit(tree, k + 1);
            }
        }
        assert(w =~= Set::<int>::empty());
    } else {
        lemma_block_limit(tree, 0);
        lemma_block_limit(tree, end);
        assert(0 * tree.block_size.chunks_spec() == 0);
        assert(block_limit(tree, 0) == 0);
        assert(block_limit(tree, end) == c);
        assert(agree(t, t, 0, c as int));
        lemma_cover_node(tree, t, root, t, tree.is_root);
        lemma_wanted_split(tree, t, 0, blocks, end);
        lemma_wanted_beyond(tree, t, blocks, end);
        // the query that was cut off has the chunks of the query within the blob
        let wt = wanted_in(tree, t, 0, blocks);
        let wb = wanted_in(tree, b, 0, blocks);
        assert forall|x: int| wt.contains(x) <==> wb.contains(x) by {
            if wt.contains(x) {
                let k = choose|k: int|
                    0 <= k < blocks && #[trigger] block_wanted(tree, t, k) && block_chunks(
                        tree,
                        k,
                    ).contains(x);
                lemma_block_limit(tree, k);
                lemma_block_limit(tree, k + 1);
                lemma_reaches_agree(
                    t,
                    b,
                    block_limit(tree, k),
                    block_limit(tree, k + 1),
                    0,
                    c as int,
                );
                assert(block_wanted(tree, b, k));
            }
            if wb.contains(x) {
                let k = choose|k: int|
                    0 <= k < blocks && #[trigger] block_wanted(tree, b, k) && block_chunks(
                        tree,
                        k,
                    ).contains(x);
                lemma_block_limit(tree, k);
                lemma_block_limit(tree, k + 1);
                lemma_reaches_agree(
                    t,
                    b,
                    block_limit(tree, k),
                    block_limit(tree, k + 1),
                    0,
                    c as int,
                );
                assert(block_wanted(tree, t, k));
            }
        }
        assert(wt =~= wb);
        assert(wanted_in(tree, t, 0, end) =~= wt);
    }
    if tree.block_size.0 == 0 {
        vstd::arithmetic::power2::lemma2_to64();
        let w = wanted_in(tree, b, 0, blocks);
        let q = Set::new(|x: int| 0 <= x < tree.chunks_spec() && ranges_contain(b, x));
        assert forall|x: int| w.contains(x) <==> q.contains(x) by {
            if w.contains(x) {
                let k = choose|k: int|
                    0 <= k < blocks && #[trigger] block_wanted(tree, b, k) && block_chunks(
                        tree,
                        k,
                    ).contains(x);
                lemma_block_limit(tree, k);
                lemma_block_limit(tree, k + 1);
                let y = choose|y: int|
                    block_limit(tree, k) <= y < block_limit(tree, k + 1)
                        && #[trigger] ranges_contain(b, y);
                assert(y == x);
            }
            if q.contains(x) {
                lemma_block_limit(tree, x);
                lemma_block_limit(tree, x + 1);
                lemma_block_byte(tree, x as nat);
                assert(x < blocks);
                assert(block_limit(tree, x) == x && block_limit(tree, x + 1) == x + 1);
                assert(block_wanted(tree, b, x));
                assert(block_chunks(tree, x).contains(x));
            }
        }
        assert(w =~= q);
    }
}


/// True if the data of the directives `cs` lies in the order of the
/// directives between the chunks `from` and `to`: the data of every leaf
/// starts at or after the end of the data before it.
pub open spec fn leaves_ordered<R>(cs: Seq<BaoChunk<R>>, from: int, to: int) -> bool
    decreases cs.len(),
{
    if cs.len() == 0 {
        from <= to
    } else {
        match cs[0] {
            BaoChunk::Leaf { start_chunk, size, .. } => from <= start_chunk.0 && leaves_ordered(
                cs.skip(1),
                start_chunk.0 + chunks_up_to(size as nat),
                to,
            ),
            BaoChunk::Parent { .. } => leaves_ordered(cs.skip(1), from, to),
        }
    }
}

/// Data that lies in order between two chunks lies in order between chunks
/// that are further apart.
pub proof fn lemma_leaves_ordered_wider<R>(cs: Seq<BaoChunk<R>>, from: int, to: int, lo: int, hi: int)
    requires
        leaves_ordered(cs, from, to),
        lo <= from,
        to <= hi,
    ensures
        leaves_ordered(cs, lo, hi),
    decreases cs.len(),
{
    if cs.len() > 0 {
        match cs[0] {
            BaoChunk::Leaf { start_chunk, size, .. } => {
                let next = start_chunk.0 + chunks_up_to(size as nat);
                lemma_leaves_ordered_wider(cs.skip(1), next, to, next, hi);
            },
            BaoChunk::Parent { .. } => {
                lemma_leaves_ordered_wider(cs.skip(1), from, to, lo, hi);
            },
        }
    }
}

/// Data in order up to a chunk followed by data in order from that chunk
/// on is data in order.
pub proof fn lemma_leaves_ordered_concat<R>(
    a: Seq<BaoChunk<R>>,
    b: Seq<BaoChunk<R>>,
    from: int,
    mid: int,
    to: int,
)
    requires
        leaves_ordered(a, from, mid),
        leaves_ordered(b, mid, to),
    ensures
        leaves_ordered(a + b, from, to),
    decreases a.len(),
{
    if a.len() == 0 {
        assert(a + b =~= b);
        lemma_leaves_ordered_wider(b, mid, to, from, to);
    } else {
        assert((a + b).skip(1) =~= a.skip(1) + b);
        assert((a + b)[0] == a[0]);
        match a[0] {
            BaoChunk::Leaf { start_chunk, size, .. } => {
                let next = start_chunk.0 + chunks_up_to(size as nat);
                lemma_leaves_ordered_concat(a.skip(1), b, next, mid, to);
            },
            BaoChunk::Parent { .. } => {
                lemma_leaves_ordered_concat(a.skip(1), b, from, mid, to);
            },
        }
    }
}

/// Order of the data: among the directives for the part of a tree under a
/// node, whatever the query, the data of every leaf lies under the node and
/// after the data of the leaves before it.
#[verifier::rlimit(40)]
pub proof fn lemma_leaves_in_order(tree: BaoTree, node: TreeNode, r: Seq<u64>, is_root: bool)
    requires
        tree.wf(),
        tree.start_chunk.0 == 0,
        tree.contains(node),
    ensures
        leaves_ordered(
            infos_chunks(tree, partial_nodes(tree, node, r, 0, is_root)),
            block_limit(tree, node.start_spec() as int),
            block_limit(tree, node.end_spec() as int),
        ),
    decreases node.level,
{
    let start = node.start_spec() as int;
    let mid = node.mid_spec() as int;
    let end = node.end_spec() as int;
    lemma_node_bounds(node);
    lemma_contains_bounds(tree, node);
    lemma_tree_bounds(tree);
    lemma_block_limit(tree, start);
    lemma_block_limit(tree, mid);
    lemma_block_limit(tree, end);
    let s = block_limit(tree, start);
    let m = block_limit(tree, mid);
    let u = block_limit(tree, end);
    let p = partial_nodes(tree, node, r, 0, is_root);
    let none = Seq::<BaoChunk<Seq<u64>>>::empty();
    lemma_block_limit_monotone(tree, start, mid);
    lemma_block_limit_monotone(tree, mid, end);
    if r.len() == 0 {
        assert(infos_chunks(tree, p) =~= none);
        assert(leaves_ordered(infos_chunks(tree, p), s, u));
    } else if node.level == 0 {
        let info = node_info(tree, node, r, 0, is_root);
        assert(p == seq![info]);
        lemma_infos_chunks_one(tree, info);
        lemma_node_chunks(tree, node);
        lemma_half_leaf(tree, node);
        lemma_block_chunk_bound(tree, node.start_spec());
        vstd::arithmetic::power2::lemma2_to64();
        crate::iter::lemma_block_byte_diff(tree, node.start_spec(), node.mid_spec());
        crate::iter::lemma_block_byte_diff(tree, node.mid_spec(), node.end_spec());
        let bb = tree.block_bytes() as int;
        assert(1 * bb == bb) by (nonlinear_arith);
        let items = chunk_items(tree, info);
        let sb = tree.block_byte_spec(node.start_spec()) as int;
        let mb = tree.block_byte_spec(node.mid_spec()) as int;
        let eb = tree.block_byte_spec(node.end_spec()) as int;
        let l = info.l_ranges.len() > 0;
        let rr = info.r_ranges.len() > 0 && !info.is_half_leaf;
        let sc = tree.block_chunk_spec(node.start_spec()) as u64;
        let mc = (sc + tree.block_size.chunks_spec()) as u64;
        let right = if rr {
            seq![
                BaoChunk::Leaf {
                    start_chunk: crate::tree::ChunkNum(mc),
                    is_root: false,
                    size: (eb - mb) as usize,
                    ranges: info.r_ranges,
                },
            ]
        } else {
            none
        };
        let left = if l {
            seq![
                BaoChunk::Leaf {
                    start_chunk: crate::tree::ChunkNum(sc),
                    is_root: info.is_root && info.is_half_leaf,
                    size: (mb - sb) as usize,
                    ranges: info.l_ranges,
                },
            ]
        } else {
            none
        };
        assert(s <= sc);
        assert(s <= m <= u);
        if rr {
            assert(right.skip(1) =~= none);
            assert(tree.is_persisted_spec(node));
            assert(m <= mc);
            assert(mc + chunks_up_to((eb - mb) as nat) <= u);
            assert(leaves_ordered(right.skip(1), mc + chunks_up_to((eb - mb) as nat), u));
        }
        assert(leaves_ordered(right, m, u));
        if l {
            assert(left.skip(1) =~= none);
            assert(sc + chunks_up_to((mb - sb) as nat) <= m);
            assert(leaves_ordered(left.skip(1), sc + chunks_up_to((mb - sb) as nat), m));
        }
        assert(leaves_ordered(left, s, m));
        lemma_leaves_ordered_concat(left, right, s, m, u);
        if info.is_half_leaf {
            assert(items =~= left + right);
        } else {
            let head = seq![items[0]];
            assert(items =~= head + (left + right));
            assert((head + (left + right)).skip(1) =~= left + right);
            assert(items[0] is Parent);
        }
        assert(leaves_ordered(items, s, u));
        assert(infos_chunks(tree, p) == items);
    } else {
        lemma_children_contained(tree, node);
        lemma_children_wf(node);
        let info = node_info(tree, node, r, 0, is_root);
        let lc = node.left_child_spec();
        let rd = node.right_descendant_spec(tree.filled_size_spec())->0;
        let pl = partial_nodes(tree, lc, info.l_ranges, 0, false);
        let pr = partial_nodes(tree, rd, info.r_ranges, 0, false);
        assert(p == seq![info] + pl + pr);
        lemma_infos_chunks_concat(tree, seq![info] + pl, pr);
        lemma_infos_chunks_concat(tree, seq![info], pl);
        lemma_infos_chunks_one(tree, info);
        let items = chunk_items(tree, info);
        assert(items =~= seq![items[0]]);
        let cl = infos_chunks(tree, pl);
        let cr = infos_chunks(tree, pr);
        lemma_leaves_in_order(tree, lc, info.l_ranges, false);
        lemma_leaves_in_order(tree, rd, info.r_ranges, false);
        lemma_node_bounds(rd);
        lemma_block_limit(tree, rd.end_spec() as int);
        assert(block_limit(tree, rd.end_spec() as int) == u);
        lemma_leaves_ordered_concat(cl, cr, s, m, u);
        assert((items + (cl + cr)).skip(1) =~= cl + cr);
        assert(items + cl + cr =~= items + (cl + cr));
        assert(items[0] is Parent);
        assert(leaves_ordered(cl + cr, s, u));
        assert(leaves_ordered(items + (cl + cr), s, u));
        assert(infos_chunks(tree, p) == items + cl + cr);
    }
}

/// Order of the data of the traversal of the tree of blocks: whatever the
/// query, the data among its directives lies within the blob, and the data
/// of every leaf comes after the data of the leaves before it.
pub proof fn lemma_response_in_order(tree: BaoTree, r: Seq<u64>)
    requires
        tree.wf(),
        tree.start_chunk.0 == 0,
    ensures
        leaves_ordered(pre_order_chunks(tree, r, 0), 0, tree.chunks_spec() as int),
{
    let root = tree.root_spec();
    lemma_tree_bounds(tree);
    lemma_root_covers(tree);
    lemma_node_bounds(root);
    lemma_block_limit(tree, 0);
    lemma_block_limit(tree, root.end_spec() as int);
    lemma_leaves_in_order(tree, root, r, tree.is_root);
    lemma_leaves_ordered_wider(
        pre_order_chunks(tree, r, 0),
        block_limit(tree, root.start_spec() as int),
        block_limit(tree, root.end_spec() as int),
        0,
        tree.chunks_spec() as int,
    );
}

} // verus!
