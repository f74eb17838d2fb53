//! Where the hash pair of a node stands in an outboard.
//!
//! An outboard keeps the hash pairs of the nodes of a tree one after the
//! other, in pre-order or in post-order. The offset of a node is its place
//! among the nodes whose pair is kept.
use vstd::prelude::*;
use vstd::arithmetic::power2::{
    lemma2_to64, lemma_pow2_adds, lemma_pow2_pos, lemma_pow2_unfold, pow2,
};
use crate::tree::{
    lemma_children_contained, lemma_children_wf, lemma_contains_bounds, lemma_descend,
    lemma_node_bounds, lemma_root_level, lemma_tree_bounds, BaoTree, TreeNode,
};

verus! {

/// The nodes under `node` whose hash pair an outboard keeps, in pre-order.
pub open spec fn persisted_pre(tree: BaoTree, node: TreeNode) -> Seq<TreeNode>
    decreases node.level,
{
    let own = if tree.is_persisted_spec(node) {
        seq![node]
    } else {
        Seq::empty()
    };
    if node.level == 0 {
        own
    } else {
        match node.right_descendant_spec(tree.filled_size_spec()) {
            Some(r) if r.level < node.level => own + persisted_pre(tree, node.left_child_spec())
                + persisted_pre(tree, r),
            _ => own,
        }
    }
}

/// The nodes under `node` whose hash pair an outboard keeps, in post-order.
pub open spec fn persisted_post(tree: BaoTree, node: TreeNode) -> Seq<TreeNode>
    decreases node.level,
{
    let own = if tree.is_persisted_spec(node) {
        seq![node]
    } else {
        Seq::empty()
    };
    if node.level == 0 {
        own
    } else {
        match node.right_descendant_spec(tree.filled_size_spec()) {
            Some(r) if r.level < node.level => persisted_post(tree, node.left_child_spec())
                + persisted_post(tree, r) + own,
            _ => own,
        }
    }
}

/// True if the block range of `node` lies within that of `c`.
pub open spec fn within(node: TreeNode, c: TreeNode) -> bool {
    c.start_spec() <= node.start_spec() && node.end_spec() <= c.end_spec() && node.level <= c.level
}

/// The number of blocks of the blob under a node.
pub open spec fn blocks_under(tree: BaoTree, node: TreeNode) -> int {
    (if node.end_spec() <= tree.blocks_spec() {
        node.end_spec() as int
    } else {
        tree.blocks_spec() as int
    }) - node.start_spec()
}

/// A block range of a lower level that starts below a multiple of a higher
/// power of two ends at or below it.
pub proof fn lemma_aligned(a: int, ln: nat, m: int, lc: nat)
    requires
        ln < lc,
        0 <= a,
        0 <= m,
        2 * a * pow2(ln) < m * pow2(lc),
    ensures
        (2 * a + 2) * pow2(ln) <= m * pow2(lc),
{
    let k = (lc - ln - 1) as nat;
    lemma_pow2_adds(k, ln + 1);
    lemma_pow2_unfold(ln + 1);
    lemma_pow2_pos(ln);
    lemma_pow2_pos(k);
    let u = 2 * pow2(ln) as int;
    let pk = pow2(k) as int;
    assert(pow2(lc) == pk * u);
    let mm = m * pk;
    assert(m * (pk * u) == mm * u) by (nonlinear_arith)
        requires
            mm == m * pk,
    ;
    assert(2 * a * pow2(ln) == a * u && (2 * a + 2) * pow2(ln) == (a + 1) * u) by (nonlinear_arith)
        requires
            u == 2 * pow2(ln),
    ;
    assert(a < mm) by (nonlinear_arith)
        requires
            a * u < mm * u,
            u > 0,
    ;
    assert((a + 1) * u <= mm * u) by (nonlinear_arith)
        requires
            a + 1 <= mm,
            u > 0,
    ;
}

/// Two nodes of one level with the same first block are the same node.
pub proof fn lemma_same_start(a: TreeNode, b: TreeNode)
    requires
        a.level == b.level,
        a.start_spec() == b.start_spec(),
    ensures
        a == b,
{
    lemma_pow2_pos(a.level as nat);
    let s = pow2(a.level as nat) as int;
    let x = a.pos as int;
    let y = b.pos as int;
    assert(x == y) by (nonlinear_arith)
        requires
            2 * x * s == 2 * y * s,
            s > 0,
    ;
}

/// A node within another node is that node, or lies within one of its
/// children: within the left one if it starts before the middle.
pub proof fn lemma_within_child(node: TreeNode, c: TreeNode)
    requires
        node.wf(),
        c.wf(),
        within(node, c),
        node != c,
    ensures
        node.level < c.level,
        node.start_spec() < c.mid_spec() ==> within(node, c.left_child_spec()),
        node.start_spec() >= c.mid_spec() ==> within(node, c.right_child_spec()),
        node.start_spec() < c.mid_spec() <==> node.in_order_spec() < c.in_order_spec(),
{
    lemma_node_bounds(node);
    lemma_node_bounds(c);
    if node.level == c.level {
        lemma_pow2_pos(c.level as nat);
        lemma_same_start(node, c);
    }
    lemma_children_wf(c);
    if node.start_spec() < c.mid_spec() {
        lemma_aligned(node.pos as int, node.level as nat, 2 * c.pos + 1, c.level as nat);
    }
}

/// A node of a tree within a node lies within the node at which a descent
/// down the left spine ends.
pub proof fn lemma_descend_within(c: TreeNode, len: nat, node: TreeNode)
    requires
        c.wf(),
        node.wf(),
        within(node, c),
        node.in_order_spec() < len,
        c.descend_spec(len) is Some,
    ensures
        within(node, c.descend_spec(len)->0),
    decreases c.level,
{
    if c.in_order_spec() < len {
    } else {
        lemma_node_bounds(node);
        lemma_node_bounds(c);
        lemma_within_child(node, c);
        lemma_children_wf(c);
        lemma_descend_within(c.left_child_spec(), len, node);
    }
}

/// A node of a tree lies within the root.
pub proof fn lemma_within_root(tree: BaoTree, node: TreeNode)
    requires
        tree.wf(),
        tree.contains(node),
    ensures
        within(node, tree.root_spec()),
{
    lemma_tree_bounds(tree);
    crate::codec::lemma_below_root(tree, node);
    lemma_node_bounds(node);
    let root = tree.root_spec();
    lemma_node_bounds(root);
    lemma_root_level(tree.leaf_count());
    if node != root {
        let rl = root.level as nat;
        lemma_pow2_unfold(rl + 1);
        assert((2 * 0 + 2) * pow2(rl) == 2 * pow2(rl)) by (nonlinear_arith);
        assert(2 * 0 * pow2(rl) == 0) by (nonlinear_arith);
        assert(1 * pow2(rl + 1) == pow2(rl + 1)) by (nonlinear_arith);
        lemma_aligned(node.pos as int, node.level as nat, 1, rl + 1);
    }
}

/// The number of nodes under a node of a tree whose hash pair an outboard
/// keeps is one less than the number of blocks under the node.
pub proof fn lemma_persisted_count(tree: BaoTree, node: TreeNode)
    requires
        tree.wf(),
        tree.contains(node),
    ensures
        persisted_pre(tree, node).len() == blocks_under(tree, node) - 1,
        persisted_post(tree, node).len() == blocks_under(tree, node) - 1,
        blocks_under(tree, node) >= 1,
    decreases node.level,
{
    lemma_contains_bounds(tree, node);
    lemma_node_bounds(node);
    lemma_tree_bounds(tree);
    if node.level == 0 {
        lemma2_to64();
    } else {
        lemma_children_contained(tree, node);
        let lc = node.left_child_spec();
        let rd = node.right_descendant_spec(tree.filled_size_spec())->0;
        lemma_children_wf(node);
        lemma_persisted_count(tree, lc);
        lemma_persisted_count(tree, rd);
        lemma_node_bounds(rd);
    }
}

/// Every node of the sequence in pre-order of the nodes under a node lies
/// within that node, and an outboard keeps its hash pair.
pub proof fn lemma_persisted_pre_within(tree: BaoTree, c: TreeNode, i: int)
    requires
        tree.wf(),
        tree.contains(c),
        0 <= i < persisted_pre(tree, c).len(),
    ensures
        within(persisted_pre(tree, c)[i], c),
        tree.is_persisted_spec(persisted_pre(tree, c)[i]),
    decreases c.level,
{
    lemma_node_bounds(c);
    if c.level > 0 {
        lemma_children_contained(tree, c);
        lemma_children_wf(c);
        lemma_contains_bounds(tree, c);
        let lc = c.left_child_spec();
        let rd = c.right_descendant_spec(tree.filled_size_spec())->0;
        let l = persisted_pre(tree, lc);
        let r = persisted_pre(tree, rd);
        lemma_node_bounds(lc);
        lemma_node_bounds(rd);
        if i == 0 {
        } else if i < 1 + l.len() {
            lemma_persisted_pre_within(tree, lc, i - 1);
        } else {
            lemma_persisted_pre_within(tree, rd, i - 1 - l.len());
        }
    }
}

/// No node stands twice in the sequence in pre-order of the nodes under a
/// node.
pub proof fn lemma_persisted_pre_distinct(tree: BaoTree, c: TreeNode, i: int, j: int)
    requires
        tree.wf(),
        tree.contains(c),
        0 <= i < j < persisted_pre(tree, c).len(),
    ensures
        persisted_pre(tree, c)[i] != persisted_pre(tree, c)[j],
    decreases c.level,
{
    lemma_node_bounds(c);
    if c.level > 0 {
        lemma_children_contained(tree, c);
        lemma_children_wf(c);
        lemma_contains_bounds(tree, c);
        let lc = c.left_child_spec();
        let rd = c.right_descendant_spec(tree.filled_size_spec())->0;
        let l = persisted_pre(tree, lc);
        let r = persisted_pre(tree, rd);
        lemma_node_bounds(lc);
        lemma_node_bounds(rd);
        let s = persisted_pre(tree, c);
        if i == 0 {
            if j < 1 + l.len() {
                lemma_persisted_pre_within(tree, lc, j - 1);
            } else {
                lemma_persisted_pre_within(tree, rd, j - 1 - l.len());
            }
        } else if j < 1 + l.len() {
            lemma_persisted_pre_distinct(tree, lc, i - 1, j - 1);
        } else if i >= 1 + l.len() {
            lemma_persisted_pre_distinct(tree, rd, i - 1 - l.len(), j - 1 - l.len());
        } else {
            lemma_persisted_pre_within(tree, lc, i - 1);
            lemma_persisted_pre_within(tree, rd, j - 1 - l.len());
            lemma_node_bounds(s[i]);
            lemma_node_bounds(s[j]);
        }
    }
}

/// Every node of the sequence in post-order of the nodes under a node lies
/// within that node, and an outboard keeps its hash pair.
pub proof fn lemma_persisted_post_within(tree: BaoTree, c: TreeNode, i: int)
    requires
        tree.wf(),
        tree.contains(c),
        0 <= i < persisted_post(tree, c).len(),
    ensures
        within(persisted_post(tree, c)[i], c),
        tree.is_persisted_spec(persisted_post(tree, c)[i]),
    decreases c.level,
{
    lemma_node_bounds(c);
    if c.level > 0 {
        lemma_children_contained(tree, c);
        lemma_children_wf(c);
        lemma_contains_bounds(tree, c);
        let lc = c.left_child_spec();
        let rd = c.right_descendant_spec(tree.filled_size_spec())->0;
        let l = persisted_post(tree, lc);
        let r = persisted_post(tree, rd);
        lemma_node_bounds(lc);
        lemma_node_bounds(rd);
        if i < l.len() {
            lemma_persisted_post_within(tree, lc, i);
        } else if i < l.len() + r.len() {
            lemma_persisted_post_within(tree, rd, i - l.len());
        } else {
        }
    }
}

/// No node stands twice in the sequence in post-order of the nodes under a
/// node.
pub proof fn lemma_persisted_post_distinct(tree: BaoTree, c: TreeNode, i: int, j: int)
    requires
        tree.wf(),
        tree.contains(c),
        0 <= i < j < persisted_post(tree, c).len(),
    ensures
        persisted_post(tree, c)[i] != persisted_post(tree, c)[j],
    decreases c.level,
{
    lemma_node_bounds(c);
    if c.level > 0 {
        lemma_children_contained(tree, c);
        lemma_children_wf(c);
        lemma_contains_bounds(tree, c);
        let lc = c.left_child_spec();
        let rd = c.right_descendant_spec(tree.filled_size_spec())->0;
        let l = persisted_post(tree, lc);
        let r = persisted_post(tree, rd);
        lemma_node_bounds(lc);
        lemma_node_bounds(rd);
        let s = persisted_post(tree, c);
        if j == l.len() + r.len() {
            if i < l.len() {
                lemma_persisted_post_within(tree, lc, i);
            } else {
                lemma_persisted_post_within(tree, rd, i - l.len());
            }
        } else if j < l.len() {
            lemma_persisted_post_distinct(tree, lc, i, j);
        } else if i >= l.len() {
            lemma_persisted_post_distinct(tree, rd, i - l.len(), j - l.len());
        } else {
            lemma_persisted_post_within(tree, lc, i);
            lemma_persisted_post_within(tree, rd, j - l.len());
            lemma_node_bounds(s[i]);
            lemma_node_bounds(s[j]);
        }
    }
}

impl BaoTree {
    /// The nodes whose hash pair an outboard keeps, in pre-order.
    pub open spec fn pre_order_persisted(self) -> Seq<TreeNode> {
        persisted_pre(self, self.root_spec())
    }

    /// The nodes whose hash pair an outboard keeps, in post-order.
    pub open spec fn post_order_persisted(self) -> Seq<TreeNode> {
        persisted_post(self, self.root_spec())
    }

    /// The number of blocks of the blob under a node of the tree.
    fn blocks_under_node(&self, node: TreeNode) -> (r: u64)
        requires
            self.wf(),
            self.contains(node),
        ensures
            r == blocks_under(*self, node),
            r >= 1,
    {
        proof {
            lemma_contains_bounds(*self, node);
            lemma_node_bounds(node);
            lemma_tree_bounds(*self);
        }
        let blocks = self.blocks();
        let end = node.end();
        if end <= blocks {
            end - node.start()
        } else {
            blocks - node.start()
        }
    }

    /// The offset of the hash pair of a node in an outboard in pre-order,
    /// counted in hash pairs, or nothing for a node whose pair an outboard
    /// does not keep.
    pub fn pre_order_offset(&self, node: TreeNode) -> (r: Option<u64>)
        requires
            self.wf(),
        ensures
            match r {
                Some(k) => self.is_persisted_spec(node) && k < self.pre_order_persisted().len()
                    && self.pre_order_persisted()[k as int] == node,
                None => !self.is_persisted_spec(node),
            },
    {
        if !self.is_persisted(node) {
            return None;
        }
        let len = self.filled_size();
        let mut cur = self.root();
        let mut base: u64 = 0;
        let ghost seq = self.pre_order_persisted();
        let ghost mut before = Seq::<TreeNode>::empty();
        let ghost mut after = Seq::<TreeNode>::empty();
        proof {
            lemma_within_root(*self, node);
            assert(before + persisted_pre(*self, cur) + after =~= seq);
            lemma_persisted_count(*self, cur);
            lemma_tree_bounds(*self);
        }
        loop
            invariant
                self.wf(),
                self.contains(node),
                self.is_persisted_spec(node),
                self.contains(cur),
                len == self.filled_size_spec(),
                within(node, cur),
                seq == self.pre_order_persisted(),
                seq == before + persisted_pre(*self, cur) + after,
                before.len() == base,
                seq.len() <= 0x40_0000_0000_0000,
            decreases cur.level,
        {
            proof {
                lemma_persisted_count(*self, cur);
                lemma_contains_bounds(*self, cur);
                lemma_node_bounds(cur);
                lemma_node_bounds(node);
                if cur != node {
                    lemma_within_child(node, cur);
                }
            }
            if cur == node {
                proof {
                    assert(persisted_pre(*self, cur)[0] == cur);
                }
                return Some(base);
            }
            proof {
                lemma_children_contained(*self, cur);
                lemma_children_wf(cur);
            }
            let left = cur.left_child().unwrap();
            let right = cur.right_descendant(len).unwrap();
            proof {
                lemma_persisted_count(*self, left);
                lemma_persisted_count(*self, right);
                lemma_node_bounds(left);
                if node.start_spec() >= cur.mid_spec() {
                    lemma_descend(cur.right_child_spec(), len as nat);
                    lemma_descend_within(cur.right_child_spec(), len as nat, node);
                }
            }
            let ghost l = persisted_pre(*self, left);
            let ghost r = persisted_pre(*self, right);
            if node.in_order() < cur.in_order() {
                proof {
                    assert(before + (seq![cur] + l + r) + after =~= (before + seq![cur]) + l + (r
                        + after));
                    before = before + seq![cur];
                    after = r + after;
                }
                base = base + 1;
                cur = left;
            } else {
                let skip = self.blocks_under_node(left);
                proof {
                    assert(before + (seq![cur] + l + r) + after =~= (before + seq![cur] + l) + r
                        + after);
                    before = before + seq![cur] + l;
                }
                base = base + skip;
                cur = right;
            }
        }
    }

    /// The offset of the hash pair of a node in an outboard in post-order,
    /// counted in hash pairs, or nothing for a node whose pair an outboard
    /// does not keep.
    pub fn post_order_offset(&self, node: TreeNode) -> (r: Option<u64>)
        requires
            self.wf(),
        ensures
            match r {
                Some(k) => self.is_persisted_spec(node) && k < self.post_order_persisted().len()
                    && self.post_order_persisted()[k as int] == node,
                None => !self.is_persisted_spec(node),
            },
    {
        if !self.is_persisted(node) {
            return None;
        }
        let len = self.filled_size();
        let mut cur = self.root();
        let mut base: u64 = 0;
        let ghost seq = self.post_order_persisted();
        let ghost mut before = Seq::<TreeNode>::empty();
        let ghost mut after = Seq::<TreeNode>::empty();
        proof {
            lemma_within_root(*self, node);
            assert(before + persisted_post(*self, cur) + after =~= seq);
            lemma_persisted_count(*self, cur);
            lemma_tree_bounds(*self);
        }
        loop
            invariant
                self.wf(),
                self.contains(node),
                self.is_persisted_spec(node),
                self.contains(cur),
                len == self.filled_size_spec(),
                within(node, cur),
                seq == self.post_order_persisted(),
                seq == before + persisted_post(*self, cur) + after,
                before.len() == base,
                seq.len() <= 0x40_0000_0000_0000,
            decreases cur.level,
        {
            proof {
                lemma_persisted_count(*self, cur);
                lemma_contains_bounds(*self, cur);
                lemma_node_bounds(cur);
                lemma_node_bounds(node);
                if cur != node {
                    lemma_within_child(node, cur);
                }
            }
            if cur == node {
                let under = self.blocks_under_node(cur);
                proof {
                    let own = persisted_post(*self, cur);
                    assert(own[own.len() - 1] == cur);
                }
                return Some(base + under - 2);
            }
            proof {
                lemma_children_contained(*self, cur);
                lemma_children_wf(cur);
            }
            let left = cur.left_child().unwrap();
            let right = cur.right_descendant(len).unwrap();
            proof {
                lemma_persisted_count(*self, left);
                lemma_persisted_count(*self, right);
                lemma_node_bounds(left);
                if node.start_spec() >= cur.mid_spec() {
                    lemma_descend(cur.right_child_spec(), len as nat);
                    lemma_descend_within(cur.right_child_spec(), len as nat, node);
                }
            }
            let ghost l = persisted_post(*self, left);
            let ghost r = persisted_post(*self, right);
            if node.in_order() < cur.in_order() {
                proof {
                    assert(before + (l + r + seq![cur]) + after =~= before + l + (r + seq![cur]
                        + after));
                    after = r + seq![cur] + after;
                }
                cur = left;
            } else {
                let skip = self.blocks_under_node(left);
                proof {
                    assert(before + (l + r + seq![cur]) + after =~= (before + l) + r + (seq![cur]
                        + after));
                    before = before + l;
                    after = seq![cur] + after;
                }
                base = base + skip - 1;
                cur = right;
            }
        }
    }
}

} // verus!
