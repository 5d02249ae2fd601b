//! Binary-buddy kernel heap.
//!
//! The allocator manages a `2^MAX_ALLOCATION`-byte arena through a
//! complete binary tree of one-byte nodes. Bit 0 of a node tags it a
//! parent (interior summary) or a leaf; bits 2..7 hold its `level`. A
//! leaf with level 63 is an allocated block; a free leaf at depth `d`
//! carries level `d`, so `MAX_ALLOCATION - level` is the size of the
//! largest free block below a node; a parent's level is the minimum of
//! its children's.

use vstd::prelude::*;

use vstd::arithmetic::power2::pow2;

use crate::cpu::{spec_build_satp, SatpMode};
use crate::page::{fit_at, mark_allocated, run_empty, translate, Pmem, Table, PAGE_SIZE};
use crate::sv39::{READ_EXECUTE, READ_WRITE};

verus! {

/// Log2 of the number of arena pages the allocator asks for.
pub const PAGES_POW: usize = 6;

/// Log2 of the smallest block the allocator hands out.
pub const MIN_SIZE_POW: usize = 7;

/// Log2 of the whole arena: one block of this size is the largest
/// possible allocation.
pub const MAX_ALLOCATION: usize = PAGES_POW + 12;

/// Depth of the leaves that carry the smallest blocks.
pub const LEAF_LEVEL: usize = MAX_ALLOCATION - MIN_SIZE_POW;

/// Number of nodes in the complete tree of depth `LEAF_LEVEL`:
/// `2^(LEAF_LEVEL + 1) - 1`.
pub const NODE_COUNT: usize = 4095;

/// Bit 0 of a node byte: the node is an interior summary.
pub open spec fn node_parent(b: u8) -> bool {
    b & 1 == 1
}

/// Bits 2..7 of a node byte: the node's level value.
pub open spec fn node_level(b: u8) -> u8 {
    b >> 2
}

/// One node of the buddy tree.
#[derive(Clone, Copy)]
pub struct BuddyLeaf(u8);

impl BuddyLeaf {
    /// The raw node byte.
    pub closed spec fn spec_bits(&self) -> u8 {
        self.0
    }

    /// Whether the node is an interior summary.
    pub fn parent(&self) -> (r: bool)
        ensures
            r == node_parent(self.spec_bits()),
    {
        let b = self.0;
        proof {
            assert((b & 1 != 0) == (b & 1 == 1)) by (bit_vector);
        }
        b & 1 != 0
    }

    /// Whether the node is a leaf.
    pub fn leaf(&self) -> (r: bool)
        ensures
            r == !node_parent(self.spec_bits()),
    {
        !self.parent()
    }

    /// Tag the node an interior summary.
    pub fn set_parent(&mut self)
        ensures
            final(self).spec_bits() == old(self).spec_bits() | 1,
    {
        self.0 = self.0 | 1
    }

    /// Tag the node a leaf.
    pub fn set_leaf(&mut self)
        ensures
            final(self).spec_bits() == old(self).spec_bits() & !1,
    {
        self.0 = self.0 & !1
    }

    /// The node's level value.
    pub fn get_level(&self) -> (r: u8)
        ensures
            r == node_level(self.spec_bits()),
    {
        self.0 >> 2
    }

    /// Overwrite the level value, keeping the two tag bits.
    pub fn set_level(&mut self, level: u8)
        ensures
            final(self).spec_bits() == (level << 2 | old(self).spec_bits() & 0b11) as u8,
    {
        self.0 = level << 2 | self.0 & 0b11
    }
}

/// Depth of node `i` in the implicit binary tree: the root is node 0 at
/// depth 0, the children of node `i` are nodes `2i + 1` and `2i + 2`.
pub open spec fn tree_level(i: int) -> nat
    decreases i,
{
    if i <= 0 {
        0
    } else {
        1 + tree_level((i - 1) / 2)
    }
}

/// Node `j` lies in the subtree rooted at node `i`.
pub open spec fn in_subtree(i: int, j: int) -> bool
    decreases j,
{
    if j == i {
        true
    } else if j <= 0 {
        false
    } else {
        in_subtree(i, (j - 1) / 2)
    }
}

/// Indices of the nodes at depth `d` lie in `[2^d - 1, 2^(d+1) - 1)`.
pub proof fn lemma_tree_level_range(i: int)
    requires
        0 <= i,
    ensures
        pow2(tree_level(i)) - 1 <= i < pow2(tree_level(i) + 1) - 1,
    decreases i,
{
    vstd::arithmetic::power2::lemma2_to64();
    vstd::arithmetic::power2::lemma_pow2_unfold(tree_level(i) + 1);
    if i > 0 {
        lemma_tree_level_range((i - 1) / 2);
        vstd::arithmetic::power2::lemma_pow2_unfold(tree_level(i));
    }
}

/// Depth of a child.
pub proof fn lemma_tree_level_child(i: int)
    requires
        0 <= i,
    ensures
        tree_level(2 * i + 1) == tree_level(i) + 1,
        tree_level(2 * i + 2) == tree_level(i) + 1,
{
    assert((2 * i + 1 - 1) / 2 == i);
    assert((2 * i + 2 - 1) / 2 == i);
}

/// A strict descendant of `i` is at least `i`'s left child.
pub proof fn lemma_subtree_min(i: int, j: int)
    requires
        0 <= i,
        in_subtree(i, j),
        j != i,
    ensures
        j >= 2 * i + 1,
    decreases j,
{
    if j > 0 {
        let p = (j - 1) / 2;
        if p != i {
            lemma_subtree_min(i, p);
        }
    }
}

/// A subtree is contained in the parent's subtree.
pub proof fn lemma_subtree_step(c: int, j: int)
    requires
        c > 0,
        in_subtree(c, j),
    ensures
        in_subtree((c - 1) / 2, j),
    decreases j,
{
    if j == c {
        assert(in_subtree((c - 1) / 2, (c - 1) / 2));
    } else {
        assert(j > 0);
        lemma_subtree_step(c, (j - 1) / 2);
        assert(in_subtree((c - 1) / 2, (j - 1) / 2));
    }
}

/// Descendants of the two children are disjoint, and the strict
/// descendants of a node are exactly the two children's subtrees.
pub proof fn lemma_subtree_child(i: int, j: int)
    requires
        0 <= i,
    ensures
        (in_subtree(i, j) && j != i) <==> (in_subtree(2 * i + 1, j) || in_subtree(2 * i + 2, j)),
        !(in_subtree(2 * i + 1, j) && in_subtree(2 * i + 2, j)),
    decreases j,
{
    let l = 2 * i + 1;
    let r = 2 * i + 2;
    if in_subtree(l, j) {
        if j != l {
            lemma_subtree_min(l, j);
        }
        lemma_subtree_step(l, j);
    }
    if in_subtree(r, j) {
        if j != r {
            lemma_subtree_min(r, j);
        }
        lemma_subtree_step(r, j);
    }
    if in_subtree(i, j) && j != i {
        let p = (j - 1) / 2;
        if p == i {
            assert(j == l || j == r);
        } else {
            lemma_subtree_child(i, p);
        }
    }
    if in_subtree(l, j) && in_subtree(r, j) {
        if j == l {
            lemma_subtree_min(r, j);
        } else if j == r {
            lemma_subtree_min(l, j);
        } else {
            let p = (j - 1) / 2;
            lemma_subtree_child(i, p);
        }
    }
}


/// `in_subtree` is reflexive-transitive along the parent chain.
pub proof fn lemma_subtree_trans(a: int, b: int, c: int)
    requires
        in_subtree(a, b),
        in_subtree(b, c),
    ensures
        in_subtree(a, c),
    decreases c,
{
    if c != b {
        lemma_subtree_trans(a, b, (c - 1) / 2);
    }
}

/// The smaller of two level values.
pub open spec fn min_u8(a: u8, b: u8) -> u8 {
    if a <= b {
        a
    } else {
        b
    }
}

/// No node byte is a parent tag anywhere strictly below node `i`: the
/// bytes under a leaf are stale leftovers, and keeping them leaf-tagged
/// is what lets a later split walk into them.
pub open spec fn clean_below(ns: Seq<u8>, i: int, d: int) -> bool
    decreases LEAF_LEVEL - d,
{
    d >= LEAF_LEVEL || {
        &&& !node_parent(ns[2 * i + 1])
        &&& !node_parent(ns[2 * i + 2])
        &&& clean_below(ns, 2 * i + 1, d + 1)
        &&& clean_below(ns, 2 * i + 2, d + 1)
    }
}

/// The buddy-tree invariant for the subtree of node `i` at depth `d`:
/// an interior summary sits above leaf depth and carries the minimum of
/// its children's levels; a leaf is either allocated (level 63) or free
/// with its own depth as level, and everything below it is leaf-tagged.
pub open spec fn subtree_ok(ns: Seq<u8>, i: int, d: int) -> bool
    decreases LEAF_LEVEL - d,
{
    if node_parent(ns[i]) {
        &&& d < LEAF_LEVEL
        &&& node_level(ns[i]) == min_u8(node_level(ns[2 * i + 1]), node_level(ns[2 * i + 2]))
        &&& subtree_ok(ns, 2 * i + 1, d + 1)
        &&& subtree_ok(ns, 2 * i + 2, d + 1)
    } else {
        &&& (node_level(ns[i]) == 63 || node_level(ns[i]) == d)
        &&& clean_below(ns, i, d)
    }
}

/// The sibling subtree of every ancestor of node `i` satisfies the
/// invariant: all that a walk from `i` back to the root leaves aside.
pub open spec fn path_ok(ns: Seq<u8>, i: int, d: int) -> bool
    decreases i,
{
    i <= 0 || {
        &&& subtree_ok(ns, buddy_of(i), d)
        &&& path_ok(ns, (i - 1) / 2, d - 1)
    }
}

/// The index of a node's buddy: the other child of its parent.
pub open spec fn buddy_of(i: int) -> int {
    if i % 2 == 1 {
        i + 1
    } else {
        i - 1
    }
}

/// The byte an interior summary gets: level = minimum of the children's
/// levels, parent bit set, low tag bits otherwise kept.
pub open spec fn summarize(ns: Seq<u8>, p: int) -> u8 {
    (min_u8(node_level(ns[2 * p + 1]), node_level(ns[2 * p + 2])) << 2 | ns[p] & 0b11 | 1) as u8
}

/// Effect of `levels_recurse(i)`: walking up from node `i`, every
/// ancestor in turn is re-summarised from its (by then current)
/// children.
pub open spec fn fix_up(ns: Seq<u8>, i: int) -> Seq<u8>
    decreases i,
{
    if i <= 0 {
        ns
    } else {
        let p = (i - 1) / 2;
        fix_up(ns.update(p, summarize(ns, p)), p)
    }
}

/// Depth of the nodes of the tree array is at most `LEAF_LEVEL`.
pub proof fn lemma_tree_level_max(i: int)
    requires
        0 <= i < NODE_COUNT,
    ensures
        tree_level(i) <= LEAF_LEVEL,
{
    lemma_tree_level_range(i);
    vstd::arithmetic::power2::lemma2_to64();
    if tree_level(i) > LEAF_LEVEL {
        vstd::arithmetic::power2::lemma_pow2_strictly_increases(12, tree_level(i));
    }
}

/// `subtree_ok` and `clean_below` read only the subtree of `i`: they are
/// unchanged when all its nodes keep their bytes.
pub proof fn lemma_subtree_frame(ns1: Seq<u8>, ns2: Seq<u8>, i: int, d: int)
    requires
        ns1.len() == NODE_COUNT,
        ns2.len() == NODE_COUNT,
        0 <= i < NODE_COUNT,
        tree_level(i) == d,
        forall|j: int| 0 <= j < NODE_COUNT && in_subtree(i, j) ==> ns2[j] == ns1[j],
    ensures
        subtree_ok(ns2, i, d) == subtree_ok(ns1, i, d),
        clean_below(ns2, i, d) == clean_below(ns1, i, d),
    decreases LEAF_LEVEL - d,
{
    lemma_tree_level_max(i);
    assert(ns2[i] == ns1[i]);
    if d < LEAF_LEVEL {
        let l = 2 * i + 1;
        let r = 2 * i + 2;
        lemma_tree_level_child(i);
        lemma_tree_level_range(l);
        lemma_tree_level_range(r);
        vstd::arithmetic::power2::lemma2_to64();
        if tree_level(l) + 1 > 12 {
            vstd::arithmetic::power2::lemma_pow2_strictly_increases(12, tree_level(l) + 1);
        }
        assert(l < NODE_COUNT && r < NODE_COUNT) by {
            vstd::arithmetic::power2::lemma_pow2_adds(1, tree_level(l));
            if tree_level(l) + 1 < 12 {
                vstd::arithmetic::power2::lemma_pow2_strictly_increases(tree_level(l) + 1, 12);
            }
        }
        assert forall|j: int| 0 <= j < NODE_COUNT && in_subtree(l, j) implies ns2[j] == ns1[j] by {
            lemma_subtree_step(l, j);
        }
        assert forall|j: int| 0 <= j < NODE_COUNT && in_subtree(r, j) implies ns2[j] == ns1[j] by {
            lemma_subtree_step(r, j);
        }
        assert(in_subtree(i, l) && in_subtree(i, r)) by {
            lemma_subtree_step(l, l);
            lemma_subtree_step(r, r);
        }
        lemma_subtree_frame(ns1, ns2, l, d + 1);
        lemma_subtree_frame(ns1, ns2, r, d + 1);
        assert(ns2[l] == ns1[l] && ns2[r] == ns1[r]);
    }
}

/// `path_ok` is unchanged when every changed byte sits on the parent
/// chain of `i` or inside `i`'s own subtree.
pub proof fn lemma_path_frame(ns1: Seq<u8>, ns2: Seq<u8>, i: int, d: int)
    requires
        ns1.len() == NODE_COUNT,
        ns2.len() == NODE_COUNT,
        0 <= i < NODE_COUNT,
        tree_level(i) == d,
        forall|j: int|
            0 <= j < NODE_COUNT && ns2[j] != ns1[j] ==> in_subtree(j, i) || in_subtree(i, j),
    ensures
        path_ok(ns2, i, d) == path_ok(ns1, i, d),
    decreases i,
{
    if i > 0 {
        let p = (i - 1) / 2;
        let sib = buddy_of(i);
        lemma_tree_level_range(i);
        assert(tree_level(sib) == d && tree_level(p) == d - 1 && 0 <= sib < NODE_COUNT) by {
            lemma_tree_level_child(p);
            lemma_tree_level_range(sib);
            vstd::arithmetic::power2::lemma2_to64();
            if tree_level(sib) + 1 > 12 {
                vstd::arithmetic::power2::lemma_pow2_strictly_increases(12, tree_level(sib) + 1);
            }
            if tree_level(sib) + 1 < 12 {
                vstd::arithmetic::power2::lemma_pow2_strictly_increases(tree_level(sib) + 1, 12);
            }
            vstd::arithmetic::power2::lemma_pow2_adds(1, tree_level(sib));
        }
        assert forall|j: int| 0 <= j < NODE_COUNT && in_subtree(sib, j) implies ns2[j] == ns1[j] by {
            if ns2[j] != ns1[j] {
                lemma_subtree_child(p, j);
                if in_subtree(j, i) {
                    lemma_subtree_trans(sib, j, i);
                    lemma_subtree_child(p, i);
                } else {
                    lemma_subtree_child(p, j);
                    lemma_subtree_step(i, j);
                    assert(in_subtree(i, j));
                    lemma_subtree_child(p, j);
                    assert(in_subtree(i, j) && in_subtree(sib, j));
                }
            }
        }
        lemma_subtree_frame(ns1, ns2, sib, d);
        assert forall|j: int|
            0 <= j < NODE_COUNT && ns2[j] != ns1[j] implies in_subtree(j, p) || in_subtree(
            p,
            j,
        ) by {
            if in_subtree(j, i) {
                if j == i {
                    lemma_subtree_step(i, i);
                    assert(in_subtree(p, j));
                } else {
                    assert(in_subtree(j, p));
                }
            } else {
                lemma_subtree_step(i, i);
                lemma_subtree_trans(p, i, j);
            }
        }
        lemma_path_frame(ns1, ns2, p, d - 1);
    }
}


/// All-zero bytes form a free tree: every node is a leaf.
pub proof fn lemma_zero_clean(ns: Seq<u8>, i: int, d: int)
    requires
        ns.len() == NODE_COUNT,
        0 <= i < NODE_COUNT,
        tree_level(i) == d,
        forall|j: int| 0 <= j < NODE_COUNT ==> ns[j] == 0,
    ensures
        clean_below(ns, i, d),
    decreases LEAF_LEVEL - d,
{
    lemma_tree_level_max(i);
    assert(!node_parent(0u8) && node_level(0u8) == 0) by (bit_vector);
    if d < LEAF_LEVEL {
        let l = 2 * i + 1;
        let r = 2 * i + 2;
        lemma_tree_level_child(i);
        lemma_tree_level_range(l);
        vstd::arithmetic::power2::lemma2_to64();
        if tree_level(l) + 1 > 12 {
            vstd::arithmetic::power2::lemma_pow2_strictly_increases(12, tree_level(l) + 1);
        }
        if tree_level(l) + 1 < 12 {
            vstd::arithmetic::power2::lemma_pow2_strictly_increases(tree_level(l) + 1, 12);
        }
        vstd::arithmetic::power2::lemma_pow2_adds(1, tree_level(l));
        lemma_zero_clean(ns, l, d + 1);
        lemma_zero_clean(ns, r, d + 1);
    }
}

/// Children of an in-range parent index are in range, and their depth is
/// one more. Bundles the index chasing the other lemmas need.
pub proof fn lemma_children_in_range(i: int)
    requires
        0 <= i < NODE_COUNT,
        tree_level(i) < LEAF_LEVEL,
    ensures
        2 * i + 2 < NODE_COUNT,
        tree_level(2 * i + 1) == tree_level(i) + 1,
        tree_level(2 * i + 2) == tree_level(i) + 1,
{
    lemma_tree_level_child(i);
    lemma_tree_level_range(2 * i + 2);
    vstd::arithmetic::power2::lemma2_to64();
    if tree_level(i) + 2 > 12 {
        vstd::arithmetic::power2::lemma_pow2_strictly_increases(12, tree_level(i) + 2);
    }
    if tree_level(i) + 2 < 12 {
        vstd::arithmetic::power2::lemma_pow2_strictly_increases(tree_level(i) + 2, 12);
    }
}

/// Re-summarising every ancestor of node `i` restores the whole-tree
/// invariant, provided `i`'s own subtree and every path sibling satisfy
/// it. Everything outside the parent chain of `i` keeps its byte, and
/// the chain itself is all parent-tagged afterwards.
pub proof fn lemma_fixup_wf(ns: Seq<u8>, i: int, d: int)
    requires
        ns.len() == NODE_COUNT,
        0 <= i < NODE_COUNT,
        tree_level(i) == d,
        subtree_ok(ns, i, d),
        path_ok(ns, i, d),
    ensures
        fix_up(ns, i).len() == NODE_COUNT,
        subtree_ok(fix_up(ns, i), 0, 0),
        forall|j: int|
            0 <= j < NODE_COUNT && !(in_subtree(j, i) && j != i) ==> fix_up(ns, i)[j] == ns[j],
        forall|j: int|
            0 <= j < NODE_COUNT && in_subtree(j, i) && j != i ==> node_parent(fix_up(ns, i)[j]),
    decreases i,
{
    if i > 0 {
        let p = (i - 1) / 2;
        let sib = buddy_of(i);
        let lv = min_u8(node_level(ns[2 * p + 1]), node_level(ns[2 * p + 2]));
        let sm = summarize(ns, p);
        let ns2 = ns.update(p, sm);
        lemma_tree_level_range(i);
        assert(tree_level(p) == d - 1);
        assert(i == 2 * p + 1 || i == 2 * p + 2);
        assert(sib == 2 * p + 1 || sib == 2 * p + 2);
        assert(sib != i);
        lemma_tree_level_max(i);
        lemma_children_in_range(p);
        // The update at p is outside both children's subtrees.
        assert forall|j: int| 0 <= j < NODE_COUNT && in_subtree(i, j) implies ns2[j] == ns[j] by {
            if j == p {
                lemma_subtree_min(i, p);
            }
        }
        assert forall|j: int| 0 <= j < NODE_COUNT && in_subtree(sib, j) implies ns2[j] == ns[j] by {
            if j == p {
                lemma_subtree_min(sib, p);
            }
        }
        lemma_subtree_frame(ns, ns2, i, d);
        lemma_subtree_frame(ns, ns2, sib, d);
        // The refreshed parent byte.
        let b = ns[p];
        assert(node_parent(sm) && node_level(sm) == lv) by {
            assert(node_level(ns[2 * p + 1]) <= 63 && node_level(ns[2 * p + 2]) <= 63) by {
                let bl = ns[2 * p + 1];
                let br = ns[2 * p + 2];
                assert(bl >> 2 <= 63 && br >> 2 <= 63) by (bit_vector);
            }
            assert(lv <= 63 ==> ((lv << 2 | b & 0b11 | 1) as u8) & 1 == 1 && ((lv << 2 | b & 0b11
                | 1) as u8) >> 2 == lv) by (bit_vector);
        }
        assert(subtree_ok(ns2, p, d - 1)) by {
            assert(ns2[2 * p + 1] == ns[2 * p + 1] && ns2[2 * p + 2] == ns[2 * p + 2]) by {
                lemma_subtree_step(i, i);
                lemma_subtree_step(sib, sib);
            }
        }
        assert(path_ok(ns2, p, d - 1)) by {
            assert forall|j: int|
                0 <= j < NODE_COUNT && ns2[j] != ns[j] implies in_subtree(j, p) || in_subtree(
                p,
                j,
            ) by {
                assert(j == p);
            }
            lemma_path_frame(ns, ns2, p, d - 1);
        }
        lemma_fixup_wf(ns2, p, d - 1);
        assert(fix_up(ns, i) == fix_up(ns2, p));
        // Frame composition: proper ancestors of i are p and p's proper
        // ancestors.
        assert forall|j: int|
            0 <= j < NODE_COUNT && !(in_subtree(j, i) && j != i) implies fix_up(ns, i)[j]
            == ns[j] by {
            if j == p {
                lemma_subtree_step(i, i);
                assert(false);
            }
            if in_subtree(j, p) && j != p {
                lemma_subtree_min(j, p);
                assert(in_subtree(j, i));
                assert(false);
            }
            assert(fix_up(ns2, p)[j] == ns2[j]);
        }
        assert forall|j: int|
            0 <= j < NODE_COUNT && in_subtree(j, i) && j != i implies node_parent(
            fix_up(ns, i)[j],
        ) by {
            assert(in_subtree(j, p));
            if j == p {
                assert(fix_up(ns2, p)[p] == ns2[p]);
            }
        }
    }
}

/// The metadata tree: one byte per node, stored as a flat array.
pub struct BuddyMeta {
    nodes: Vec<BuddyLeaf>,
}

impl BuddyMeta {
    /// The node bytes.
    pub closed spec fn bytes(&self) -> Seq<u8> {
        Seq::new(self.nodes@.len(), |i: int| self.nodes@[i].spec_bits())
    }

    /// The array holds the full tree.
    pub open spec fn len_ok(&self) -> bool {
        self.bytes().len() == NODE_COUNT
    }

    /// The whole tree satisfies the buddy invariant.
    pub open spec fn wf(&self) -> bool {
        &&& self.len_ok()
        &&& subtree_ok(self.bytes(), 0, 0)
    }

    /// Size in bytes of the largest (whole-arena) allocation.
    pub fn largest() -> (r: u64)
        ensures
            r == 262144,
    {
        proof {
            assert(1u64 << 18 == 262144) by (bit_vector);
        }
        1u64 << 18
    }

    /// Index of a node's parent.
    pub fn get_parent(child: usize) -> (r: usize)
        requires
            child >= 1,
        ensures
            r == (child - 1) / 2,
    {
        (child - 1) / 2
    }

    /// Index of a node's left child.
    pub fn get_left(parent: usize) -> (r: usize)
        requires
            parent < NODE_COUNT,
        ensures
            r == 2 * parent + 1,
    {
        parent * 2 + 1
    }

    /// Index of a node's right child.
    pub fn get_right(parent: usize) -> (r: usize)
        requires
            parent < NODE_COUNT,
        ensures
            r == 2 * parent + 2,
    {
        parent * 2 + 2
    }

    /// Index of a node's buddy: the other child of its parent.
    pub fn get_buddy(other: usize) -> (r: usize)
        requires
            1 <= other < NODE_COUNT,
        ensures
            r == buddy_of(other as int),
    {
        if other % 2 == 1 {
            other + 1
        } else {
            other - 1
        }
    }

    /// Depth of a node index in the tree.
    pub fn get_level(index: usize) -> (r: u8)
        requires
            index < NODE_COUNT,
        ensures
            r as nat == tree_level(index as int),
    {
        proof {
            lemma_tree_level_max(index as int);
        }
        let mut c = index;
        let mut l: u8 = 0;
        while c > 0
            invariant
                tree_level(index as int) == tree_level(c as int) + l,
                l <= tree_level(index as int),
                tree_level(index as int) <= 11,
            decreases c,
        {
            c = (c - 1) / 2;
            l = l + 1;
        }
        l
    }

    /// Read the node at `index`.
    pub fn access(&self, index: usize) -> (r: &BuddyLeaf)
        requires
            self.len_ok(),
            index < NODE_COUNT,
        ensures
            r.spec_bits() == self.bytes()[index as int],
    {
        &self.nodes[index]
    }

    /// Borrow the node at `index` for writing.
    pub fn access_mut(&mut self, index: usize) -> (r: &mut BuddyLeaf)
        requires
            old(self).len_ok(),
            index < NODE_COUNT,
        ensures
            r.spec_bits() == old(self).bytes()[index as int],
            final(self).bytes() == old(self).bytes().update(
                index as int,
                final(r).spec_bits(),
            ),
    {
        &mut self.nodes[index]
    }

    /// Walk from node `begin` to the root, re-summarising every ancestor
    /// as a parent whose level is the minimum of its children's.
    pub fn levels_recurse(&mut self, begin: usize)
        requires
            old(self).len_ok(),
            begin < NODE_COUNT,
        ensures
            final(self).bytes() == fix_up(old(self).bytes(), begin as int),
    {
        let mut current = begin;
        while current != 0
            invariant
                self.len_ok(),
                current < NODE_COUNT,
                fix_up(old(self).bytes(), begin as int) == fix_up(self.bytes(), current as int),
            decreases current,
        {
            let ghost pre = self.bytes();
            let ghost old_current = current as int;
            current = (current - 1) / 2;
            let left_level = self.nodes[2 * current + 1].get_level();
            let right_level = self.nodes[2 * current + 2].get_level();
            let m = if left_level <= right_level {
                left_level
            } else {
                right_level
            };
            let mut n = self.nodes[current];
            n.set_level(m);
            n.set_parent();
            self.nodes.set(current, n);
            proof {
                assert(self.bytes() =~= pre.update(current as int, summarize(pre, current as int)));
                assert(fix_up(pre, old_current) == fix_up(self.bytes(), current as int));
            }
        }
    }
}


/// The node reached from `i` by walking `k` left-child steps.
pub open spec fn leftmost(i: int, k: int) -> int
    decreases k,
{
    if k <= 0 {
        i
    } else {
        leftmost(2 * i + 1, k - 1)
    }
}

/// Size exponent available under a node byte: `MAX_ALLOCATION` minus the
/// level, floored at zero (an allocated leaf's 63 yields zero).
pub open spec fn size_of(b: u8) -> int {
    if node_level(b) as int >= MAX_ALLOCATION {
        0
    } else {
        MAX_ALLOCATION - node_level(b)
    }
}

/// The leaf `kmalloc` picks for a `2^pow` request, descending from node
/// `i` at depth `d`: inside a free leaf it splits all the way down the
/// left spine; at an interior summary it prefers the child with the
/// smaller sufficient capacity (best fit), the left one on ties.
pub open spec fn km_choose(ns: Seq<u8>, i: int, d: int, pow: int) -> int
    decreases LEAF_LEVEL - d,
{
    if !node_parent(ns[i]) {
        leftmost(i, MAX_ALLOCATION - pow - d)
    } else if d >= LEAF_LEVEL {
        i
    } else {
        let lsz = size_of(ns[2 * i + 1]);
        let rsz = size_of(ns[2 * i + 2]);
        if lsz >= pow && rsz >= pow {
            if rsz < lsz {
                km_choose(ns, 2 * i + 2, d + 1, pow)
            } else {
                km_choose(ns, 2 * i + 1, d + 1, pow)
            }
        } else if lsz >= pow {
            km_choose(ns, 2 * i + 1, d + 1, pow)
        } else {
            km_choose(ns, 2 * i + 2, d + 1, pow)
        }
    }
}

/// The byte `set_level` leaves behind: the level in bits 2..7, the two
/// tag bits kept.
pub open spec fn level_byte(b: u8, level: u8) -> u8 {
    (level << 2 | b & 0b11) as u8
}

/// The exact node bytes `kmalloc` leaves behind before the ancestors are
/// re-summarised, descending exactly as `km_choose` does: inside a free
/// leaf, each split tags the right half a free leaf one level down and
/// continues left; the chosen leaf is tagged allocated (level 63).
pub open spec fn km_alloc_bytes(ns: Seq<u8>, i: int, d: int, pow: int) -> Seq<u8>
    decreases LEAF_LEVEL - d,
{
    if !node_parent(ns[i]) {
        if d >= MAX_ALLOCATION - pow || d >= LEAF_LEVEL {
            ns.update(i, level_byte(ns[i], 255))
        } else {
            km_alloc_bytes(
                ns.update(2 * i + 2, level_byte(ns[2 * i + 2], (d + 1) as u8)),
                2 * i + 1,
                d + 1,
                pow,
            )
        }
    } else if d >= LEAF_LEVEL {
        ns
    } else {
        let lsz = size_of(ns[2 * i + 1]);
        let rsz = size_of(ns[2 * i + 2]);
        if lsz >= pow && rsz >= pow {
            if rsz < lsz {
                km_alloc_bytes(ns, 2 * i + 2, d + 1, pow)
            } else {
                km_alloc_bytes(ns, 2 * i + 1, d + 1, pow)
            }
        } else if lsz >= pow {
            km_alloc_bytes(ns, 2 * i + 1, d + 1, pow)
        } else {
            km_alloc_bytes(ns, 2 * i + 2, d + 1, pow)
        }
    }
}

/// The exact node bytes `kfree` leaves behind, walking up from the freed
/// leaf `i`: while the buddy is a free leaf the parent is tagged a leaf
/// (merging the pair), then the merged node is tagged free at its own
/// depth and every ancestor re-summarised.
pub open spec fn km_free_bytes(ns: Seq<u8>, i: int) -> Seq<u8>
    decreases i,
{
    if i > 0 && !node_parent(ns[buddy_of(i)]) && node_level(ns[buddy_of(i)]) < 63 {
        km_free_bytes(ns.update((i - 1) / 2, (ns[(i - 1) / 2] & !1) as u8), (i - 1) / 2)
    } else {
        fix_up(ns.update(i, level_byte(ns[i], tree_level(i) as u8)), i)
    }
}

/// `km_choose` reads only the subtree it descends.
pub proof fn lemma_km_choose_frame(ns1: Seq<u8>, ns2: Seq<u8>, i: int, d: int, pow: int)
    requires
        ns1.len() == NODE_COUNT,
        ns2.len() == NODE_COUNT,
        0 <= i < NODE_COUNT,
        tree_level(i) == d,
        forall|j: int| 0 <= j < NODE_COUNT && in_subtree(i, j) ==> ns2[j] == ns1[j],
    ensures
        km_choose(ns2, i, d, pow) == km_choose(ns1, i, d, pow),
    decreases LEAF_LEVEL - d,
{
    assert(ns2[i] == ns1[i]);
    lemma_tree_level_max(i);
    if node_parent(ns1[i]) && d < LEAF_LEVEL {
        lemma_children_in_range(i);
        let l = 2 * i + 1;
        let r = 2 * i + 2;
        lemma_subtree_step(l, l);
        lemma_subtree_step(r, r);
        assert(ns2[l] == ns1[l] && ns2[r] == ns1[r]);
        assert forall|j: int| 0 <= j < NODE_COUNT && in_subtree(l, j) implies ns2[j] == ns1[j] by {
            lemma_subtree_step(l, j);
        }
        assert forall|j: int| 0 <= j < NODE_COUNT && in_subtree(r, j) implies ns2[j] == ns1[j] by {
            lemma_subtree_step(r, j);
        }
        lemma_km_choose_frame(ns1, ns2, l, d + 1, pow);
        lemma_km_choose_frame(ns1, ns2, r, d + 1, pow);
    }
}

/// In a well formed subtree no node's level is below its depth: the
/// summary level can never promise a block larger than the node.
pub proof fn lemma_level_min(ns: Seq<u8>, i: int, d: int)
    requires
        ns.len() == NODE_COUNT,
        0 <= i < NODE_COUNT,
        tree_level(i) == d,
        subtree_ok(ns, i, d),
    ensures
        node_level(ns[i]) == 63 || node_level(ns[i]) as int >= d,
        node_parent(ns[i]) ==> node_level(ns[i]) == 63 || node_level(ns[i]) as int >= d + 1,
    decreases LEAF_LEVEL - d,
{
    lemma_tree_level_max(i);
    if node_parent(ns[i]) {
        lemma_children_in_range(i);
        lemma_level_min(ns, 2 * i + 1, d + 1);
        lemma_level_min(ns, 2 * i + 2, d + 1);
    }
}

/// The left spine from a node stays inside its subtree and adds one
/// depth per step.
pub proof fn lemma_leftmost(i: int, k: int)
    requires
        0 <= i,
        0 <= k,
        tree_level(i) + k <= LEAF_LEVEL,
        i < NODE_COUNT,
    ensures
        tree_level(leftmost(i, k)) == tree_level(i) + k,
        in_subtree(i, leftmost(i, k)),
        0 <= leftmost(i, k) < NODE_COUNT,
    decreases k,
{
    if k > 0 {
        lemma_children_in_range(i);
        lemma_leftmost(2 * i + 1, k - 1);
        lemma_subtree_step(2 * i + 1, leftmost(2 * i + 1, k - 1));
    }
}

impl BuddyMeta {
    /// Descend from the root and claim the best-fitting free block of
    /// `2^pow` bytes: its leaf is marked allocated (level 63) and every
    /// ancestor re-summarised. Returns the leaf's node index, which is
    /// exactly the one the choice policy names; the capacity demand in
    /// the requires (root level small enough) is what rules out the
    /// out-of-kernel-memory panic.
    fn alloc_block(&mut self, pow: usize) -> (res: usize)
        requires
            old(self).wf(),
            MIN_SIZE_POW <= pow <= MAX_ALLOCATION,
            node_level(old(self).bytes()[0]) as int <= MAX_ALLOCATION - pow,
        ensures
            final(self).wf(),
            res == km_choose(old(self).bytes(), 0, 0, pow as int),
            res < NODE_COUNT,
            tree_level(res as int) == MAX_ALLOCATION - pow,
            !node_parent(final(self).bytes()[res as int]),
            node_level(final(self).bytes()[res as int]) == 63,
            final(self).bytes() == fix_up(
                km_alloc_bytes(old(self).bytes(), 0, 0, pow as int),
                km_choose(old(self).bytes(), 0, 0, pow as int),
            ),
            forall|j: int|
                0 <= j < NODE_COUNT && in_subtree(j, res as int) && j != res ==> node_parent(
                    final(self).bytes()[j],
                ),
    {
        let ghost orig = self.bytes();
        let limit = MAX_ALLOCATION - pow;
        let mut current: usize = 0;
        let mut level: usize = 0;
        while level < limit
            invariant
                self.len_ok(),
                MIN_SIZE_POW <= pow <= MAX_ALLOCATION,
                limit == MAX_ALLOCATION - pow,
                current < NODE_COUNT,
                tree_level(current as int) == level,
                level <= limit,
                path_ok(self.bytes(), current as int, level as int),
                km_choose(orig, 0, 0, pow as int) == km_choose(
                    self.bytes(),
                    current as int,
                    level as int,
                    pow as int,
                ),
                km_alloc_bytes(orig, 0, 0, pow as int) == km_alloc_bytes(
                    self.bytes(),
                    current as int,
                    level as int,
                    pow as int,
                ),
                node_parent(self.bytes()[current as int]) ==> subtree_ok(
                    self.bytes(),
                    current as int,
                    level as int,
                ) && node_level(self.bytes()[current as int]) as int <= limit,
                !node_parent(self.bytes()[current as int]) ==> clean_below(
                    self.bytes(),
                    current as int,
                    level as int,
                ),
            decreases limit - level,
        {
            proof {
                lemma_tree_level_max(current as int);
                lemma_children_in_range(current as int);
            }
            let node_is_leaf = self.nodes[current].leaf();
            let li = 2 * current + 1;
            let ri = 2 * current + 2;
            if node_is_leaf {
                // Split: the right half becomes a free leaf one level
                // down, the walk continues into the left half.
                let ghost pre = self.bytes();
                let mut n = self.nodes[ri];
                n.set_level((level + 1) as u8);
                self.nodes.set(ri, n);
                proof {
                    let cur = current as int;
                    let d = level as int;
                    let ns2 = self.bytes();
                    assert(ns2 =~= pre.update(2 * cur + 2, n.spec_bits()));
                    let lvb = (d + 1) as u8;
                    let ob = pre[2 * cur + 2];
                    assert(!node_parent(ob));
                    assert(ob & 1 == 0) by {
                        assert(!(ob & 1 == 1) ==> ob & 1 == 0) by (bit_vector);
                    }
                    assert(!node_parent((lvb << 2 | ob & 0b11) as u8) && node_level(
                        (lvb << 2 | ob & 0b11) as u8,
                    ) == lvb) by (bit_vector)
                        requires
                            lvb <= 63,
                            ob & 1 == 0,
                    ;
                    // The right sibling is now a well formed free leaf.
                    assert forall|j: int|
                        0 <= j < NODE_COUNT && in_subtree(2 * cur + 1, j) implies ns2[j]
                        == pre[j] by {
                        if j == 2 * cur + 2 {
                            lemma_subtree_child(cur, j);
                            assert(in_subtree(2 * cur + 2, j));
                            assert(false);
                        }
                    }
                    assert forall|j: int|
                        0 <= j < NODE_COUNT && in_subtree(2 * cur + 2, j) && j != 2 * cur + 2
                        implies ns2[j] == pre[j] by {
                        lemma_subtree_min(2 * cur + 2, j);
                    }
                    assert(clean_below(pre, cur, d));
                    assert(clean_below(ns2, 2 * cur + 2, d + 1)) by {
                        if d + 1 < LEAF_LEVEL {
                            assert(clean_below(pre, 2 * cur + 2, d + 1));
                            assert(!node_parent(pre[2 * (2 * cur + 2) + 1]));
                            assert(!node_parent(pre[2 * (2 * cur + 2) + 2]));
                            assert(clean_below(pre, 2 * (2 * cur + 2) + 1, d + 2));
                            assert(clean_below(pre, 2 * (2 * cur + 2) + 2, d + 2));
                            lemma_children_in_range(2 * cur + 2);
                            assert forall|j: int|
                                0 <= j < NODE_COUNT && in_subtree(2 * (2 * cur + 2) + 1, j)
                                implies ns2[j] == pre[j] by {
                                if j != 2 * (2 * cur + 2) + 1 {
                                    lemma_subtree_min(2 * (2 * cur + 2) + 1, j);
                                }
                            }
                            assert forall|j: int|
                                0 <= j < NODE_COUNT && in_subtree(2 * (2 * cur + 2) + 2, j)
                                implies ns2[j] == pre[j] by {
                                if j != 2 * (2 * cur + 2) + 2 {
                                    lemma_subtree_min(2 * (2 * cur + 2) + 2, j);
                                }
                            }
                            lemma_subtree_frame(pre, ns2, 2 * (2 * cur + 2) + 1, d + 2);
                            lemma_subtree_frame(pre, ns2, 2 * (2 * cur + 2) + 2, d + 2);
                        }
                    }
                    assert(subtree_ok(ns2, 2 * cur + 2, d + 1));
                    // The left child is a clean leaf.
                    assert(!node_parent(ns2[2 * cur + 1]));
                    assert(clean_below(ns2, 2 * cur + 1, d + 1)) by {
                        lemma_subtree_frame(pre, ns2, 2 * cur + 1, d + 1);
                    }
                    // The path above is untouched.
                    assert(path_ok(ns2, cur, d)) by {
                        assert forall|j: int|
                            0 <= j < NODE_COUNT && ns2[j] != pre[j] implies in_subtree(j, cur)
                            || in_subtree(cur, j) by {
                            assert(j == 2 * cur + 2);
                            lemma_subtree_step(2 * cur + 2, 2 * cur + 2);
                        }
                        lemma_path_frame(pre, ns2, cur, d);
                    }
                    assert(path_ok(ns2, 2 * cur + 1, d + 1));
                    // The choice is the left spine of the old leaf.
                    assert(km_choose(pre, cur, d, pow as int) == leftmost(cur, limit - d));
                    assert(km_choose(ns2, 2 * cur + 1, d + 1, pow as int) == leftmost(
                        2 * cur + 1,
                        limit - d - 1,
                    ));
                    assert(leftmost(cur, limit - d) == leftmost(2 * cur + 1, limit - d - 1));
                    assert(km_choose(pre, cur, d, pow as int) == km_choose(
                        ns2,
                        2 * cur + 1,
                        d + 1,
                        pow as int,
                    ));
                }
                current = li;
            } else {
                // Interior summary: descend into a child with enough
                // capacity, preferring the tighter fit.
                let ghost cur = current as int;
                let ghost d = level as int;
                let ll = self.nodes[li].get_level() as usize;
                let rl = self.nodes[ri].get_level() as usize;
                let lsz = if ll >= MAX_ALLOCATION {
                    0
                } else {
                    MAX_ALLOCATION - ll
                };
                let rsz = if rl >= MAX_ALLOCATION {
                    0
                } else {
                    MAX_ALLOCATION - rl
                };
                proof {
                    assert(subtree_ok(self.bytes(), cur, d));
                    assert(node_level(self.bytes()[cur]) == min_u8(
                        node_level(self.bytes()[2 * cur + 1]),
                        node_level(self.bytes()[2 * cur + 2]),
                    ));
                    assert(lsz >= pow || rsz >= pow);
                }
                let go_right = if lsz >= pow && rsz >= pow {
                    rsz < lsz
                } else {
                    rsz >= pow
                };
                let ghost picked: int = if go_right {
                    2 * cur + 2
                } else {
                    2 * cur + 1
                };
                proof {
                    let ns = self.bytes();
                    assert(km_choose(ns, cur, d, pow as int) == km_choose(
                        ns,
                        picked,
                        d + 1,
                        pow as int,
                    ));
                    assert(subtree_ok(ns, picked, d + 1));
                    assert(node_level(ns[picked]) as int <= limit || !node_parent(ns[picked])) by {
                        if go_right {
                            assert(rsz >= pow);
                        } else {
                            assert(lsz >= pow);
                        }
                    }
                    if node_parent(ns[picked]) {
                        assert(node_level(ns[picked]) as int <= limit) by {
                            lemma_level_min(ns, picked, d + 1);
                        }
                    }
                    if !node_parent(ns[picked]) {
                        assert(clean_below(ns, picked, d + 1));
                    }
                    assert(path_ok(ns, picked, d + 1));
                }
                current = if go_right {
                    ri
                } else {
                    li
                };
            }
            level = level + 1;
        }
        proof {
            // At the target depth the walk must stand on a free leaf.
            let ns = self.bytes();
            let cur = current as int;
            if node_parent(ns[cur]) {
                lemma_level_min(ns, cur, limit as int);
                assert(node_level(ns[cur]) == 63 || node_level(ns[cur]) as int >= limit);
                assert(subtree_ok(ns, cur, limit as int));
                assert(false);
            }
        }
        // Mark the chosen leaf allocated and re-summarise the ancestors.
        let ghost pre = self.bytes();
        let mut n = self.nodes[current];
        n.set_level(255);
        self.nodes.set(current, n);
        proof {
            let cur = current as int;
            let d = limit as int;
            let ns2 = self.bytes();
            assert(ns2 =~= pre.update(cur, n.spec_bits()));
            let ob = pre[cur];
            assert(ob & 1 == 0) by {
                assert(!(ob & 1 == 1) ==> ob & 1 == 0) by (bit_vector);
            }
            assert(!node_parent((255u8 << 2 | ob & 0b11) as u8) && node_level(
                (255u8 << 2 | ob & 0b11) as u8,
            ) == 63) by (bit_vector)
                requires
                    ob & 1 == 0,
            ;
            assert(clean_below(ns2, cur, d)) by {
                lemma_tree_level_max(cur);
                if d < LEAF_LEVEL {
                    lemma_children_in_range(cur);
                    lemma_subtree_step(2 * cur + 1, 2 * cur + 1);
                    lemma_subtree_step(2 * cur + 2, 2 * cur + 2);
                    assert forall|j: int|
                        0 <= j < NODE_COUNT && in_subtree(2 * cur + 1, j) implies ns2[j]
                        == pre[j] by {
                        if j == cur {
                            lemma_subtree_min(2 * cur + 1, j);
                        }
                    }
                    assert forall|j: int|
                        0 <= j < NODE_COUNT && in_subtree(2 * cur + 2, j) implies ns2[j]
                        == pre[j] by {
                        if j == cur {
                            lemma_subtree_min(2 * cur + 2, j);
                        }
                    }
                    lemma_subtree_frame(pre, ns2, 2 * cur + 1, d + 1);
                    lemma_subtree_frame(pre, ns2, 2 * cur + 2, d + 1);
                }
            }
            assert(subtree_ok(ns2, cur, d));
            assert(path_ok(ns2, cur, d)) by {
                assert forall|j: int|
                    0 <= j < NODE_COUNT && ns2[j] != pre[j] implies in_subtree(j, cur)
                    || in_subtree(cur, j) by {
                    assert(j == cur);
                }
                lemma_path_frame(pre, ns2, cur, d);
            }
            lemma_fixup_wf(ns2, cur, d);
        }
        self.levels_recurse(current);
        proof {
            assert(km_choose(orig, 0, 0, pow as int) == leftmost(current as int, 0));
        }
        current
    }
}


/// Byte offset of node `i`'s block inside the arena: block size times
/// the node's rank among the nodes of its depth.
pub open spec fn spec_index_off(i: int) -> int {
    pow2((MAX_ALLOCATION - tree_level(i)) as nat) * (i + 1 - pow2(tree_level(i)))
}

/// Offsets of the two halves of a block: the left child starts where the
/// parent starts, the right child half a block later.
pub proof fn lemma_off_child(i: int)
    requires
        0 <= i < NODE_COUNT,
        tree_level(i) < LEAF_LEVEL,
    ensures
        spec_index_off(2 * i + 1) == spec_index_off(i),
        spec_index_off(2 * i + 2) == spec_index_off(i) + pow2(
            (MAX_ALLOCATION - 1 - tree_level(i)) as nat,
        ),
{
    let d = tree_level(i);
    lemma_tree_level_max(i);
    lemma_children_in_range(i);
    let p17 = pow2((MAX_ALLOCATION - 1 - d) as nat);
    let p18 = pow2((MAX_ALLOCATION - d) as nat);
    let pd = pow2(d);
    let pd1 = pow2(d + 1);
    vstd::arithmetic::power2::lemma_pow2_adds(1, (MAX_ALLOCATION - 1 - d) as nat);
    vstd::arithmetic::power2::lemma_pow2_adds(1, d);
    vstd::arithmetic::power2::lemma2_to64();
    assert(p18 == 2 * p17 && pd1 == 2 * pd);
    assert(p17 * (2 * i + 1 + 1 - pd1) == p18 * (i + 1 - pd) && p17 * (2 * i + 2 + 1 - pd1) == p18
        * (i + 1 - pd) + p17) by (nonlinear_arith)
        requires
            p18 == 2 * p17,
            pd1 == 2 * pd,
    ;
}

/// A block never leaves the arena, and its offset is a multiple of its
/// size.
pub proof fn lemma_off_bound(i: int)
    requires
        0 <= i < NODE_COUNT,
    ensures
        0 <= spec_index_off(i),
        spec_index_off(i) + pow2((MAX_ALLOCATION - tree_level(i)) as nat) <= 262144,
        spec_index_off(i) % (pow2((MAX_ALLOCATION - tree_level(i)) as nat) as int) == 0,
{
    let d = tree_level(i);
    lemma_tree_level_max(i);
    lemma_tree_level_range(i);
    let p = pow2((MAX_ALLOCATION - d) as nat);
    let pd = pow2(d);
    vstd::arithmetic::power2::lemma_pow2_adds((MAX_ALLOCATION - d) as nat, d);
    vstd::arithmetic::power2::lemma2_to64();
    assert(p * pd == 262144);
    assert(0 <= p * (i + 1 - pd) && p * (i + 1 - pd) + p <= p * pd && p * (i + 1 - pd) % (
    p as int) == 0)
        by (nonlinear_arith)
        requires
            p > 0,
            pd - 1 <= i < 2 * pd - 1,
            p * pd == 262144,
    ;
}

/// The block of a node inside a subtree lies inside the subtree's block.
pub proof fn lemma_off_range(a: int, c: int)
    requires
        0 <= a,
        c < NODE_COUNT,
        in_subtree(a, c),
    ensures
        spec_index_off(a) <= spec_index_off(c),
        spec_index_off(c) + pow2((MAX_ALLOCATION - tree_level(c)) as nat) <= spec_index_off(a)
            + pow2((MAX_ALLOCATION - tree_level(a)) as nat),
    decreases c,
{
    if c != a {
        let p = (c - 1) / 2;
        lemma_off_range(a, p);
        lemma_tree_level_max(c);
        assert(tree_level(p) < LEAF_LEVEL && p < NODE_COUNT) by {
            lemma_tree_level_range(c);
            lemma_tree_level_child(p);
        }
        lemma_off_child(p);
        assert(c == 2 * p + 1 || c == 2 * p + 2);
        vstd::arithmetic::power2::lemma_pow2_adds(1, (MAX_ALLOCATION - 1 - tree_level(p)) as nat);
        vstd::arithmetic::power2::lemma2_to64();
    }
}

/// The leaf whose block covers byte offset `off`, walking down from node
/// `i` at depth `d` and halving the block at every interior summary.
pub open spec fn find_leaf(ns: Seq<u8>, i: int, d: int, off: int) -> int
    decreases LEAF_LEVEL - d,
{
    if d >= LEAF_LEVEL || !node_parent(ns[i]) {
        i
    } else if off >= pow2((MAX_ALLOCATION - 1 - d) as nat) {
        find_leaf(ns, 2 * i + 2, d + 1, off - pow2((MAX_ALLOCATION - 1 - d) as nat))
    } else {
        find_leaf(ns, 2 * i + 1, d + 1, off)
    }
}

/// Depth grows along a subtree.
pub proof fn lemma_subtree_level(a: int, c: int)
    requires
        0 <= a,
        in_subtree(a, c),
    ensures
        tree_level(c) >= tree_level(a) + (if c == a { 0int } else { 1int }),
    decreases c,
{
    if c != a {
        let p = (c - 1) / 2;
        lemma_subtree_level(a, p);
        assert(tree_level(c) == tree_level(p) + 1);
    }
}

/// Walking the offset of a leaf down from one of its ancestors reaches
/// exactly that leaf, provided every node strictly between is an
/// interior summary.
pub proof fn lemma_find_leaf_at(ns: Seq<u8>, a: int, c: int, off: int)
    requires
        ns.len() == NODE_COUNT,
        0 <= a,
        c < NODE_COUNT,
        in_subtree(a, c),
        !node_parent(ns[c]),
        forall|j: int| 0 <= j < NODE_COUNT && in_subtree(j, c) && j != c ==> node_parent(ns[j]),
        spec_index_off(c) <= off < spec_index_off(c) + pow2(
            (MAX_ALLOCATION - tree_level(c)) as nat,
        ),
    ensures
        find_leaf(ns, a, tree_level(a) as int, off - spec_index_off(a)) == c,
    decreases c - a,
{
    if a == c {
    } else {
        let d = tree_level(a) as int;
        assert(a < NODE_COUNT) by {
            lemma_subtree_min(a, c);
        }
        assert(node_parent(ns[a]));
        assert(tree_level(c) <= LEAF_LEVEL) by {
            lemma_tree_level_max(c);
        }
        assert(d < LEAF_LEVEL) by {
            lemma_subtree_level(a, c);
        }
        lemma_children_in_range(a);
        lemma_off_child(a);
        let l = 2 * a + 1;
        let r = 2 * a + 2;
        let half = pow2((MAX_ALLOCATION - 1 - d) as nat);
        lemma_subtree_child(a, c);
        vstd::arithmetic::power2::lemma_pow2_adds(1, (MAX_ALLOCATION - 1 - d) as nat);
        vstd::arithmetic::power2::lemma2_to64();
        if in_subtree(r, c) {
            if c != r {
                lemma_subtree_min(r, c);
            }
            lemma_off_range(r, c);
            assert(off - spec_index_off(a) >= half);
            lemma_find_leaf_at(ns, r, c, off);
        } else {
            assert(in_subtree(l, c));
            if c != l {
                lemma_subtree_min(l, c);
            }
            lemma_off_range(l, c);
            assert(spec_index_off(c) + pow2((MAX_ALLOCATION - tree_level(c)) as nat)
                <= spec_index_off(a) + half);
            assert(off - spec_index_off(a) < half);
            lemma_find_leaf_at(ns, l, c, off);
        }
    }
}


impl BuddyMeta {
    /// Physical address of the block belonging to node `index` in an
    /// arena that starts at `begin_alloc`.
    pub fn index_to_addr(&self, begin_alloc: u64, index: usize) -> (r: u64)
        requires
            begin_alloc % crate::page::PAGE_SIZE == 0,
            begin_alloc + 262144 <= u64::MAX,
            index < NODE_COUNT,
        ensures
            r == begin_alloc + spec_index_off(index as int),
    {
        let level = Self::get_level(index);
        proof {
            lemma_tree_level_max(index as int);
            lemma_tree_level_range(index as int);
        }
        let pow = (MAX_ALLOCATION as u64) - (level as u64);
        let ghost d = tree_level(index as int);
        proof {
            vstd::bits::lemma_u64_pow2_no_overflow(d);
            vstd::bits::lemma_u64_pow2_no_overflow((MAX_ALLOCATION - d) as nat);
            vstd::bits::lemma_u64_shl_is_mul(1u64, (level as u64));
            vstd::bits::lemma_u64_shl_is_mul(1u64, pow);
            vstd::arithmetic::power2::lemma_pow2_pos(d);
            vstd::arithmetic::power2::lemma_pow2_adds(1, d);
            vstd::arithmetic::power2::lemma2_to64();
        }
        let sz: u64 = 1u64 << pow;
        let mask_bits: u64 = (1u64 << (level as u64)) - 1;
        let rank = ((index as u64) + 1) & mask_bits;
        proof {
            let iw = index as u64;
            let lv = level as u64;
            let iw1 = (iw + 1) as u64;
            assert(iw1 & (((1u64 << lv) - 1) as u64) == iw1 - (1u64 << lv)) by (bit_vector)
                requires
                    lv <= 11,
                    (1u64 << lv) <= iw1,
                    iw1 < 2 * (1u64 << lv),
                    iw1 <= 4095,
            ;
            assert(sz * rank == spec_index_off(index as int)) by (nonlinear_arith)
                requires
                    sz == pow2((MAX_ALLOCATION - d) as nat),
                    rank == index + 1 - pow2(d),
                    spec_index_off(index as int) == pow2((MAX_ALLOCATION - d) as nat) * (index + 1
                        - pow2(d)),
            ;
            lemma_off_bound(index as int);
            vstd::arithmetic::power2::lemma_pow2_pos((MAX_ALLOCATION - d) as nat);
        }
        begin_alloc + sz * rank
    }

    /// Node index of the allocated block whose bytes cover `addr`,
    /// found by walking interior summaries down from the root. The
    /// address must lie in the arena, on a smallest-block boundary, and
    /// inside a currently allocated block.
    pub fn addr_to_index(&self, begin_alloc: u64, addr: u64) -> (r: usize)
        requires
            self.wf(),
            begin_alloc % crate::page::PAGE_SIZE == 0,
            begin_alloc + 262144 <= u64::MAX,
            begin_alloc <= addr,
            addr - begin_alloc < 262144,
            (addr - begin_alloc) % 128 == 0,
            node_level(
                self.bytes()[find_leaf(self.bytes(), 0, 0, addr - begin_alloc)],
            ) == 63,
        ensures
            r == find_leaf(self.bytes(), 0, 0, addr - begin_alloc),
            r < NODE_COUNT,
            !node_parent(self.bytes()[r as int]),
            node_level(self.bytes()[r as int]) == 63,
            tree_level(r as int) <= LEAF_LEVEL,
    {
        let ghost ns = self.bytes();
        let ghost off0 = addr - begin_alloc;
        proof {
            vstd::arithmetic::power2::lemma2_to64();
            assert(spec_index_off(0) == pow2(18) * 0);
        }
        let mut current: usize = 0;
        let mut current_addr = begin_alloc;
        let mut level: usize = 0;
        while self.nodes[current].parent()
            invariant
                self.wf(),
                current < NODE_COUNT,
                tree_level(current as int) == level,
                subtree_ok(ns, current as int, level as int),
                ns == self.bytes(),
                level <= LEAF_LEVEL,
                begin_alloc + 262144 <= u64::MAX,
                begin_alloc <= current_addr <= addr,
                addr - current_addr < pow2((MAX_ALLOCATION - level) as nat),
                current_addr == begin_alloc + spec_index_off(current as int),
                find_leaf(ns, 0, 0, off0) == find_leaf(
                    ns,
                    current as int,
                    level as int,
                    addr - current_addr,
                ),
            decreases LEAF_LEVEL - level,
        {
            proof {
                assert(level < LEAF_LEVEL);
                lemma_children_in_range(current as int);
                lemma_off_child(current as int);
                vstd::bits::lemma_u64_pow2_no_overflow((MAX_ALLOCATION - 1 - level) as nat);
            }
            let node_size: u64 = 1u64 << ((MAX_ALLOCATION as u64) - (level as u64) - 1);
            proof {
                vstd::bits::lemma_u64_shl_is_mul(1u64, ((MAX_ALLOCATION - 1 - level) as u64));
                vstd::arithmetic::power2::lemma_pow2_adds(1, (MAX_ALLOCATION - 1 - level) as nat);
                vstd::arithmetic::power2::lemma2_to64();
                lemma_off_bound(current as int);
                assert(current_addr + node_size <= begin_alloc + 262144);
            }
            if addr >= current_addr + node_size {
                current_addr = current_addr + node_size;
                current = 2 * current + 2;
            } else {
                current = 2 * current + 1;
            }
            level = level + 1;
        }
        proof {
            assert(find_leaf(ns, current as int, level as int, addr - current_addr)
                == current as int);
        }
        current
    }

    /// Whether the coalescing walk can continue above node `index`: not
    /// yet at the root, and the node's buddy is a free leaf.
    fn coalescible(&self, index: usize) -> (r: bool)
        requires
            self.len_ok(),
            index < NODE_COUNT,
        ensures
            r == (index != 0 && !node_parent(self.bytes()[buddy_of(index as int)]) && node_level(
                self.bytes()[buddy_of(index as int)],
            ) < 63),
    {
        if index == 0 {
            return false;
        }
        proof {
            lemma_tree_level_range(index as int);
            lemma_tree_level_child((index as int - 1) / 2);
            lemma_tree_level_max(index as int);
            if tree_level(buddy_of(index as int)) + 1 > 12 {
                vstd::arithmetic::power2::lemma_pow2_strictly_increases(
                    12,
                    tree_level(buddy_of(index as int)) + 1,
                );
            }
            if tree_level(buddy_of(index as int)) + 1 < 12 {
                vstd::arithmetic::power2::lemma_pow2_strictly_increases(
                    tree_level(buddy_of(index as int)) + 1,
                    12,
                );
            }
            lemma_tree_level_range(buddy_of(index as int));
            vstd::arithmetic::power2::lemma2_to64();
        }
        let b = self.nodes[Self::get_buddy(index)];
        b.leaf() && b.get_level() < 63
    }

    /// Free the allocated leaf at `index`: while the buddy is a free
    /// leaf, merge the pair back into their parent, then tag the merged
    /// node free at its own depth and re-summarise the ancestors.
    /// Returns the merged node, the block that is free afterwards.
    fn free_block(&mut self, index: usize) -> (res: usize)
        requires
            old(self).wf(),
            index < NODE_COUNT,
            !node_parent(old(self).bytes()[index as int]),
            node_level(old(self).bytes()[index as int]) == 63,
            forall|j: int|
                0 <= j < NODE_COUNT && in_subtree(j, index as int) && j != index ==> node_parent(
                    old(self).bytes()[j],
                ),
        ensures
            final(self).wf(),
            res < NODE_COUNT,
            in_subtree(res as int, index as int),
            !node_parent(final(self).bytes()[res as int]),
            node_level(final(self).bytes()[res as int]) as nat == tree_level(res as int),
            final(self).bytes() == km_free_bytes(old(self).bytes(), index as int),
            forall|j: int|
                0 <= j < NODE_COUNT && in_subtree(j, res as int) && j != res ==> node_parent(
                    final(self).bytes()[j],
                ),
    {
        proof {
            lemma_active_path(old(self).bytes(), index as int, tree_level(index as int) as int);
        }
        let ghost orig = self.bytes();
        let mut idx = index;
        let ghost mut d = tree_level(index as int) as int;
        while self.coalescible(idx)
            invariant
                self.len_ok(),
                idx < NODE_COUNT,
                tree_level(idx as int) == d,
                0 <= d,
                !node_parent(self.bytes()[idx as int]),
                clean_below(self.bytes(), idx as int, d),
                path_ok(self.bytes(), idx as int, d),
                in_subtree(idx as int, index as int),
                km_free_bytes(orig, index as int) == km_free_bytes(self.bytes(), idx as int),
            decreases d,
        {
            let ghost pre = self.bytes();
            let ghost bi = buddy_of(idx as int);
            let p = Self::get_parent(idx);
            proof {
                assert(d > 0) by {
                    if idx == 0 {
                        assert(false);
                    }
                }
                assert(subtree_ok(pre, bi, d));
                assert(node_level(pre[bi]) < 63);
            }
            let mut n = self.nodes[p];
            n.set_leaf();
            self.nodes.set(p, n);
            proof {
                let ns2 = self.bytes();
                let pi = p as int;
                assert(ns2 =~= pre.update(pi, n.spec_bits()));
                assert(tree_level(pi) == d - 1) by {
                    lemma_tree_level_range(idx as int);
                }
                assert(idx as int == 2 * pi + 1 || idx as int == 2 * pi + 2);
                assert(bi == 2 * pi + 1 || bi == 2 * pi + 2);
                assert(bi != idx as int);
                lemma_tree_level_max(idx as int);
                lemma_children_in_range(pi);
                let ob = pre[pi];
                assert(!node_parent((ob & !1) as u8) && ((ob & !1) as u8) & 1 == 0)
                    by (bit_vector);
                // Changed byte p is outside both children's subtrees.
                assert forall|j: int|
                    0 <= j < NODE_COUNT && in_subtree(idx as int, j) implies ns2[j] == pre[j] by {
                    if j == pi {
                        lemma_subtree_min(idx as int, j);
                    }
                }
                assert forall|j: int|
                    0 <= j < NODE_COUNT && in_subtree(bi, j) implies ns2[j] == pre[j] by {
                    if j == pi {
                        lemma_subtree_min(bi, j);
                    }
                }
                lemma_subtree_frame(pre, ns2, idx as int, d);
                lemma_subtree_frame(pre, ns2, bi, d);
                // The merged node is a clean leaf.
                assert(!node_parent(ns2[bi])) by {
                    assert(subtree_ok(ns2, bi, d));
                }
                assert(!node_parent(ns2[idx as int]));
                assert(clean_below(ns2, bi, d)) by {
                    assert(subtree_ok(ns2, bi, d));
                }
                assert(clean_below(ns2, pi, d - 1));
                // The path above is untouched.
                assert(path_ok(ns2, pi, d - 1)) by {
                    assert forall|j: int|
                        0 <= j < NODE_COUNT && ns2[j] != pre[j] implies in_subtree(j, pi)
                        || in_subtree(pi, j) by {
                        assert(j == pi);
                    }
                    lemma_path_frame(pre, ns2, pi, d - 1);
                }
                // The merged node still sits above the freed leaf.
                lemma_subtree_step(idx as int, index as int);
                d = d - 1;
            }
            idx = p;
        }
        // Tag the merged node a free leaf of its own depth.
        let ghost pre = self.bytes();
        let lvl = Self::get_level(idx);
        let mut n = self.nodes[idx];
        n.set_level(lvl);
        self.nodes.set(idx, n);
        proof {
            let cur = idx as int;
            let ns2 = self.bytes();
            assert(ns2 =~= pre.update(cur, n.spec_bits()));
            let ob = pre[cur];
            assert(ob & 1 == 0) by {
                assert(!(ob & 1 == 1) ==> ob & 1 == 0) by (bit_vector);
            }
            assert(lvl <= 63) by {
                lemma_tree_level_max(cur);
            }
            assert(!node_parent((lvl << 2 | ob & 0b11) as u8) && node_level(
                (lvl << 2 | ob & 0b11) as u8,
            ) == lvl) by (bit_vector)
                requires
                    ob & 1 == 0,
                    lvl <= 63,
            ;
            assert(clean_below(ns2, cur, d)) by {
                lemma_tree_level_max(cur);
                if d < LEAF_LEVEL {
                    lemma_children_in_range(cur);
                    assert forall|j: int|
                        0 <= j < NODE_COUNT && in_subtree(2 * cur + 1, j) implies ns2[j]
                        == pre[j] by {
                        if j == cur {
                            lemma_subtree_min(2 * cur + 1, j);
                        }
                    }
                    assert forall|j: int|
                        0 <= j < NODE_COUNT && in_subtree(2 * cur + 2, j) implies ns2[j]
                        == pre[j] by {
                        if j == cur {
                            lemma_subtree_min(2 * cur + 2, j);
                        }
                    }
                    lemma_subtree_frame(pre, ns2, 2 * cur + 1, d + 1);
                    lemma_subtree_frame(pre, ns2, 2 * cur + 2, d + 1);
                }
            }
            assert(subtree_ok(ns2, cur, d));
            assert(path_ok(ns2, cur, d)) by {
                assert forall|j: int|
                    0 <= j < NODE_COUNT && ns2[j] != pre[j] implies in_subtree(j, cur)
                    || in_subtree(cur, j) by {
                    assert(j == cur);
                }
                lemma_path_frame(pre, ns2, cur, d);
            }
            lemma_fixup_wf(ns2, cur, d);
        }
        self.levels_recurse(idx);
        idx
    }
}

/// In a well formed tree, every subtree on the parent chain of an
/// "active" node (one whose strict ancestors are all interior) satisfies
/// the invariant: the node's own subtree and all its path siblings.
pub proof fn lemma_active_path(ns: Seq<u8>, i: int, d: int)
    requires
        ns.len() == NODE_COUNT,
        subtree_ok(ns, 0, 0),
        0 <= i < NODE_COUNT,
        tree_level(i) == d,
        forall|j: int| 0 <= j < NODE_COUNT && in_subtree(j, i) && j != i ==> node_parent(ns[j]),
    ensures
        subtree_ok(ns, i, d),
        path_ok(ns, i, d),
    decreases i,
{
    if i > 0 {
        let p = (i - 1) / 2;
        assert(tree_level(p) == d - 1);
        assert forall|j: int|
            0 <= j < NODE_COUNT && in_subtree(j, p) && j != p implies node_parent(ns[j]) by {
            lemma_subtree_step(i, i);
            lemma_subtree_trans(j, p, i);
            if j == i {
                lemma_subtree_min(i, p);
                assert(false);
            }
        }
        lemma_active_path(ns, p, d - 1);
        assert(node_parent(ns[p])) by {
            lemma_subtree_step(i, i);
        }
        assert(subtree_ok(ns, p, d - 1));
        lemma_tree_level_range(i);
        lemma_children_in_range(p);
        assert(i == 2 * p + 1 || i == 2 * p + 2);
        assert(buddy_of(i) == 2 * p + 1 || buddy_of(i) == 2 * p + 2);
        assert(buddy_of(i) != i);
    }
}


/// Every node is in the root's subtree.
pub proof fn lemma_subtree_root(j: int)
    requires
        0 <= j,
    ensures
        in_subtree(0, j),
    decreases j,
{
    if j > 0 {
        lemma_subtree_root((j - 1) / 2);
    }
}

/// `find_leaf` walks interior summaries only: it lands on a leaf of the
/// subtree it starts in, every node strictly above that leaf on the walk
/// is a parent, and the offset lies within the leaf's block.
pub proof fn lemma_find_leaf_path(ns: Seq<u8>, i: int, d: int, off: int)
    requires
        ns.len() == NODE_COUNT,
        0 <= i < NODE_COUNT,
        tree_level(i) == d,
        subtree_ok(ns, i, d),
        0 <= off < pow2((MAX_ALLOCATION - d) as nat),
    ensures
        ({
            let r = find_leaf(ns, i, d, off);
            &&& in_subtree(i, r)
            &&& 0 <= r < NODE_COUNT
            &&& !node_parent(ns[r])
            &&& forall|j: int|
                in_subtree(i, j) && in_subtree(j, r) && j != r ==> node_parent(ns[j])
            &&& spec_index_off(r) <= spec_index_off(i) + off < spec_index_off(r) + pow2(
                (MAX_ALLOCATION - tree_level(r)) as nat,
            )
        }),
    decreases LEAF_LEVEL - d,
{
    lemma_tree_level_max(i);
    if !node_parent(ns[i]) {
        assert forall|j: int|
            in_subtree(i, j) && in_subtree(j, i) && j != i implies node_parent(ns[j]) by {
            lemma_subtree_min(i, j);
            lemma_subtree_min(j, i);
        }
    } else {
        lemma_children_in_range(i);
        lemma_off_child(i);
        let half = pow2((MAX_ALLOCATION - 1 - d) as nat);
        vstd::arithmetic::power2::lemma_pow2_adds(1, (MAX_ALLOCATION - 1 - d) as nat);
        vstd::arithmetic::power2::lemma2_to64();
        let l = 2 * i + 1;
        let r2 = 2 * i + 2;
        if off >= half {
            lemma_find_leaf_path(ns, r2, d + 1, off - half);
            let r = find_leaf(ns, r2, d + 1, off - half);
            lemma_subtree_step(r2, r);
            assert forall|j: int|
                in_subtree(i, j) && in_subtree(j, r) && j != r implies node_parent(ns[j]) by {
                if j == i {
                } else {
                    lemma_subtree_child(i, j);
                    if in_subtree(l, j) {
                        lemma_subtree_trans(l, j, r);
                        lemma_subtree_child(i, r);
                        assert(false);
                    }
                }
            }
        } else {
            lemma_find_leaf_path(ns, l, d + 1, off);
            let r = find_leaf(ns, l, d + 1, off);
            lemma_subtree_step(l, r);
            assert forall|j: int|
                in_subtree(i, j) && in_subtree(j, r) && j != r implies node_parent(ns[j]) by {
                if j == i {
                } else {
                    lemma_subtree_child(i, j);
                    if in_subtree(r2, j) {
                        lemma_subtree_trans(r2, j, r);
                        lemma_subtree_child(i, r);
                        assert(false);
                    }
                }
            }
        }
    }
}

/// The kernel heap: a buddy tree over a `2^MAX_ALLOCATION`-byte arena
/// carved out of physical pages, plus the kernel's root page table.
pub struct Kmem {
    meta: BuddyMeta,
    page_table: Table,
    head: u64,
    alloc: usize,
    data_start: u64,
    root_phys: u64,
}

impl Kmem {
    /// The buddy-tree node bytes.
    pub closed spec fn bytes(&self) -> Seq<u8> {
        self.meta.bytes()
    }

    /// Address of the metadata page (start of the heap allocation).
    pub closed spec fn spec_head(&self) -> u64 {
        self.head
    }

    /// Number of physical pages the heap owns.
    pub closed spec fn spec_allocations(&self) -> usize {
        self.alloc
    }

    /// Address of the data arena.
    pub closed spec fn spec_data_start(&self) -> u64 {
        self.data_start
    }

    /// Physical address of the kernel root page table.
    pub closed spec fn spec_root_phys(&self) -> u64 {
        self.root_phys
    }

    /// The kernel root page table.
    pub closed spec fn spec_table(&self) -> Table {
        self.page_table
    }

    /// The buddy tree is well formed and the arena sits page-aligned
    /// within the address space; the root table is a well formed Sv39
    /// tree without superpages.
    pub open spec fn wf(&self) -> bool {
        &&& self.bytes().len() == NODE_COUNT
        &&& subtree_ok(self.bytes(), 0, 0)
        &&& self.spec_head() + self.spec_allocations() * (PAGE_SIZE as int) <= u64::MAX
        &&& self.spec_data_start() % PAGE_SIZE == 0
        &&& self.spec_data_start() + 262144 <= u64::MAX
        &&& self.spec_table().wf(2)
        &&& self.spec_table().no_superpages(2)
    }

    /// Bootstrap the kernel heap from the page allocator: one page of
    /// metadata plus a `2^PAGES_POW`-page arena, and one further zeroed
    /// page for the kernel root table. Asks for a heap that is still
    /// completely empty, as at boot.
    pub fn init(pmem: &mut Pmem) -> (r: Kmem)
        requires
            old(pmem).wf(),
            old(pmem).num_pages() >= 66,
            forall|j: int| 0 <= j < old(pmem).num_pages() ==> old(pmem).flags()[j] is Empty,
        ensures
            r.wf(),
            final(pmem).wf(),
            final(pmem).start() == old(pmem).start(),
            final(pmem).num_pages() == old(pmem).num_pages(),
            r.spec_head() == old(pmem).start(),
            r.spec_data_start() == old(pmem).start() + PAGE_SIZE,
            r.spec_allocations() == 65,
            r.spec_root_phys() == old(pmem).start() + 65 * (PAGE_SIZE as int),
            node_level(r.bytes()[0]) == 0,
            !node_parent(r.bytes()[0]),
            forall|va: u64| translate(r.spec_table(), va) is None,
            final(pmem).flags() == mark_allocated(
                mark_allocated(old(pmem).flags(), 0, 65),
                65,
                1,
            ),
        {
        let sixty_four = 1usize << PAGES_POW;
        proof {
            assert(1usize << 6 == 64) by (bit_vector);
        }
        let pages = 1 + sixty_four;
        proof {
            assert(fit_at(old(pmem).flags(), 0, pages as int));
        }
        let k_alloc = pmem.zalloc(pages);
        proof {
            if k_alloc.spec_index() == usize::MAX {
                assert(false);
            }
            assert(k_alloc.spec_index() == 0) by {
                assert(fit_at(old(pmem).flags(), 0, pages as int));
            }
            assert(fit_at(pmem.flags(), pages as int, 1)) by {
                assert forall|j: int|
                    pages <= j < pages + 1 implies pmem.flags()[j] is Empty by {
                    assert(pmem.flags()[j] == old(pmem).flags()[j]);
                }
            }
        }
        let head = k_alloc.physical();
        let ghost mid = *pmem;
        let root_page = pmem.zalloc(1);
        proof {
            if root_page.spec_index() == usize::MAX {
                assert(false);
            }
            assert(root_page.spec_index() == pages) by {
                assert forall|b2: int| 0 <= b2 < pages implies !run_empty(
                    mid.flags(),
                    b2,
                    1,
                ) by {
                    assert(!(mid.flags()[b2] is Empty));
                }
                if root_page.spec_index() < pages {
                    assert(false);
                }
                if root_page.spec_index() > pages {
                    assert(!fit_at(mid.flags(), pages as int, 1));
                    assert(false);
                }
            }
        }
        let mut nodes: Vec<BuddyLeaf> = Vec::new();
        let mut i: usize = 0;
        while i < NODE_COUNT
            invariant
                i <= NODE_COUNT,
                nodes@.len() == i,
                forall|j: int| 0 <= j < i ==> nodes@[j].spec_bits() == 0,
            decreases NODE_COUNT - i,
        {
            nodes.push(BuddyLeaf(0));
            i = i + 1;
        }
        let mut meta = BuddyMeta { nodes };
        let head_ref = meta.access_mut(0);
        head_ref.set_leaf();
        head_ref.set_level(0);
        proof {
            assert((0u8 & !1) as u8 == 0 && ((0u8 << 2 | (0u8 & !1) & 0b11) as u8) == 0)
                by (bit_vector);
            assert(meta.bytes() =~= Seq::new(NODE_COUNT as nat, |j: int| 0u8));
            assert(!node_parent(0u8) && node_level(0u8) == 0) by (bit_vector);
            lemma_zero_clean(meta.bytes(), 0, 0);
            assert(subtree_ok(meta.bytes(), 0, 0));
        }
        let r = Kmem {
            meta,
            page_table: Table::new(),
            head,
            alloc: pages,
            data_start: head + PAGE_SIZE,
            root_phys: root_page.physical(),
        };
        proof {
            assert((head + PAGE_SIZE) % (PAGE_SIZE as int) == 0) by (nonlinear_arith)
                requires
                    head % PAGE_SIZE == 0,
                    head + PAGE_SIZE <= u64::MAX,
                    PAGE_SIZE == 4096,
            ;
            assert(head + PAGE_SIZE + 262144 <= u64::MAX) by {
                let st = old(pmem).start();
                let np = old(pmem).num_pages();
                assert(st + 66 * 4096 <= u64::MAX) by (nonlinear_arith)
                    requires
                        st + np * (PAGE_SIZE as int) <= u64::MAX,
                        np >= 66,
                        PAGE_SIZE == 4096,
                ;
            }
        }
        r
    }

    /// Read-only view of the buddy metadata tree.
    pub fn meta(&self) -> (r: &BuddyMeta)
        ensures
            r.bytes() == self.bytes(),
    {
        &self.meta
    }

    /// Address of the data arena.
    pub fn data_start(&self) -> (r: u64)
        ensures
            r == self.spec_data_start(),
    {
        self.data_start
    }

    /// Address of the heap metadata page.
    pub fn get_head(&self) -> (r: u64)
        ensures
            r == self.spec_head(),
    {
        self.head
    }

    /// Number of physical pages the heap owns.
    pub fn get_allocations(&self) -> (r: usize)
        ensures
            r == self.spec_allocations(),
    {
        self.alloc
    }

    /// Borrow the kernel root page table.
    pub fn get_root(&mut self) -> (r: &mut Table)
        ensures
            *r == old(self).spec_table(),
            final(self).spec_table() == *final(r),
            final(self).bytes() == old(self).bytes(),
            final(self).spec_head() == old(self).spec_head(),
            final(self).spec_allocations() == old(self).spec_allocations(),
            final(self).spec_data_start() == old(self).spec_data_start(),
            final(self).spec_root_phys() == old(self).spec_root_phys(),
    {
        &mut self.page_table
    }

    /// The `satp` value that turns this kernel root table on: Sv39 mode,
    /// ASID zero, the root table's physical page number.
    pub fn init_mmu(&self) -> (r: u64)
        ensures
            r == spec_build_satp(8, 0, self.spec_root_phys()),
    {
        crate::cpu::build_satp(SatpMode::Sv39, 0, self.root_phys)
    }

    /// Allocate a `2^pow`-byte block from the arena. The requires asks
    /// for enough capacity (the root level bounds the largest free
    /// block), which is exactly what rules out the out-of-kernel-memory
    /// panic. The choice policy is pinned by `km_choose` and the whole
    /// resulting tree — splits, the allocated tag, the refreshed
    /// summaries — by `km_alloc_bytes` and `fix_up`, so the state after
    /// the call is fully determined.
    pub fn kmalloc(&mut self, pow: usize) -> (r: u64)
        requires
            old(self).wf(),
            MIN_SIZE_POW <= pow <= MAX_ALLOCATION,
            node_level(old(self).bytes()[0]) as int <= MAX_ALLOCATION - pow,
        ensures
            final(self).wf(),
            final(self).spec_head() == old(self).spec_head(),
            final(self).spec_allocations() == old(self).spec_allocations(),
            final(self).spec_data_start() == old(self).spec_data_start(),
            final(self).spec_root_phys() == old(self).spec_root_phys(),
            final(self).spec_table() == old(self).spec_table(),
            ({
                let c = km_choose(old(self).bytes(), 0, 0, pow as int);
                let off = r - old(self).spec_data_start();
                &&& r == old(self).spec_data_start() + spec_index_off(c)
                &&& tree_level(c) == MAX_ALLOCATION - pow
                &&& off % (pow2(pow as nat) as int) == 0
                &&& 0 <= off
                &&& off + pow2(pow as nat) <= 262144
                &&& find_leaf(final(self).bytes(), 0, 0, off) == c
                &&& !node_parent(final(self).bytes()[c])
                &&& node_level(final(self).bytes()[c]) == 63
                &&& final(self).bytes() == fix_up(
                    km_alloc_bytes(old(self).bytes(), 0, 0, pow as int),
                    c,
                )
            }),
    {
        let idx = self.meta.alloc_block(pow);
        let addr = self.meta.index_to_addr(self.data_start, idx);
        proof {
            let c = idx as int;
            vstd::arithmetic::power2::lemma2_to64();
            lemma_off_bound(c);
            lemma_subtree_root(c);
            vstd::arithmetic::power2::lemma_pow2_pos((MAX_ALLOCATION - tree_level(c)) as nat);
            lemma_find_leaf_at(final(self).bytes(), 0, c, spec_index_off(c));
            assert(tree_level(0) == 0);
            assert(spec_index_off(0) == pow2(18) * 0);
        }
        addr
    }

    /// `kmalloc` followed by zeroing the block. Byte contents are not
    /// part of this model, so the contract is that of `kmalloc`; the
    /// zeroing write belongs to the code that owns the raw arena.
    pub fn kzalloc(&mut self, pow: usize) -> (r: u64)
        requires
            old(self).wf(),
            MIN_SIZE_POW <= pow <= MAX_ALLOCATION,
            node_level(old(self).bytes()[0]) as int <= MAX_ALLOCATION - pow,
        ensures
            final(self).wf(),
            final(self).spec_head() == old(self).spec_head(),
            final(self).spec_allocations() == old(self).spec_allocations(),
            final(self).spec_data_start() == old(self).spec_data_start(),
            final(self).spec_root_phys() == old(self).spec_root_phys(),
            final(self).spec_table() == old(self).spec_table(),
            ({
                let c = km_choose(old(self).bytes(), 0, 0, pow as int);
                let off = r - old(self).spec_data_start();
                &&& r == old(self).spec_data_start() + spec_index_off(c)
                &&& tree_level(c) == MAX_ALLOCATION - pow
                &&& off % (pow2(pow as nat) as int) == 0
                &&& 0 <= off
                &&& off + pow2(pow as nat) <= 262144
                &&& find_leaf(final(self).bytes(), 0, 0, off) == c
                &&& !node_parent(final(self).bytes()[c])
                &&& node_level(final(self).bytes()[c]) == 63
                &&& final(self).bytes() == fix_up(
                    km_alloc_bytes(old(self).bytes(), 0, 0, pow as int),
                    c,
                )
            }),
    {
        self.kmalloc(pow)
    }

    /// Free the allocated block that covers `addr` and coalesce with
    /// free buddies as far as possible: afterwards the leaf whose block
    /// covers the address is free at its own depth, and the whole
    /// resulting tree is pinned by `km_free_bytes` — merging is not
    /// optional, and nothing else moves.
    pub fn kfree(&mut self, addr: u64)
        requires
            old(self).wf(),
            old(self).spec_data_start() <= addr,
            addr - old(self).spec_data_start() < 262144,
            (addr - old(self).spec_data_start()) % 128 == 0,
            node_level(
                old(self).bytes()[find_leaf(
                    old(self).bytes(),
                    0,
                    0,
                    addr - old(self).spec_data_start(),
                )],
            ) == 63,
        ensures
            final(self).wf(),
            final(self).spec_head() == old(self).spec_head(),
            final(self).spec_allocations() == old(self).spec_allocations(),
            final(self).spec_data_start() == old(self).spec_data_start(),
            final(self).spec_root_phys() == old(self).spec_root_phys(),
            final(self).spec_table() == old(self).spec_table(),
            final(self).bytes() == km_free_bytes(
                old(self).bytes(),
                find_leaf(old(self).bytes(), 0, 0, addr - old(self).spec_data_start()),
            ),
            ({
                let cf = find_leaf(final(self).bytes(), 0, 0, addr - old(self).spec_data_start());
                &&& !node_parent(final(self).bytes()[cf])
                &&& node_level(final(self).bytes()[cf]) as nat == tree_level(cf)
            }),
    {
        let ghost off = addr - old(self).spec_data_start();
        proof {
            vstd::arithmetic::power2::lemma2_to64();
            assert(tree_level(0) == 0);
            assert(spec_index_off(0) == pow2(18) * 0);
            lemma_find_leaf_path(old(self).bytes(), 0, 0, off);
        }
        let index = self.meta.addr_to_index(self.data_start, addr);
        proof {
            assert forall|j: int|
                0 <= j < NODE_COUNT && in_subtree(j, index as int) && j != index
                implies node_parent(self.bytes()[j]) by {
                lemma_subtree_root(j);
            }
        }
        let merged = self.meta.free_block(index);
        proof {
            let cf = merged as int;
            vstd::arithmetic::power2::lemma2_to64();
            lemma_off_range(cf, index as int);
            lemma_off_bound(index as int);
            lemma_subtree_root(cf);
            lemma_find_leaf_at(self.bytes(), 0, cf, off);
            assert(tree_level(0) == 0);
            assert(spec_index_off(0) == pow2(18) * 0);
        }
    }
}


/// Buddy address-index involution: in a well formed tree, walking the
/// byte offset of any allocated block (one whose strict ancestors are
/// all interior summaries, as `kmalloc` leaves them) back down from the
/// root finds exactly the leaf the block belongs to.
pub proof fn lemma_addr_index_round_trip(ns: Seq<u8>, c: int)
    requires
        ns.len() == NODE_COUNT,
        subtree_ok(ns, 0, 0),
        0 <= c < NODE_COUNT,
        !node_parent(ns[c]),
        node_level(ns[c]) == 63,
        forall|j: int| 0 <= j < NODE_COUNT && in_subtree(j, c) && j != c ==> node_parent(ns[j]),
    ensures
        find_leaf(ns, 0, 0, spec_index_off(c)) == c,
{
    vstd::arithmetic::power2::lemma2_to64();
    lemma_off_bound(c);
    lemma_subtree_root(c);
    vstd::arithmetic::power2::lemma_pow2_pos((MAX_ALLOCATION - tree_level(c)) as nat);
    lemma_find_leaf_at(ns, 0, c, spec_index_off(c));
    assert(tree_level(0) == 0);
    assert(spec_index_off(0) == pow2(18) * 0);
}

/// Kernel image and device regions that must stay addressable after the
/// MMU is switched on, as plain addresses. The bounds come from the
/// linker script; the trap regions from the trap-frame setup.
pub struct KernelLayout {
    /// Descriptor table of the page allocator.
    pub heap_desc_start: u64,
    /// End of the descriptor table.
    pub heap_desc_end: u64,
    /// Kernel text.
    pub text_start: u64,
    /// End of kernel text.
    pub text_end: u64,
    /// Read-only data.
    pub rodata_start: u64,
    /// End of read-only data.
    pub rodata_end: u64,
    /// Initialised data.
    pub data_start: u64,
    /// End of initialised data.
    pub data_end: u64,
    /// Zero-initialised data.
    pub bss_start: u64,
    /// End of zero-initialised data.
    pub bss_end: u64,
    /// Kernel boot stack.
    pub stack_start: u64,
    /// End of the kernel boot stack.
    pub stack_end: u64,
    /// Per-hart trap stack page.
    pub trap_stack_start: u64,
    /// End of the trap stack page.
    pub trap_stack_end: u64,
    /// Per-hart trap frame (where `mscratch` points).
    pub trap_frame_start: u64,
    /// End of the trap frame.
    pub trap_frame_end: u64,
}

/// An ordered byte range below the Sv39 address limit
/// (`2^39 = 0x80_0000_0000`).
pub open spec fn region_ok(start: u64, end: u64) -> bool {
    start <= end && end < 0x80_0000_0000
}

/// Page budget `id_map_range` needs for one region.
pub open spec fn region_cost(start: u64, end: u64) -> int {
    2 * crate::page::id_map_pages(start, end) + 1
}

/// All addresses of `x` translate to themselves under `t`.
pub open spec fn identity_mapped(t: Table, x: Set<u64>) -> bool {
    forall|a: u64| x.contains(a) ==> #[trigger] translate(t, a) == Some(a)
}

/// The leaf words `id_map_range` writes for the range `[start, end)`:
/// each covered address keyed to its page's identity entry, the page's
/// own number plus the permission bits.
pub open spec fn region_words(start: u64, end: u64, bits: u64) -> Map<u64, u64> {
    Map::new(
        |a: u64|
            crate::page::id_map_base(start) <= a < crate::page::id_map_base(start)
                + crate::page::id_map_pages(start, end) * (PAGE_SIZE as int),
        |a: u64| ((a & !0xfff) >> 2) | bits | crate::sv39::VALID,
    )
}

/// Every address of `m`'s domain walks to exactly the leaf word `m`
/// assigns it (always a valid entry): the permission half of the
/// identity map.
pub open spec fn words_mapped(t: Table, m: Map<u64, u64>) -> bool {
    forall|a: u64|
        #[trigger] m.dom().contains(a) ==> crate::page::leaf_entry(t, a) == m[a] && crate::sv39::e_valid(m[a])
}

/// The pages `id_map_range` maps for the range `[start, end)`: every
/// byte of the range, and at least the page of `start`.
pub open spec fn region_pages(start: u64, end: u64) -> Set<u64> {
    Set::new(
        |a: u64|
            crate::page::id_map_base(start) <= a < crate::page::id_map_base(start)
                + crate::page::id_map_pages(start, end) * (PAGE_SIZE as int),
    )
}

/// Identity-map one region and extend the set of identity-mapped
/// addresses by its pages; everything already identity-mapped stays so.
fn id_map_region(
    root: &mut Table,
    alloc: &mut Pmem,
    start: u64,
    end: u64,
    bits: u64,
    x: Ghost<Set<u64>>,
    m: Ghost<Map<u64, u64>>,
    budget: Ghost<int>,
) -> (res: (Ghost<Set<u64>>, Ghost<Map<u64, u64>>))
    requires
        old(root).wf(2),
        old(root).no_superpages(2),
        old(alloc).wf(),
        region_ok(start, end),
        bits & crate::sv39::RWE != 0,
        bits < 1024,
        identity_mapped(*old(root), x@),
        words_mapped(*old(root), m@),
        forall|a: u64| x@.contains(a) ==> a < 0x80_0000_0000,
        forall|a: u64| m@.dom().contains(a) ==> a < 0x80_0000_0000,
        old(alloc).has_tail(budget@),
        budget@ >= region_cost(start, end),
    ensures
        final(root).wf(2),
        final(root).no_superpages(2),
        final(alloc).wf(),
        final(alloc).start() == old(alloc).start(),
        final(alloc).num_pages() == old(alloc).num_pages(),
        res.0@ == x@.union(region_pages(start, end)),
        res.1@ == m@.union_prefer_right(region_words(start, end, bits)),
        identity_mapped(*final(root), res.0@),
        words_mapped(*final(root), res.1@),
        forall|a: u64| res.0@.contains(a) ==> a < 0x80_0000_0000,
        forall|a: u64| res.1@.dom().contains(a) ==> a < 0x80_0000_0000,
        final(alloc).has_tail(budget@ - 2 * crate::page::id_map_pages(start, end)),
{
    let ghost base = crate::page::id_map_base(start);
    let ghost pages = crate::page::id_map_pages(start, end);
    proof {
        assert(1u64 << 39 == 0x80_0000_0000) by (bit_vector);
        let s0 = choose|s: int|
            0 <= s && s + budget@ <= alloc.num_pages() && alloc.tail_free(s);
        assert(alloc.has_tail(2 * pages + 1));
    }
    let ghost pre = *root;
    let ghost pre_alloc = *alloc;
    crate::page::id_map_range(root, alloc, start, end, bits);
    let rx: Ghost<Set<u64>> = Ghost(x@.union(region_pages(start, end)));
    let rm: Ghost<Map<u64, u64>> = Ghost(m@.union_prefer_right(region_words(start, end, bits)));
    proof {
        assert(base + pages * (PAGE_SIZE as int) <= end + PAGE_SIZE) by (nonlinear_arith)
            requires
                0 <= base <= start <= end,
                PAGE_SIZE == 4096,
                pages == if end <= base { 1int } else {
                    (end - base + (PAGE_SIZE - 1)) / (PAGE_SIZE as int)
                },
        ;
        assert forall|a: u64| rx@.contains(a) implies a < 0x80_0000_0000 by {
            if region_pages(start, end).contains(a) {
                assert(a < end + PAGE_SIZE);
            }
        }
        assert forall|a: u64| rx@.contains(a) implies #[trigger] translate(*root, a) == Some(
            a,
        ) by {
            if region_pages(start, end).contains(a) {
                assert(translate(*root, (base + (a - base)) as u64) == Some(
                    (base + (a - base)) as u64,
                ));
            } else {
                assert(x@.contains(a));
                assert(translate(pre, a) == Some(a));
                if base <= (a & !0xfff) && (a & !0xfff) < base + pages * (PAGE_SIZE as int) {
                    crate::sv39::lemma_floor_facts(a);
                    assert(base <= a);
                    if a < base + pages * (PAGE_SIZE as int) {
                        assert(region_pages(start, end).contains(a));
                        assert(false);
                    }
                    assert(base % (PAGE_SIZE as int) == 0) by (nonlinear_arith)
                        requires
                            base == start - (start as int) % (PAGE_SIZE as int),
                            PAGE_SIZE == 4096,
                            start >= 0,
                    ;
                    assert((a & !0xfff) + PAGE_SIZE <= base + pages * (PAGE_SIZE as int))
                        by (nonlinear_arith)
                        requires
                            (a & !0xfffu64) < base + pages * (PAGE_SIZE as int),
                            ((a & !0xfffu64) as int) % 4096 == 0,
                            base % (PAGE_SIZE as int) == 0,
                            PAGE_SIZE == 4096,
                            pages >= 0,
                    ;
                    assert(a < base + pages * (PAGE_SIZE as int));
                    assert(false);
                } else {
                    assert(translate(*root, a) == translate(pre, a));
                }
            }
        }
        assert forall|a: u64| rm@.dom().contains(a) implies a < 0x80_0000_0000 by {
            if region_words(start, end, bits).dom().contains(a) {
                assert(a < end + PAGE_SIZE);
            }
        }
        assert forall|a: u64| #[trigger] rm@.dom().contains(a) implies crate::page::leaf_entry(
            *root,
            a,
        ) == rm@[a] && crate::sv39::e_valid(rm@[a]) by {
            if region_words(start, end, bits).dom().contains(a) {
                assert(crate::page::leaf_entry(*root, (base + (a - base)) as u64) == ((((base + (a
                    - base)) as u64) & !0xfff) >> 2) | bits | crate::sv39::VALID);
                let w = ((a & !0xfffu64) >> 2) | bits | crate::sv39::VALID;
                crate::sv39::lemma_floor_facts(a);
                crate::sv39::lemma_leaf_entry_bits((a & !0xfffu64) as u64, bits, w);
            } else {
                assert(m@.dom().contains(a));
                assert(crate::page::leaf_entry(pre, a) == m@[a] && crate::sv39::e_valid(m@[a]));
                if base <= (a & !0xfff) && (a & !0xfff) < base + pages * (PAGE_SIZE as int) {
                    crate::sv39::lemma_floor_facts(a);
                    assert(base <= a);
                    if a < base + pages * (PAGE_SIZE as int) {
                        assert(region_words(start, end, bits).dom().contains(a));
                        assert(false);
                    }
                    assert(base % (PAGE_SIZE as int) == 0) by (nonlinear_arith)
                        requires
                            base == start - (start as int) % (PAGE_SIZE as int),
                            PAGE_SIZE == 4096,
                            start >= 0,
                    ;
                    assert((a & !0xfff) + PAGE_SIZE <= base + pages * (PAGE_SIZE as int))
                        by (nonlinear_arith)
                        requires
                            (a & !0xfffu64) < base + pages * (PAGE_SIZE as int),
                            ((a & !0xfffu64) as int) % 4096 == 0,
                            base % (PAGE_SIZE as int) == 0,
                            PAGE_SIZE == 4096,
                            pages >= 0,
                    ;
                    assert(a < base + pages * (PAGE_SIZE as int));
                    assert(false);
                } else {
                    assert(crate::page::leaf_entry(*root, a) == crate::page::leaf_entry(pre, a));
                }
            }
        }
        assert(alloc.has_tail(budget@ - 2 * pages)) by {
            let s1 = choose|s: int|
                0 <= s && s + budget@ <= pre_alloc.num_pages() && pre_alloc.tail_free(s);
            assert(alloc.tail_free(s1 + 2 * pages));
        }
    }
    (rx, rm)
}

impl Kmem {
    /// Total page budget for the whole identity-map battery.
    pub open spec fn kernel_map_cost(&self, layout: KernelLayout) -> int {
        region_cost(self.spec_head(), (self.spec_head() + self.spec_allocations() * PAGE_SIZE) as u64)
            + region_cost(layout.heap_desc_start, layout.heap_desc_end) + region_cost(
            layout.text_start,
            layout.text_end,
        ) + region_cost(layout.rodata_start, layout.rodata_end) + region_cost(
            layout.data_start,
            layout.data_end,
        ) + region_cost(layout.bss_start, layout.bss_end) + region_cost(
            layout.stack_start,
            layout.stack_end,
        ) + region_cost(layout.trap_stack_start, layout.trap_stack_end) + region_cost(
            layout.trap_frame_start,
            layout.trap_frame_end,
        ) + region_cost(0x1000_0000u64, 0x1000_000fu64) + region_cost(0xc00_2000u64, 0xc00_2000u64)
            + region_cost(0xc20_0000u64, 0xc20_0000u64) + region_cost(
            0xc20_0004u64,
            0xc20_0004u64,
        ) + region_cost(0xc00_0000u64, 0xc00_0000u64)
    }

    /// End address of the kernel heap region.
    pub open spec fn spec_heap_end(&self) -> u64 {
        (self.spec_head() + self.spec_allocations() * PAGE_SIZE) as u64
    }

    /// Identity-map everything the kernel must keep addressing once
    /// `satp` is loaded: its heap, the frame-descriptor table, the
    /// kernel image sections, the boot and trap stacks, the trap frame,
    /// and the UART and PLIC MMIO windows. Afterwards every byte of
    /// every one of those regions translates to itself.
    pub fn id_map_kernel(&mut self, alloc: &mut Pmem, layout: &KernelLayout)
        requires
            old(self).wf(),
            old(alloc).wf(),
            region_ok(old(self).spec_head(), old(self).spec_heap_end()),
            region_ok(layout.heap_desc_start, layout.heap_desc_end),
            region_ok(layout.text_start, layout.text_end),
            region_ok(layout.rodata_start, layout.rodata_end),
            region_ok(layout.data_start, layout.data_end),
            region_ok(layout.bss_start, layout.bss_end),
            region_ok(layout.stack_start, layout.stack_end),
            region_ok(layout.trap_stack_start, layout.trap_stack_end),
            region_ok(layout.trap_frame_start, layout.trap_frame_end),
            old(alloc).has_tail(old(self).kernel_map_cost(*layout)),
        ensures
            final(self).wf(),
            final(alloc).wf(),
            final(alloc).start() == old(alloc).start(),
            final(alloc).num_pages() == old(alloc).num_pages(),
            final(self).bytes() == old(self).bytes(),
            final(self).spec_head() == old(self).spec_head(),
            final(self).spec_allocations() == old(self).spec_allocations(),
            final(self).spec_data_start() == old(self).spec_data_start(),
            final(self).spec_root_phys() == old(self).spec_root_phys(),
            identity_mapped(final(self).spec_table(), final(self).id_map_set(*layout)),
            words_mapped(final(self).spec_table(), final(self).id_map_words(*layout)),
    {
        let kheap_head = self.get_head();
        let kheap_pages = self.get_allocations();
        let heap_end = kheap_head + (kheap_pages as u64) * PAGE_SIZE;
        proof {
            assert(READ_WRITE & crate::sv39::RWE != 0 && READ_EXECUTE & crate::sv39::RWE != 0)
                by (bit_vector);
        }
        let ghost mut budget = self.kernel_map_cost(*layout);
        let x0: Ghost<Set<u64>> = Ghost(Set::empty());
        let m0: Ghost<Map<u64, u64>> = Ghost(Map::empty());
        let (x1, m1) = id_map_region(
            &mut self.page_table,
            alloc,
            kheap_head,
            heap_end,
            READ_WRITE,
            x0,
            m0,
            Ghost(budget),
        );
        proof {
            budget = budget - 2 * crate::page::id_map_pages(kheap_head, heap_end);
        }
        let (x2, m2) = id_map_region(
            &mut self.page_table,
            alloc,
            layout.heap_desc_start,
            layout.heap_desc_end,
            READ_WRITE,
            x1,
            m1,
            Ghost(budget),
        );
        proof {
            budget = budget - 2 * crate::page::id_map_pages(
                layout.heap_desc_start,
                layout.heap_desc_end,
            );
        }
        let (x3, m3) = id_map_region(
            &mut self.page_table,
            alloc,
            layout.text_start,
            layout.text_end,
            READ_EXECUTE,
            x2,
            m2,
            Ghost(budget),
        );
        proof {
            budget = budget - 2 * crate::page::id_map_pages(layout.text_start, layout.text_end);
        }
        let (x4, m4) = id_map_region(
            &mut self.page_table,
            alloc,
            layout.rodata_start,
            layout.rodata_end,
            READ_EXECUTE,
            x3,
            m3,
            Ghost(budget),
        );
        proof {
            budget = budget - 2 * crate::page::id_map_pages(
                layout.rodata_start,
                layout.rodata_end,
            );
        }
        let (x5, m5) = id_map_region(
            &mut self.page_table,
            alloc,
            layout.data_start,
            layout.data_end,
            READ_WRITE,
            x4,
            m4,
            Ghost(budget),
        );
        proof {
            budget = budget - 2 * crate::page::id_map_pages(layout.data_start, layout.data_end);
        }
        let (x6, m6) = id_map_region(
            &mut self.page_table,
            alloc,
            layout.bss_start,
            layout.bss_end,
            READ_WRITE,
            x5,
            m5,
            Ghost(budget),
        );
        proof {
            budget = budget - 2 * crate::page::id_map_pages(layout.bss_start, layout.bss_end);
        }
        let (x7, m7) = id_map_region(
            &mut self.page_table,
            alloc,
            layout.stack_start,
            layout.stack_end,
            READ_WRITE,
            x6,
            m6,
            Ghost(budget),
        );
        proof {
            budget = budget - 2 * crate::page::id_map_pages(layout.stack_start, layout.stack_end);
        }
        let (x8, m8) = id_map_region(
            &mut self.page_table,
            alloc,
            layout.trap_stack_start,
            layout.trap_stack_end,
            READ_WRITE,
            x7,
            m7,
            Ghost(budget),
        );
        proof {
            budget = budget - 2 * crate::page::id_map_pages(
                layout.trap_stack_start,
                layout.trap_stack_end,
            );
        }
        let (x9, m9) = id_map_region(
            &mut self.page_table,
            alloc,
            layout.trap_frame_start,
            layout.trap_frame_end,
            READ_WRITE,
            x8,
            m8,
            Ghost(budget),
        );
        proof {
            budget = budget - 2 * crate::page::id_map_pages(
                layout.trap_frame_start,
                layout.trap_frame_end,
            );
        }
        let (x10, m10) = id_map_region(
            &mut self.page_table,
            alloc,
            0x1000_0000,
            0x1000_000f,
            READ_WRITE,
            x9,
            m9,
            Ghost(budget),
        );
        proof {
            budget = budget - 2 * crate::page::id_map_pages(0x1000_0000u64, 0x1000_000fu64);
        }
        let (x11, m11) = id_map_region(
            &mut self.page_table,
            alloc,
            0xc00_2000,
            0xc00_2000,
            READ_WRITE,
            x10,
            m10,
            Ghost(budget),
        );
        proof {
            budget = budget - 2 * crate::page::id_map_pages(0xc00_2000u64, 0xc00_2000u64);
        }
        let (x12, m12) = id_map_region(
            &mut self.page_table,
            alloc,
            0xc20_0000,
            0xc20_0000,
            READ_WRITE,
            x11,
            m11,
            Ghost(budget),
        );
        proof {
            budget = budget - 2 * crate::page::id_map_pages(0xc20_0000u64, 0xc20_0000u64);
        }
        let (x13, m13) = id_map_region(
            &mut self.page_table,
            alloc,
            0xc20_0004,
            0xc20_0004,
            READ_WRITE,
            x12,
            m12,
            Ghost(budget),
        );
        proof {
            budget = budget - 2 * crate::page::id_map_pages(0xc20_0004u64, 0xc20_0004u64);
        }
        let (x14, m14) = id_map_region(
            &mut self.page_table,
            alloc,
            0xc00_0000,
            0xc00_0000,
            READ_WRITE,
            x13,
            m13,
            Ghost(budget),
        );
        proof {
            assert(x14@ =~= self.id_map_set(*layout));
            assert(m14@ =~= self.id_map_words(*layout));
        }
    }

    /// The leaf word of every page `id_map_kernel` maps: each page keyed
    /// to its identity entry with its region's permission bits, a later
    /// region's word prevailing where regions share a page.
    pub open spec fn id_map_words(&self, layout: KernelLayout) -> Map<u64, u64> {
        region_words(self.spec_head(), self.spec_heap_end(), READ_WRITE).union_prefer_right(
            region_words(layout.heap_desc_start, layout.heap_desc_end, READ_WRITE),
        ).union_prefer_right(
            region_words(layout.text_start, layout.text_end, READ_EXECUTE),
        ).union_prefer_right(
            region_words(layout.rodata_start, layout.rodata_end, READ_EXECUTE),
        ).union_prefer_right(
            region_words(layout.data_start, layout.data_end, READ_WRITE),
        ).union_prefer_right(
            region_words(layout.bss_start, layout.bss_end, READ_WRITE),
        ).union_prefer_right(
            region_words(layout.stack_start, layout.stack_end, READ_WRITE),
        ).union_prefer_right(
            region_words(layout.trap_stack_start, layout.trap_stack_end, READ_WRITE),
        ).union_prefer_right(
            region_words(layout.trap_frame_start, layout.trap_frame_end, READ_WRITE),
        ).union_prefer_right(
            region_words(0x1000_0000u64, 0x1000_000fu64, READ_WRITE),
        ).union_prefer_right(
            region_words(0xc00_2000u64, 0xc00_2000u64, READ_WRITE),
        ).union_prefer_right(
            region_words(0xc20_0000u64, 0xc20_0000u64, READ_WRITE),
        ).union_prefer_right(
            region_words(0xc20_0004u64, 0xc20_0004u64, READ_WRITE),
        ).union_prefer_right(
            region_words(0xc00_0000u64, 0xc00_0000u64, READ_WRITE),
        )
    }

    /// Everything `id_map_kernel` maps: the pages of all its regions.
    pub open spec fn id_map_set(&self, layout: KernelLayout) -> Set<u64> {
        region_pages(self.spec_head(), self.spec_heap_end()).union(
            region_pages(layout.heap_desc_start, layout.heap_desc_end),
        ).union(region_pages(layout.text_start, layout.text_end)).union(
            region_pages(layout.rodata_start, layout.rodata_end),
        ).union(region_pages(layout.data_start, layout.data_end)).union(
            region_pages(layout.bss_start, layout.bss_end),
        ).union(region_pages(layout.stack_start, layout.stack_end)).union(
            region_pages(layout.trap_stack_start, layout.trap_stack_end),
        ).union(region_pages(layout.trap_frame_start, layout.trap_frame_end)).union(
            region_pages(0x1000_0000u64, 0x1000_000fu64),
        ).union(region_pages(0xc00_2000u64, 0xc00_2000u64)).union(
            region_pages(0xc20_0000u64, 0xc20_0000u64),
        ).union(region_pages(0xc20_0004u64, 0xc20_0004u64)).union(
            region_pages(0xc00_0000u64, 0xc00_0000u64),
        )
    }

    /// Every byte of a well formed region is among its mapped pages, so
    /// `id_map_kernel`'s identity set covers the region itself.
    pub proof fn lemma_region_covered(start: u64, end: u64, a: u64)
        requires
            region_ok(start, end),
            start <= a < end || a == start,
        ensures
            region_pages(start, end).contains(a),
    {
        let base = crate::page::id_map_base(start);
        let pages = crate::page::id_map_pages(start, end);
        assert(base <= a && a - base < pages * (PAGE_SIZE as int)) by (nonlinear_arith)
            requires
                base == start - (start as int) % (PAGE_SIZE as int),
                pages == if end <= base { 1int } else {
                    (end - base + (PAGE_SIZE - 1)) / (PAGE_SIZE as int)
                },
                start <= end,
                0 <= (start as int) % (PAGE_SIZE as int) < PAGE_SIZE,
                PAGE_SIZE == 4096,
                start <= a,
                a < end || a == start,
        ;
    }
}


/// Ceiling of the base-two logarithm: the exponent of the smallest
/// power-of-two block that holds `size` bytes.
pub open spec fn spec_clog2(size: u64) -> nat
    decreases size,
{
    if size <= 1 {
        0
    } else {
        1 + spec_clog2(((size + 1) / 2) as u64)
    }
}

/// `2^clog2(size)` is the smallest power of two at or above `size`.
pub proof fn lemma_clog2(size: u64)
    requires
        size >= 1,
    ensures
        pow2(spec_clog2(size)) >= size,
        size >= 2 ==> pow2(spec_clog2(size)) <= 2 * (size - 1),
        spec_clog2(size) >= 1 ==> pow2((spec_clog2(size) - 1) as nat) < size,
    decreases size,
{
    vstd::arithmetic::power2::lemma2_to64();
    if size >= 2 {
        let c = ((size + 1) / 2) as u64;
        lemma_clog2(c);
        vstd::arithmetic::power2::lemma_pow2_unfold(spec_clog2(size));
        if spec_clog2(size) >= 1 {
            vstd::arithmetic::power2::lemma_pow2_unfold(spec_clog2(size));
        }
    }
}

/// The block exponent the allocator surface uses for a `size`-byte
/// request: at least the smallest block, else the exact fit.
pub open spec fn alloc_pow(size: u64) -> int {
    if spec_clog2(size) < MIN_SIZE_POW {
        MIN_SIZE_POW as int
    } else {
        spec_clog2(size) as int
    }
}

/// Smallest power-of-two exponent whose block holds `size` bytes.
fn ceil_log2(size: u64) -> (r: usize)
    requires
        1 <= size <= 262144,
    ensures
        r == spec_clog2(size),
        r <= 18,
{
    proof {
        lemma_clog2(size);
        vstd::arithmetic::power2::lemma2_to64();
        if spec_clog2(size) > 18 {
            vstd::arithmetic::power2::lemma_pow2_strictly_increases(18, spec_clog2(size));
        }
    }
    let mut r: usize = 0;
    let mut v: u64 = 1;
    while v < size
        invariant
            size <= 262144,
            v == pow2(r as nat),
            v >= 1,
            r <= 18,
            r >= 1 ==> pow2((r - 1) as nat) < size,
        decreases 18 - r,
    {
        proof {
            vstd::arithmetic::power2::lemma2_to64();
            if r + 1 > 18 {
                assert(pow2(r as nat) >= pow2(18)) by {
                    if r > 18 {
                        vstd::arithmetic::power2::lemma_pow2_strictly_increases(18, r as nat);
                    }
                }
                assert(false);
            }
            vstd::arithmetic::power2::lemma_pow2_unfold((r + 1) as nat);
        }
        v = v * 2;
        r = r + 1;
    }
    proof {
        // Both the loop result and `spec_clog2` satisfy the same tight
        // characterisation, which pins the exponent down.
        let a = r as nat;
        let b = spec_clog2(size);
        if a < b {
            if b - 1 > a {
                vstd::arithmetic::power2::lemma_pow2_strictly_increases(a, (b - 1) as nat);
            }
            assert(pow2((b - 1) as nat) >= pow2(a));
            assert(false);
        }
        if b < a {
            if a - 1 > b {
                vstd::arithmetic::power2::lemma_pow2_strictly_increases(b, (a - 1) as nat);
            }
            assert(pow2((a - 1) as nat) >= pow2(b));
            assert(false);
        }
    }
    r
}

/// The process-wide allocator handle: empty until the kernel heap is
/// built, then the front door to `kzalloc` and `kfree` for the global
/// allocation hooks.
pub struct KmemAllocator {
    kmem: Option<Kmem>,
}

impl KmemAllocator {
    /// The installed kernel heap, if any.
    pub closed spec fn spec_kmem(&self) -> Option<Kmem> {
        self.kmem
    }

    /// An empty handle: every allocation request returns null until a
    /// heap is installed.
    pub fn new() -> (r: KmemAllocator)
        ensures
            r.spec_kmem() is None,
    {
        KmemAllocator { kmem: None }
    }

    /// Install the kernel heap.
    pub fn install(&mut self, kmem: Kmem)
        ensures
            final(self).spec_kmem() == Some(kmem),
    {
        self.kmem = Some(kmem);
    }

    /// Allocate `size` bytes: null when no heap is installed, otherwise
    /// a zeroed block of `2^alloc_pow(size)` bytes — the smallest buddy
    /// block of at least `MIN_SIZE_POW` that holds the request.
    pub fn allocate(&mut self, size: u64) -> (r: u64)
        requires
            old(self).spec_kmem() matches Some(k) ==> {
                &&& k.wf()
                &&& 1 <= size <= 262144
                &&& node_level(k.bytes()[0]) as int <= MAX_ALLOCATION - alloc_pow(size)
            },
        ensures
            old(self).spec_kmem() is None ==> r == 0 && final(self).spec_kmem() == old(
                self,
            ).spec_kmem(),
            old(self).spec_kmem() matches Some(k) ==> {
                &&& final(self).spec_kmem() matches Some(k2)
                &&& k2.wf()
                &&& k2.spec_data_start() == k.spec_data_start()
                &&& k2.spec_head() == k.spec_head()
                &&& k2.spec_allocations() == k.spec_allocations()
                &&& k2.spec_root_phys() == k.spec_root_phys()
                &&& k2.spec_table() == k.spec_table()
                &&& k2.bytes() == fix_up(
                    km_alloc_bytes(k.bytes(), 0, 0, alloc_pow(size)),
                    km_choose(k.bytes(), 0, 0, alloc_pow(size)),
                )
                &&& size <= pow2(alloc_pow(size) as nat)
                &&& r == k.spec_data_start() + spec_index_off(
                    km_choose(k.bytes(), 0, 0, alloc_pow(size)),
                )
                &&& (r - k.spec_data_start()) % (pow2(alloc_pow(size) as nat) as int) == 0
                &&& 0 <= r - k.spec_data_start()
                &&& r - k.spec_data_start() + pow2(alloc_pow(size) as nat) <= 262144
            },
    {
        match &mut self.kmem {
            Some(km) => {
                let l = ceil_log2(size);
                let pow = if l < MIN_SIZE_POW {
                    MIN_SIZE_POW
                } else {
                    l
                };
                proof {
                    lemma_clog2(size);
                    vstd::arithmetic::power2::lemma2_to64();
                    if spec_clog2(size) < 7 {
                        vstd::arithmetic::power2::lemma_pow2_strictly_increases(
                            spec_clog2(size),
                            7,
                        );
                    }
                }
                km.kzalloc(pow)
            },
            None => 0,
        }
    }

    /// Free a block previously handed out by `allocate`. Calling this
    /// before a heap is installed is memory corruption, and excluded.
    pub fn deallocate(&mut self, ptr: u64)
        requires
            old(self).spec_kmem() matches Some(k) ==> {
                &&& k.wf()
                &&& k.spec_data_start() <= ptr
                &&& ptr - k.spec_data_start() < 262144
                &&& (ptr - k.spec_data_start()) % 128 == 0
                &&& node_level(
                    k.bytes()[find_leaf(k.bytes(), 0, 0, ptr - k.spec_data_start())],
                ) == 63
            },
            old(self).spec_kmem() is Some,
        ensures
            old(self).spec_kmem() matches Some(k) ==> {
                &&& final(self).spec_kmem() matches Some(k2)
                &&& k2.wf()
                &&& k2.spec_data_start() == k.spec_data_start()
                &&& k2.spec_head() == k.spec_head()
                &&& k2.spec_allocations() == k.spec_allocations()
                &&& k2.spec_root_phys() == k.spec_root_phys()
                &&& k2.spec_table() == k.spec_table()
                &&& k2.bytes() == km_free_bytes(
                    k.bytes(),
                    find_leaf(k.bytes(), 0, 0, ptr - k.spec_data_start()),
                )
                &&& !node_parent(
                    k2.bytes()[find_leaf(k2.bytes(), 0, 0, ptr - k.spec_data_start())],
                )
                &&& node_level(
                    k2.bytes()[find_leaf(k2.bytes(), 0, 0, ptr - k.spec_data_start())],
                ) as nat == tree_level(find_leaf(k2.bytes(), 0, 0, ptr - k.spec_data_start()))
            },
    {
        match &mut self.kmem {
            Some(km) => {
                km.kfree(ptr);
            },
            None => {
            },
        }
    }
}

} // verus!
