//! Index arithmetic for the implicit bookkeeping tree.
//!
//! The tree is a complete binary tree stored heap-style: the root at
//! index 0, the children of `i` at `2i + 1` and `2i + 2`. A tree for
//! `max_order` m has `2 * pow2(m) - 1` nodes. The node at index `i` sits
//! on level `lg(i + 1)` (the root on level 0) and has order
//! `m - level`; it stands for a block of `MIN_SIZE * pow2(order)` bytes
//! starting `(i + 1 - pow2(level)) * block_size` bytes into the arena.

use vstd::prelude::*;
use vstd::arithmetic::power2::{pow2, lemma_pow2_adds, lemma_pow2_pos, lemma_pow2_unfold, lemma2_to64};
use crate::math::{lg, lemma_lg_bounds, lemma_lg_from_bounds, lemma_pow2_le, lemma_pow2_lt_inverse};

verus! {

/// Smallest allocatable block, in bytes.
pub const MIN_SIZE: usize = 64;

/// Bytes reserved at the start of every tracked block for its header.
pub const HEADER_SIZE: usize = 16;

/// Number of nodes in the tree for a given maximum order.
pub open spec fn node_count(m: nat) -> int {
    2 * pow2(m) - 1
}

/// Level of node `i`: 0 for the root, growing downward.
pub open spec fn level_of(i: int) -> nat {
    lg((i + 1) as nat)
}

/// Order of node `i` in a tree of maximum order `m`.
pub open spec fn order_of(m: nat, i: int) -> nat {
    (m - level_of(i)) as nat
}

/// Parent index; -1 for the root.
pub open spec fn parent_of(i: int) -> int {
    (i - 1) / 2
}

/// The sibling sharing this node's parent.
pub open spec fn sibling_of(i: int) -> int {
    if i % 2 == 1 {
        i + 1
    } else {
        i - 1
    }
}

/// Byte size of a block of the given order.
pub open spec fn size_of_order(o: nat) -> int {
    MIN_SIZE * pow2(o)
}

/// Byte offset into the arena of the block node `i` stands for.
pub open spec fn offset_of(m: nat, i: int) -> int {
    (i + 1 - pow2(level_of(i))) * size_of_order(order_of(m, i))
}

/// Whether `d` lies in the subtree rooted at `a` (including `d == a`).
pub open spec fn in_subtree(a: int, d: int) -> bool
    decreases d,
{
    if d == a {
        true
    } else if d <= 0 {
        false
    } else {
        in_subtree(a, parent_of(d))
    }
}

/// Block sizes are positive.
pub proof fn lemma_size_of_order_pos(o: nat)
    ensures
        size_of_order(o) >= MIN_SIZE,
{
    lemma_pow2_pos(o);
    assert(MIN_SIZE * pow2(o) >= MIN_SIZE * 1) by (nonlinear_arith)
        requires
            pow2(o) >= 1,
    ;
}

/// Both children of `i` sit one level below it.
pub proof fn lemma_level_of_children(i: int)
    requires
        i >= 0,
    ensures
        level_of(2 * i + 1) == level_of(i) + 1,
        level_of(2 * i + 2) == level_of(i) + 1,
{
    assert((2 * i + 2) as nat / 2 == (i + 1) as nat);
    assert((2 * i + 3) as nat / 2 == (i + 1) as nat);
    assert(level_of(2 * i + 1) == lg((2 * i + 2) as nat));
    assert(level_of(2 * i + 2) == lg((2 * i + 3) as nat));
}

/// The parent sits one level above any non-root node.
pub proof fn lemma_level_of_parent(i: int)
    requires
        i >= 1,
    ensures
        0 <= parent_of(i) < i,
        level_of(parent_of(i)) + 1 == level_of(i),
        i == 2 * parent_of(i) + 1 || i == 2 * parent_of(i) + 2,
{
    let p = parent_of(i);
    assert(0 <= p < i);
    assert(i == 2 * p + 1 || i == 2 * p + 2);
    lemma_level_of_children(p);
}

/// A node lies on level `l` exactly when its index lies in the level's range.
pub proof fn lemma_level_range(i: int, l: nat)
    requires
        i >= 0,
    ensures
        level_of(i) == l <==> pow2(l) - 1 <= i < 2 * pow2(l) - 1,
{
    lemma_lg_bounds((i + 1) as nat);
    lemma_pow2_unfold(l + 1);
    if pow2(l) - 1 <= i < 2 * pow2(l) - 1 {
        lemma_lg_from_bounds((i + 1) as nat, l);
    }
    if level_of(i) == l {
        assert(pow2(l) <= i + 1 < pow2(l + 1));
    }
}

/// Every index of the tree lies on a level no deeper than `m`.
pub proof fn lemma_level_le_max(m: nat, i: int)
    requires
        0 <= i < node_count(m),
    ensures
        level_of(i) <= m,
{
    lemma_lg_bounds((i + 1) as nat);
    lemma_pow2_unfold(m + 1);
    assert(pow2(level_of(i)) <= i + 1);
    assert(i + 1 < pow2(m + 1));
    lemma_pow2_lt_inverse(level_of(i), m + 1);
}

/// A node on a level above the bottom has both children inside the tree.
pub proof fn lemma_children_in_tree(m: nat, i: int)
    requires
        0 <= i < node_count(m),
        level_of(i) < m,
    ensures
        2 * i + 2 < node_count(m),
{
    lemma_level_range(i, level_of(i));
    lemma_pow2_le(level_of(i) + 1, m);
    assert(i + 1 < 2 * pow2(level_of(i)));
    assert(2 * (i + 1) < 4 * pow2(level_of(i)));
    lemma_pow2_unfold(level_of(i) + 1);
    assert(4 * pow2(level_of(i)) == 2 * pow2(level_of(i) + 1));
    assert(2 * pow2(level_of(i) + 1) <= 2 * pow2(m));
}

/// The two children split their parent's block exactly in half.
pub proof fn lemma_offset_of_children(m: nat, i: int)
    requires
        i >= 0,
        level_of(i) < m,
    ensures
        size_of_order(order_of(m, i)) == 2 * size_of_order(order_of(m, 2 * i + 1)),
        order_of(m, 2 * i + 1) == order_of(m, i) - 1,
        order_of(m, 2 * i + 2) == order_of(m, i) - 1,
        offset_of(m, 2 * i + 1) == offset_of(m, i),
        offset_of(m, 2 * i + 2) == offset_of(m, i) + size_of_order(order_of(m, 2 * i + 1)),
{
    lemma_level_of_children(i);
    let l = level_of(i);
    let o = order_of(m, i);
    let pos = i + 1 - pow2(l);
    lemma_pow2_unfold(l + 1);
    lemma_pow2_unfold(o);
    assert((2 * i + 1) + 1 - pow2(l + 1) == 2 * pos);
    assert((2 * i + 2) + 1 - pow2(l + 1) == 2 * pos + 1);
    let bs = size_of_order((o - 1) as nat);
    assert(size_of_order(o) == 2 * bs);
    assert(offset_of(m, 2 * i + 1) == 2 * pos * bs);
    assert(offset_of(m, i) == pos * (2 * bs));
    assert(2 * pos * bs == pos * (2 * bs)) by (nonlinear_arith);
    assert((2 * pos + 1) * bs == 2 * pos * bs + bs) by (nonlinear_arith);
}

/// Each node's block lies inside the arena.
pub proof fn lemma_offset_bounds(m: nat, i: int)
    requires
        0 <= i < node_count(m),
    ensures
        0 <= offset_of(m, i),
        offset_of(m, i) + size_of_order(order_of(m, i)) <= size_of_order(m),
{
    lemma_level_le_max(m, i);
    let l = level_of(i);
    let o = order_of(m, i);
    let pos = i + 1 - pow2(l);
    lemma_level_range(i, l);
    assert(0 <= pos < pow2(l));
    lemma_size_of_order_pos(o);
    assert(offset_of(m, i) == pos * size_of_order(o));
    assert(pos * size_of_order(o) >= 0) by (nonlinear_arith)
        requires
            pos >= 0,
            size_of_order(o) >= 0,
    ;
    assert((pos + 1) * size_of_order(o) <= pow2(l) * size_of_order(o)) by (nonlinear_arith)
        requires
            pos + 1 <= pow2(l),
            size_of_order(o) >= 0,
    ;
    lemma_pow2_adds(l, o);
    assert(pow2(l) * (MIN_SIZE * pow2(o)) == MIN_SIZE * (pow2(l) * pow2(o))) by (nonlinear_arith);
    assert((pos + 1) * size_of_order(o) == pos * size_of_order(o) + size_of_order(o))
        by (nonlinear_arith);
}

/// Lying in a subtree is transitive.
pub proof fn lemma_in_subtree_trans(a: int, b: int, c: int)
    requires
        in_subtree(a, b),
        in_subtree(b, c),
    ensures
        in_subtree(a, c),
    decreases c,
{
    if c != b {
        assert(c >= 1) by {
            if c <= 0 {
                assert(!in_subtree(b, c));
            }
        }
        lemma_in_subtree_trans(a, b, parent_of(c));
    }
}

/// An ancestor never lies on a deeper level, nor at a larger index.
pub proof fn lemma_in_subtree_level(a: int, d: int)
    requires
        a >= 0,
        in_subtree(a, d),
    ensures
        a <= d,
        level_of(a) <= level_of(d),
        a != d ==> level_of(a) < level_of(d),
    decreases d,
{
    if d != a {
        lemma_level_of_parent(d);
        lemma_in_subtree_level(a, parent_of(d));
    }
}

/// A descendant's block lies inside its ancestor's block.
pub proof fn lemma_subtree_region(m: nat, a: int, d: int)
    requires
        a >= 0,
        d < node_count(m),
        in_subtree(a, d),
    ensures
        offset_of(m, a) <= offset_of(m, d),
        offset_of(m, d) + size_of_order(order_of(m, d)) <= offset_of(m, a) + size_of_order(
            order_of(m, a),
        ),
    decreases d,
{
    if d != a {
        let p = parent_of(d);
        lemma_level_of_parent(d);
        lemma_in_subtree_level(a, d);
        lemma_subtree_region(m, a, p);
        lemma_level_le_max(m, d);
        lemma_offset_of_children(m, p);
        lemma_size_of_order_pos(order_of(m, d));
    }
}

/// Blocks of nodes that lie in neither one another's subtree never overlap.
pub proof fn lemma_regions_disjoint(m: nat, i: int, j: int)
    requires
        0 <= i < node_count(m),
        0 <= j < node_count(m),
        i != j,
        !in_subtree(i, j),
        !in_subtree(j, i),
    ensures
        offset_of(m, i) + size_of_order(order_of(m, i)) <= offset_of(m, j) || offset_of(m, j)
            + size_of_order(order_of(m, j)) <= offset_of(m, i),
    decreases level_of(i) + level_of(j),
{
    if level_of(j) > level_of(i) {
        let p = parent_of(j);
        assert(j >= 1) by {
            if j == 0 {
                lemma_lg_bounds(1);
            }
        }
        lemma_level_of_parent(j);
        assert(in_subtree(p, p));
        assert(in_subtree(p, j));
        assert(p != i) by {
            if p == i {
                assert(in_subtree(i, j));
            }
        }
        if in_subtree(p, i) {
            lemma_in_subtree_level(p, i);
        }
        assert(!in_subtree(i, p)) by {
            if in_subtree(i, p) {
                assert(in_subtree(i, j));
            }
        }
        lemma_regions_disjoint(m, i, p);
        lemma_subtree_region(m, p, j);
    } else if level_of(i) > level_of(j) {
        let p = parent_of(i);
        assert(i >= 1) by {
            if i == 0 {
                lemma_lg_bounds(1);
            }
        }
        lemma_level_of_parent(i);
        assert(in_subtree(p, p));
        assert(in_subtree(p, i));
        assert(p != j) by {
            if p == j {
                assert(in_subtree(j, i));
            }
        }
        if in_subtree(p, j) {
            lemma_in_subtree_level(p, j);
        }
        assert(!in_subtree(j, p)) by {
            if in_subtree(j, p) {
                assert(in_subtree(j, i));
            }
        }
        lemma_regions_disjoint(m, j, p);
        lemma_subtree_region(m, p, i);
    } else {
        assert(i >= 1 && j >= 1) by {
            lemma_lg_bounds(1);
            if i == 0 {
                assert(level_of(0) == 0);
                lemma_lg_bounds((j + 1) as nat);
                lemma_pow2_pos(0);
            }
            if j == 0 {
                assert(level_of(0) == 0);
                lemma_lg_bounds((i + 1) as nat);
                lemma_pow2_pos(0);
            }
        }
        let pi = parent_of(i);
        let pj = parent_of(j);
        lemma_level_of_parent(i);
        lemma_level_of_parent(j);
        lemma_level_le_max(m, i);
        assert(in_subtree(pi, pi));
        assert(in_subtree(pi, i));
        assert(in_subtree(pj, pj));
        assert(in_subtree(pj, j));
        if pi == pj {
            lemma_offset_of_children(m, pi);
            lemma_size_of_order_pos(order_of(m, i));
        } else {
            if in_subtree(pi, pj) {
                lemma_in_subtree_level(pi, pj);
            }
            if in_subtree(pj, pi) {
                lemma_in_subtree_level(pj, pi);
            }
            lemma_regions_disjoint(m, pi, pj);
            lemma_subtree_region(m, pi, i);
            lemma_subtree_region(m, pj, j);
        }
    }
}

} // verus!
