use vstd::prelude::*;

verus! {

/// Depth of the tree whose size fixes the total work of each round.
pub const K_STRETCH_TREE_DEPTH: i32 = 18;

/// Depth of the tree that stays alive for the whole run.
pub const K_LONG_LIVED_TREE_DEPTH: i32 = 16;

/// Depth of the smallest short-lived trees.
pub const K_MIN_TREE_DEPTH: i32 = 4;

/// Depth of the largest short-lived trees.
pub const K_MAX_TREE_DEPTH: i32 = 16;

/// `2^(i+1) - 1`: the number of nodes of a perfect binary tree of depth `i`.
pub open spec fn tree_size_spec(i: int) -> int {
    vstd::arithmetic::power2::pow2((i + 1) as nat) - 1
}

/// How many trees of depth `i` make up twice the nodes of a stretch tree.
pub open spec fn num_iters_spec(i: int) -> int {
    2 * tree_size_spec(K_STRETCH_TREE_DEPTH as int) / tree_size_spec(i)
}

/// Number of nodes of a perfect binary tree in which every path from the
/// root to a leaf has `d` edges (a depth of zero or less is a single node).
pub open spec fn perfect_size(d: int) -> nat
    decreases d,
{
    if d <= 0 {
        1
    } else {
        2 * perfect_size(d - 1) + 1
    }
}

/// A perfect tree has at least one node.
pub proof fn lemma_perfect_size_pos(d: int)
    ensures
        perfect_size(d) >= 1,
{
}

proof fn lemma_pow2_bounds(n: u32)
    requires
        n <= 30,
    ensures
        1 <= vstd::arithmetic::power2::pow2(n as nat) <= 0x4000_0000,
{
    vstd::arithmetic::power2::lemma_pow2_pos(n as nat);
    vstd::arithmetic::power2::lemma2_to64();
    if n < 30 {
        vstd::arithmetic::power2::lemma_pow2_strictly_increases(n as nat, 30);
    }
}

/// `tree_size(i)` is `2^(i+1) - 1`.
pub fn tree_size(i: i32) -> (r: i32)
    requires
        -1 <= i <= 29,
    ensures
        r == tree_size_spec(i as int),
{
    let shift: u32 = (i + 1) as u32;
    proof {
        lemma_pow2_bounds(shift);
        vstd::bits::lemma_u32_shl_is_mul(1, shift);
    }
    let p: u32 = 1u32 << shift;
    (p - 1) as i32
}

/// `num_iters(i)` is `2 * tree_size(18) / tree_size(i)`.
pub fn num_iters(i: i32) -> (r: i32)
    requires
        0 <= i <= 29,
    ensures
        r == num_iters_spec(i as int),
        r >= 0,
{
    proof {
        vstd::arithmetic::power2::lemma2_to64();
        lemma_pow2_bounds((i + 1) as u32);
        vstd::arithmetic::power2::lemma_pow2_strictly_increases(0, (i + 1) as nat);
    }
    2 * tree_size(K_STRETCH_TREE_DEPTH) / tree_size(i)
}

/// The benchmark's size formula counts the nodes of a perfect binary tree:
/// for every depth `i >= 0`, `tree_size(i)` nodes is exactly what a perfect
/// tree of depth `i` holds.
pub proof fn lemma_tree_size_is_perfect_size(i: int)
    requires
        i >= 0,
    ensures
        tree_size_spec(i) == perfect_size(i),
    decreases i,
{
    vstd::arithmetic::power2::lemma_pow2_unfold((i + 1) as nat);
    if i == 0 {
        vstd::arithmetic::power2::lemma2_to64();
    } else {
        lemma_tree_size_is_perfect_size(i - 1);
    }
}

/// Each round does the same amount of work: `num_iters(i)` trees of depth
/// `i` hold at most twice the nodes of a stretch tree, and one more tree
/// would exceed it.
pub proof fn lemma_num_iters_balances_rounds(i: int)
    requires
        0 <= i <= 29,
    ensures
        num_iters_spec(i) * tree_size_spec(i) <= 2 * tree_size_spec(K_STRETCH_TREE_DEPTH as int),
        2 * tree_size_spec(K_STRETCH_TREE_DEPTH as int) < (num_iters_spec(i) + 1) * tree_size_spec(i),
        num_iters_spec(i) >= 0,
{
    lemma_pow2_bounds((i + 1) as u32);
    vstd::arithmetic::power2::lemma_pow2_strictly_increases(0, (i + 1) as nat);
    vstd::arithmetic::power2::lemma2_to64();
    let x: int = 2 * tree_size_spec(K_STRETCH_TREE_DEPTH as int);
    let t: int = tree_size_spec(i);
    assert(t > 0);
    vstd::arithmetic::div_mod::lemma_fundamental_div_mod(x, t);
    vstd::arithmetic::div_mod::lemma_mod_pos_bound(x, t);
    vstd::arithmetic::mul::lemma_mul_is_commutative(t, x / t);
    vstd::arithmetic::mul::lemma_mul_is_distributive_add_other_way(t, x / t, 1);
    vstd::arithmetic::div_mod::lemma_div_pos_is_pos(x, t);
}

/// Deeper trees get no more passes: for depths `i <= j`,
/// `num_iters(j) <= num_iters(i)`.
pub proof fn lemma_num_iters_non_increasing(i: int, j: int)
    requires
        0 <= i <= j <= 29,
    ensures
        num_iters_spec(j) <= num_iters_spec(i),
{
    lemma_pow2_bounds((i + 1) as u32);
    vstd::arithmetic::power2::lemma_pow2_strictly_increases(0, (i + 1) as nat);
    vstd::arithmetic::power2::lemma2_to64();
    if i < j {
        vstd::arithmetic::power2::lemma_pow2_strictly_increases((i + 1) as nat, (j + 1) as nat);
    }
    vstd::arithmetic::div_mod::lemma_div_is_ordered_by_denominator(
        2 * tree_size_spec(K_STRETCH_TREE_DEPTH as int),
        tree_size_spec(i),
        tree_size_spec(j),
    );
}

} // verus!
