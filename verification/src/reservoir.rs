//! Why one decision for every item keeps every item equally likely.
//!
//! A pass that holds one item, and lets item `j` take its place with
//! probability `1 / j`, holds after `k` items each of them with probability
//! `1 / k`. The selectors are such passes: over all items, over the items
//! that are as good as the best, over the items of a group.

use vstd::prelude::*;

verus! {

/// The product of the numbers from 1 to `n`.
pub open spec fn factorial(n: nat) -> nat
    decreases n,
{
    if n == 0 {
        1
    } else {
        n * factorial((n - 1) as nat)
    }
}

/// Of the `k!` equally likely ways in which the decisions for the items
/// 1 to `k` can come out, decision `j` being `true` in one of `j` ways, the
/// number of ways after which item `i` is held: its own decision is
/// `true` and every later one is `false`.
pub open spec fn held_ways(i: nat, k: nat) -> nat
    decreases k,
{
    if i == 0 || k < i {
        0
    } else if k == i {
        factorial((i - 1) as nat)
    } else {
        held_ways(i, (k - 1) as nat) * ((k - 1) as nat)
    }
}

/// After `k` items every one of them is held in one of `k` ways.
pub proof fn lemma_every_item_is_held_alike(i: nat, k: nat)
    requires
        1 <= i <= k,
    ensures
        held_ways(i, k) * k == factorial(k),
    decreases k,
{
    if k == i {
        assert(factorial((i - 1) as nat) * i == i * factorial((i - 1) as nat)) by (nonlinear_arith);
    } else {
        let before = (k - 1) as nat;
        lemma_every_item_is_held_alike(i, before);
        assert(held_ways(i, before) * before * k == k * (held_ways(i, before) * before))
            by (nonlinear_arith);
    }
}

} // verus!
