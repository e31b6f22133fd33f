//! The arithmetic of deciding with probability `n / d` by flipping coins.
//!
//! To decide with probability `n / d`, flip a coin. While `2n < d`, tails
//! decides for `false` and heads goes on with `2n`. Once `2n >= d`, heads
//! decides for `true` and tails goes on with `2n - d`. Either way the
//! chance of `true` stays `n / d`. Where `n * 2^c <= d`, the first `c`
//! flips can be made at once: only `c` heads in a row go on, with
//! `n * 2^c`.

use crate::coins::flip_result;
use crate::coins::lemma_flip_result_goes_on;
use crate::coins::lemma_flip_result_longer;
use crate::coins::lemma_skip_step;
use crate::coins::skip_result;
use vstd::arithmetic::power2::lemma2_to64;
use vstd::arithmetic::power2::lemma2_to64_rest;
use vstd::arithmetic::power2::lemma_pow2_adds;
use vstd::arithmetic::power2::lemma_pow2_pos;
use vstd::arithmetic::power2::lemma_pow2_strictly_increases;
use vstd::arithmetic::power2::lemma_pow2_unfold;
use vstd::arithmetic::power2::pow2;
use vstd::bits::lemma_u64_mul_pow2_le_max_iff_max_shr;
use vstd::bits::lemma_u64_shl_is_mul;
use vstd::bits::lemma_u64_shr_is_div;
use vstd::prelude::*;
use vstd::std_specs::bits::axiom_u64_leading_zeros;

verus! {

/// How many binary digits `x` has: 0 for 0, else one more than the
/// rounded-down binary logarithm.
pub open spec fn bit_length(x: nat) -> nat
    decreases x,
{
    if x == 0 {
        0
    } else {
        1 + bit_length(x / 2)
    }
}

/// How many coins a test flips at once on the way to `n / d`: as many as
/// the lengths of `n` and `d` allow, at least 1 and at most 32.
pub open spec fn flips_at_once(n: nat, d: nat) -> nat {
    let room = bit_length(d) - bit_length(n) - 1;
    if room < 1 {
        1
    } else if room > 32 {
        32
    } else {
        room as nat
    }
}

/// How many heads in a row the first test of a decision with probability
/// `1 / d` asks for: the rounded-down binary logarithm of `d`, at most 32.
pub open spec fn heads_for_one_over(d: nat) -> nat {
    let length = bit_length(d);
    if length == 0 {
        0
    } else if length > 33 {
        32
    } else {
        (length - 1) as nat
    }
}

/// Where a decision with probability `n / d` stands after a test of `c`
/// coins: the numerator to go on with, or `None` when the decision is
/// `false`.
pub open spec fn ratio_step_spec(n: nat, d: nat, c: nat, heads: bool) -> Option<nat> {
    if heads {
        Some(n * pow2(c))
    } else if c == 1 && 2 * n > d {
        Some((2 * n - d) as nat)
    } else {
        None
    }
}

/// How a decision with probability `n / d` comes out on a row of coins,
/// and the coins that it leaves: test after test, each with as many coins
/// as `flips_at_once` says, until a test decides. `None` where the row
/// ends before that. After `budget` tests that decided nothing the
/// decision is `false`.
pub open spec fn ratio_run(n: nat, d: nat, row: Seq<bool>, budget: nat) -> Option<
    (bool, Seq<bool>),
>
    decreases budget,
{
    if n >= d {
        Some((true, row))
    } else if budget == 0 {
        Some((false, row))
    } else {
        let c = flips_at_once(n, d);
        match flip_result(row, c) {
            None => None,
            Some((heads, rest)) => match ratio_step_spec(n, d, c, heads) {
                Some(m) => ratio_run(m, d, rest, (budget - 1) as nat),
                None => Some((false, rest)),
            },
        }
    }
}

/// `ratio_run` on a cache with `more` coins behind it.
pub open spec fn ratio_run_with(
    n: nat,
    d: nat,
    cache: Seq<bool>,
    more: Seq<bool>,
    budget: nat,
) -> Option<(bool, Seq<bool>)> {
    ratio_run(n, d, cache + more, budget)
}

/// How a decision with probability `1 / d` comes out on a row of coins,
/// and the coins that it leaves: a test for `heads_for_one_over(d)` heads,
/// and on heads a decision with that power of two over `d`.
pub open spec fn one_over_run(d: nat, row: Seq<bool>, budget: nat) -> Option<(bool, Seq<bool>)> {
    let c = heads_for_one_over(d);
    match flip_result(row, c) {
        None => None,
        Some((heads, rest)) => if heads {
            ratio_run(pow2(c), d, rest, budget)
        } else {
            Some((false, rest))
        },
    }
}

/// One test of a decision with probability `n / d`, on a cache that has
/// `tail` and then `more` behind it. The test came out as `heads` and left
/// `rest` of the cache, or of `tail` where the cache decided nothing.
pub proof fn lemma_ratio_run_step(
    n: nat,
    d: nat,
    cache: Seq<bool>,
    tail: Seq<bool>,
    more: Seq<bool>,
    budget: nat,
    heads: bool,
    rest: Seq<bool>,
)
    requires
        n < d,
        budget > 0,
        match flip_result(cache, flips_at_once(n, d)) {
            Some(found) => found == (heads, rest) && tail.len() == 0,
            None => flip_result(tail, (flips_at_once(n, d) - cache.len()) as nat) == Some(
                (heads, rest),
            ),
        },
    ensures
        ratio_run(n, d, cache + tail + more, budget) == match ratio_step_spec(
            n,
            d,
            flips_at_once(n, d),
            heads,
        ) {
            Some(m) => ratio_run(m, d, rest + more, (budget - 1) as nat),
            None => Some((false, rest + more)),
        },
{
    let c = flips_at_once(n, d);
    if flip_result(cache, c) is Some {
        assert(cache + tail =~= cache);
        lemma_flip_result_longer(cache, more, c);
    } else {
        lemma_flip_result_goes_on(cache, tail, c);
        lemma_flip_result_longer(cache + tail, more, c);
    }
}

/// A number with `k` binary digits lies between `2^(k-1)` and `2^k`.
pub proof fn lemma_bit_length_bounds(x: nat)
    ensures
        x < pow2(bit_length(x)),
        x > 0 ==> pow2((bit_length(x) - 1) as nat) <= x,
    decreases x,
{
    if x == 0 {
        lemma_pow2_pos(0);
    } else {
        lemma_bit_length_bounds(x / 2);
        lemma_pow2_unfold(bit_length(x));
        if x / 2 > 0 {
            lemma_pow2_unfold(bit_length(x / 2));
        } else {
            lemma2_to64();
        }
    }
}

/// The bounds of `lemma_bit_length_bounds` fit one length only.
pub proof fn lemma_bit_length_is(x: nat, k: nat)
    requires
        x < pow2(k),
        k > 0 ==> pow2((k - 1) as nat) <= x,
    ensures
        bit_length(x) == k,
{
    lemma_bit_length_bounds(x);
    let b = bit_length(x);
    if b < k {
        if b < k - 1 {
            lemma_pow2_strictly_increases(b, (k - 1) as nat);
        }
    } else if b > k {
        lemma_pow2_pos(0);
        lemma_pow2_pos(k);
        if k < b - 1 {
            lemma_pow2_strictly_increases(k, (b - 1) as nat);
        }
    }
}

/// While a test flips more than one coin, or room for more than one is
/// left, heads on all of them cannot take the numerator past `d`.
pub proof fn lemma_flips_at_once(n: nat, d: nat)
    requires
        n < d,
    ensures
        1 <= flips_at_once(n, d) <= 32,
        bit_length(d) - bit_length(n) >= 2 ==> n * pow2(flips_at_once(n, d)) < d,
{
    let c = flips_at_once(n, d);
    if bit_length(d) - bit_length(n) >= 2 {
        lemma_bit_length_bounds(n);
        lemma_bit_length_bounds(d);
        let top = (bit_length(d) - 1) as nat;
        assert(bit_length(n) + c <= top);
        lemma_pow2_adds(bit_length(n), c);
        if bit_length(n) + c < top {
            lemma_pow2_strictly_increases(bit_length(n) + c, top);
        }
        lemma_pow2_pos(c);
        assert(n * pow2(c) < pow2(bit_length(n)) * pow2(c)) by (nonlinear_arith)
            requires
                n < pow2(bit_length(n)),
                pow2(c) > 0,
        ;
    }
}

/// A larger number has at least as many binary digits.
pub proof fn lemma_bit_length_increases(a: nat, b: nat)
    requires
        a <= b,
    ensures
        bit_length(a) <= bit_length(b),
    decreases b,
{
    if a > 0 {
        lemma_bit_length_increases(a / 2, b / 2);
    }
}

/// Every decision that skipping counts is a decision that comes out as
/// `false`, on the same coins: where a row fails tests for the heads of
/// `min_denominator`, a decision with probability `1 / d`, for any `d`
/// from `min_denominator` on, reads the coins of the first failed test,
/// says `false` and leaves the row to the tests that are left.
pub proof fn lemma_skipped_is_rejected(row: Seq<bool>, min_denominator: nat, d: nat, budget: nat)
    requires
        min_denominator <= d,
        skip_result(row, heads_for_one_over(min_denominator)).0 > 0,
    ensures
        one_over_run(d, row, budget) matches Some((decision, rest)) && !decision && skip_result(
            rest,
            heads_for_one_over(min_denominator),
        ) == (
            (skip_result(row, heads_for_one_over(min_denominator)).0 - 1) as nat,
            skip_result(row, heads_for_one_over(min_denominator)).1,
        ),
{
    lemma_bit_length_increases(min_denominator, d);
    lemma_skip_step(row, heads_for_one_over(min_denominator), heads_for_one_over(d));
}

/// The number of binary digits of `x`.
pub fn binary_digits(x: u64) -> (r: u32)
    ensures
        r == bit_length(x as nat),
        r <= 64,
{
    let zeros = x.leading_zeros();
    proof {
        axiom_u64_leading_zeros(x);
        lemma2_to64();
        lemma2_to64_rest();
        let k = (64 - zeros) as nat;
        if x == 0 {
            assert(bit_length(0) == 0);
        } else {
            let low = (63 - zeros) as u64;
            assert((x >> low) & 1u64 != 0u64);
            assert(x >> low >= 1) by (bit_vector)
                requires
                    (x >> low) & 1u64 != 0u64,
            ;
            lemma_u64_shr_is_div(x, low);
            lemma_pow2_pos(low as nat);
            assert(x >= pow2(low as nat)) by (nonlinear_arith)
                requires
                    x as nat / pow2(low as nat) >= 1,
                    pow2(low as nat) > 0,
            ;
            if zeros > 0 {
                let high = (64 - zeros) as u64;
                assert(x >> high == 0);
                lemma_u64_shr_is_div(x, high);
                lemma_pow2_pos(high as nat);
                assert(x < pow2(high as nat)) by (nonlinear_arith)
                    requires
                        x as nat / pow2(high as nat) == 0,
                        pow2(high as nat) > 0,
                ;
            }
            lemma_bit_length_is(x as nat, k);
        }
    }
    64 - zeros
}

/// How many coins the next test on the way to `n / d` flips at once.
pub fn coins_per_flip(n: usize, d: usize) -> (c: u32)
    requires
        n < d,
    ensures
        c == flips_at_once(n as nat, d as nat),
        1 <= c <= 32,
        c > 1 ==> n * pow2(c as nat) < d,
{
    let short = binary_digits(n as u64);
    let long = binary_digits(d as u64);
    proof {
        lemma_flips_at_once(n as nat, d as nat);
    }
    if long <= short + 1 {
        1
    } else if long - short - 1 > 32 {
        32
    } else {
        long - short - 1
    }
}

/// One step of a decision with probability `n / d`, after a test of `c`
/// coins came out as `heads` says. A numerator that would not fit stays at
/// the largest number: it is past every `d` either way.
pub fn ratio_step(n: usize, d: usize, c: u32, heads: bool) -> (next: Option<usize>)
    requires
        n < d,
        1 <= c <= 32,
    ensures
        match ratio_step_spec(n as nat, d as nat, c as nat, heads) {
            Some(m) => next == Some(
                if m <= usize::MAX {
                    m as usize
                } else {
                    usize::MAX
                },
            ),
            None => next is None,
        },
{
    if heads {
        let wide = n as u64;
        let shift = c as u64;
        proof {
            lemma_u64_mul_pow2_le_max_iff_max_shr(wide, shift, u64::MAX);
        }
        if wide > (u64::MAX >> shift) {
            Some(usize::MAX)
        } else {
            proof {
                lemma_u64_shl_is_mul(wide, shift);
            }
            let product = wide << shift;
            if product > usize::MAX as u64 {
                Some(usize::MAX)
            } else {
                Some(product as usize)
            }
        }
    } else if c == 1 && n > d - n {
        Some(n - (d - n))
    } else {
        None
    }
}

} // verus!
