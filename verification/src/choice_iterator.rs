//! Decisions with probability 1/1, 1/2, 1/3, ... that share their random
//! numbers.
//!
//! One number below `n * (n + 1) * ... * (n + k - 1)` holds `k` decisions:
//! its remainder by `n` decides with probability `1 / n`, and the quotient
//! holds the decisions that follow.

use crate::source::RandomSource;
use crate::source::Request;
use vstd::arithmetic::power2::lemma2_to64;
use vstd::arithmetic::power2::lemma2_to64_rest;
use vstd::arithmetic::power2::lemma_pow2_strictly_increases;
use vstd::arithmetic::power2::lemma_pow2_unfold;
use vstd::arithmetic::power2::pow2;
use vstd::prelude::*;

verus! {

/// Factor `i` of the product that starts at `min`: `min + i`, and 1 in
/// place of 0.
pub open spec fn factor(min: nat, i: nat) -> nat {
    if min + i == 0 {
        1
    } else {
        min + i
    }
}

/// The product of the first `count` factors from `min` on.
pub open spec fn product_from(min: nat, count: nat) -> nat
    decreases count,
{
    if count == 0 {
        1
    } else {
        product_from(min, (count - 1) as nat) * factor(min, (count - 1) as nat)
    }
}

/// Whether `divisor` divides `number`.
pub open spec fn is_multiple(number: u64, divisor: u64) -> bool {
    number % divisor == 0
}

/// From its third factor on the product at least doubles with every
/// factor.
pub proof fn lemma_product_grows(min: nat, count: nat)
    ensures
        product_from(min, count) >= 1,
        count >= 2 ==> product_from(min, count) >= pow2((count - 2) as nat),
    decreases count,
{
    lemma2_to64();
    if count > 0 {
        let before = (count - 1) as nat;
        lemma_product_grows(min, before);
        assert(product_from(min, before) * factor(min, before) >= product_from(min, before))
            by (nonlinear_arith)
            requires
                factor(min, before) >= 1,
        ;
        if count > 2 {
            lemma_pow2_unfold((count - 2) as nat);
            assert(product_from(min, before) * factor(min, before) >= 2 * pow2((count - 3) as nat))
                by (nonlinear_arith)
                requires
                    factor(min, before) >= 2,
                    product_from(min, before) >= pow2((count - 3) as nat),
            ;
        }
    }
}

/// The largest product `min * (min + 1) * ...` that fits in 64 bits, and
/// the number of its factors; a factor 0 counts as 1.
pub fn calculate_upper(min: u64) -> (upper: (u64, u8))
    ensures
        upper.1 >= 1,
        upper.0 == product_from(min as nat, upper.1 as nat),
        product_from(min as nat, (upper.1 + 1) as nat) > u64::MAX,
{
    let mut product: u64 = 1;
    let mut count: u8 = 0;
    loop
        invariant
            product == product_from(min as nat, count as nat),
            count <= 66,
        ensures
            count >= 1,
            product == product_from(min as nat, count as nat),
            product_from(min as nat, (count + 1) as nat) > u64::MAX,
        decreases 66 - count,
    {
        proof {
            lemma_product_grows(min as nat, count as nat);
            lemma_product_grows(min as nat, (count + 1) as nat);
            lemma2_to64();
            lemma2_to64_rest();
            if count >= 66 {
                lemma_pow2_strictly_increases(64, (count - 2) as nat);
            }
            if count + 1 >= 66 {
                if count + 1 > 66 {
                    lemma_pow2_strictly_increases(64, (count - 1) as nat);
                }
            }
        }
        let next = match min.checked_add(count as u64) {
            Some(sum) => if sum == 0 {
                1
            } else {
                sum
            },
            None => {
                proof {
                    assert(product * factor(min as nat, count as nat) > u64::MAX)
                        by (nonlinear_arith)
                        requires
                            product >= 1,
                            factor(min as nat, count as nat) > u64::MAX,
                    ;
                }
                break ;
            },
        };
        match product.checked_mul(next) {
            Some(larger) => {
                product = larger;
                count = count + 1;
            },
            None => {
                break ;
            },
        }
    }
    (product, count)
}

/// A row of decisions: the first one that is made after `n` others is
/// `true` with probability `1 / (n + 1)`.
pub struct ChoiceIterator<R: RandomSource> {
    /// The source that the decisions are drawn from.
    pub rng: R,
    consumed: usize,
    chunk: u64,
    chunk_remaining: u8,
}

impl<R: RandomSource> ChoiceIterator<R> {
    /// How many decisions were made.
    pub closed spec fn consumed(&self) -> usize {
        self.consumed
    }

    /// The number that holds the decisions that were drawn and not made
    /// yet.
    pub closed spec fn chunk(&self) -> u64 {
        self.chunk
    }

    /// How many decisions `chunk` holds.
    pub closed spec fn chunk_remaining(&self) -> u8 {
        self.chunk_remaining
    }

    /// The source that the decisions are drawn from, as it stands.
    pub closed spec fn source(&self) -> R {
        self.rng
    }

    /// Create a new choice iterator
    pub fn new_zero(rng: R) -> (choices: Self)
        ensures
            choices.source() == rng,
            choices.consumed() == 0,
            choices.chunk() == 1,
            choices.chunk_remaining() == 1,
    {
        // The chunk holds one decision, over one: it is true whatever the
        // chunk is.
        Self { rng, consumed: 0, chunk: 1, chunk_remaining: 1 }
    }

    /// A row whose first decision is over two.
    pub fn new_one(rng: R) -> (choices: Self)
        ensures
            choices.source() == rng,
            choices.consumed() == 1,
            choices.chunk() == 0,
            choices.chunk_remaining() == 0,
    {
        // The chunk is drawn when the first decision is made.
        Self { rng, consumed: 1, chunk: 0, chunk_remaining: 0 }
    }

    /// How many decisions were made.
    pub fn get_consumed(&self) -> (consumed: usize)
        ensures
            consumed == self.consumed(),
    {
        self.consumed
    }

    /// Goes on as if `consumed` decisions had been made; the decisions
    /// that were drawn for another place of the row are dropped.
    pub fn set_consumed(&mut self, consumed: usize)
        ensures
            final(self).source() == old(self).source(),
            final(self).consumed() == consumed,
            final(self).chunk() == 0,
            final(self).chunk_remaining() == 0,
    {
        self.consumed = consumed;
        self.chunk = 0;
        self.chunk_remaining = 0;
    }

    /// The next decision; there always is one.
    ///
    /// With `n` the number of decisions made, this one included, the
    /// decision is whether the chunk is a multiple of `n`. A chunk that
    /// holds no decision is first replaced by a number below the largest
    /// product `n * (n + 1) * ...` that fits in 64 bits.
    pub fn next(&mut self) -> (decision: Option<bool>)
        ensures
            final(self).consumed() == if old(self).consumed() < usize::MAX {
                (old(self).consumed() + 1) as usize
            } else {
                usize::MAX
            },
            old(self).chunk_remaining() > 0 ==> {
                &&& decision == Some(is_multiple(old(self).chunk(), final(self).consumed() as u64))
                &&& final(self).chunk() == old(self).chunk() / (final(self).consumed() as u64)
                &&& final(self).chunk_remaining() == old(self).chunk_remaining() - 1
                &&& final(self).source() == old(self).source()
            },
            old(self).chunk_remaining() == 0 ==> {
                let count = (final(self).chunk_remaining() + 1) as nat;
                &&& product_from(final(self).consumed() as nat, count) <= u64::MAX
                &&& product_from(final(self).consumed() as nat, count + 1) > u64::MAX
                &&& exists|drawn: u64|
                    {
                        &&& old(self).source().gives(
                            Request::BelowU64(
                                product_from(final(self).consumed() as nat, count) as u64,
                            ),
                            drawn,
                            &final(self).source(),
                        )
                        &&& drawn < product_from(final(self).consumed() as nat, count)
                        &&& decision == Some(
                            #[trigger] is_multiple(drawn, final(self).consumed() as u64),
                        )
                        &&& final(self).chunk() == drawn / (final(self).consumed() as u64)
                    }
            },
            final(self).consumed() == 1 ==> decision == Some(true),
    {
        self.consumed = self.consumed.saturating_add(1);
        let divisor = self.consumed as u64;
        if self.chunk_remaining == 0 {
            let (bound, remaining) = calculate_upper(divisor);
            proof {
                lemma_product_grows(divisor as nat, remaining as nat);
            }
            self.chunk_remaining = remaining;
            self.chunk = self.rng.below_u64(bound);
            assert(self.chunk < product_from(divisor as nat, remaining as nat));
        }
        let ghost drawn = self.chunk;
        let result = self.chunk % divisor == 0;
        self.chunk = self.chunk / divisor;
        self.chunk_remaining = self.chunk_remaining - 1;
        assert(result == is_multiple(drawn, divisor));
        Some(result)
    }

    /// Bounds on how many decisions are left: there is no end to them.
    pub fn size_hint(&self) -> (hint: (usize, Option<usize>))
        ensures
            hint == (usize::MAX, None::<usize>),
    {
        (usize::MAX, None)
    }
}

} // verus!
