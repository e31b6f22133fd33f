//! Uniform numbers below a bound that stays the same over many draws.
//!
//! One 32-bit word of the source is cut into several numbers: into groups of
//! bits when the bound is a power of two, into base-`n` digits otherwise.

use crate::source::gives_words;
use crate::source::lemma_gives_one_more;
use crate::source::RandomSource;
use crate::source::Request;
use crate::source::RETRY_LIMIT;
use vstd::arithmetic::div_mod::lemma_multiply_divide_lt;
use vstd::arithmetic::power2::lemma_pow2_strictly_increases;
use vstd::arithmetic::power2::pow2;
use vstd::arithmetic::power::lemma_pow0;
use vstd::arithmetic::power::lemma_pow1;
use vstd::arithmetic::power::lemma_pow_positive;
use vstd::arithmetic::power::pow;
use vstd::bits::lemma_u32_pow2_no_overflow;
use vstd::bits::lemma_u32_shl_is_mul;
use vstd::prelude::*;
use vstd::std_specs::bits::axiom_u32_leading_zeros;
use vstd::std_specs::bits::axiom_u32_trailing_zeros;

verus! {

/// Whether `n` is one of 1, 2, 4, ..., 2^31.
pub open spec fn is_power_of_two(n: u32) -> bool {
    exists|b: nat| b < 32 && n == #[trigger] pow2(b)
}

/// `pow(n, e + 1)` is `n` times `pow(n, e)`.
pub proof fn lemma_pow_step(n: int, e: nat)
    ensures
        pow(n, e + 1) == n * pow(n, e),
{
    reveal(pow);
}

/// The first `count` digits of `word` in base `n`, the lowest first: what
/// a word hands out one after the other.
pub open spec fn digits_of(word: nat, n: nat, count: nat) -> Seq<nat>
    decreases count,
{
    if count == 0 {
        Seq::empty()
    } else {
        seq![word % n] + digits_of(word / n, n, (count - 1) as nat)
    }
}

/// The number with the digits `digits` in base `n`, the lowest first.
pub open spec fn word_of(digits: Seq<nat>, n: nat) -> nat
    decreases digits.len(),
{
    if digits.len() == 0 {
        0
    } else {
        digits[0] + n * word_of(digits.skip(1), n)
    }
}

/// A word below `n^count` is told by its first `count` digits: two such
/// words with the same digits are the same word.
pub proof fn lemma_word_of_digits(word: nat, n: nat, count: nat)
    requires
        n >= 1,
        word < pow(n as int, count),
    ensures
        digits_of(word, n, count).len() == count,
        forall|i: int| 0 <= i < count ==> #[trigger] digits_of(word, n, count)[i] < n,
        word_of(digits_of(word, n, count), n) == word,
    decreases count,
{
    if count == 0 {
        lemma_pow0(n as int);
    } else {
        let before = (count - 1) as nat;
        lemma_pow_step(n as int, before);
        lemma_pow_positive(n as int, before);
        lemma_multiply_divide_lt(word as int, n as int, pow(n as int, before));
        lemma_word_of_digits(word / n, n, before);
        let digits = digits_of(word, n, count);
        assert(digits.skip(1) =~= digits_of(word / n, n, before));
        vstd::arithmetic::div_mod::lemma_fundamental_div_mod(word as int, n as int);
        assert forall|i: int| 0 <= i < count implies #[trigger] digits[i] < n by {
            if i > 0 {
                assert(digits[i] == digits_of(word / n, n, before)[i - 1]);
            }
        }
    }
}

/// Every row of `count` digits below `n` is the digits of one word below
/// `n^count`: a word that is equally likely to be any number below
/// `n^count` hands out digits that are equally likely to be any row.
pub proof fn lemma_digits_of_word(digits: Seq<nat>, n: nat)
    requires
        n >= 1,
        forall|i: int| 0 <= i < digits.len() ==> #[trigger] digits[i] < n,
    ensures
        word_of(digits, n) < pow(n as int, digits.len()),
        digits_of(word_of(digits, n), n, digits.len()) == digits,
    decreases digits.len(),
{
    if digits.len() == 0 {
        lemma_pow0(n as int);
    } else {
        let rest = digits.skip(1);
        assert forall|i: int| 0 <= i < rest.len() implies #[trigger] rest[i] < n by {
            assert(rest[i] == digits[i + 1]);
        }
        lemma_digits_of_word(rest, n);
        let high = word_of(rest, n);
        let word = word_of(digits, n);
        lemma_pow_step(n as int, rest.len());
        assert(digits[0] + n * high < n * pow(n as int, rest.len())) by (nonlinear_arith)
            requires
                digits[0] < n,
                high < pow(n as int, rest.len()),
                n >= 1,
        ;
        assert(n * high == high * n) by (nonlinear_arith);
        vstd::arithmetic::div_mod::lemma_fundamental_div_mod_converse(
            word as int,
            n as int,
            high as int,
            digits[0] as int,
        );
        assert(digits_of(word, n, digits.len()) =~= digits);
    }
}

/// A word with a single bit set, at place `t`, is `pow2(t)`.
proof fn lemma_single_bit(t: u32)
    requires
        t < 32,
    ensures
        (1u32 << t) == pow2(t as nat),
        (1u32 << t) & (((1u32 << t) - 1) as u32) == 0,
        (1u32 << t) != 0,
{
    lemma_u32_pow2_no_overflow(t as nat);
    lemma_u32_shl_is_mul(1u32, t);
    assert((1u32 << t) & (((1u32 << t) - 1) as u32) == 0 && (1u32 << t) != 0) by (bit_vector)
        requires
            t < 32,
    ;
}

/// The test `n & (n - 1) == 0` tells the powers of two from the rest.
proof fn lemma_power_of_two_test(n: u32)
    requires
        n > 0,
    ensures
        is_power_of_two(n) <==> n & ((n - 1) as u32) == 0,
        n & ((n - 1) as u32) == 0 ==> n.trailing_zeros() < 32 && n == pow2(n.trailing_zeros() as nat),
{
    if n & ((n - 1) as u32) == 0 {
        axiom_u32_trailing_zeros(n);
        let t = n.trailing_zeros();
        assert(n == 1u32 << t) by (bit_vector)
            requires
                t < 32,
                n & ((n - 1) as u32) == 0,
                (n >> t) & 1u32 == 1u32,
        ;
        lemma_single_bit(t);
        assert(t < 32 && n == pow2(t as nat));
    }
    if is_power_of_two(n) {
        let b = choose|b: nat| b < 32 && n == #[trigger] pow2(b);
        lemma_single_bit(b as u32);
    }
}

/// The lowest `bits` bits of a word are its lowest digit in base
/// `2^bits`, and the word shifted down by them is the word divided by
/// `2^bits`: what `digits_of` says of digits holds of groups of bits.
pub proof fn lemma_bits_are_digits(word: u32, bits: u32, mask: u32)
    requires
        bits < 32,
        mask + 1 == pow2(bits as nat),
    ensures
        word & mask == word as nat % pow2(bits as nat),
        word >> bits == word as nat / pow2(bits as nat),
{
    lemma_u32_pow2_no_overflow(bits as nat);
    vstd::bits::lemma_u32_low_bits_mask_is_mod(word, bits as nat);
    assert(vstd::bits::low_bits_mask(bits as nat) as u32 == mask);
    assert(word & mask == word % (pow2(bits as nat) as u32));
    vstd::bits::lemma_u32_shr_is_div(word, bits);
}

/// A uniform distribution below a power of two.
///
/// Each word of the source is handed out `bits` bits at a time, lowest
/// bits first.
#[derive(Debug, Clone, Copy)]
pub struct PowerOfTwo {
    bits: u32,
    mask: u32,
    counter: u32,
    chunk: u32,
}

impl PowerOfTwo {
    /// How many bits one number takes.
    pub closed spec fn bits(&self) -> u32 {
        self.bits
    }

    /// The largest number that can come out.
    pub closed spec fn mask(&self) -> u32 {
        self.mask
    }

    /// How many bits of the held word are still unused.
    pub closed spec fn counter(&self) -> u32 {
        self.counter
    }

    /// The held word, its used bits shifted out.
    pub closed spec fn chunk(&self) -> u32 {
        self.chunk
    }

    /// The bound: every number that comes out is below it.
    pub open spec fn bound(&self) -> nat {
        pow2(self.bits() as nat)
    }

    /// The constants fit each other: the bound is `2^bits` and the mask is
    /// the bound less one.
    pub open spec fn wf(&self) -> bool {
        &&& self.bits() < 32
        &&& self.mask() + 1 == pow2(self.bits() as nat)
    }

    /// Whether handing out `r` takes the distribution to `after`: `r` is
    /// the lowest `bits` bits of the held word, or of a new word where the
    /// held one has fewer unused bits, and the word is shifted down by
    /// them.
    ///
    /// A new word is the word that the source `source` gives, going on as
    /// `source_after`; while the held word serves, the source is left
    /// alone.
    pub open spec fn hands_out<R: RandomSource>(
        &self,
        after: &Self,
        r: u32,
        source: R,
        source_after: R,
    ) -> bool {
        &&& after.bits() == self.bits()
        &&& after.mask() == self.mask()
        &&& self.counter() >= self.bits() ==> {
            &&& r == self.chunk() & self.mask()
            &&& after.chunk() == self.chunk() >> self.bits()
            &&& after.counter() == self.counter() - self.bits()
            &&& source_after == source
        }
        &&& self.counter() < self.bits() ==> {
            &&& after.counter() == 32 - self.bits()
            &&& exists|word: u32|
                {
                    &&& source.gives(Request::Word, word as u64, &source_after)
                    &&& r == word & self.mask()
                    &&& after.chunk() == #[trigger] (word >> self.bits())
                }
        }
    }

    /// Get the next random value in 0..n
    pub fn next<R: RandomSource>(&mut self, rng: &mut R) -> (r: u32)
        requires
            old(self).wf(),
        ensures
            final(self).wf(),
            r < old(self).bound(),
            old(self).hands_out(final(self), r, *old(rng), *final(rng)),
    {
        let ghost word: u32 = self.chunk;
        if self.counter >= self.bits {
            self.counter = self.counter - self.bits;
        } else {
            self.chunk = rng.next_u32();
            self.counter = 32 - self.bits;
            proof {
                word = self.chunk;
            }
        }
        let value = self.chunk & self.mask;
        self.chunk = self.chunk >> self.bits;
        proof {
            let mask = self.mask;
            assert(word & mask <= mask) by (bit_vector);
            assert(self.chunk == word >> old(self).bits());
        }
        value
    }
}

/// A uniform distribution below a bound that is no power of two.
///
/// A word of the source below `n^k`, the largest power of `n` that fits in
/// 32 bits, holds `k` digits in base `n`; they are handed out lowest first.
#[derive(Debug, Clone, Copy)]
pub struct NonPowerOfTwo {
    inclusive_upper: u32,
    max_count: u32,
    counter: u32,
    chunk: u32,
    n: u32,
}

impl NonPowerOfTwo {
    /// The largest word that is accepted: `n^k - 1`.
    pub closed spec fn inclusive_upper(&self) -> u32 {
        self.inclusive_upper
    }

    /// How many digits an accepted word holds beyond the first: `k - 1`.
    pub closed spec fn max_count(&self) -> u32 {
        self.max_count
    }

    /// How many digits the held word still holds.
    pub closed spec fn counter(&self) -> u32 {
        self.counter
    }

    /// The held word, its used digits divided out.
    pub closed spec fn chunk(&self) -> u32 {
        self.chunk
    }

    /// The bound: every number that comes out is below it.
    pub closed spec fn n(&self) -> u32 {
        self.n
    }

    /// The constants fit the bound, and the held word holds exactly the
    /// digits that the counter says are left.
    pub open spec fn wf(&self) -> bool {
        &&& self.n() >= 2
        &&& self.inclusive_upper() + 1 == pow(self.n() as int, (self.max_count() + 1) as nat)
        &&& self.counter() <= self.max_count()
        &&& self.chunk() < pow(self.n() as int, self.counter() as nat)
    }

    /// Whether handing out `r` takes the distribution to `after`: `r` is
    /// the lowest digit of the held word, or of a new word that is not
    /// above `inclusive_upper` where the held one has no digit left, and
    /// the word is divided by the bound.
    ///
    /// A new word is what `finds` says of the words that the source
    /// `source` gives, going on as `source_after`; while the held word
    /// serves, the source is left alone.
    pub open spec fn hands_out<R: RandomSource>(
        &self,
        after: &Self,
        r: u32,
        source: R,
        source_after: R,
    ) -> bool {
        &&& after.n() == self.n()
        &&& after.inclusive_upper() == self.inclusive_upper()
        &&& after.max_count() == self.max_count()
        &&& self.counter() > 0 ==> {
            &&& r == self.chunk() % self.n()
            &&& after.chunk() == self.chunk() / self.n()
            &&& after.counter() == self.counter() - 1
            &&& source_after == source
        }
        &&& self.counter() == 0 ==> {
            &&& after.counter() == self.max_count()
            &&& exists|words: Seq<u32>, word: u32|
                {
                    &&& gives_words(source, words, source_after)
                    &&& #[trigger] self.finds(words, word)
                    &&& word <= self.inclusive_upper()
                    &&& r == word % self.n()
                    &&& after.chunk() == word / self.n()
                }
        }
    }

    /// Get the next random value in 0..n
    ///
    /// A new word is looked for among the words of the source until one is
    /// not above `inclusive_upper`; failing that `RETRY_LIMIT` times, the
    /// word is taken to be 0.
    pub fn next<R: RandomSource>(&mut self, rng: &mut R) -> (r: u32)
        requires
            old(self).wf(),
        ensures
            final(self).wf(),
            r < old(self).n(),
            old(self).hands_out(final(self), r, *old(rng), *final(rng)),
    {
        let ghost word: u32 = self.chunk;
        let ghost words: Seq<u32> = Seq::empty();
        if self.counter > 0 {
            self.counter = self.counter - 1;
        } else {
            self.chunk = self.accepted_word(rng);
            self.counter = self.max_count;
            proof {
                word = self.chunk;
                words = choose|words: Seq<u32>| #[trigger]
                    gives_words(*old(rng), words, *rng) && old(self).finds(words, word);
            }
        }
        let value = self.chunk % self.n;
        self.chunk = self.chunk / self.n;
        proof {
            let n = self.n as int;
            let e = self.counter as nat;
            lemma_pow_step(n, e);
            lemma_pow_positive(n, e);
            lemma_multiply_divide_lt(word as int, n, pow(n, e));
            assert(self.chunk == word / old(self).n());
            if old(self).counter() == 0 {
                assert(gives_words(*old(rng), words, *rng) && old(self).finds(words, word));
            }
        }
        value
    }

    /// Whether looking for a word among the words `words` of the source
    /// comes to `word`. Each word is cut down to as many bits as
    /// `inclusive_upper` has. All but the last were then above
    /// `inclusive_upper`; the last is `word`, or it is too large as well,
    /// the last of `RETRY_LIMIT` words, and `word` is 0.
    pub open spec fn finds(&self, words: Seq<u32>, word: u32) -> bool {
        let shift = self.inclusive_upper().leading_zeros();
        &&& 1 <= words.len() <= RETRY_LIMIT
        &&& forall|i: int|
            0 <= i < words.len() - 1 ==> (#[trigger] words[i] >> shift) > self.inclusive_upper()
        &&& if (words.last() >> shift) <= self.inclusive_upper() {
            word == words.last() >> shift
        } else {
            words.len() == RETRY_LIMIT && word == 0
        }
    }

    /// Draws words until one is at most `inclusive_upper`. Each word is
    /// first cut down to as many bits as `inclusive_upper` has, so that at
    /// least every second one is accepted.
    ///
    /// After `RETRY_LIMIT` words that were not accepted the word is 0.
    fn accepted_word<R: RandomSource>(&self, rng: &mut R) -> (word: u32)
        requires
            self.wf(),
        ensures
            word <= self.inclusive_upper(),
            exists|words: Seq<u32>| #[trigger]
                gives_words(*old(rng), words, *final(rng)) && self.finds(words, word),
    {
        let shift = self.inclusive_upper.leading_zeros();
        proof {
            let n = self.n as int;
            let e = self.max_count as nat;
            lemma_pow_step(n, e);
            lemma_pow_positive(n, e);
            assert(n * pow(n, e) >= 2) by (nonlinear_arith)
                requires
                    n >= 2,
                    pow(n, e) >= 1,
            ;
            axiom_u32_leading_zeros(self.inclusive_upper);
        }
        let mut attempts: u32 = 0;
        let ghost mut words: Seq<u32> = Seq::empty();
        while attempts < RETRY_LIMIT
            invariant
                shift < 32,
                shift == self.inclusive_upper().leading_zeros(),
                words.len() == attempts,
                gives_words(*old(rng), words, *rng),
                forall|i: int|
                    0 <= i < words.len() ==> (#[trigger] words[i] >> shift)
                        > self.inclusive_upper(),
            decreases RETRY_LIMIT - attempts,
        {
            attempts = attempts + 1;
            let ghost before = *rng;
            let ghost drawn = words;
            let next_word = rng.next_u32();
            let next = next_word >> shift;
            proof {
                lemma_gives_one_more(*old(rng), drawn, before, next_word, *rng);
                words = drawn.push(next_word);
            }
            if next <= self.inclusive_upper {
                proof {
                    assert(self.finds(words, next));
                }
                return next;
            }
        }
        proof {
            assert(self.finds(words, 0));
        }
        0
    }
}

/// Uniform Distribution
pub enum Uniform {
    /// The bound is a power of two.
    PowerOfTwo(PowerOfTwo),
    /// The bound is no power of two.
    NonPowerOfTwo(NonPowerOfTwo),
}

impl Uniform {
    /// The bound: every number that comes out is below it.
    pub open spec fn bound(&self) -> nat {
        match self {
            Uniform::PowerOfTwo(x) => x.bound(),
            Uniform::NonPowerOfTwo(x) => x.n() as nat,
        }
    }

    /// The variant at hand is well formed.
    pub open spec fn wf(&self) -> bool {
        match self {
            Uniform::PowerOfTwo(x) => x.wf(),
            Uniform::NonPowerOfTwo(x) => x.wf(),
        }
    }

    /// Get the next random value in 0..n
    pub fn next<R: RandomSource>(&mut self, rng: &mut R) -> (r: u32)
        requires
            old(self).wf(),
        ensures
            final(self).wf(),
            final(self).bound() == old(self).bound(),
            r < old(self).bound(),
            match (*old(self), *final(self)) {
                (Uniform::PowerOfTwo(before), Uniform::PowerOfTwo(after)) => before.hands_out(
                    &after,
                    r,
                    *old(rng),
                    *final(rng),
                ),
                (Uniform::NonPowerOfTwo(before), Uniform::NonPowerOfTwo(after)) => before.hands_out(
                    &after,
                    r,
                    *old(rng),
                    *final(rng),
                ),
                _ => false,
            },
    {
        match self {
            Uniform::PowerOfTwo(x) => x.next(rng),
            Uniform::NonPowerOfTwo(x) => x.next(rng),
        }
    }

    ///Create a new uniform distribution
    pub fn new(n: u32) -> (u: Self)
        requires
            n > 0,
        ensures
            u.wf(),
            u.bound() == n,
            match u {
                Uniform::PowerOfTwo(x) => {
                    &&& is_power_of_two(n)
                    &&& x.mask() == n - 1
                    &&& x.counter() == 0
                    &&& x.chunk() == 0
                },
                Uniform::NonPowerOfTwo(x) => {
                    &&& !is_power_of_two(n)
                    &&& x.n() == n
                    &&& x.inclusive_upper() + 1 == pow(n as int, (x.max_count() + 1) as nat)
                    &&& pow(n as int, (x.max_count() + 2) as nat) > u32::MAX
                    &&& x.counter() == 0
                    &&& x.chunk() == 0
                },
            },
    {
        proof {
            lemma_power_of_two_test(n);
        }
        if n & (n - 1) == 0 {
            let bits = n.trailing_zeros();
            Uniform::PowerOfTwo(PowerOfTwo { bits, mask: n - 1, counter: 0, chunk: 0 })
        } else {
            proof {
                lemma_single_bit(0);
                lemma_single_bit(1);
                assert(pow2(0) == 1 && pow2(1) == 2) by {
                    vstd::arithmetic::power2::lemma2_to64();
                }
                assert(n >= 3) by {
                    if n == 1 {
                        assert(is_power_of_two(n)) by {
                            assert(n == pow2(0));
                        }
                    }
                    if n == 2 {
                        assert(is_power_of_two(n)) by {
                            assert(n == pow2(1));
                        }
                    }
                }
                lemma_pow1(n as int);
            }
            let mut power: u32 = n;
            let mut max_count: u32 = 0;
            loop
                invariant
                    n >= 3,
                    power >= 3,
                    max_count < 32,
                    power == pow(n as int, (max_count + 1) as nat),
                    power >= pow2((max_count + 1) as nat),
                ensures
                    max_count < 32,
                    power >= 3,
                    power == pow(n as int, (max_count + 1) as nat),
                    pow(n as int, (max_count + 2) as nat) > u32::MAX,
                decreases u32::MAX - power,
            {
                proof {
                    lemma_pow_step(n as int, (max_count + 1) as nat);
                    assert(power * n >= power * 2) by (nonlinear_arith)
                        requires
                            n >= 2,
                            power >= 0,
                    ;
                    assert(pow2((max_count + 2) as nat) == 2 * pow2((max_count + 1) as nat)) by {
                        vstd::arithmetic::power2::lemma_pow2_unfold((max_count + 2) as nat);
                    }
                    if max_count == 30 {
                        lemma_pow2_strictly_increases(31, 32);
                        vstd::arithmetic::power2::lemma2_to64();
                    }
                }
                match power.checked_mul(n) {
                    Some(larger) => {
                        proof {
                            if max_count >= 30 {
                                lemma_pow2_strictly_increases(32, (max_count + 2) as nat);
                                vstd::arithmetic::power2::lemma2_to64();
                            }
                        }
                        power = larger;
                        max_count = max_count + 1;
                    },
                    None => {
                        break ;
                    },
                }
            }
            proof {
                lemma_pow0(n as int);
            }
            Uniform::NonPowerOfTwo(
                NonPowerOfTwo { inclusive_upper: power - 1, max_count, counter: 0, chunk: 0, n },
            )
        }
    }
}

} // verus!
