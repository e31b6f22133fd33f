//! A cache of random coins in front of a random source.
//!
//! Decisions that need less than a word of randomness take their coins from
//! the cache; a new word is drawn only when the cache runs out.

use crate::coins::coins;
use crate::coins::coins_value;
use crate::coins::discard;
use crate::coins::flip_result;
use crate::coins::lemma_cache_heads_run;
use crate::coins::lemma_discard;
use crate::coins::lemma_flip_result_goes_on;
use crate::coins::lemma_flip_result_longer;
use crate::coins::lemma_heads_run_bound;
use crate::coins::lemma_skip_result_rest;
use crate::coins::lemma_top_coins;
use crate::coins::lemma_words_coins_add;
use crate::coins::lemma_words_coins_one;
use crate::coins::padded;
use crate::coins::skip_result;
use crate::coins::words_coins;
use crate::ratio::binary_digits;
use crate::ratio::bit_length;
use crate::ratio::coins_per_flip;
use crate::ratio::heads_for_one_over;
use crate::ratio::lemma_bit_length_bounds;
use crate::ratio::lemma_ratio_run_step;
use crate::ratio::one_over_run;
use crate::ratio::ratio_run;
use crate::ratio::ratio_run_with;
use crate::ratio::ratio_step;
use crate::ratio::ratio_step_spec;
use crate::source::gen_index;
use crate::source::index_request;
use crate::source::gives_words;
use crate::source::lemma_gives_one_more;
use crate::source::lemma_gives_words_add;
use crate::source::RandomSource;
use crate::source::Request;
use crate::source::RETRY_LIMIT;
use vstd::arithmetic::power2::lemma2_to64;
use vstd::arithmetic::power2::lemma_pow2_pos;
use vstd::arithmetic::power2::lemma_pow2_strictly_increases;
use vstd::arithmetic::power2::pow2;
use vstd::bits::lemma_u64_shl_is_mul;
use vstd::prelude::*;

verus! {

/// The word that is left when the first `count` coins of `word` are thrown
/// away.
fn drop_coins(word: u32, count: u32) -> (rest: u32)
    ensures
        rest == discard(word, count as nat),
{
    if count >= 32 {
        0
    } else {
        word << count
    }
}

/// How many binary digits a word has.
pub open spec fn binary_digits_spec(word: u32) -> nat {
    (32 - word.leading_zeros()) as nat
}

/// How the draw of a number from 0 to `bound` comes out on a cache of
/// coins and the words that are drawn after it, and the coins that it
/// leaves.
///
/// A number is spelled by as many coins as `bound` has binary digits. A
/// cache with fewer coins is dropped for the next word. A number above
/// the bound is dropped for the next number. `None` where the words run
/// out, or where not all of them are needed. After `budget` numbers above
/// the bound the draw gives 0.
pub open spec fn index_run(bound: u32, cache: Seq<bool>, words: Seq<u32>, budget: nat) -> Option<
    (nat, Seq<bool>),
>
    decreases budget,
{
    let digits = binary_digits_spec(bound);
    if budget == 0 {
        if words.len() == 0 {
            Some((0nat, cache))
        } else {
            None
        }
    } else if cache.len() < digits && words.len() == 0 {
        None
    } else {
        let row = if cache.len() < digits {
            coins(words[0], 32)
        } else {
            cache
        };
        let left = if cache.len() < digits {
            words.skip(1)
        } else {
            words
        };
        let number = coins_value(row.take(digits as int));
        if number <= bound {
            if left.len() == 0 {
                Some((number, row.skip(digits as int)))
            } else {
                None
            }
        } else {
            index_run(bound, row.skip(digits as int), left, (budget - 1) as nat)
        }
    }
}

/// A random source with a cache of coins that were drawn and not yet used.
pub struct CoinFlipper<'a, R: RandomSource> {
    /// The source that new words are drawn from.
    pub rng: &'a mut R,
    /// The word that holds the cached coins, from its top bit down.
    pub chunk: u32,
    /// How many coins are cached.
    pub chunk_remaining: u32,
}

impl<'a, R: RandomSource> View for CoinFlipper<'a, R> {
    type V = Seq<bool>;

    /// The cached coins, the next one first; `true` is tails.
    open spec fn view(&self) -> Seq<bool> {
        coins(self.chunk(), self.chunk_remaining() as nat)
    }
}

impl<'a, R: RandomSource> CoinFlipper<'a, R> {
    /// The word that holds the cached coins, from its top bit down.
    pub closed spec fn chunk(&self) -> u32 {
        self.chunk
    }

    /// How many coins are cached.
    pub closed spec fn chunk_remaining(&self) -> u32 {
        self.chunk_remaining
    }

    /// At most a word of coins is cached, and the word shows heads
    /// wherever a coin was used up.
    pub open spec fn wf(&self) -> bool {
        &&& self.chunk_remaining() <= 32
        &&& padded(self.chunk(), self.chunk_remaining() as nat)
    }

    /// A flipper on `rng` with an empty cache.
    pub fn new(rng: &'a mut R) -> (flipper: Self)
        ensures
            flipper.wf(),
            flipper@ == Seq::<bool>::empty(),
            flipper.source() == *old(rng),
            *final(flipper.rng) == *final(rng),
    {
        let flipper = CoinFlipper { rng, chunk: 0, chunk_remaining: 0 };
        proof {
            assert forall|i: int| 0 <= i < 32 implies !crate::coins::coin(0u32, i) by {
                crate::coins::lemma_discard_coin(0u32, 32, i);
            }
            assert(flipper@ =~= Seq::<bool>::empty());
        }
        flipper
    }

    /// The source that new words are drawn from, as it stands.
    pub open spec fn source(&self) -> R {
        *self.rng
    }


    /// An index below `ubound`, drawn from the source itself: the index is
    /// what the source answers to `index_request(ubound)`, and the cache
    /// is left as it is.
    pub fn draw_index(&mut self, ubound: usize) -> (r: usize)
        requires
            ubound > 0,
        ensures
            r < ubound,
            old(self).source().gives(index_request(ubound), r as u64, &final(self).source()),
            *final(final(self).rng) == *final(old(self).rng),
            final(self).chunk() == old(self).chunk(),
            final(self).chunk_remaining() == old(self).chunk_remaining(),
    {
        gen_index(self.rng, ubound)
    }

    /// Replaces the cache by a word from the source.
    fn refill(&mut self)
        ensures
            final(self).wf(),
            final(self).chunk_remaining() == 32,
            *final(final(self).rng) == *final(old(self).rng),
            exists|word: u32|
                old(self).source().gives(Request::Word, word as u64, &final(self).source())
                    && final(self)@ == #[trigger] coins(word, 32),
    {
        self.chunk = self.rng.next_u32();
        self.chunk_remaining = 32;
        assert(self@ == coins(self.chunk, 32));
    }

    /// Throws away the first `count` cached coins.
    fn consume(&mut self, count: u32)
        requires
            old(self).wf(),
            count <= old(self).chunk_remaining(),
        ensures
            final(self).wf(),
            final(self).chunk_remaining() == old(self).chunk_remaining() - count,
            final(self)@ == old(self)@.skip(count as int),
            final(self).source() == old(self).source(),
            *final(final(self).rng) == *final(old(self).rng),
    {
        proof {
            lemma_discard(self.chunk, self.chunk_remaining as nat, count as nat);
        }
        self.chunk = drop_coins(self.chunk, count);
        self.chunk_remaining = self.chunk_remaining - count;
    }

    /// Tests for `c` heads on a cache that holds enough coins to decide.
    fn decide(&mut self, c: u32) -> (all_heads: bool)
        requires
            old(self).wf(),
            c <= 32,
            flip_result(old(self)@, c as nat) is Some,
        ensures
            final(self).wf(),
            flip_result(old(self)@, c as nat) == Some((all_heads, final(self)@)),
            final(self).source() == old(self).source(),
            *final(final(self).rng) == *final(old(self).rng),
    {
        proof {
            lemma_cache_heads_run(self.chunk, self.chunk_remaining as nat);
        }
        let zeros = self.chunk.leading_zeros();
        if zeros < c {
            self.consume(zeros + 1);
            false
        } else {
            self.consume(c);
            true
        }
    }

    /// Flips one coin: `true` is heads.
    ///
    /// The coin is the next one of the cache; on an empty cache it is the
    /// first coin of a word that is drawn for it.
    pub fn flip(&mut self) -> (heads: bool)
        requires
            old(self).wf(),
        ensures
            final(self).wf(),
            *final(final(self).rng) == *final(old(self).rng),
            old(self)@.len() > 0 ==> {
                &&& heads == !old(self)@[0]
                &&& final(self)@ == old(self)@.skip(1)
                &&& final(self).source() == old(self).source()
            },
            old(self)@.len() == 0 ==> exists|word: u32|
                {
                    &&& old(self).source().gives(
                        Request::Word,
                        word as u64,
                        &final(self).source(),
                    )
                    &&& heads == !(#[trigger] coins(word, 32))[0]
                    &&& final(self)@ == coins(word, 32).skip(1)
                },
    {
        let ghost before = self@;
        let heads = self.flip_c_heads(1);
        proof {
            if before.len() > 0 {
                lemma_heads_run_bound(before);
            } else {
                let word = choose|word: u32|
                    {
                        &&& old(self).source().gives(Request::Word, word as u64, &self.source())
                        &&& flip_result(#[trigger] coins(word, 32), 1) == Some((heads, self@))
                    };
                lemma_heads_run_bound(coins(word, 32));
            }
        }
        heads
    }

    /// If the next `c` bits of randomness all represent heads, consume them, return true
    /// Otherwise return false and consume the number of heads plus one.
    /// Generates new bits of randomness when necessary (in 32 bit chunks)
    /// Has a 1 in 2 to the `c` chance of returning true
    /// `c` must be less than or equal to 32
    ///
    /// A cache that decides the test is all that is read. A cache that
    /// runs out after heads only is used up, and the rest of the test is
    /// made on a word that is drawn for it.
    pub fn flip_c_heads(&mut self, c: u32) -> (all_heads: bool)
        requires
            old(self).wf(),
            c <= 32,
        ensures
            final(self).wf(),
            *final(final(self).rng) == *final(old(self).rng),
            match flip_result(old(self)@, c as nat) {
                Some((heads, rest)) => {
                    &&& all_heads == heads
                    &&& final(self)@ == rest
                    &&& final(self).source() == old(self).source()
                },
                None => exists|word: u32|
                    {
                        &&& old(self).source().gives(
                            Request::Word,
                            word as u64,
                            &final(self).source(),
                        )
                        &&& flip_result(
                            #[trigger] coins(word, 32),
                            (c - old(self)@.len()) as nat,
                        ) == Some((all_heads, final(self)@))
                    },
            },
    {
        proof {
            lemma_cache_heads_run(self.chunk, self.chunk_remaining as nat);
        }
        if self.chunk_remaining < c && self.chunk.leading_zeros() >= self.chunk_remaining {
            let rest = c - self.chunk_remaining;
            self.refill();
            let ghost word = choose|word: u32|
                old(self).source().gives(Request::Word, word as u64, &self.source()) && self@
                    == #[trigger] coins(word, 32);
            let all_heads = self.decide(rest);
            proof {
                assert(flip_result(coins(word, 32), (c - old(self)@.len()) as nat) == Some(
                    (all_heads, self@),
                ));
            }
            all_heads
        } else {
            self.decide(c)
        }
    }

    /// Returns true with a probability of n / d
    /// Uses an expected two bits of randomness
    ///
    /// The answer is what `ratio_run` finds on the cached coins and, where
    /// they run out, the coins of the words that are then drawn; the
    /// coins that it did not read stay cached. After `RETRY_LIMIT` tests
    /// that decided nothing the answer is `false`.
    pub fn gen_ratio(&mut self, n: usize, d: usize) -> (r: bool)
        requires
            old(self).wf(),
        ensures
            final(self).wf(),
            n >= d ==> r && final(self)@ == old(self)@ && final(self).source() == old(
                self,
            ).source(),
            n == 0 && d > 0 ==> !r,
            *final(final(self).rng) == *final(old(self).rng),
            exists|words: Seq<u32>|
                {
                    &&& gives_words(old(self).source(), words, final(self).source())
                    &&& ratio_run(
                        n as nat,
                        d as nat,
                        old(self)@ + #[trigger] words_coins(words),
                        RETRY_LIMIT as nat,
                    ) == Some((r, final(self)@))
                },
    {
        let mut numerator = n;
        let mut tests: u32 = 0;
        let ghost mut words: Seq<u32> = Seq::empty();
        let ghost mut exact: nat = n as nat;
        proof {
            assert forall|more: Seq<bool>| #[trigger]
                ratio_run_with(exact, d as nat, self@, more, RETRY_LIMIT as nat) == ratio_run(
                    n as nat,
                    d as nat,
                    old(self)@ + words_coins(words) + more,
                    RETRY_LIMIT as nat,
                ) by {
                assert(old(self)@ + words_coins(words) + more =~= self@ + more);
            }
        }
        while numerator < d && tests < RETRY_LIMIT
            invariant
                self.wf(),
                n == 0 ==> numerator == 0,
                n >= d ==> tests == 0,
                tests == 0 ==> self@ == old(self)@ && numerator == n && self.source() == old(
                    self,
                ).source(),
                gives_words(old(self).source(), words, self.source()),
                *final(self.rng) == *final(old(self).rng),
                numerator == exact || (numerator == usize::MAX && exact > usize::MAX),
                forall|more: Seq<bool>| #[trigger]
                    ratio_run_with(exact, d as nat, self@, more, (RETRY_LIMIT - tests) as nat)
                        == ratio_run(
                        n as nat,
                        d as nat,
                        old(self)@ + words_coins(words) + more,
                        RETRY_LIMIT as nat,
                    ),
            decreases RETRY_LIMIT - tests,
        {
            let ghost cache = self@;
            let ghost source = self.source();
            let ghost budget = (RETRY_LIMIT - tests) as nat;
            let ghost drawn = words;
            tests = tests + 1;
            let c = coins_per_flip(numerator, d);
            let heads = self.flip_c_heads(c);
            let ghost tail: Seq<bool> = Seq::empty();
            proof {
                if flip_result(cache, c as nat) is None {
                    let word = choose|word: u32|
                        {
                            &&& source.gives(Request::Word, word as u64, &self.source())
                            &&& flip_result(
                                #[trigger] coins(word, 32),
                                (c - cache.len()) as nat,
                            ) == Some((heads, self@))
                        };
                    tail = coins(word, 32);
                    lemma_gives_one_more(old(self).source(), drawn, source, word, self.source());
                    words = words.push(word);
                    assert(words.drop_last() =~= drawn);
                }
                assert(words_coins(words) =~= words_coins(drawn) + tail);
            }
            match ratio_step(numerator, d, c, heads) {
                Some(next) => {
                    proof {
                        if numerator == 0 {
                            assert(0 * pow2(c as nat) == 0) by (nonlinear_arith);
                        }
                        let m = ratio_step_spec(exact, d as nat, c as nat, heads)->0;
                        assert forall|more: Seq<bool>| #[trigger]
                            ratio_run_with(m, d as nat, self@, more, (budget - 1) as nat)
                                == ratio_run(
                                n as nat,
                                d as nat,
                                old(self)@ + words_coins(words) + more,
                                RETRY_LIMIT as nat,
                            ) by {
                            assert(ratio_run_with(exact, d as nat, cache, tail + more, budget)
                                == ratio_run(
                                n as nat,
                                d as nat,
                                old(self)@ + words_coins(drawn) + (tail + more),
                                RETRY_LIMIT as nat,
                            ));
                            lemma_ratio_run_step(
                                exact,
                                d as nat,
                                cache,
                                tail,
                                more,
                                budget,
                                heads,
                                self@,
                            );
                            assert(cache + (tail + more) =~= cache + tail + more);
                            assert(old(self)@ + words_coins(drawn) + (tail + more) =~= old(self)@
                                + words_coins(words) + more);
                        }
                        exact = m;
                    }
                    numerator = next;
                },
                None => {
                    proof {
                        let more = Seq::<bool>::empty();
                        assert(ratio_run_with(exact, d as nat, cache, tail + more, budget)
                            == ratio_run(
                            n as nat,
                            d as nat,
                            old(self)@ + words_coins(drawn) + (tail + more),
                            RETRY_LIMIT as nat,
                        ));
                        lemma_ratio_run_step(
                            exact,
                            d as nat,
                            cache,
                            tail,
                            more,
                            budget,
                            heads,
                            self@,
                        );
                        assert(cache + (tail + more) =~= cache + tail + more);
                        assert(old(self)@ + words_coins(drawn) + (tail + more) =~= old(self)@
                            + words_coins(words));
                        assert(self@ + more =~= self@);
                    }
                    return false;
                },
            }
        }
        proof {
            let more = Seq::<bool>::empty();
            assert(ratio_run_with(exact, d as nat, self@, more, (RETRY_LIMIT - tests) as nat)
                == ratio_run(
                n as nat,
                d as nat,
                old(self)@ + words_coins(words) + more,
                RETRY_LIMIT as nat,
            ));
            assert(self@ + more =~= self@);
            assert(old(self)@ + words_coins(words) + more =~= old(self)@ + words_coins(words));
        }
        numerator >= d
    }

    /// Returns true with a probability of 1 / d
    /// Uses an expected two bits of randomness
    ///
    /// The answer is what `one_over_run` finds on the cached coins and,
    /// where they run out, the coins of the words that are then drawn: a
    /// first test for as many heads as the binary logarithm of `d`,
    /// rounded down, and on heads a decision with that power of two over
    /// `d`. A cache that fails the first test decides for `false`.
    #[verifier::rlimit(40)]
    pub fn gen_ratio_one_over(&mut self, d: usize) -> (r: bool)
        requires
            old(self).wf(),
            d > 0,
        ensures
            final(self).wf(),
            d == 1 ==> r && final(self)@ == old(self)@ && final(self).source() == old(
                self,
            ).source(),
            flip_result(old(self)@, heads_for_one_over(d as nat)) matches Some((heads, rest)) ==> (
                !heads ==> !r && final(self)@ == rest && final(self).source() == old(
                    self,
                ).source()),
            *final(final(self).rng) == *final(old(self).rng),
            exists|words: Seq<u32>|
                {
                    &&& gives_words(old(self).source(), words, final(self).source())
                    &&& one_over_run(
                        d as nat,
                        old(self)@ + #[trigger] words_coins(words),
                        RETRY_LIMIT as nat,
                    ) == Some((r, final(self)@))
                },
    {
        let digits = binary_digits(d as u64);
        proof {
            lemma_bit_length_bounds(d as nat);
            lemma2_to64();
            assert(bit_length(1) == 1 && bit_length(0) == 0) by {
                assert(bit_length(1) == 1 + bit_length(0));
            }
        }
        let c = if digits > 33 {
            32
        } else {
            digits - 1
        };
        let heads = self.flip_c_heads(c);
        let ghost first: Seq<u32> = Seq::empty();
        let ghost cache = self@;
        let ghost source = self.source();
        proof {
            if flip_result(old(self)@, c as nat) is None {
                let word = choose|word: u32|
                    {
                        &&& old(self).source().gives(Request::Word, word as u64, &source)
                        &&& flip_result(
                            #[trigger] coins(word, 32),
                            (c - old(self)@.len()) as nat,
                        ) == Some((heads, self@))
                    };
                first = seq![word];
                lemma_gives_one_more(
                    old(self).source(),
                    Seq::<u32>::empty(),
                    old(self).source(),
                    word,
                    source,
                );
                assert(Seq::<u32>::empty().push(word) =~= first);
                lemma_words_coins_one(word);
                lemma_flip_result_goes_on(old(self)@, coins(word, 32), c as nat);
            } else {
                assert(old(self)@ + words_coins(first) =~= old(self)@);
            }
            assert(gives_words(old(self).source(), first, source));
            assert(flip_result(old(self)@ + words_coins(first), c as nat) == Some((heads, cache)));
        }
        if heads {
            proof {
                lemma_pow2_pos(c as nat);
                if c < digits - 1 {
                    lemma_pow2_strictly_increases(c as nat, (digits - 1) as nat);
                }
                vstd::bits::lemma_u64_pow2_no_overflow(c as nat);
                lemma_u64_shl_is_mul(1u64, c as u64);
                if c == 0 {
                    assert(old(self)@.skip(0) =~= old(self)@);
                }
            }
            let numerator = (1u64 << c) as usize;
            let r = self.gen_ratio(numerator, d);
            proof {
                let second = choose|words: Seq<u32>|
                    {
                        &&& gives_words(source, words, self.source())
                        &&& ratio_run(
                            numerator as nat,
                            d as nat,
                            cache + #[trigger] words_coins(words),
                            RETRY_LIMIT as nat,
                        ) == Some((r, self@))
                    };
                lemma_gives_words_add(old(self).source(), first, source, second, self.source());
                lemma_words_coins_add(first, second);
                lemma_flip_result_longer(
                    old(self)@ + words_coins(first),
                    words_coins(second),
                    c as nat,
                );
                assert(old(self)@ + words_coins(first + second) =~= old(self)@ + words_coins(first)
                    + words_coins(second));
                let words = first + second;
                assert(gives_words(old(self).source(), words, self.source()) && one_over_run(
                    d as nat,
                    old(self)@ + words_coins(words),
                    RETRY_LIMIT as nat,
                ) == Some((r, self@)));
            }
            r
        } else {
            proof {
                assert(gives_words(old(self).source(), first, self.source()) && one_over_run(
                    d as nat,
                    old(self)@ + words_coins(first),
                    RETRY_LIMIT as nat,
                ) == Some((false, self@)));
            }
            false
        }
    }

    /// Counts how many decisions with probability `1 / d`, for `d` from
    /// `min_denominator` up, the cached coins settle as `false` one after
    /// the other, and uses up the coins that settle them. No word is drawn.
    pub fn try_skip(&mut self, min_denominator: u32) -> (skipped: u32)
        requires
            old(self).wf(),
        ensures
            final(self).wf(),
            (skipped as nat, final(self)@) == skip_result(
                old(self)@,
                heads_for_one_over(min_denominator as nat),
            ),
            skipped + final(self)@.len() <= old(self)@.len(),
            final(self).source() == old(self).source(),
            *final(final(self).rng) == *final(old(self).rng),
    {
        proof {
            lemma_skip_result_rest(old(self)@, heads_for_one_over(min_denominator as nat));
        }
        let digits = binary_digits(min_denominator as u64);
        proof {
            lemma_bit_length_bounds(min_denominator as nat);
            lemma2_to64();
            if digits > 32 {
                lemma_pow2_strictly_increases(32, (digits - 1) as nat);
            }
        }
        let wanted = if digits == 0 {
            0
        } else {
            digits - 1
        };
        let mut skipped: u32 = 0;
        loop
            invariant
                self.wf(),
                self.source() == old(self).source(),
                *final(self.rng) == *final(old(self).rng),
                wanted == heads_for_one_over(min_denominator as nat),
                skipped + self.chunk_remaining() <= 32,
                skip_result(old(self)@, wanted as nat) == (
                    (skipped + skip_result(self@, wanted as nat).0) as nat,
                    skip_result(self@, wanted as nat).1,
                ),
            ensures
                self.wf(),
                self.source() == old(self).source(),
                *final(self.rng) == *final(old(self).rng),
                (skipped as nat, self@) == skip_result(old(self)@, wanted as nat),
                wanted == heads_for_one_over(min_denominator as nat),
            decreases self.chunk_remaining(),
        {
            proof {
                lemma_cache_heads_run(self.chunk, self.chunk_remaining as nat);
            }
            let zeros = self.chunk.leading_zeros();
            if zeros >= wanted || zeros >= 32 {
                break ;
            }
            self.consume(zeros + 1);
            skipped = skipped + 1;
        }
        skipped
    }

    /// A number from 0 to `inclusive_upper_bound`, every one of them
    /// equally likely.
    ///
    /// As many coins as the bound has binary digits are read as a number,
    /// again and again until the number is not above the bound: the answer
    /// is what `index_run` finds. A cache with too few coins for a number
    /// is replaced by a new word. After `RETRY_LIMIT` numbers above the
    /// bound the answer is 0.
    pub fn gen_index(&mut self, inclusive_upper_bound: u32) -> (r: u32)
        requires
            old(self).wf(),
        ensures
            final(self).wf(),
            r <= inclusive_upper_bound,
            inclusive_upper_bound == 0 ==> final(self)@ == old(self)@ && final(self).source()
                == old(self).source(),
            *final(final(self).rng) == *final(old(self).rng),
            inclusive_upper_bound > 0 ==> exists|words: Seq<u32>|
                {
                    &&& gives_words(old(self).source(), words, final(self).source())
                    &&& #[trigger] index_run(
                        inclusive_upper_bound,
                        old(self)@,
                        words,
                        RETRY_LIMIT as nat,
                    ) == Some((r as nat, final(self)@))
                },
    {
        if inclusive_upper_bound == 0 {
            return 0;
        }
        let lz = inclusive_upper_bound.leading_zeros();
        proof {
            crate::coins::lemma_leading_zeros(inclusive_upper_bound);
            assert(binary_digits_spec(inclusive_upper_bound) == 32 - lz);
        }
        let digits = 32 - lz;
        let mut attempts: u32 = 0;
        let ghost mut words: Seq<u32> = Seq::empty();
        proof {
            assert(words + Seq::<u32>::empty() =~= Seq::<u32>::empty());
        }
        while attempts < RETRY_LIMIT
            invariant
                self.wf(),
                inclusive_upper_bound > 0,
                lz < 32,
                digits == 32 - lz,
                digits == binary_digits_spec(inclusive_upper_bound),
                gives_words(old(self).source(), words, self.source()),
                *final(self.rng) == *final(old(self).rng),
                forall|more: Seq<u32>| #[trigger]
                    index_run(inclusive_upper_bound,
                        self@,
                        more,
                        (RETRY_LIMIT - attempts) as nat,
                    ) == index_run(inclusive_upper_bound,
                        old(self)@,
                        words + more,
                        RETRY_LIMIT as nat,
                    ),
            decreases RETRY_LIMIT - attempts,
        {
            let ghost cache = self@;
            let ghost budget = (RETRY_LIMIT - attempts) as nat;
            let ghost drawn = words;
            attempts = attempts + 1;
            let ghost fresh: Seq<u32> = Seq::empty();
            if self.chunk_remaining < digits {
                let ghost source = self.source();
                self.chunk = self.rng.next_u32();
                self.chunk_remaining = 32;
                proof {
                    fresh = seq![self.chunk];
                    lemma_gives_one_more(
                        old(self).source(),
                        drawn,
                        source,
                        self.chunk,
                        self.source(),
                    );
                    words = words.push(self.chunk);
                }
            }
            let ghost row = self@;
            let r = self.chunk >> lz;
            proof {
                lemma_top_coins(self.chunk, digits as nat);
                assert(row.take(digits as int) =~= coins(self.chunk, digits as nat));
            }
            self.consume(digits);
            proof {
                assert forall|more: Seq<u32>| #[trigger]
                    index_run(inclusive_upper_bound, cache, fresh + more, budget) == (if r
                        <= inclusive_upper_bound {
                        if more.len() == 0 {
                            Some((r as nat, self@))
                        } else {
                            None
                        }
                    } else {
                        index_run(inclusive_upper_bound, self@, more, (budget - 1) as nat)
                    }) by {
                    if fresh.len() > 0 {
                        assert((fresh + more)[0] == fresh[0]);
                        assert((fresh + more).skip(1) =~= more);
                    } else {
                        assert(fresh + more =~= more);
                    }
                }
                assert forall|more: Seq<u32>| #[trigger]
                    (drawn + (fresh + more)) == words + more by {
                    assert(drawn + (fresh + more) =~= words + more);
                }
            }
            if r <= inclusive_upper_bound {
                proof {
                    let more = Seq::<u32>::empty();
                    assert(index_run(inclusive_upper_bound, cache, fresh + more, budget)
                        == index_run(inclusive_upper_bound,
                        old(self)@,
                        drawn + (fresh + more),
                        RETRY_LIMIT as nat,
                    ));
                    assert(words + more =~= words);
                }
                return r;
            }
            proof {
                assert forall|more: Seq<u32>| #[trigger]
                    index_run(inclusive_upper_bound, self@, more, (budget - 1) as nat)
                        == index_run(inclusive_upper_bound,
                        old(self)@,
                        words + more,
                        RETRY_LIMIT as nat,
                    ) by {
                    assert(index_run(inclusive_upper_bound, cache, fresh + more, budget)
                        == index_run(inclusive_upper_bound,
                        old(self)@,
                        drawn + (fresh + more),
                        RETRY_LIMIT as nat,
                    ));
                    assert(drawn + (fresh + more) =~= words + more);
                }
            }
        }
        proof {
            let more = Seq::<u32>::empty();
            assert(index_run(inclusive_upper_bound,
                self@,
                more,
                (RETRY_LIMIT - attempts) as nat,
            ) == index_run(inclusive_upper_bound,
                old(self)@,
                words + more,
                RETRY_LIMIT as nat,
            ));
            assert(words + more =~= words);
        }
        0
    }
}

} // verus!
