//! Random words read as rows of coins.
//!
//! A 32-bit word is a row of 32 coins, the top bit first. A bit that is set
//! is tails, a bit that is clear is heads: shifting a word to the left fills
//! it up with heads.

use vstd::arithmetic::power2::pow2;
use vstd::prelude::*;
use vstd::std_specs::bits::axiom_u32_leading_zeros;

verus! {

/// Coin `i` of a word, counted from its top bit: `true` is tails.
pub open spec fn coin(word: u32, i: int) -> bool {
    0 <= i < 32 && (word >> ((31 - i) as u32)) & 1u32 == 1u32
}

/// The first `len` coins of a word.
pub open spec fn coins(word: u32, len: nat) -> Seq<bool> {
    Seq::new(len, |i: int| coin(word, i))
}

/// Whether every coin of the word from place `len` on is heads.
pub open spec fn padded(word: u32, len: nat) -> bool {
    forall|i: int| len <= i < 32 ==> !coin(word, i)
}

/// The word that is left when the first `count` coins are thrown away.
pub open spec fn discard(word: u32, count: nat) -> u32 {
    if count >= 32 {
        0
    } else {
        word << (count as u32)
    }
}

/// How many heads lie before the first tails of a row (all of them, when
/// the row has no tails).
pub open spec fn heads_run(s: Seq<bool>) -> nat
    decreases s.len(),
{
    if s.len() == 0 || s[0] {
        0
    } else {
        1 + heads_run(s.skip(1))
    }
}

/// What testing for `c` heads in a row finds in the row `s`.
///
/// A tails among the first `c` coins decides for `false` and uses up the
/// coins up to it. `c` heads decide for `true` and are used up. A row that
/// ends before either is seen decides nothing: `None`.
pub open spec fn flip_result(s: Seq<bool>, c: nat) -> Option<(bool, Seq<bool>)> {
    let h = heads_run(s);
    if h < c && h < s.len() {
        Some((false, s.skip(h as int + 1)))
    } else if c <= s.len() {
        Some((true, s.skip(c as int)))
    } else {
        None
    }
}

/// How many tests for `wanted` heads in a row the row `s` fails one after
/// the other, and the coins that are left after them.
///
/// A test fails on a tails that fewer than `wanted` heads precede; the
/// count stops at the first stretch of `wanted` heads, or where the tails
/// run out.
pub open spec fn skip_result(s: Seq<bool>, wanted: nat) -> (nat, Seq<bool>)
    decreases s.len(),
{
    let h = heads_run(s);
    if h < wanted && h < s.len() {
        let (count, rest) = skip_result(s.skip(h as int + 1), wanted);
        (count + 1, rest)
    } else {
        (0, s)
    }
}

/// The number that a row of coins spells in binary, its first coin the
/// highest digit: tails is 1 and heads is 0.
pub open spec fn coins_value(s: Seq<bool>) -> nat
    decreases s.len(),
{
    if s.len() == 0 {
        0
    } else {
        2 * coins_value(s.drop_last()) + if s.last() {
            1nat
        } else {
            0nat
        }
    }
}

/// The row of `len` coins that spells `number`.
pub open spec fn row_of(number: nat, len: nat) -> Seq<bool>
    decreases len,
{
    if len == 0 {
        Seq::empty()
    } else {
        row_of(number / 2, (len - 1) as nat).push(number % 2 == 1)
    }
}

/// Every number below `2^len` is spelled by a row of `len` coins.
pub proof fn lemma_row_of_number(number: nat, len: nat)
    requires
        number < pow2(len),
    ensures
        row_of(number, len).len() == len,
        coins_value(row_of(number, len)) == number,
    decreases len,
{
    if len > 0 {
        vstd::arithmetic::power2::lemma_pow2_unfold(len);
        lemma_row_of_number(number / 2, (len - 1) as nat);
        let row = row_of(number, len);
        assert(row.drop_last() =~= row_of(number / 2, (len - 1) as nat));
    } else {
        vstd::arithmetic::power2::lemma2_to64();
    }
}

/// A row of `len` coins spells a number below `2^len`, and no other row
/// of `len` coins spells the same: where every row is as likely as any
/// other, so is every number.
pub proof fn lemma_number_of_row(s: Seq<bool>)
    ensures
        coins_value(s) < pow2(s.len()),
        row_of(coins_value(s), s.len()) == s,
    decreases s.len(),
{
    if s.len() > 0 {
        vstd::arithmetic::power2::lemma_pow2_unfold(s.len());
        lemma_number_of_row(s.drop_last());
        assert(row_of(coins_value(s), s.len()) =~= s);
    } else {
        vstd::arithmetic::power2::lemma2_to64();
        assert(row_of(coins_value(s), s.len()) =~= s);
    }
}

/// The coins of a row of words, word after word.
pub open spec fn words_coins(words: Seq<u32>) -> Seq<bool>
    decreases words.len(),
{
    if words.len() == 0 {
        Seq::empty()
    } else {
        words_coins(words.drop_last()) + coins(words.last(), 32)
    }
}

/// The coins of two rows of words, one after the other, are the coins of
/// the first row and then those of the second.
pub proof fn lemma_words_coins_add(first: Seq<u32>, second: Seq<u32>)
    ensures
        words_coins(first + second) == words_coins(first) + words_coins(second),
    decreases second.len(),
{
    if second.len() == 0 {
        assert(first + second =~= first);
        assert(words_coins(first) + words_coins(second) =~= words_coins(first));
    } else {
        lemma_words_coins_add(first, second.drop_last());
        assert((first + second).drop_last() =~= first + second.drop_last());
        assert(words_coins(first) + (words_coins(second.drop_last()) + coins(second.last(), 32))
            =~= (words_coins(first) + words_coins(second.drop_last())) + coins(
            second.last(),
            32,
        ));
    }
}

/// The coins of one word, as a row of words.
pub proof fn lemma_words_coins_one(word: u32)
    ensures
        words_coins(seq![word]) == coins(word, 32),
{
    assert(seq![word].drop_last() =~= Seq::<u32>::empty());
    assert(words_coins(Seq::<u32>::empty()) + coins(word, 32) =~= coins(word, 32));
}

/// The run of heads is never longer than the row.
pub proof fn lemma_heads_run_bound(s: Seq<bool>)
    ensures
        heads_run(s) <= s.len(),
        heads_run(s) < s.len() ==> s[heads_run(s) as int],
        forall|i: int| 0 <= i < heads_run(s) ==> !s[i],
    decreases s.len(),
{
    if s.len() == 0 || s[0] {
    } else {
        let t = s.skip(1);
        lemma_heads_run_bound(t);
        assert forall|i: int| 0 <= i < heads_run(s) implies !s[i] by {
            if i > 0 {
                assert(s[i] == t[i - 1]);
            }
        }
        if heads_run(s) < s.len() {
            assert(s[heads_run(s) as int] == t[heads_run(t) as int]);
        }
    }
}

/// A row that starts with `h` heads and then shows tails, or ends, has a
/// run of exactly `h` heads.
pub proof fn lemma_heads_run_is(s: Seq<bool>, h: nat)
    requires
        h <= s.len(),
        forall|i: int| 0 <= i < h ==> !s[i],
        h < s.len() ==> s[h as int],
    ensures
        heads_run(s) == h,
    decreases h,
{
    if h > 0 {
        let t = s.skip(1);
        assert(!s[0]);
        assert forall|i: int| 0 <= i < h - 1 implies !t[i] by {
            assert(t[i] == s[i + 1]);
        }
        if h < s.len() {
            assert(t[h - 1] == s[h as int]);
        }
        lemma_heads_run_is(t, (h - 1) as nat);
    }
}

/// Coins behind a row change its run of heads only where the row shows
/// nothing but heads.
pub proof fn lemma_heads_run_longer(s: Seq<bool>, t: Seq<bool>)
    ensures
        heads_run(s + t) == if heads_run(s) < s.len() {
            heads_run(s)
        } else {
            s.len() + heads_run(t)
        },
{
    lemma_heads_run_bound(s);
    lemma_heads_run_bound(t);
    let h = heads_run(s);
    if h < s.len() {
        lemma_heads_run_is(s + t, h);
    } else {
        lemma_heads_run_is(s + t, s.len() + heads_run(t));
    }
}

/// A test that a row decides comes out the same with more coins behind
/// the row, and leaves those coins alone.
pub proof fn lemma_flip_result_longer(s: Seq<bool>, t: Seq<bool>, c: nat)
    requires
        flip_result(s, c) is Some,
    ensures
        flip_result(s, c) matches Some((heads, rest)) && flip_result(s + t, c) == Some(
            (heads, rest + t),
        ),
{
    lemma_heads_run_longer(s, t);
    lemma_heads_run_bound(s);
    let h = heads_run(s);
    if h < c && h < s.len() {
        assert((s + t).skip(h as int + 1) =~= s.skip(h as int + 1) + t);
    } else {
        assert((s + t).skip(c as int) =~= s.skip(c as int) + t);
    }
}

/// A test that a row does not decide goes on in the coins behind the row,
/// for the heads that are still wanted.
pub proof fn lemma_flip_result_goes_on(s: Seq<bool>, t: Seq<bool>, c: nat)
    requires
        flip_result(s, c) is None,
    ensures
        flip_result(s + t, c) == flip_result(t, (c - s.len()) as nat),
{
    lemma_heads_run_longer(s, t);
    lemma_heads_run_bound(s);
    lemma_heads_run_bound(t);
    let h = heads_run(t);
    let left = (c - s.len()) as nat;
    if h < left && h < t.len() {
        assert((s + t).skip(s.len() as int + h + 1) =~= t.skip(h as int + 1));
    } else if left <= t.len() {
        assert((s + t).skip(c as int) =~= t.skip(left as int));
    }
}

/// A failed test is what the first step of skipping sees: where the row
/// still fails a test for `wanted` heads, it fails every test for at least
/// as many, on the same coins.
pub proof fn lemma_skip_step(s: Seq<bool>, wanted: nat, c: nat)
    requires
        skip_result(s, wanted).0 > 0,
        wanted <= c,
    ensures
        flip_result(s, c) matches Some((heads, rest)) && !heads && skip_result(rest, wanted) == (
            (skip_result(s, wanted).0 - 1) as nat,
            skip_result(s, wanted).1,
        ),
{
}

/// Skipping uses up a front part of the row, and at least one coin for
/// every test that it counts.
pub proof fn lemma_skip_result_rest(s: Seq<bool>, wanted: nat)
    ensures
        ({
            let (count, rest) = skip_result(s, wanted);
            &&& count + rest.len() <= s.len()
            &&& rest == s.skip(s.len() - rest.len())
        }),
    decreases s.len(),
{
    let h = heads_run(s);
    lemma_heads_run_bound(s);
    if h < wanted && h < s.len() {
        let t = s.skip(h as int + 1);
        lemma_skip_result_rest(t, wanted);
        let (count, rest) = skip_result(t, wanted);
        assert(t.skip(t.len() - rest.len()) =~= s.skip(s.len() - rest.len()));
    } else {
        assert(s =~= s.skip(0));
    }
}

/// The coins of a word after `count` of them were thrown away are the
/// coins that followed them.
pub proof fn lemma_discard_coin(word: u32, count: nat, i: int)
    requires
        0 <= i,
    ensures
        coin(discard(word, count), i) == coin(word, i + count),
{
    if count >= 32 {
        if i < 32 {
            let j = (31 - i) as u32;
            assert((0u32 >> j) & 1u32 == 0u32) by (bit_vector);
        }
    } else if i >= 32 {
    } else {
        let k = count as u32;
        let j = (31 - i) as u32;
        if i + count >= 32 {
            assert(((word << k) >> j) & 1u32 == 0u32) by (bit_vector)
                requires
                    j < k,
                    k < 32,
            ;
        } else {
            let m = (31 - i - count) as u32;
            assert(((word << k) >> j) & 1u32 == (word >> m) & 1u32) by (bit_vector)
                requires
                    k < 32,
                    j < 32,
                    k <= j,
                    m == j - k,
            ;
        }
    }
}

/// Throwing away the first `count` coins of a cache of `len` coins leaves
/// the cache of the coins behind them.
pub proof fn lemma_discard(word: u32, len: nat, count: nat)
    requires
        len <= 32,
        count <= len,
        padded(word, len),
    ensures
        padded(discard(word, count), (len - count) as nat),
        coins(discard(word, count), (len - count) as nat) == coins(word, len).skip(count as int),
{
    let rest = discard(word, count);
    assert forall|i: int| len - count <= i < 32 implies !coin(rest, i) by {
        lemma_discard_coin(word, count, i);
    }
    assert forall|i: int| 0 <= i < len - count implies coin(rest, i) == coin(word, i + count) by {
        lemma_discard_coin(word, count, i);
    }
    assert(coins(rest, (len - count) as nat) =~= coins(word, len).skip(count as int));
}

/// The first `count` coins of a word spell the word shifted down to its
/// top `count` bits.
pub proof fn lemma_top_coins(word: u32, count: nat)
    requires
        1 <= count <= 32,
    ensures
        coins_value(coins(word, count)) == word >> ((32 - count) as u32),
    decreases count,
{
    let s = coins(word, count);
    let shift = (32 - count) as u32;
    assert(s.drop_last() =~= coins(word, (count - 1) as nat));
    assert(s.last() == coin(word, count - 1));
    if count == 1 {
        assert(coins_value(s.drop_last()) == 0);
        assert(word >> 31u32 == (word >> 31u32) & 1u32) by (bit_vector);
        assert((word >> 31u32) & 1u32 == 0u32 || (word >> 31u32) & 1u32 == 1u32) by (bit_vector);
    } else {
        lemma_top_coins(word, (count - 1) as nat);
        let above = (shift + 1) as u32;
        assert(word >> shift == 2 * (word >> above) + ((word >> shift) & 1u32)) by (bit_vector)
            requires
                shift < 31,
                above == shift + 1,
        ;
        assert((word >> shift) & 1u32 == 0u32 || (word >> shift) & 1u32 == 1u32) by (bit_vector);
    }
}

/// The leading zeros of a word are its leading heads.
pub proof fn lemma_leading_zeros(word: u32)
    ensures
        word.leading_zeros() <= 32,
        word.leading_zeros() == 32 <==> word == 0,
        forall|i: int| 0 <= i < word.leading_zeros() ==> !coin(word, i),
        word.leading_zeros() < 32 ==> coin(word, word.leading_zeros() as int),
{
    axiom_u32_leading_zeros(word);
    let z = word.leading_zeros();
    assert forall|i: int| 0 <= i < z implies !coin(word, i) by {
        let j = (31 - i) as u32;
        assert((word >> j) & 1u32 == 0u32);
    }
    if z < 32 {
        let j = (31 - z) as u32;
        assert((word >> j) & 1u32 != 0u32);
        assert((word >> j) & 1u32 == 1u32) by (bit_vector)
            requires
                (word >> j) & 1u32 != 0u32,
        ;
    }
}

/// In a cache of `len` coins the run of heads is the leading zeros of the
/// word, cut off at `len`.
pub proof fn lemma_cache_heads_run(word: u32, len: nat)
    requires
        len <= 32,
        padded(word, len),
    ensures
        heads_run(coins(word, len)) == if word.leading_zeros() < len {
            word.leading_zeros() as nat
        } else {
            len
        },
        word.leading_zeros() < 32 ==> word.leading_zeros() < len,
{
    lemma_leading_zeros(word);
    let z = word.leading_zeros() as nat;
    let h = if z < len {
        z
    } else {
        len
    };
    lemma_heads_run_is(coins(word, len), h);
}

} // verus!
