//! The random source that every sampler draws from.

use rand::Rng;
use rand::RngCore;
use rand::rngs::StdRng;
use vstd::prelude::*;

verus! {

/// How many rejected draws in a row a rejection loop accepts before it
/// gives up. No source with independent bits gets anywhere near it: the
/// limit only guarantees that a sampler returns on a source that is stuck.
pub const RETRY_LIMIT: u32 = 0xffff_ffff;

/// What a random source can be asked for.
pub enum Request {
    /// 32 random bits.
    Word,
    /// A number below the bound, drawn as a 32-bit number.
    BelowU32(u32),
    /// A number below the bound, drawn as a 64-bit number.
    BelowU64(u64),
    /// A number below the bound, drawn as a number of the machine's word
    /// size.
    BelowUsize(usize),
}

/// A supply of random words, borrowed by one sampling call at a time.
///
/// Nothing is promised of the words themselves: a sampler is exactly as
/// fair as the source it is handed.
pub trait RandomSource {
    /// Whether the source, asked for `asked`, can answer `answer` and go
    /// on as `after`. A source that does not say what it gives can give
    /// anything.
    open spec fn gives(&self, asked: Request, answer: u64, after: &Self) -> bool {
        true
    }

    /// The next 32 random bits.
    fn next_u32(&mut self) -> (word: u32)
        ensures
            old(self).gives(Request::Word, word as u64, final(self)),
    ;

    /// A number below `bound`, every one of them equally likely.
    fn below_u32(&mut self, bound: u32) -> (r: u32)
        requires
            bound > 0,
        ensures
            r < bound,
            old(self).gives(Request::BelowU32(bound), r as u64, final(self)),
    ;

    /// A number below `bound`, every one of them equally likely.
    fn below_u64(&mut self, bound: u64) -> (r: u64)
        requires
            bound > 0,
        ensures
            r < bound,
            old(self).gives(Request::BelowU64(bound), r, final(self)),
    ;

    /// A number below `bound`, every one of them equally likely.
    fn below_usize(&mut self, bound: usize) -> (r: usize)
        requires
            bound > 0,
        ensures
            r < bound,
            old(self).gives(Request::BelowUsize(bound), r as u64, final(self)),
    ;
}

/// Whether a source that starts as `before` can give the words `words`,
/// one after the other, and go on as `after`.
pub open spec fn gives_words<R: RandomSource>(before: R, words: Seq<u32>, after: R) -> bool
    decreases words.len(),
{
    if words.len() == 0 {
        before == after
    } else {
        exists|mid: R|
            gives_words(before, words.drop_last(), mid) && #[trigger] mid.gives(
                Request::Word,
                words.last() as u64,
                &after,
            )
    }
}

/// A source that gave `words` and then gives `word` has given
/// `words.push(word)`.
pub proof fn lemma_gives_one_more<R: RandomSource>(
    before: R,
    words: Seq<u32>,
    mid: R,
    word: u32,
    after: R,
)
    requires
        gives_words(before, words, mid),
        mid.gives(Request::Word, word as u64, &after),
    ensures
        gives_words(before, words.push(word), after),
{
    let longer = words.push(word);
    assert(longer.drop_last() =~= words);
    assert(gives_words(before, longer.drop_last(), mid) && mid.gives(
        Request::Word,
        longer.last() as u64,
        &after,
    ));
}

/// A source that gave `first` and then gives `second` has given both, one
/// after the other.
pub proof fn lemma_gives_words_add<R: RandomSource>(
    before: R,
    first: Seq<u32>,
    mid: R,
    second: Seq<u32>,
    after: R,
)
    requires
        gives_words(before, first, mid),
        gives_words(mid, second, after),
    ensures
        gives_words(before, first + second, after),
    decreases second.len(),
{
    if second.len() == 0 {
        assert(first + second =~= first);
    } else {
        let last = choose|last: R|
            gives_words(mid, second.drop_last(), last) && #[trigger] last.gives(
                Request::Word,
                second.last() as u64,
                &after,
            );
        lemma_gives_words_add(before, first, mid, second.drop_last(), last);
        let both = first + second;
        assert(both.drop_last() =~= first + second.drop_last());
        assert(gives_words(before, both.drop_last(), last) && last.gives(
            Request::Word,
            both.last() as u64,
            &after,
        ));
    }
}

/// What `gen_index` asks of the source for an index below `ubound`: a
/// 32-bit number where the bound fits in 32 bits, a number of the
/// machine's word size where it does not.
pub open spec fn index_request(ubound: usize) -> Request {
    if ubound <= u32::MAX {
        Request::BelowU32(ubound as u32)
    } else {
        Request::BelowUsize(ubound)
    }
}

/// The generator `StdRng` of the crate rand. Nothing of its state is seen
/// here: it is handed to the functions of that crate as it is.
#[verifier::external_type_specification]
#[verifier::external_body]
pub struct ExStdRng(StdRng);

/// `RngCore::next_u32` of `StdRng`. It advances the generator and returns
/// one word; nothing is claimed of the word.
#[verifier::external_body]
fn std_rng_next_u32(rng: &mut StdRng) -> u32 {
    RngCore::next_u32(rng)
}

/// `Rng::gen_range` of `StdRng` on the range `0..bound` of `u32`. The crate
/// panics on an empty range, so `bound` must be positive; what it returns
/// lies in the range.
#[verifier::external_body]
fn std_rng_below_u32(rng: &mut StdRng, bound: u32) -> (r: u32)
    requires
        bound > 0,
    ensures
        r < bound,
{
    Rng::gen_range(rng, 0..bound)
}

/// `Rng::gen_range` of `StdRng` on the range `0..bound` of `u64`. The crate
/// panics on an empty range, so `bound` must be positive; what it returns
/// lies in the range.
#[verifier::external_body]
fn std_rng_below_u64(rng: &mut StdRng, bound: u64) -> (r: u64)
    requires
        bound > 0,
    ensures
        r < bound,
{
    Rng::gen_range(rng, 0..bound)
}

/// `Rng::gen_range` of `StdRng` on the range `0..bound` of `usize`. The
/// crate panics on an empty range, so `bound` must be positive; what it
/// returns lies in the range.
#[verifier::external_body]
fn std_rng_below_usize(rng: &mut StdRng, bound: usize) -> (r: usize)
    requires
        bound > 0,
    ensures
        r < bound,
{
    Rng::gen_range(rng, 0..bound)
}

impl RandomSource for StdRng {
    fn next_u32(&mut self) -> u32 {
        std_rng_next_u32(self)
    }

    fn below_u32(&mut self, bound: u32) -> (r: u32) {
        std_rng_below_u32(self, bound)
    }

    fn below_u64(&mut self, bound: u64) -> (r: u64) {
        std_rng_below_u64(self, bound)
    }

    fn below_usize(&mut self, bound: usize) -> (r: usize) {
        std_rng_below_usize(self, bound)
    }
}

/// Draws an index below `ubound`, every index equally likely.
///
/// Bounds that fit in 32 bits are sampled as 32-bit numbers, so that a
/// source gives the same indices on 32-bit and on 64-bit machines. The
/// index is what the source answers to `index_request(ubound)`.
pub fn gen_index<R: RandomSource>(rng: &mut R, ubound: usize) -> (r: usize)
    requires
        ubound > 0,
    ensures
        r < ubound,
        old(rng).gives(index_request(ubound), r as u64, final(rng)),
{
    if ubound <= 0xffff_ffff {
        rng.below_u32(ubound as u32) as usize
    } else {
        rng.below_usize(ubound)
    }
}

} // verus!
