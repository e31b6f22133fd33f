//! What a pass over a sequence holds, stated over what it reads from the
//! random source.
//!
//! A pass holds one item. In a pass for a best item ([`best_run`]), an
//! item that beats the one held takes its place; an item that ties with
//! it is counted and takes its place where a decision with probability
//! one over the count says so. A pass for any item ([`single_run`]) is
//! the same pass with all items tied. Where the sequence announces items,
//! or coins are left that pass over items, the pass goes by larger steps
//! ([`walk`]).

use crate::coins::flip_result;
use crate::coins::heads_run;
use crate::coins::lemma_flip_result_longer;
use crate::coins::lemma_heads_run_bound;
use crate::coins::lemma_skip_step;
use crate::coins::lemma_words_coins_add;
use crate::coins::skip_result;
use crate::coins::words_coins;
use crate::kindness::block_step_spec;
use crate::ratio::bit_length;
use crate::ratio::flips_at_once;
use crate::ratio::heads_for_one_over;
use crate::ratio::lemma_bit_length_increases;
use crate::ratio::one_over_run;
use crate::ratio::ratio_run;
use crate::ratio::ratio_step_spec;
use crate::source::gives_words;
use crate::source::index_request;
use crate::source::RandomSource;
use crate::source::RETRY_LIMIT;
use vstd::prelude::*;

verus! {

/// The count after one more item, held at the largest number.
pub open spec fn one_more(count: usize) -> usize {
    if count < usize::MAX {
        (count + 1) as usize
    } else {
        usize::MAX
    }
}

/// A count as a number without bound.
pub open spec fn to_nat(count: usize) -> nat {
    count as nat
}

/// The number of items of a sequence.
pub open spec fn len_of<T>(items: Seq<T>) -> int {
    items.len() as int
}

/// How many tests a decision makes before it gives up.
pub open spec fn retry_budget() -> nat {
    RETRY_LIMIT as nat
}

/// What a pass over the first `k` items holds, on the coins `row`: the
/// place of the item held, the place of the item that the next one is
/// compared with, the number of items so far that tie with it, and the
/// coins left. `None` where the coins run out.
///
/// The first item is held. An item that `beats` the one it is compared
/// with is held from then on, with a count of 1. An item that `ties` with
/// it is counted, and is held where `one_over_run` for the count says
/// `true` on the coins left. An item that is held is also the one to
/// compare with, unless the pass is `anchored`: then a tie leaves the item
/// to compare with as it is.
pub open spec fn best_run<T>(
    anchored: bool,
    ties: spec_fn(T, T) -> bool,
    beats: spec_fn(T, T) -> bool,
    items: Seq<T>,
    k: int,
    row: Seq<bool>,
) -> Option<(int, int, usize, Seq<bool>)>
    decreases k,
{
    if k <= 0 {
        None
    } else if k == 1 {
        Some((0int, 0int, 1usize, row))
    } else {
        match best_run(anchored, ties, beats, items, k - 1, row) {
            None => None,
            Some((held, anchor, count, rest)) => {
                if ties(items[k - 1], items[anchor]) {
                    match one_over_run(one_more(count) as nat, rest, retry_budget()) {
                        None => None,
                        Some((take, left)) => Some(
                            (
                                if take {
                                    k - 1
                                } else {
                                    held
                                },
                                if take && !anchored {
                                    k - 1
                                } else {
                                    anchor
                                },
                                one_more(count),
                                left,
                            ),
                        ),
                    }
                } else if beats(items[k - 1], items[anchor]) {
                    Some((k - 1, k - 1, 1usize, rest))
                } else {
                    Some((held, anchor, count, rest))
                }
            },
        }
    }
}

/// A decision with probability `n / d` that a row decides comes out the
/// same with more coins behind the row, and leaves those coins alone.
pub proof fn lemma_ratio_run_longer(n: nat, d: nat, s: Seq<bool>, t: Seq<bool>, budget: nat)
    requires
        ratio_run(n, d, s, budget) is Some,
    ensures
        ratio_run(n, d, s, budget) matches Some((decision, rest)) && ratio_run(
            n,
            d,
            s + t,
            budget,
        ) == Some((decision, rest + t)),
    decreases budget,
{
    if n >= d || budget == 0 {
    } else {
        let c = flips_at_once(n, d);
        lemma_flip_result_longer(s, t, c);
        let (heads, rest) = flip_result(s, c)->0;
        match ratio_step_spec(n, d, c, heads) {
            Some(m) => {
                lemma_ratio_run_longer(m, d, rest, t, (budget - 1) as nat);
            },
            None => {},
        }
    }
}

/// A decision with probability `1 / d` that a row decides comes out the
/// same with more coins behind the row, and leaves those coins alone.
pub proof fn lemma_one_over_run_longer(d: nat, s: Seq<bool>, t: Seq<bool>, budget: nat)
    requires
        one_over_run(d, s, budget) is Some,
    ensures
        one_over_run(d, s, budget) matches Some((decision, rest)) && one_over_run(
            d,
            s + t,
            budget,
        ) == Some((decision, rest + t)),
{
    let c = heads_for_one_over(d);
    lemma_flip_result_longer(s, t, c);
    let (heads, rest) = flip_result(s, c)->0;
    if heads {
        lemma_ratio_run_longer(vstd::arithmetic::power2::pow2(c), d, rest, t, budget);
    }
}

/// A decision with probability `1 / d`, for `d` from 2 on, needs a coin.
pub proof fn lemma_one_over_needs_coin(d: nat, budget: nat)
    requires
        d >= 2,
    ensures
        one_over_run(d, Seq::<bool>::empty(), budget) is None,
{
    assert(bit_length(d) == 1 + bit_length(d / 2));
    assert(bit_length(d / 2) == 1 + bit_length(d / 2 / 2));
}

/// A pass that a row decides holds the same with more coins behind the
/// row, and leaves those coins alone.
pub proof fn lemma_best_run_longer<T>(
    anchored: bool,
    ties: spec_fn(T, T) -> bool,
    beats: spec_fn(T, T) -> bool,
    items: Seq<T>,
    k: int,
    row: Seq<bool>,
    more: Seq<bool>,
)
    requires
        best_run(anchored, ties, beats, items, k, row) is Some,
    ensures
        best_run(anchored, ties, beats, items, k, row) matches Some((held, anchor, count, rest))
            && best_run(anchored, ties, beats, items, k, row + more) == Some(
            (held, anchor, count, rest + more),
        ),
    decreases k,
{
    if k > 1 {
        lemma_best_run_longer(anchored, ties, beats, items, k - 1, row, more);
        let (held, anchor, count, rest) = best_run(anchored, ties, beats, items, k - 1, row)->0;
        if ties(items[k - 1], items[anchor]) {
            lemma_one_over_run_longer(one_more(count) as nat, rest, more, retry_budget());
        }
    }
}

/// One more item that ties: where the pass over `seen` items left the
/// coins `cache` of the row, and the decision for the new count reads on
/// in `more`, the pass over one more item holds what the decision says.
pub proof fn lemma_best_run_tie<T>(
    anchored: bool,
    ties: spec_fn(T, T) -> bool,
    beats: spec_fn(T, T) -> bool,
    items: Seq<T>,
    seen: int,
    row: Seq<bool>,
    more: Seq<bool>,
    take: bool,
    left: Seq<bool>,
)
    requires
        seen >= 1,
        best_run(anchored, ties, beats, items, seen, row) matches Some((held, anchor, count, cache))
            && ties(items[seen], items[anchor]) && one_over_run(
            one_more(count) as nat,
            cache + more,
            retry_budget(),
        ) == Some((take, left)),
    ensures
        best_run(anchored, ties, beats, items, seen, row) matches Some((held, anchor, count, cache))
            && best_run(anchored, ties, beats, items, seen + 1, row + more) == Some(
            (
                if take {
                    seen
                } else {
                    held
                },
                if take && !anchored {
                    seen
                } else {
                    anchor
                },
                one_more(count),
                left,
            ),
        ),
{
    lemma_best_run_longer(anchored, ties, beats, items, seen, row, more);
}

/// One more item that does not tie: the pass reads no coin.
pub proof fn lemma_best_run_plain<T>(
    anchored: bool,
    ties: spec_fn(T, T) -> bool,
    beats: spec_fn(T, T) -> bool,
    items: Seq<T>,
    seen: int,
    row: Seq<bool>,
)
    requires
        seen >= 1,
        best_run(anchored, ties, beats, items, seen, row) matches Some((held, anchor, count, cache))
            && !ties(items[seen], items[anchor]),
    ensures
        best_run(anchored, ties, beats, items, seen, row) matches Some((held, anchor, count, cache))
            && best_run(anchored, ties, beats, items, seen + 1, row) == Some(
            if beats(items[seen], items[anchor]) {
                (seen, seen, 1usize, cache)
            } else {
                (held, anchor, count, cache)
            },
        ),
{
}

/// A pass that came to a tie needs a coin: on no coins it decides
/// nothing, whatever comes after the tie.
pub proof fn lemma_best_run_tie_needs_coin<T>(
    anchored: bool,
    ties: spec_fn(T, T) -> bool,
    beats: spec_fn(T, T) -> bool,
    items: Seq<T>,
    seen: int,
)
    requires
        seen >= 1,
        best_run(anchored, ties, beats, items, seen, Seq::<bool>::empty()) matches Some(
            (held, anchor, count, cache),
        ) ==> cache.len() == 0 && count >= 1 && ties(items[seen], items[anchor]),
    ensures
        best_run(anchored, ties, beats, items, seen + 1, Seq::<bool>::empty()) is None,
{
    match best_run(anchored, ties, beats, items, seen, Seq::<bool>::empty()) {
        Some((held, anchor, count, cache)) => {
            assert(cache =~= Seq::<bool>::empty());
            lemma_one_over_needs_coin(one_more(count) as nat, retry_budget());
        },
        None => {},
    }
}

/// Every two items tie.
pub open spec fn always<T>() -> spec_fn(T, T) -> bool {
    |a: T, b: T| true
}

/// No item beats another.
pub open spec fn never<T>() -> spec_fn(T, T) -> bool {
    |a: T, b: T| false
}

/// What a pass that holds every item with the same right holds after the
/// first `k` items, on the coins `row`: item `j` takes the place of the one
/// held where the decision with probability one over `j` says so.
pub open spec fn single_run<T>(items: Seq<T>, k: int, row: Seq<bool>) -> Option<
    (int, int, usize, Seq<bool>),
> {
    best_run(false, always(), never(), items, k, row)
}

/// The count after `j` more items, held at the largest number.
pub open spec fn more_times(count: usize, j: nat) -> usize
    decreases j,
{
    if j == 0 {
        count
    } else {
        one_more(more_times(count, (j - 1) as nat))
    }
}

/// The coins that are left of `cache` after `j` tests that failed: each
/// of them used up the coins up to its tails.
pub open spec fn skip_some(cache: Seq<bool>, j: nat) -> Seq<bool>
    decreases j,
{
    if j == 0 {
        cache
    } else {
        let before = skip_some(cache, (j - 1) as nat);
        before.skip(heads_run(before) as int + 1)
    }
}

/// `more_times` adds up to the largest number.
pub proof fn lemma_more_times(count: usize, j: nat)
    ensures
        more_times(count, j) == if count + j > usize::MAX {
            usize::MAX
        } else {
            (count + j) as usize
        },
    decreases j,
{
    if j > 0 {
        lemma_more_times(count, (j - 1) as nat);
    }
}

/// A larger denominator asks for at least as many heads.
pub proof fn lemma_heads_for_one_over_increases(a: nat, b: nat)
    requires
        a <= b,
    ensures
        heads_for_one_over(a) <= heads_for_one_over(b),
{
    lemma_bit_length_increases(a, b);
}

/// The items that skipping counts are items that the pass passes over:
/// where the pass over `t` items left the coins `cache`, and skipping
/// counts at least `j` tests for `wanted` heads that fail on them, the
/// pass over `j` more items holds what it held, on the coins that those
/// tests leave.
pub proof fn lemma_skipped_items<T>(
    items: Seq<T>,
    t: int,
    row: Seq<bool>,
    place: int,
    count: usize,
    cache: Seq<bool>,
    wanted: nat,
    j: nat,
)
    requires
        t >= 1,
        single_run(items, t, row) == Some((place, place, count, cache)),
        j <= skip_result(cache, wanted).0,
        wanted <= heads_for_one_over(one_more(count) as nat),
    ensures
        single_run(items, t + j, row) == Some(
            (place, place, more_times(count, j), skip_some(cache, j)),
        ),
        skip_result(skip_some(cache, j), wanted) == (
            (skip_result(cache, wanted).0 - j) as nat,
            skip_result(cache, wanted).1,
        ),
    decreases j,
{
    if j > 0 {
        let before = (j - 1) as nat;
        lemma_skipped_items(items, t, row, place, count, cache, wanted, before);
        let coins = skip_some(cache, before);
        let counted = more_times(count, before);
        lemma_more_times(count, before);
        let d = one_more(counted) as nat;
        lemma_heads_for_one_over_increases(one_more(count) as nat, d);
        lemma_skip_step(coins, wanted, heads_for_one_over(d));
        assert(one_over_run(d, coins, retry_budget()) == Some((false, skip_some(cache, j))));
        assert(always::<T>()(items[t + before], items[place]));
    }
}

/// Where skipping counts no test, the coins are left as they are.
pub proof fn lemma_skipped_all(cache: Seq<bool>, wanted: nat)
    ensures
        skip_some(cache, skip_result(cache, wanted).0) == skip_result(cache, wanted).1,
    decreases cache.len(),
{
    let h = heads_run(cache);
    lemma_heads_run_bound(cache);
    if h < wanted && h < cache.len() {
        let rest = cache.skip(h as int + 1);
        lemma_skipped_all(rest, wanted);
        lemma_skip_some_front(cache, skip_result(rest, wanted).0);
    }
}

/// Failing one test and then `j` more is failing `j + 1` tests.
pub proof fn lemma_skip_some_front(cache: Seq<bool>, j: nat)
    ensures
        skip_some(cache, j + 1) == skip_some(cache.skip(heads_run(cache) as int + 1), j),
    decreases j,
{
    let front = cache.skip(heads_run(cache) as int + 1);
    if j > 0 {
        lemma_skip_some_front(cache, (j - 1) as nat);
        assert(skip_some(cache, j) == skip_some(front, (j - 1) as nat));
        let before = skip_some(cache, j);
        assert(skip_some(cache, j + 1) == before.skip(heads_run(before) as int + 1));
        assert(skip_some(front, j) == before.skip(heads_run(before) as int + 1));
    } else {
        assert(skip_some(cache, 0) == cache);
        assert(skip_some(front, 0) == front);
        assert(skip_some(cache, 1) == front);
    }
}

/// Whether the pass that holds every item with the same right, over all
/// of `items` and on the coins of `words`, ends with `chosen` in hand.
pub open spec fn single_holds<T>(items: Seq<T>, words: Seq<u32>, chosen: Option<T>) -> bool {
    single_run(items, len_of(items), words_coins(words)) matches Some((place, anchor, count, rest))
        && 0 <= place < items.len() && chosen == Some(items[place])
}

/// Whether `chosen` is what that pass over `items` holds on the coins of
/// the words that the source `source` gives, going on as `source_after`.
pub open spec fn kept_at<T, R: RandomSource>(
    items: Seq<T>,
    source: R,
    source_after: R,
    chosen: Option<T>,
) -> bool {
    exists|words: Seq<u32>|
        gives_words(source, words, source_after) && #[trigger] single_holds(items, words, chosen)
}

/// What a source answers to one step of a pass over a sequence.
pub enum Answer {
    /// The index `ix`, to a request for an index below `bound`.
    Index { bound: usize, ix: usize },
    /// The words `words`, each to a request for a word.
    Words { words: Seq<u32> },
}

/// Where a pass over a sequence stands: the place of the item held, the
/// number of items counted so far, the number of items taken from the
/// sequence, the coins left, and whether the pass is over.
pub struct Walk {
    pub held: Option<int>,
    pub consumed: usize,
    pub taken: int,
    pub cache: Seq<bool>,
    pub done: bool,
}

/// The denominator by which items are skipped after `count` items: the
/// count, or the largest 32-bit number where it does not fit.
pub open spec fn least_of(count: usize) -> nat {
    if count > u32::MAX {
        u32::MAX as nat
    } else {
        count as nat
    }
}

/// Whether a source that stands as `before` gives `answer`, going on as
/// `after`.
pub open spec fn gives_answer<R: RandomSource>(before: R, answer: Answer, after: R) -> bool {
    match answer {
        Answer::Index { bound, ix } => before.gives(index_request(bound), ix as u64, &after),
        Answer::Words { words } => gives_words(before, words, after),
    }
}

/// Whether a source that stands as `before` gives the answers `answers`
/// one after the other, going on as `after`.
pub open spec fn gives_answers<R: RandomSource>(before: R, answers: Seq<Answer>, after: R) -> bool
    decreases answers.len(),
{
    if answers.len() == 0 {
        after == before
    } else {
        exists|mid: R|
            gives_answers(before, answers.drop_last(), mid) && #[trigger] gives_answer(
                mid,
                answers.last(),
                after,
            )
    }
}

/// One more answer behind answers that were given.
pub proof fn lemma_gives_one_more_answer<R: RandomSource>(
    before: R,
    answers: Seq<Answer>,
    mid: R,
    answer: Answer,
    after: R,
)
    requires
        gives_answers(before, answers, mid),
        gives_answer(mid, answer, after),
    ensures
        gives_answers(before, answers.push(answer), after),
{
    let longer = answers.push(answer);
    assert(longer.drop_last() =~= answers);
    assert(gives_answers(before, longer.drop_last(), mid) && gives_answer(
        mid,
        longer.last(),
        after,
    ));
}

/// One step of a pass over `len` items, where the sequence says `hint` of
/// the items that are left.
///
/// Where the hint announces more than one item, one index below the
/// number of those items and the items counted decides as `block_step_spec`
/// says; the pass is over where the hint says that no more items follow.
/// Otherwise the coins left say how many items are passed over, as
/// `skip_result` says; the pass is over where no item is left behind them,
/// and the item behind them is held where `one_over_run` for the items
/// counted says `true`. `None` where the answer is not the one that the
/// step asks for.
#[verifier::opaque]
pub open spec fn walk_step(
    len: int,
    hint: (usize, Option<usize>),
    before: Walk,
    answer: Answer,
) -> Option<Walk> {
    if before.done {
        None
    } else if hint.0 > 1 {
        match answer {
            Answer::Index { bound, ix } => {
                let step = block_step_spec(hint.0, before.consumed, ix);
                if bound == step.2 && ix < bound {
                    Some(
                        Walk {
                            held: match step.0 {
                                Some(at) => Some(before.taken + at),
                                None => before.held,
                            },
                            consumed: step.2,
                            taken: before.taken + hint.0,
                            cache: before.cache,
                            done: hint.1 == Some(hint.0),
                        },
                    )
                } else {
                    None
                }
            },
            Answer::Words { words } => None,
        }
    } else {
        match answer {
            Answer::Index { bound, ix } => None,
            Answer::Words { words } => {
                let count = one_more(before.consumed);
                let skipped = skip_result(before.cache, heads_for_one_over(least_of(count)));
                if before.taken + skipped.0 >= len {
                    if words.len() == 0 {
                        Some(
                            Walk {
                                held: before.held,
                                consumed: count,
                                taken: len,
                                cache: skipped.1,
                                done: true,
                            },
                        )
                    } else {
                        None
                    }
                } else {
                    let counted = more_times(count, skipped.0);
                    match one_over_run(
                        counted as nat,
                        skipped.1 + words_coins(words),
                        retry_budget(),
                    ) {
                        None => None,
                        Some((take, left)) => Some(
                            Walk {
                                held: if take {
                                    Some(before.taken + skipped.0)
                                } else {
                                    before.held
                                },
                                consumed: counted,
                                taken: before.taken + skipped.0 + 1,
                                cache: left,
                                done: false,
                            },
                        ),
                    }
                }
            },
        }
    }
}

/// Where a pass over `len` items stands after the answers `answers`, for
/// a sequence that says `hints(n)` once `n` items were taken from it.
/// `None` where an answer is not the one that its step asks for.
#[verifier::opaque]
pub open spec fn walk(
    len: int,
    hints: spec_fn(int) -> (usize, Option<usize>),
    answers: Seq<Answer>,
) -> Option<Walk>
    decreases answers.len(),
{
    if answers.len() == 0 {
        Some(Walk { held: None, consumed: 0, taken: 0, cache: Seq::empty(), done: false })
    } else {
        match walk(len, hints, answers.drop_last()) {
            None => None,
            Some(before) => walk_step(len, hints(before.taken), before, answers.last()),
        }
    }
}

/// Whether the pass over `items` is over after the answers `answers`,
/// with `chosen` in hand.
pub open spec fn walk_ends<T>(
    items: Seq<T>,
    hints: spec_fn(int) -> (usize, Option<usize>),
    answers: Seq<Answer>,
    chosen: Option<T>,
) -> bool {
    walk(len_of(items), hints, answers) matches Some(end) && end.done && match end.held {
        Some(place) => 0 <= place < items.len() && chosen == Some(items[place]),
        None => chosen is None,
    }
}

/// Whether `chosen` is what the pass over `items` ends with, on the
/// answers that the source `source` gives one after the other, going on
/// as `source_after`.
pub open spec fn walked<T, R: RandomSource>(
    items: Seq<T>,
    hints: spec_fn(int) -> (usize, Option<usize>),
    source: R,
    source_after: R,
    chosen: Option<T>,
) -> bool {
    exists|answers: Seq<Answer>|
        gives_answers(source, answers, source_after) && #[trigger] walk_ends(
            items,
            hints,
            answers,
            chosen,
        )
}

/// Before its first step a pass holds nothing and has no coins.
pub proof fn lemma_walk_start(len: int, hints: spec_fn(int) -> (usize, Option<usize>))
    ensures
        walk(len, hints, Seq::<Answer>::empty()) == Some(
            Walk { held: None, consumed: 0, taken: 0, cache: Seq::empty(), done: false },
        ),
{
    reveal(walk);
}

/// One more step of a pass.
pub proof fn lemma_walk_one_more(
    len: int,
    hints: spec_fn(int) -> (usize, Option<usize>),
    answers: Seq<Answer>,
    before: Walk,
    answer: Answer,
)
    requires
        walk(len, hints, answers) == Some(before),
    ensures
        walk(len, hints, answers.push(answer)) == walk_step(
            len,
            hints(before.taken),
            before,
            answer,
        ),
{
    reveal(walk);
    assert(answers.push(answer).drop_last() =~= answers);
}

/// A step for a block of announced items: the index `ix` below `bound`
/// decides among the block and the items before it.
pub proof fn lemma_walk_block(
    len: int,
    hints: spec_fn(int) -> (usize, Option<usize>),
    answers: Seq<Answer>,
    before: Walk,
    bound: usize,
    ix: usize,
)
    requires
        walk(len, hints, answers) == Some(before),
        !before.done,
        hints(before.taken).0 > 1,
        bound == block_step_spec(hints(before.taken).0, before.consumed, ix).2,
        ix < bound,
    ensures
        walk(len, hints, answers.push(Answer::Index { bound, ix })) == Some(
            Walk {
                held: match block_step_spec(hints(before.taken).0, before.consumed, ix).0 {
                    Some(at) => Some(before.taken + at),
                    None => before.held,
                },
                consumed: bound,
                taken: before.taken + hints(before.taken).0,
                cache: before.cache,
                done: hints(before.taken).1 == Some(hints(before.taken).0),
            },
        ),
{
    lemma_walk_one_more(len, hints, answers, before, Answer::Index { bound, ix });
    reveal(walk_step);
}

/// The last step of a pass: the coins left pass over all the items that
/// are left, and no word is drawn.
pub proof fn lemma_walk_end(
    len: int,
    hints: spec_fn(int) -> (usize, Option<usize>),
    answers: Seq<Answer>,
    before: Walk,
)
    requires
        walk(len, hints, answers) == Some(before),
        !before.done,
        hints(before.taken).0 <= 1,
        before.taken + skip_result(
            before.cache,
            heads_for_one_over(least_of(one_more(before.consumed))),
        ).0 >= len,
    ensures
        walk(len, hints, answers.push(Answer::Words { words: Seq::empty() })) == Some(
            Walk {
                held: before.held,
                consumed: one_more(before.consumed),
                taken: len,
                cache: skip_result(
                    before.cache,
                    heads_for_one_over(least_of(one_more(before.consumed))),
                ).1,
                done: true,
            },
        ),
{
    lemma_walk_one_more(len, hints, answers, before, Answer::Words { words: Seq::empty() });
    reveal(walk_step);
}

/// A step for one item: the coins left pass over `skipped` items, and the
/// decision for the items counted, on the coins left and the coins of
/// `words`, says whether the item behind them is held.
pub proof fn lemma_walk_single(
    len: int,
    hints: spec_fn(int) -> (usize, Option<usize>),
    answers: Seq<Answer>,
    before: Walk,
    words: Seq<u32>,
    skipped: nat,
    cache: Seq<bool>,
    counted: usize,
    take: bool,
    left: Seq<bool>,
)
    requires
        walk(len, hints, answers) == Some(before),
        !before.done,
        hints(before.taken).0 <= 1,
        (skipped, cache) == skip_result(
            before.cache,
            heads_for_one_over(least_of(one_more(before.consumed))),
        ),
        before.taken + skipped < len,
        counted == more_times(one_more(before.consumed), skipped),
        one_over_run(counted as nat, cache + words_coins(words), retry_budget()) == Some(
            (take, left),
        ),
    ensures
        walk(len, hints, answers.push(Answer::Words { words })) == Some(
            Walk {
                held: if take {
                    Some(before.taken + skipped)
                } else {
                    before.held
                },
                consumed: counted,
                taken: before.taken + skipped + 1,
                cache: left,
                done: false,
            },
        ),
{
    lemma_walk_one_more(len, hints, answers, before, Answer::Words { words });
    reveal(walk_step);
}

/// Whether a pass over the first `seen` items, on the coins of `words`,
/// holds the item at `place` after counting `count` items, with the coins
/// `rest` left.
#[verifier::opaque]
pub open spec fn single_is<T>(
    items: Seq<T>,
    seen: int,
    words: Seq<u32>,
    place: int,
    count: usize,
    rest: Seq<bool>,
) -> bool {
    single_run(items, seen, words_coins(words)) == Some((place, place, count, rest))
}

/// The first item is held, and no coin is read for it.
pub proof fn lemma_single_first<T>(items: Seq<T>, words: Seq<u32>, rest: Seq<bool>)
    requires
        words.len() == 0,
        rest.len() == 0,
    ensures
        single_is(items, 1, words, 0, 1, rest),
{
    reveal(single_is);
    assert(words_coins(words) =~= rest);
}

/// The items that skipping passes over, and the decision for the item
/// behind them, are steps of the pass.
pub proof fn lemma_single_step<T>(
    items: Seq<T>,
    seen: int,
    words: Seq<u32>,
    place: int,
    count: usize,
    cache: Seq<bool>,
    least: nat,
    more: Seq<u32>,
    take: bool,
    left: Seq<bool>,
)
    requires
        seen >= 1,
        single_is(items, seen, words, place, count, cache),
        least <= one_more(count),
        one_over_run(
            more_times(one_more(count), skip_result(cache, heads_for_one_over(least)).0) as nat,
            skip_result(cache, heads_for_one_over(least)).1 + words_coins(more),
            retry_budget(),
        ) == Some((take, left)),
    ensures
        single_is(
            items,
            seen + skip_result(cache, heads_for_one_over(least)).0 + 1,
            words + more,
            if take {
                seen + skip_result(cache, heads_for_one_over(least)).0
            } else {
                place
            },
            more_times(one_more(count), skip_result(cache, heads_for_one_over(least)).0),
            left,
        ),
{
    reveal(single_is);
    let wanted = heads_for_one_over(least);
    let skipped = skip_result(cache, wanted).0;
    lemma_heads_for_one_over_increases(least, one_more(count) as nat);
    lemma_skipped_items(items, seen, words_coins(words), place, count, cache, wanted, skipped);
    lemma_skipped_all(cache, wanted);
    lemma_more_times(count, skipped);
    lemma_more_times(one_more(count), skipped);
    assert(always::<T>()(items[seen + skipped], items[place]));
    lemma_best_run_tie(
        false,
        always(),
        never(),
        items,
        seen + skipped,
        words_coins(words),
        words_coins(more),
        take,
        left,
    );
    lemma_words_coins_add(words, more);
}

/// Where skipping passes over all the items that are left, the pass ends
/// with the item that it held.
pub proof fn lemma_single_end<T>(
    items: Seq<T>,
    seen: int,
    words: Seq<u32>,
    place: int,
    count: usize,
    cache: Seq<bool>,
    least: nat,
    chosen: Option<T>,
)
    requires
        1 <= seen <= items.len(),
        single_is(items, seen, words, place, count, cache),
        least <= one_more(count),
        seen + skip_result(cache, heads_for_one_over(least)).0 >= items.len(),
        0 <= place < seen,
        chosen == Some(items[place]),
    ensures
        single_holds(items, words, chosen),
{
    reveal(single_is);
    let wanted = heads_for_one_over(least);
    lemma_heads_for_one_over_increases(least, one_more(count) as nat);
    lemma_skipped_items(
        items,
        seen,
        words_coins(words),
        place,
        count,
        cache,
        wanted,
        (items.len() - seen) as nat,
    );
}

} // verus!
