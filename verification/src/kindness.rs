//! The selectors: one random item, a random best item, or one random
//! representative of every group of a sequence.

use crate::coin_flipper::CoinFlipper;
use crate::extremum::best_by;
use crate::extremum::best_by_key;
use crate::extremum::chosen_by;
use crate::extremum::chosen_by_key;
use crate::extremum::held_by;
use crate::extremum::holds_by;
use crate::extremum::needs_no_coin_by;
use crate::extremum::needs_no_coin_by_key;
use crate::extremum::choose_best_by;
use crate::extremum::choose_best_by_key;
use crate::extremum::compares_all;
use crate::extremum::computes_key;
use crate::extremum::computes_order;
use crate::extremum::is_total_order;
use crate::extremum::keys_all;
use crate::extremum::lemma_ord_is_total_order;
use crate::coins::words_coins;
use crate::pass::gives_answers;
use crate::pass::lemma_gives_one_more_answer;
use crate::pass::lemma_walk_block;
use crate::pass::lemma_walk_end;
use crate::pass::lemma_walk_single;
use crate::pass::lemma_single_end;
use crate::pass::lemma_single_first;
use crate::pass::lemma_single_step;
use crate::pass::lemma_walk_start;
use crate::pass::single_is;
use crate::pass::len_of;
use crate::pass::walk;
use crate::pass::walk_ends;
use crate::pass::walked;
use crate::pass::Answer;
use crate::pass::Walk;
use crate::pass::kept_at;
use crate::pass::least_of;
use crate::pass::lemma_more_times;
use crate::pass::one_more;
use crate::ratio::bit_length;
use crate::ratio::one_over_run;
use crate::source::lemma_gives_words_add;
use crate::source::RETRY_LIMIT;
use crate::sequence::Sequence;
use crate::source::gen_index;
use crate::source::index_request;
use crate::source::gives_words;
use crate::source::RandomSource;
use crate::unique::all_differ;
use crate::unique::choose_representatives;
use crate::unique::chosen_for_keys;
use crate::unique::chosen_for_own_keys;
use crate::unique::stand;
use crate::unique::stand_by_key;
use crate::unique::distinct;
use crate::unique::global_allocator;
use crate::unique::Keyed;
use crate::unique::keyed_by;
use crate::unique::new_hash_builder;
use allocator_api2::alloc::Global;
use std::cmp::Ordering;
use std::collections::hash_map::RandomState;
use vstd::laws_cmp::obeys_cmp;
use vstd::laws_cmp::obeys_cmp_ord;
use vstd::prelude::*;
use vstd::std_specs::cmp::OrdSpec;

verus! {

/// The denominator that is handed to `try_skip`: `consumed`, or the
/// largest 32-bit number where it does not fit.
fn skip_denominator(consumed: usize) -> (d: u32)
    ensures
        d == least_of(consumed),
{
    if consumed > 0xffff_ffff {
        0xffff_ffff
    } else {
        consumed as u32
    }
}

/// What a block of `lower` announced items comes to, after `consumed`
/// items, for an index `ix` below all of them: the place in the block of
/// the item that is taken, or `None` where the index falls on an item
/// before the block; how many items of the block are passed over behind
/// that place; and the number of items after the block.
pub open spec fn block_step_spec(lower: usize, consumed: usize, ix: usize) -> (
    Option<usize>,
    usize,
    usize,
) {
    (
        if ix < lower {
            Some(ix)
        } else {
            None
        },
        if ix < lower {
            (lower - ix - 1) as usize
        } else {
            lower
        },
        if lower + consumed > usize::MAX {
            usize::MAX
        } else {
            (lower + consumed) as usize
        },
    )
}

/// One index decides among a block of `lower` announced items and the
/// `consumed` items before it: see `block_step_spec`.
pub fn block_step(lower: usize, consumed: usize, ix: usize) -> (step: (Option<usize>, usize, usize))
    ensures
        step == block_step_spec(lower, consumed, ix),
{
    let after = consumed.saturating_add(lower);
    if ix < lower {
        (Some(ix), lower - (ix + 1), after)
    } else {
        (None, lower, after)
    }
}

/// What a sequence will say of the number of items that are left, for
/// every number of items taken from it.
pub open spec fn hints_of<S: Sequence>(sequence: S) -> spec_fn(int) -> (usize, Option<usize>) {
    |n: int| sequence.hint_after(n)
}

/// Whether a sequence never announces more than one item.
pub open spec fn one_by_one<S: Sequence>(sequence: S) -> bool {
    forall|n: int| 0 <= n ==> (#[trigger] sequence.hint_after(n)).0 <= 1
}

/// Whether a sequence says how many items it holds.
pub open spec fn knows_length<S: Sequence>(sequence: S) -> bool {
    sequence.hint_after(0).1 == Some(sequence.hint_after(0).0)
}

/// Whether `chosen` is the item of `items` at the index that the source
/// `source` answers to the request for an index below their number, going
/// on as `source_after`.
pub open spec fn picked_at<T, R: RandomSource>(
    items: Seq<T>,
    source: R,
    source_after: R,
    chosen: Option<T>,
) -> bool {
    exists|ix: usize|
        {
            &&& #[trigger] source.gives(
                index_request(items.len() as usize),
                ix as u64,
                &source_after,
            )
            &&& ix < items.len()
            &&& chosen == Some(items[ix as int])
        }
}

/// Whether no item of `items` is greater than `best`.
pub open spec fn is_greatest<T: Ord>(items: Seq<T>, best: T) -> bool {
    forall|i: int| 0 <= i < items.len() ==> (#[trigger] items[i]).cmp_spec(&best) != Ordering::Greater
}

/// Whether no item of `items` is less than `best`.
pub open spec fn is_least<T: Ord>(items: Seq<T>, best: T) -> bool {
    forall|i: int| 0 <= i < items.len() ==> (#[trigger] items[i]).cmp_spec(&best) != Ordering::Less
}

/// The order of a type by its `Ord`.
pub open spec fn natural_order<T: Ord>() -> spec_fn(T, T) -> Ordering {
    |a: T, b: T| a.cmp_spec(&b)
}

/// Whether a pass over `items` by the order of their type, on the coins
/// of `words`, holds `item` at its end, where the type obeys the laws of
/// `Ord`.
pub open spec fn held_naturally<T: Ord>(
    largest: bool,
    items: Seq<T>,
    words: Seq<u32>,
    item: T,
) -> bool {
    obeys_cmp::<T>() ==> holds_by(largest, natural_order::<T>(), items, words, item)
}

/// Whether `item` is what a pass over `items` by the order of their type
/// holds at its end, on the coins of words that the source `source` gives
/// one after the other, going on as `source_after`.
pub open spec fn chosen_by_order<T: Ord, R: RandomSource>(
    largest: bool,
    items: Seq<T>,
    source: R,
    source_after: R,
    item: T,
) -> bool {
    exists|words: Seq<u32>|
        gives_words(source, words, source_after) && #[trigger] held_naturally(
            largest,
            items,
            words,
            item,
        )
}

/// Methods that choose random items of a [`Sequence`].
pub trait Kindness: Sequence + Sized {
    /// Returns a random item of the sequence, every item equally likely,
    /// or `None` where the sequence is empty.
    ///
    /// A sequence that says how many items it holds costs one random
    /// index, and the item at that index comes back. Any other sequence is
    /// read to its end by the steps of [`walk`]: items that a hint
    /// announces are decided by one index for all of them, the others by
    /// one decision each, with probability one over the number of items
    /// so far. For a sequence that never announces more than one item
    /// this is the pass of [`single_run`](crate::pass::single_run). Past
    /// `usize::MAX` items later items are slightly more likely.
    #[verifier::rlimit(100)]
    fn choose_item<R: RandomSource>(self, rng: &mut R) -> (chosen: Option<Self::Item>)
        ensures
            chosen is None <==> self.remaining().len() == 0,
            chosen matches Some(item) ==> self.remaining().contains(item),
            self.remaining().len() == 0 ==> *final(rng) == *old(rng),
            knows_length(self) && self.remaining().len() > 0 ==> picked_at(
                self.remaining(),
                *old(rng),
                *final(rng),
                chosen,
            ),
            one_by_one(self) && !knows_length(self) && self.remaining().len() > 0 ==> kept_at(
                self.remaining(),
                *old(rng),
                *final(rng),
                chosen,
            ),
            !knows_length(self) ==> walked(
                self.remaining(),
                hints_of(self),
                *old(rng),
                *final(rng),
                chosen,
            ),
    {
        let mut sequence = self;
        let first_hint = sequence.size_hint();
        let mut lower = first_hint.0;
        let mut upper = first_hint.1;
        let mut result: Option<Self::Item> = None;

        // An exact length needs one index and no pass over the items.
        match upper {
            Some(exact) => {
                if exact == lower {
                    if lower == 0 {
                        return None;
                    }
                    let ix = gen_index(rng, lower);
                    let chosen = sequence.nth(ix);
                    proof {
                        assert(self.remaining().len() == lower);
                        assert(old(rng).gives(index_request(lower), ix as u64, rng) && ix
                            < self.remaining().len() && chosen == Some(
                            self.remaining()[ix as int],
                        ));
                    }
                    return chosen;
                }
            },
            None => {},
        }

        let ghost start = *rng;
        let mut coin_flipper = CoinFlipper::new(rng);
        let mut consumed: usize = 0;
        let ghost mut taken: nat = 0;
        let ghost mut words: Seq<u32> = Seq::empty();
        let ghost mut place: int = 0;
        let ghost mut answers: Seq<Answer> = Seq::empty();
        let ghost mut held: Option<int> = None;
        proof {
            assert(coin_flipper@ =~= Seq::<bool>::empty());
            lemma_walk_start(len_of(self.remaining()), hints_of(self));
        }

        loop
            invariant
                coin_flipper.wf(),
                start == *old(rng),
                gives_answers(start, answers, coin_flipper.source()),
                walk(len_of(self.remaining()), hints_of(self), answers) == Some(
                    Walk {
                        held,
                        consumed,
                        taken: taken as int,
                        cache: coin_flipper@,
                        done: false,
                    },
                ),
                held is None <==> result is None,
                held matches Some(at) ==> 0 <= at < taken && result == Some(self.remaining()[at]),
                (lower, upper) == self.hint_after(taken as int),
                forall|k: int|
                    0 <= k ==> #[trigger] sequence.hint_after(k) == self.hint_after(k + taken),
                one_by_one(self) ==> gives_words(start, words, coin_flipper.source()),
                one_by_one(self) && taken == 0 ==> coin_flipper@.len() == 0 && words.len() == 0,
                one_by_one(self) && taken > 0 ==> single_is(
                    self.remaining(),
                    taken as int,
                    words,
                    place,
                    consumed,
                    coin_flipper@,
                ) && 0 <= place < taken && result == Some(self.remaining()[place]),
                after_borrow(*rng) == *final(coin_flipper.rng),
                taken == 0 ==> coin_flipper.source() == start,
                !knows_length(self),
                taken <= self.remaining().len(),
                sequence.remaining() == self.remaining().skip(taken as int),
                lower <= sequence.remaining().len(),
                upper matches Some(most) ==> sequence.remaining().len() <= most,
                consumed == 0 <==> taken == 0,
                taken == 0 <==> result is None,
                result matches Some(item) ==> self.remaining().contains(item),
            decreases sequence.remaining().len(),
        {
            let ghost before = sequence.remaining();
            let ghost stood = Walk {
                held,
                consumed,
                taken: taken as int,
                cache: coin_flipper@,
                done: false,
            };
            let ghost mid = coin_flipper.source();
            if lower > 1 {
                // The next `lower` items are known to be there: one index
                // decides among them and all the items before them.
                let bound = lower.saturating_add(consumed);
                let ix = coin_flipper.draw_index(bound);
                let step = block_step(lower, consumed, ix);
                proof {
                    let answer = Answer::Index { bound, ix };
                    lemma_walk_block(
                        len_of(self.remaining()),
                        hints_of(self),
                        answers,
                        stood,
                        bound,
                        ix,
                    );
                    lemma_gives_one_more_answer(
                        start,
                        answers,
                        mid,
                        answer,
                        coin_flipper.source(),
                    );
                    answers = answers.push(answer);
                }
                match step.0 {
                    Some(at) => {
                        result = sequence.nth(at);
                        proof {
                            assert(before[at as int] == self.remaining()[taken + at]);
                            held = Some(taken + at);
                            taken = (taken + at + 1) as nat;
                            assert(sequence.remaining() =~= self.remaining().skip(taken as int));
                        }
                    },
                    None => {},
                }
                let skip = step.1;
                match upper {
                    Some(most) => {
                        if most == lower {
                            let ghost end = coin_flipper.source();
                            proof {
                                assert(*rng == end);
                                assert(walk_ends(
                                    self.remaining(),
                                    hints_of(self),
                                    answers,
                                    result,
                                ));
                            }
                            return result;
                        }
                    },
                    None => {},
                }
                consumed = step.2;
                if skip > 0 {
                    let _ = sequence.nth(skip - 1);
                    proof {
                        taken = (taken + skip) as nat;
                        assert(sequence.remaining() =~= self.remaining().skip(taken as int));
                    }
                }
            } else {
                let ghost seen = taken;
                let ghost count = consumed;
                let ghost cache = coin_flipper@;
                consumed = consumed.saturating_add(1);
                proof {
                    assert(bit_length(1) == 1 && bit_length(0) == 0) by {
                        assert(bit_length(1) == 1 + bit_length(0));
                    }
                }
                let least = skip_denominator(consumed);
                let skip = coin_flipper.try_skip(least) as usize;
                let elem = sequence.nth(skip);
                match elem {
                    None => {
                        let ghost end = coin_flipper.source();
                        proof {
                            assert(*rng == end);
                            let answer = Answer::Words { words: Seq::empty() };
                            lemma_walk_end(
                                len_of(self.remaining()),
                                hints_of(self),
                                answers,
                                stood,
                            );
                            lemma_gives_one_more_answer(start, answers, mid, answer, end);
                            answers = answers.push(answer);
                            assert(walk_ends(self.remaining(), hints_of(self), answers, result));
                            if one_by_one(self) && seen > 0 {
                                lemma_single_end(
                                    self.remaining(),
                                    seen as int,
                                    words,
                                    place,
                                    count,
                                    cache,
                                    least as nat,
                                    result,
                                );
                            }
                        }
                        return result;
                    },
                    Some(item) => {
                        let ghost halfway = coin_flipper.source();
                        let ghost skipped = coin_flipper@;
                        proof {
                            assert(before[skip as int] == self.remaining()[taken + skip]);
                            taken = (taken + skip + 1) as nat;
                            assert(sequence.remaining() =~= self.remaining().skip(taken as int));
                        }
                        consumed = consumed.saturating_add(skip);
                        let take = coin_flipper.gen_ratio_one_over(consumed);
                        if take {
                            result = Some(item);
                        }
                        proof {
                            let more = choose|more: Seq<u32>|
                                gives_words(halfway, more, coin_flipper.source()) && one_over_run(
                                    consumed as nat,
                                    skipped + #[trigger] words_coins(more),
                                    RETRY_LIMIT as nat,
                                ) == Some((take, coin_flipper@));
                            let answer = Answer::Words { words: more };
                            lemma_more_times(one_more(count), skip as nat);
                            lemma_walk_single(
                                len_of(self.remaining()),
                                hints_of(self),
                                answers,
                                stood,
                                more,
                                skip as nat,
                                skipped,
                                consumed,
                                take,
                                coin_flipper@,
                            );
                            lemma_gives_one_more_answer(
                                start,
                                answers,
                                mid,
                                answer,
                                coin_flipper.source(),
                            );
                            answers = answers.push(answer);
                            if take {
                                held = Some(seen + skip);
                            }
                            if one_by_one(self) {
                                if seen == 0 {
                                    assert(skip == 0 && consumed == 1);
                                    lemma_single_first(self.remaining(), words, coin_flipper@);
                                    place = 0;
                                } else {
                                    lemma_single_step(
                                        self.remaining(),
                                        seen as int,
                                        words,
                                        place,
                                        count,
                                        cache,
                                        least as nat,
                                        more,
                                        take,
                                        coin_flipper@,
                                    );
                                    lemma_gives_words_add(
                                        start,
                                        words,
                                        halfway,
                                        more,
                                        coin_flipper.source(),
                                    );
                                    words = words + more;
                                    if take {
                                        place = seen + skip;
                                    }
                                }
                            }
                        }
                    },
                }
            }
            let hint = sequence.size_hint();
            lower = hint.0;
            upper = hint.1;
        }
    }

    /// Returns a random maximum element.
    ///
    /// If the sequence is empty, [`None`] is returned.
    /// Past `usize::MAX` items that are as good, later ones are slightly more likely.
    fn choose_max<R: RandomSource>(self, rng: &mut R) -> (best: Option<Self::Item>) where
        Self::Item: Ord,

        ensures
            best is None <==> self.remaining().len() == 0,
            best matches Some(item) ==> self.remaining().contains(item),
            best matches Some(item) ==> (obeys_cmp::<Self::Item>() ==> is_greatest(
                self.remaining(),
                item,
            )),
            best matches Some(item) ==> chosen_by_order(
                true,
                self.remaining(),
                *old(rng),
                *final(rng),
                item,
            ),
            obeys_cmp::<Self::Item>() && needs_no_coin_by(
                true,
                natural_order::<Self::Item>(),
                self.remaining(),
            ) ==> *final(rng) == *old(rng),
            best is None ==> *final(rng) == *old(rng),
    {
        let compare = |a: &Self::Item, b: &Self::Item| -> (order: Ordering)
            ensures
                obeys_cmp::<Self::Item>() ==> order == a.cmp_spec(b),
            {
                proof {
                    reveal(obeys_cmp_ord);
                }
                a.cmp(b)
            };
        let best = self.choose_max_by(rng, compare);
        proof {
            if obeys_cmp::<Self::Item>() {
                lemma_ord_is_total_order::<Self::Item>();
                let order = natural_order::<Self::Item>();
                assert(computes_order(compare, order) && is_total_order(order));
            }
            if best is Some {
                let item = best->0;
                {
                    let words = choose|words: Seq<u32>|
                        gives_words(*old(rng), words, *rng) && #[trigger] held_by(
                            compare,
                            true,
                            self.remaining(),
                            words,
                            item,
                        );
                    assert(gives_words(*old(rng), words, *rng) && held_naturally(
                        true,
                        self.remaining(),
                        words,
                        item,
                    ));
                }
            }
        }
        best
    }

    /// Returns a random element that gives the maximum value from the
    /// specified function.
    /// If the sequence is empty, [`None`] is returned.
    /// Past `usize::MAX` items that are as good, later ones are slightly more likely.
    fn choose_max_by_key<B: Ord, R: RandomSource, F: Fn(&Self::Item) -> B>(
        self,
        rng: &mut R,
        f: F,
    ) -> (best: Option<Self::Item>)
        requires
            keys_all(f),
        ensures
            best is None <==> self.remaining().len() == 0,
            best matches Some(item) ==> self.remaining().contains(item),
            best matches Some(item) ==> forall|key: spec_fn(Self::Item) -> B| #[trigger]
                computes_key(f, key) && obeys_cmp::<B>() ==> best_by_key(
                    true,
                    key,
                    self.remaining(),
                    item,
                ),
            best matches Some(item) ==> chosen_by_key(
                f,
                true,
                self.remaining(),
                *old(rng),
                *final(rng),
                item,
            ),
            forall|key: spec_fn(Self::Item) -> B| #[trigger]
                computes_key(f, key) && obeys_cmp::<B>() && needs_no_coin_by_key(
                    true,
                    key,
                    self.remaining(),
                ) ==> *final(rng) == *old(rng),
            best is None ==> *final(rng) == *old(rng),
    {
        choose_best_by_key::<Self, B, R, F, true>(self, rng, f)
    }

    /// Returns a random maximum element with respect to the specified comparison function.
    ///
    /// If the sequence is empty, [`None`] is returned.
    /// Past `usize::MAX` items that are as good, later ones are slightly more likely.
    fn choose_max_by<R: RandomSource, F: Fn(&Self::Item, &Self::Item) -> Ordering>(
        self,
        rng: &mut R,
        compare: F,
    ) -> (best: Option<Self::Item>)
        requires
            compares_all(compare),
        ensures
            best is None <==> self.remaining().len() == 0,
            best matches Some(item) ==> self.remaining().contains(item),
            best matches Some(item) ==> forall|order: spec_fn(Self::Item, Self::Item) -> Ordering| #[trigger]
                computes_order(compare, order) && is_total_order(order) ==> best_by(
                    true,
                    order,
                    self.remaining(),
                    item,
                ),
            best matches Some(item) ==> chosen_by(
                compare,
                true,
                self.remaining(),
                *old(rng),
                *final(rng),
                item,
            ),
            forall|order: spec_fn(Self::Item, Self::Item) -> Ordering| #[trigger]
                computes_order(compare, order) && needs_no_coin_by(true, order, self.remaining())
                    ==> *final(rng) == *old(rng),
            best is None ==> *final(rng) == *old(rng),
    {
        choose_best_by::<Self, R, F, true>(self, rng, compare)
    }

    /// Returns a random minimum element.
    ///
    /// If the sequence is empty, [`None`] is returned.
    /// Past `usize::MAX` items that are as good, later ones are slightly more likely.
    fn choose_min<R: RandomSource>(self, rng: &mut R) -> (best: Option<Self::Item>) where
        Self::Item: Ord,

        ensures
            best is None <==> self.remaining().len() == 0,
            best matches Some(item) ==> self.remaining().contains(item),
            best matches Some(item) ==> (obeys_cmp::<Self::Item>() ==> is_least(
                self.remaining(),
                item,
            )),
            best matches Some(item) ==> chosen_by_order(
                false,
                self.remaining(),
                *old(rng),
                *final(rng),
                item,
            ),
            obeys_cmp::<Self::Item>() && needs_no_coin_by(
                false,
                natural_order::<Self::Item>(),
                self.remaining(),
            ) ==> *final(rng) == *old(rng),
            best is None ==> *final(rng) == *old(rng),
    {
        let compare = |a: &Self::Item, b: &Self::Item| -> (order: Ordering)
            ensures
                obeys_cmp::<Self::Item>() ==> order == a.cmp_spec(b),
            {
                proof {
                    reveal(obeys_cmp_ord);
                }
                a.cmp(b)
            };
        let best = self.choose_min_by(rng, compare);
        proof {
            if obeys_cmp::<Self::Item>() {
                lemma_ord_is_total_order::<Self::Item>();
                let order = natural_order::<Self::Item>();
                assert(computes_order(compare, order) && is_total_order(order));
            }
            if best is Some {
                let item = best->0;
                {
                    let words = choose|words: Seq<u32>|
                        gives_words(*old(rng), words, *rng) && #[trigger] held_by(
                            compare,
                            false,
                            self.remaining(),
                            words,
                            item,
                        );
                    assert(gives_words(*old(rng), words, *rng) && held_naturally(
                        false,
                        self.remaining(),
                        words,
                        item,
                    ));
                }
            }
        }
        best
    }

    /// Returns a random element that gives the minimum value from the
    /// specified function.
    /// If the sequence is empty, [`None`] is returned.
    /// Past `usize::MAX` items that are as good, later ones are slightly more likely.
    fn choose_min_by_key<B: Ord, R: RandomSource, F: Fn(&Self::Item) -> B>(
        self,
        rng: &mut R,
        f: F,
    ) -> (best: Option<Self::Item>)
        requires
            keys_all(f),
        ensures
            best is None <==> self.remaining().len() == 0,
            best matches Some(item) ==> self.remaining().contains(item),
            best matches Some(item) ==> forall|key: spec_fn(Self::Item) -> B| #[trigger]
                computes_key(f, key) && obeys_cmp::<B>() ==> best_by_key(
                    false,
                    key,
                    self.remaining(),
                    item,
                ),
            best matches Some(item) ==> chosen_by_key(
                f,
                false,
                self.remaining(),
                *old(rng),
                *final(rng),
                item,
            ),
            forall|key: spec_fn(Self::Item) -> B| #[trigger]
                computes_key(f, key) && obeys_cmp::<B>() && needs_no_coin_by_key(
                    false,
                    key,
                    self.remaining(),
                ) ==> *final(rng) == *old(rng),
            best is None ==> *final(rng) == *old(rng),
    {
        choose_best_by_key::<Self, B, R, F, false>(self, rng, f)
    }

    /// Returns a random minimum element.
    ///
    /// If the sequence is empty, [`None`] is returned.
    /// Past `usize::MAX` items that are as good, later ones are slightly more likely.
    fn choose_min_by<R: RandomSource, F: Fn(&Self::Item, &Self::Item) -> Ordering>(
        self,
        rng: &mut R,
        compare: F,
    ) -> (best: Option<Self::Item>)
        requires
            compares_all(compare),
        ensures
            best is None <==> self.remaining().len() == 0,
            best matches Some(item) ==> self.remaining().contains(item),
            best matches Some(item) ==> forall|order: spec_fn(Self::Item, Self::Item) -> Ordering| #[trigger]
                computes_order(compare, order) && is_total_order(order) ==> best_by(
                    false,
                    order,
                    self.remaining(),
                    item,
                ),
            best matches Some(item) ==> chosen_by(
                compare,
                false,
                self.remaining(),
                *old(rng),
                *final(rng),
                item,
            ),
            forall|order: spec_fn(Self::Item, Self::Item) -> Ordering| #[trigger]
                computes_order(compare, order) && needs_no_coin_by(false, order, self.remaining())
                    ==> *final(rng) == *old(rng),
            best is None ==> *final(rng) == *old(rng),
    {
        choose_best_by::<Self, R, F, false>(self, rng, compare)
    }

    /// Returns one item for every key that the items of the sequence
    /// carry, a random one of the items with that key, in the order in
    /// which the keys first occur.
    /// Uses the global allocator and the default hasher which is safe from HashDos attacks.
    fn choose_unique<R: RandomSource>(self, rng: &mut R) -> (chosen: Vec<Self::Item>) where
        Self::Item: Keyed,

        ensures
            forall|j: int|
                0 <= j < chosen.len() ==> self.remaining().contains(#[trigger] chosen[j]),
            chosen.len() <= self.remaining().len(),
            self.remaining().len() > 0 ==> chosen.len() > 0,
            forall|key: spec_fn(Self::Item) -> u64| #[trigger]
                keyed_by::<Self::Item>(key) ==> chosen@.map_values(key) == distinct(
                    self.remaining().map_values(key),
                ),
            chosen_for_own_keys(self.remaining(), *old(rng), *final(rng), chosen@),
            self.remaining().len() == 0 ==> *final(rng) == *old(rng),
            forall|key: spec_fn(Self::Item) -> u64| #[trigger]
                keyed_by::<Self::Item>(key) && all_differ(self.remaining().map_values(key))
                    ==> *final(rng) == *old(rng),
    {
        let hash_builder = new_hash_builder();
        let alloc = global_allocator();
        self.choose_unique_with_hasher_in(rng, hash_builder, alloc)
    }

    /// Returns one item for every key that the items of the sequence
    /// carry, a random one of the items with that key, in the order in
    /// which the keys first occur.
    ///
    /// The hash map that finds the items of a key is made with
    /// `hash_builder` and `alloc`.
    fn choose_unique_with_hasher_in<R: RandomSource>(
        self,
        rng: &mut R,
        hash_builder: RandomState,
        alloc: Global,
    ) -> (chosen: Vec<Self::Item>) where Self::Item: Keyed
        ensures
            forall|j: int|
                0 <= j < chosen.len() ==> self.remaining().contains(#[trigger] chosen[j]),
            chosen.len() <= self.remaining().len(),
            self.remaining().len() > 0 ==> chosen.len() > 0,
            forall|key: spec_fn(Self::Item) -> u64| #[trigger]
                keyed_by::<Self::Item>(key) ==> chosen@.map_values(key) == distinct(
                    self.remaining().map_values(key),
                ),
            chosen_for_own_keys(self.remaining(), *old(rng), *final(rng), chosen@),
            self.remaining().len() == 0 ==> *final(rng) == *old(rng),
            forall|key: spec_fn(Self::Item) -> u64| #[trigger]
                keyed_by::<Self::Item>(key) && all_differ(self.remaining().map_values(key))
                    ==> *final(rng) == *old(rng),
    {
        let get_key = |item: &Self::Item| -> (k: u64)
            ensures
                call_ensures(Self::Item::key, (item,), k),
            { item.key() };
        let chosen = self.choose_unique_by_key_with_hasher_in(rng, get_key, hash_builder, alloc);
        proof {
            assert forall|key: spec_fn(Self::Item) -> u64| #[trigger]
                keyed_by::<Self::Item>(key) implies computes_key(get_key, key) by {}
            let words = choose|words: Seq<u32>|
                gives_words(*old(rng), words, *rng) && #[trigger] stand_by_key(
                    get_key,
                    self.remaining(),
                    words,
                    chosen@,
                );
            assert(stand(self.remaining(), words, chosen@));
        }
        chosen
    }

    /// Returns one item for every key that `get_key` gives to the items of
    /// the sequence, a random one of the items with that key, in the order
    /// in which the keys first occur.
    /// `get_key` is called exactly once for each element.
    /// Uses the global allocator and the default hasher which is safe from HashDos attacks.
    fn choose_unique_by_key<R: RandomSource, F: Fn(&Self::Item) -> u64>(
        self,
        rng: &mut R,
        get_key: F,
    ) -> (chosen: Vec<Self::Item>)
        requires
            keys_all(get_key),
        ensures
            forall|j: int|
                0 <= j < chosen.len() ==> self.remaining().contains(#[trigger] chosen[j]),
            chosen.len() <= self.remaining().len(),
            self.remaining().len() > 0 ==> chosen.len() > 0,
            forall|key: spec_fn(Self::Item) -> u64| #[trigger]
                computes_key(get_key, key) ==> chosen@.map_values(key) == distinct(
                    self.remaining().map_values(key),
                ),
            chosen_for_keys(get_key, self.remaining(), *old(rng), *final(rng), chosen@),
            self.remaining().len() == 0 ==> *final(rng) == *old(rng),
            forall|key: spec_fn(Self::Item) -> u64| #[trigger]
                computes_key(get_key, key) && all_differ(self.remaining().map_values(key))
                    ==> *final(rng) == *old(rng),
    {
        let hash_builder = new_hash_builder();
        let alloc = global_allocator();
        self.choose_unique_by_key_with_hasher_in(rng, get_key, hash_builder, alloc)
    }

    /// Returns one item for every key that `get_key` gives to the items of
    /// the sequence, a random one of the items with that key, in the order
    /// in which the keys first occur.
    /// `get_key` is called exactly once for each element.
    ///
    /// The hash map that finds the items of a key is made with
    /// `hash_builder` and `alloc`.
    fn choose_unique_by_key_with_hasher_in<R: RandomSource, F: Fn(&Self::Item) -> u64>(
        self,
        rng: &mut R,
        get_key: F,
        hash_builder: RandomState,
        alloc: Global,
    ) -> (chosen: Vec<Self::Item>)
        requires
            keys_all(get_key),
        ensures
            forall|j: int|
                0 <= j < chosen.len() ==> self.remaining().contains(#[trigger] chosen[j]),
            chosen.len() <= self.remaining().len(),
            self.remaining().len() > 0 ==> chosen.len() > 0,
            forall|key: spec_fn(Self::Item) -> u64| #[trigger]
                computes_key(get_key, key) ==> chosen@.map_values(key) == distinct(
                    self.remaining().map_values(key),
                ),
            chosen_for_keys(get_key, self.remaining(), *old(rng), *final(rng), chosen@),
            self.remaining().len() == 0 ==> *final(rng) == *old(rng),
            forall|key: spec_fn(Self::Item) -> u64| #[trigger]
                computes_key(get_key, key) && all_differ(self.remaining().map_values(key))
                    ==> *final(rng) == *old(rng),
    {
        choose_representatives(self, rng, get_key, hash_builder, alloc)
    }
}

impl<T: Sequence> Kindness for T {
}

} // verus!
