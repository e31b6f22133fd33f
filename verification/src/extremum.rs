//! A random one of the best items of a sequence, in one pass.
//!
//! The pass holds one item, the best so far, and counts how many items so
//! far were as good as it. An item that is as good takes its place with
//! probability one over that count, so that at every moment each of the
//! best items so far is held with the same probability.

use crate::coin_flipper::CoinFlipper;
use crate::coins::lemma_words_coins_add;
use crate::coins::words_coins;
use crate::pass::best_run;
use crate::pass::lemma_best_run_plain;
use crate::pass::lemma_best_run_tie;
use crate::pass::lemma_best_run_tie_needs_coin;
use crate::pass::len_of;
use crate::pass::one_more;
use crate::pass::retry_budget;
use crate::pass::to_nat;
use crate::ratio::one_over_run;
use crate::source::gives_words;
use crate::source::lemma_gives_words_add;
use crate::sequence::Sequence;
use crate::source::RandomSource;
use std::cmp::Ordering;
use vstd::laws_cmp::obeys_cmp;
use vstd::laws_cmp::obeys_cmp_ord;
use vstd::laws_cmp::obeys_cmp_partial_ord;
use vstd::laws_cmp::obeys_partial_cmp_spec_properties;
use vstd::laws_eq::obeys_eq_spec_properties;
use vstd::prelude::*;
use vstd::std_specs::cmp::OrdSpec;
use vstd::std_specs::cmp::PartialEqSpec;
use vstd::std_specs::cmp::PartialOrdSpec;

verus! {

/// Whether an item that compares as `order` with another is better than
/// it: greater where the largest is looked for, less where the smallest.
pub open spec fn better(largest: bool, order: Ordering) -> bool {
    if largest {
        order == Ordering::Greater
    } else {
        order == Ordering::Less
    }
}

/// Whether `compare` can be asked about every two items.
pub open spec fn compares_all<T, F: Fn(&T, &T) -> Ordering>(compare: F) -> bool {
    forall|a: T, b: T| call_requires(compare, (&a, &b))
}

/// Whether `order` says what `compare` answers: whatever `compare` can
/// return for two items is what `order` gives for them.
pub open spec fn computes_order<T, F: Fn(&T, &T) -> Ordering>(
    compare: F,
    order: spec_fn(T, T) -> Ordering,
) -> bool {
    forall|a: T, b: T, answer: Ordering| #[trigger]
        call_ensures(compare, (&a, &b), answer) ==> answer == order(a, b)
}

/// Whether `order` is a total order that may hold different items for
/// equal: its answers for `a, b` and for `b, a` mirror each other, and
/// "not greater" carries over.
pub open spec fn is_total_order<T>(order: spec_fn(T, T) -> Ordering) -> bool {
    &&& forall|a: T, b: T| #[trigger] order(a, b) == Ordering::Less <==> order(b, a) == Ordering::Greater
    &&& forall|a: T, b: T, c: T|
        #[trigger] order(a, b) != Ordering::Greater && #[trigger] order(b, c) != Ordering::Greater
            ==> order(a, c) != Ordering::Greater
}

/// Whether `key` can be asked for the key of every item.
pub open spec fn keys_all<T, B, F: Fn(&T) -> B>(key: F) -> bool {
    forall|item: T| call_requires(key, (&item,))
}

/// Whether `key` says what `f` answers: whatever `f` can return for an
/// item is what `key` gives for it.
pub open spec fn computes_key<T, B, F: Fn(&T) -> B>(f: F, key: spec_fn(T) -> B) -> bool {
    forall|item: T, answer: B| #[trigger] call_ensures(f, (&item,), answer) ==> answer == key(item)
}

/// Under the laws of `Ord`, the order of a type mirrors itself and "not
/// greater" carries over: it is a total order that may hold different
/// values for equal.
pub proof fn lemma_ord_is_total_order<B: Ord>()
    requires
        obeys_cmp::<B>(),
    ensures
        forall|a: B, b: B|
            #[trigger] a.cmp_spec(&b) == Ordering::Less <==> b.cmp_spec(&a) == Ordering::Greater,
        forall|a: B, b: B, c: B|
            #[trigger] a.cmp_spec(&b) != Ordering::Greater && #[trigger] b.cmp_spec(&c)
                != Ordering::Greater ==> a.cmp_spec(&c) != Ordering::Greater,
{
    reveal(obeys_cmp_ord);
    reveal(obeys_cmp_partial_ord);
    reveal(obeys_partial_cmp_spec_properties);
    reveal(obeys_eq_spec_properties);
    assert forall|a: B, b: B| #[trigger]
        a.cmp_spec(&b) == Ordering::Less <==> b.cmp_spec(&a) == Ordering::Greater by {
        assert(a.partial_cmp_spec(&b) == Some(a.cmp_spec(&b)));
        assert(b.partial_cmp_spec(&a) == Some(b.cmp_spec(&a)));
    }
    assert forall|a: B, b: B, c: B|
        #[trigger] a.cmp_spec(&b) != Ordering::Greater && #[trigger] b.cmp_spec(&c)
            != Ordering::Greater implies a.cmp_spec(&c) != Ordering::Greater by {
        assert(a.partial_cmp_spec(&b) == Some(a.cmp_spec(&b)));
        assert(b.partial_cmp_spec(&c) == Some(b.cmp_spec(&c)));
        assert(a.partial_cmp_spec(&c) == Some(a.cmp_spec(&c)));
        assert(c.partial_cmp_spec(&a) == Some(c.cmp_spec(&a)));
        assert(c.partial_cmp_spec(&b) == Some(c.cmp_spec(&b)));
        if a.cmp_spec(&c) == Ordering::Greater {
            if a.cmp_spec(&b) == Ordering::Less {
                if b.cmp_spec(&c) == Ordering::Less {
                } else {
                    assert(c.partial_cmp_spec(&a) == Some(Ordering::Less));
                    assert(c.partial_cmp_spec(&b) == Some(Ordering::Less));
                }
            } else {
                if b.cmp_spec(&c) == Ordering::Less {
                    assert(c.partial_cmp_spec(&b) == Some(Ordering::Greater));
                    assert(a.partial_cmp_spec(&b) == Some(Ordering::Greater));
                } else {
                    assert(a.eq_spec(&b));
                    assert(b.eq_spec(&c));
                    assert(a.eq_spec(&c));
                }
            }
        }
    }
}

/// Whether no item of `items` is better than `best` by the order of the
/// keys that `key` gives them.
pub open spec fn best_by_key<T, B: Ord>(
    largest: bool,
    key: spec_fn(T) -> B,
    items: Seq<T>,
    best: T,
) -> bool {
    forall|i: int|
        0 <= i < items.len() ==> !better(largest, key(#[trigger] items[i]).cmp_spec(&key(best)))
}

/// Whether no item of `items` is better than `best` by `order`.
pub open spec fn best_by<T>(
    largest: bool,
    order: spec_fn(T, T) -> Ordering,
    items: Seq<T>,
    best: T,
) -> bool {
    forall|i: int| 0 <= i < items.len() ==> !better(largest, order(#[trigger] items[i], best))
}

/// Under the laws of `Ord`, "not better" carries over, whichever way
/// better is.
pub proof fn lemma_not_better_carries<B: Ord>(largest: bool, a: B, b: B, c: B)
    requires
        obeys_cmp::<B>(),
        !better(largest, a.cmp_spec(&b)),
        !better(largest, b.cmp_spec(&c)),
    ensures
        !better(largest, a.cmp_spec(&c)),
{
    lemma_ord_is_total_order::<B>();
    if !largest {
        assert(c.cmp_spec(&b) != Ordering::Greater);
        assert(b.cmp_spec(&a) != Ordering::Greater);
        assert(c.cmp_spec(&a) != Ordering::Greater);
    }
}

/// Whether two keys are equal in the order of their type.
pub open spec fn same_rank<B: Ord>(a: B, b: B) -> bool {
    a.cmp_spec(&b) == Ordering::Equal && b.cmp_spec(&a) == Ordering::Equal
}

/// A random one of the items with the best key: the largest key where
/// `MAX` is set, the smallest where it is not.
///
/// Where `f` computes a function and the keys obey the laws of `Ord`, no
/// item has a better key than the one that comes back.
#[verifier::rlimit(100)]
pub fn choose_best_by_key<
    I: Sequence,
    B: Ord,
    R: RandomSource,
    F: Fn(&I::Item) -> B,
    const MAX: bool,
>(iterator: I, rng: &mut R, f: F) -> (best: Option<I::Item>)
    requires
        keys_all(f),
    ensures
        best is None <==> iterator.remaining().len() == 0,
        best matches Some(item) ==> iterator.remaining().contains(item),
        best matches Some(item) ==> forall|key: spec_fn(I::Item) -> B| #[trigger]
            computes_key(f, key) && obeys_cmp::<B>() ==> best_by_key(
                MAX,
                key,
                iterator.remaining(),
                item,
            ),
        best matches Some(item) ==> chosen_by_key(
            f,
            MAX,
            iterator.remaining(),
            *old(rng),
            *final(rng),
            item,
        ),
        forall|key: spec_fn(I::Item) -> B| #[trigger]
            computes_key(f, key) && obeys_cmp::<B>() && needs_no_coin_by_key(
                MAX,
                key,
                iterator.remaining(),
            ) ==> *final(rng) == *old(rng),
        best is None ==> *final(rng) == *old(rng),
{
    let mut sequence = iterator;
    let ghost items = sequence.remaining();
    let first = match sequence.next() {
        Some(first) => first,
        None => {
            return None;
        },
    };
    let mut current_key = f(&first);
    let mut current = first;
    let ghost start = *rng;
    let mut coin_flipper = CoinFlipper::new(rng);
    let mut consumed: usize = 1;
    let ghost mut seen: int = 1;
    let ghost mut place: int = 0;
    let ghost mut anchor: int = 0;
    let ghost mut words: Seq<u32> = Seq::empty();
    let ghost mut tied: bool = false;
    proof {
        assert(items.skip(1) =~= items.skip(seen));
        assert(words_coins(words) =~= Seq::<bool>::empty());
        lemma_pass_key_start(f, MAX, items, Seq::<bool>::empty(), current_key);
        assert forall|key: spec_fn(I::Item) -> B| #[trigger]
            computes_key(f, key) && obeys_cmp::<B>() implies same_rank(
            current_key,
            key(current),
        ) by {
            lemma_ord_is_total_order::<B>();
        }
    }

    loop
        invariant
            coin_flipper.wf(),
            keys_all(f),
            consumed > 0,
            items == iterator.remaining(),
            1 <= seen <= items.len(),
            sequence.remaining() == items.skip(seen),
            items.contains(current),
            0 <= place < seen,
            0 <= anchor < seen,
            current == items[place],
            gives_words(start, words, coin_flipper.source()),
            start == *old(rng),
            after_borrow(*rng) == *final(coin_flipper.rng),
            !tied ==> words.len() == 0 && coin_flipper@.len() == 0,
            pass_key_is(
                f,
                MAX,
                items,
                seen,
                words_coins(words),
                place,
                anchor,
                consumed,
                coin_flipper@,
                current_key,
            ),
            tied ==> pass_key_needs_coin(f, MAX, items, seen),
            forall|key: spec_fn(I::Item) -> B| #[trigger]
                computes_key(f, key) && obeys_cmp::<B>() ==> {
                    &&& same_rank(current_key, key(current))
                    &&& forall|i: int|
                        0 <= i < seen ==> !better(
                            MAX,
                            key(#[trigger] items[i]).cmp_spec(&current_key),
                        )
                },
        decreases items.len() - seen,
    {
        let item = match sequence.next() {
            Some(item) => item,
            None => {
                let ghost mut end = start;
                proof {
                    assert(len_of(items) == seen);
                    end = coin_flipper.source();
                    lemma_pass_key_end(
                        f,
                        MAX,
                        items,
                        words,
                        place,
                        anchor,
                        consumed,
                        coin_flipper@,
                        current_key,
                        current,
                    );
                    if tied {
                        lemma_pass_key_coin_end(f, MAX, items);
                    } else {
                        assert(words =~= Seq::<u32>::empty());
                        assert(start == end);
                    }
                }
                proof {
                    assert(*rng == end);
                    assert(chosen_by_key(f, MAX, iterator.remaining(), *old(rng), *rng, current));
                    assert forall|key: spec_fn(I::Item) -> B| #[trigger]
                        computes_key(f, key) && obeys_cmp::<B>() implies best_by_key(
                        MAX,
                        key,
                        items,
                        current,
                    ) by {
                        assert forall|i: int| 0 <= i < items.len() implies !better(
                            MAX,
                            key(#[trigger] items[i]).cmp_spec(&key(current)),
                        ) by {
                            lemma_not_better_carries::<B>(
                                MAX,
                                key(items[i]),
                                current_key,
                                key(current),
                            );
                        }
                    }
                }
                return Some(current);
            },
        };
        let item_key = f(&item);
        let ghost held_key = current_key;
        let ghost held = current;
        let ghost new_key = item_key;
        let ghost was_place = place;
        let ghost was_anchor = anchor;
        let ghost was_count = consumed;
        let ghost was_tied = tied;
        let ghost drawn = words;
        let ghost cache = coin_flipper@;
        let ghost source = coin_flipper.source();
        let ghost mut more: Seq<u32> = Seq::empty();
        let ghost mut took: bool = false;
        proof {
            assert(item == items[seen]);
            assert(items.skip(seen).skip(1) =~= items.skip(seen + 1));
            if obeys_cmp::<B>() {
                lemma_ord_is_total_order::<B>();
                reveal(obeys_cmp_ord);
                assert(same_rank(item_key, item_key));
            }
        }
        let answer = item_key.cmp(&current_key);
        match answer {
            Ordering::Equal => {
                consumed = consumed.saturating_add(1);
                let take = coin_flipper.gen_ratio_one_over(consumed);
                proof {
                    more = choose|more: Seq<u32>|
                        {
                            &&& gives_words(source, more, coin_flipper.source())
                            &&& one_over_run(
                                to_nat(consumed),
                                cache + #[trigger] words_coins(more),
                                retry_budget(),
                            ) == Some((take, coin_flipper@))
                        };
                    took = take;
                    lemma_gives_words_add(start, drawn, source, more, coin_flipper.source());
                    words = drawn + more;
                    tied = true;
                }
                if take {
                    current = item;
                    proof {
                        place = seen;
                    }
                }
            },
            ordering => {
                if MAX == matches!(ordering, Ordering::Greater) {
                    current_key = item_key;
                    current = item;
                    consumed = 1;
                    proof {
                        place = seen;
                        anchor = seen;
                    }
                }
            },
        }
        proof {
            assert(call_ensures(f, (&items[seen],), new_key));
            if answer == Ordering::Equal {
                lemma_words_coins_add(drawn, more);
                lemma_pass_key_tie(
                    f,
                    MAX,
                    items,
                    seen,
                    words_coins(drawn),
                    words_coins(more),
                    was_place,
                    was_anchor,
                    was_count,
                    cache,
                    held_key,
                    new_key,
                    took,
                    coin_flipper@,
                );
                if was_tied {
                    lemma_pass_key_still_needs_coin(f, MAX, items, seen);
                } else {
                    assert(drawn =~= Seq::<u32>::empty());
                    assert(words_coins(drawn) =~= Seq::<bool>::empty());
                    assert(cache =~= Seq::<bool>::empty());
                    lemma_pass_key_first_tie(
                        f,
                        MAX,
                        items,
                        seen,
                        was_place,
                        was_anchor,
                        was_count,
                        held_key,
                        new_key,
                    );
                }
            } else {
                lemma_pass_key_plain(
                    f,
                    MAX,
                    items,
                    seen,
                    words_coins(drawn),
                    was_place,
                    was_anchor,
                    was_count,
                    cache,
                    held_key,
                    new_key,
                    answer,
                );
                if was_tied {
                    lemma_pass_key_still_needs_coin(f, MAX, items, seen);
                }
            }
        }
        proof {
            assert forall|key: spec_fn(I::Item) -> B| #[trigger]
                computes_key(f, key) && obeys_cmp::<B>() implies {
                &&& same_rank(current_key, key(current))
                &&& forall|i: int|
                    0 <= i < seen + 1 ==> !better(
                        MAX,
                        key(#[trigger] items[i]).cmp_spec(&current_key),
                    )
            } by {
                assert(item_key == key(items[seen]));
                assert(same_rank(held_key, key(held)));
                assert(!better(MAX, held_key.cmp_spec(&current_key)));
                assert(!better(MAX, item_key.cmp_spec(&current_key)));
                assert forall|i: int| 0 <= i < seen + 1 implies !better(
                    MAX,
                    key(#[trigger] items[i]).cmp_spec(&current_key),
                ) by {
                    if i < seen {
                        lemma_not_better_carries::<B>(MAX, key(items[i]), held_key, current_key);
                    }
                }
            }
            seen = seen + 1;
        }
    }
}

/// Whether two items tie by `order`.
pub open spec fn tie_of<T>(order: spec_fn(T, T) -> Ordering) -> spec_fn(T, T) -> bool {
    |a: T, b: T| order(a, b) == Ordering::Equal
}

/// Whether the first of two items is better than the second by `order`.
pub open spec fn beat_of<T>(largest: bool, order: spec_fn(T, T) -> Ordering) -> spec_fn(
    T,
    T,
) -> bool {
    |a: T, b: T| better(largest, order(a, b))
}

/// Whether a pass over `items` by `order`, on the coins of `words`, holds
/// `item` at its end: every item is compared with the one held.
pub open spec fn holds_by<T>(
    largest: bool,
    order: spec_fn(T, T) -> Ordering,
    items: Seq<T>,
    words: Seq<u32>,
    item: T,
) -> bool {
    best_run(
        false,
        tie_of(order),
        beat_of(largest, order),
        items,
        len_of(items),
        words_coins(words),
    ) matches Some((held, anchor, count, rest)) && item == items[held]
}

/// Whether a pass over `items` by `order` reads no coin: no item ties with
/// the one it is compared with.
pub open spec fn needs_no_coin_by<T>(
    largest: bool,
    order: spec_fn(T, T) -> Ordering,
    items: Seq<T>,
) -> bool {
    best_run(
        false,
        tie_of(order),
        beat_of(largest, order),
        items,
        len_of(items),
        Seq::<bool>::empty(),
    ) is Some
}

/// Whether the keys of two items tie.
pub open spec fn tie_of_keys<T, B: Ord>(key: spec_fn(T) -> B) -> spec_fn(T, T) -> bool {
    |a: T, b: T| key(a).cmp_spec(&key(b)) == Ordering::Equal
}

/// Whether the key of the first of two items is better than that of the
/// second.
pub open spec fn beat_of_keys<T, B: Ord>(largest: bool, key: spec_fn(T) -> B) -> spec_fn(
    T,
    T,
) -> bool {
    |a: T, b: T| better(largest, key(a).cmp_spec(&key(b)))
}

/// Whether a pass over `items` by their keys, on the coins of `words`,
/// holds `item` at its end: every key is compared with the key of the
/// first item of those that tie for best.
pub open spec fn holds_by_key<T, B: Ord>(
    largest: bool,
    key: spec_fn(T) -> B,
    items: Seq<T>,
    words: Seq<u32>,
    item: T,
) -> bool {
    best_run(
        true,
        tie_of_keys(key),
        beat_of_keys(largest, key),
        items,
        len_of(items),
        words_coins(words),
    ) matches Some((held, anchor, count, rest)) && item == items[held]
}

/// Whether a pass over `items` by their keys reads no coin: no key ties
/// with the one it is compared with.
pub open spec fn needs_no_coin_by_key<T, B: Ord>(
    largest: bool,
    key: spec_fn(T) -> B,
    items: Seq<T>,
) -> bool {
    best_run(
        true,
        tie_of_keys(key),
        beat_of_keys(largest, key),
        items,
        len_of(items),
        Seq::<bool>::empty(),
    ) is Some
}

/// Whether, by every order that `compare` computes, a pass over the first
/// `seen` items on the coins `row` holds the item at `place`, with `count`
/// items that tie and the coins `rest` left.
#[verifier::opaque]
pub open spec fn pass_by_is<T, F: Fn(&T, &T) -> Ordering>(
    compare: F,
    largest: bool,
    items: Seq<T>,
    seen: int,
    row: Seq<bool>,
    place: int,
    count: usize,
    rest: Seq<bool>,
) -> bool {
    forall|order: spec_fn(T, T) -> Ordering| #[trigger]
        computes_order(compare, order) ==> best_run(
            false,
            tie_of(order),
            beat_of(largest, order),
            items,
            seen,
            row,
        ) == Some((place, place, count, rest))
}

/// Whether, by every order that `compare` computes, a pass over the first
/// `seen` items needs a coin.
#[verifier::opaque]
pub open spec fn pass_by_needs_coin<T, F: Fn(&T, &T) -> Ordering>(
    compare: F,
    largest: bool,
    items: Seq<T>,
    seen: int,
) -> bool {
    forall|order: spec_fn(T, T) -> Ordering| #[trigger]
        computes_order(compare, order) ==> best_run(
            false,
            tie_of(order),
            beat_of(largest, order),
            items,
            seen,
            Seq::<bool>::empty(),
        ) is None
}

/// A pass over one item holds it and has read no coin.
pub proof fn lemma_pass_by_start<T, F: Fn(&T, &T) -> Ordering>(
    compare: F,
    largest: bool,
    items: Seq<T>,
    row: Seq<bool>,
)
    ensures
        pass_by_is(compare, largest, items, 1, row, 0, 1, row),
{
    reveal(pass_by_is);
}

/// A pass goes on over an item that `compare` holds for equal to the one
/// held: the item is counted, and the decision for the count says whether
/// it is held from now on.
pub proof fn lemma_pass_by_tie<T, F: Fn(&T, &T) -> Ordering>(
    compare: F,
    largest: bool,
    items: Seq<T>,
    seen: int,
    row: Seq<bool>,
    more: Seq<bool>,
    place: int,
    count: usize,
    cache: Seq<bool>,
    take: bool,
    left: Seq<bool>,
)
    requires
        seen >= 1,
        pass_by_is(compare, largest, items, seen, row, place, count, cache),
        call_ensures(compare, (&items[seen], &items[place]), Ordering::Equal),
        one_over_run(to_nat(one_more(count)), cache + more, retry_budget()) == Some((take, left)),
    ensures
        pass_by_is(
            compare,
            largest,
            items,
            seen + 1,
            row + more,
            if take {
                seen
            } else {
                place
            },
            one_more(count),
            left,
        ),
{
    reveal(pass_by_is);
    assert forall|order: spec_fn(T, T) -> Ordering| #[trigger]
        computes_order(compare, order) implies best_run(
        false,
        tie_of(order),
        beat_of(largest, order),
        items,
        seen + 1,
        row + more,
    ) == Some(
        (
            if take {
                seen
            } else {
                place
            },
            if take {
                seen
            } else {
                place
            },
            one_more(count),
            left,
        ),
    ) by {
        assert(order(items[seen], items[place]) == Ordering::Equal);
        lemma_best_run_tie(
            false,
            tie_of(order),
            beat_of(largest, order),
            items,
            seen,
            row,
            more,
            take,
            left,
        );
    }
}

/// A pass goes on over an item that `compare` does not hold for equal to
/// the one held: the item is held from now on where it is better, and no
/// coin is read.
pub proof fn lemma_pass_by_plain<T, F: Fn(&T, &T) -> Ordering>(
    compare: F,
    largest: bool,
    items: Seq<T>,
    seen: int,
    row: Seq<bool>,
    place: int,
    count: usize,
    cache: Seq<bool>,
    answer: Ordering,
)
    requires
        seen >= 1,
        pass_by_is(compare, largest, items, seen, row, place, count, cache),
        call_ensures(compare, (&items[seen], &items[place]), answer),
        answer != Ordering::Equal,
    ensures
        pass_by_is(
            compare,
            largest,
            items,
            seen + 1,
            row,
            if better(largest, answer) {
                seen
            } else {
                place
            },
            if better(largest, answer) {
                1
            } else {
                count
            },
            cache,
        ),
{
    reveal(pass_by_is);
    assert forall|order: spec_fn(T, T) -> Ordering| #[trigger]
        computes_order(compare, order) implies best_run(
        false,
        tie_of(order),
        beat_of(largest, order),
        items,
        seen + 1,
        row,
    ) == Some(
        (
            if better(largest, answer) {
                seen
            } else {
                place
            },
            if better(largest, answer) {
                seen
            } else {
                place
            },
            if better(largest, answer) {
                1usize
            } else {
                count
            },
            cache,
        ),
    ) by {
        assert(order(items[seen], items[place]) == answer);
        lemma_best_run_plain(false, tie_of(order), beat_of(largest, order), items, seen, row);
    }
}

/// A pass that comes to its first tie needs a coin from then on.
pub proof fn lemma_pass_by_first_tie<T, F: Fn(&T, &T) -> Ordering>(
    compare: F,
    largest: bool,
    items: Seq<T>,
    seen: int,
    place: int,
    count: usize,
)
    requires
        seen >= 1,
        count >= 1,
        pass_by_is(
            compare,
            largest,
            items,
            seen,
            Seq::<bool>::empty(),
            place,
            count,
            Seq::<bool>::empty(),
        ),
        call_ensures(compare, (&items[seen], &items[place]), Ordering::Equal),
    ensures
        pass_by_needs_coin(compare, largest, items, seen + 1),
{
    reveal(pass_by_is);
    reveal(pass_by_needs_coin);
    assert forall|order: spec_fn(T, T) -> Ordering| #[trigger]
        computes_order(compare, order) implies best_run(
        false,
        tie_of(order),
        beat_of(largest, order),
        items,
        seen + 1,
        Seq::<bool>::empty(),
    ) is None by {
        assert(order(items[seen], items[place]) == Ordering::Equal);
        lemma_best_run_tie_needs_coin(false, tie_of(order), beat_of(largest, order), items, seen);
    }
}

/// A pass that needs a coin needs it whatever items follow.
pub proof fn lemma_pass_by_still_needs_coin<T, F: Fn(&T, &T) -> Ordering>(
    compare: F,
    largest: bool,
    items: Seq<T>,
    seen: int,
)
    requires
        seen >= 1,
        pass_by_needs_coin(compare, largest, items, seen),
    ensures
        pass_by_needs_coin(compare, largest, items, seen + 1),
{
    reveal(pass_by_needs_coin);
    assert forall|order: spec_fn(T, T) -> Ordering| #[trigger]
        computes_order(compare, order) implies best_run(
        false,
        tie_of(order),
        beat_of(largest, order),
        items,
        seen + 1,
        Seq::<bool>::empty(),
    ) is None by {
        assert(best_run(
            false,
            tie_of(order),
            beat_of(largest, order),
            items,
            seen,
            Seq::<bool>::empty(),
        ) is None);
    }
}

/// Whether a pass over `items`, on the coins of `words`, holds `item` at
/// its end by every order that `compare` computes.
pub open spec fn held_by<T, F: Fn(&T, &T) -> Ordering>(
    compare: F,
    largest: bool,
    items: Seq<T>,
    words: Seq<u32>,
    item: T,
) -> bool {
    forall|order: spec_fn(T, T) -> Ordering| #[trigger]
        computes_order(compare, order) ==> holds_by(largest, order, items, words, item)
}

/// Whether, by every function that `f` computes, a pass over the first
/// `seen` items on the coins `row` holds the item at `place`, compares
/// with the key `current_key` of the item at `anchor`, and has counted
/// `count` items that tie, with the coins `rest` left.
#[verifier::opaque]
pub open spec fn pass_key_is<T, B: Ord, F: Fn(&T) -> B>(
    f: F,
    largest: bool,
    items: Seq<T>,
    seen: int,
    row: Seq<bool>,
    place: int,
    anchor: int,
    count: usize,
    rest: Seq<bool>,
    current_key: B,
) -> bool {
    forall|key: spec_fn(T) -> B| #[trigger]
        computes_key(f, key) && obeys_cmp::<B>() ==> key(items[anchor]) == current_key
            && best_run(
            true,
            tie_of_keys(key),
            beat_of_keys(largest, key),
            items,
            seen,
            row,
        ) == Some((place, anchor, count, rest))
}

/// Whether, by every function that `f` computes, a pass over the first
/// `seen` items needs a coin.
#[verifier::opaque]
pub open spec fn pass_key_needs_coin<T, B: Ord, F: Fn(&T) -> B>(
    f: F,
    largest: bool,
    items: Seq<T>,
    seen: int,
) -> bool {
    forall|key: spec_fn(T) -> B| #[trigger]
        computes_key(f, key) && obeys_cmp::<B>() ==> best_run(
            true,
            tie_of_keys(key),
            beat_of_keys(largest, key),
            items,
            seen,
            Seq::<bool>::empty(),
        ) is None
}

/// Whether a pass over `items`, on the coins of `words`, holds `item` at
/// its end by every function that `f` computes, where the keys obey the
/// laws of `Ord`.
pub open spec fn held_by_key<T, B: Ord, F: Fn(&T) -> B>(
    f: F,
    largest: bool,
    items: Seq<T>,
    words: Seq<u32>,
    item: T,
) -> bool {
    forall|key: spec_fn(T) -> B| #[trigger]
        computes_key(f, key) && obeys_cmp::<B>() ==> holds_by_key(largest, key, items, words, item)
}

/// Whether `item` is what a pass over `items` by their keys holds at its
/// end, on the coins of words that the source `source` gives one after
/// the other, going on as `source_after`.
pub open spec fn chosen_by_key<T, B: Ord, R: RandomSource, F: Fn(&T) -> B>(
    f: F,
    largest: bool,
    items: Seq<T>,
    source: R,
    source_after: R,
    item: T,
) -> bool {
    exists|words: Seq<u32>|
        gives_words(source, words, source_after) && #[trigger] held_by_key(
            f,
            largest,
            items,
            words,
            item,
        )
}

/// A pass over one item holds it, compares with its key and has read no
/// coin.
pub proof fn lemma_pass_key_start<T, B: Ord, F: Fn(&T) -> B>(
    f: F,
    largest: bool,
    items: Seq<T>,
    row: Seq<bool>,
    first_key: B,
)
    requires
        call_ensures(f, (&items[0],), first_key),
    ensures
        pass_key_is(f, largest, items, 1, row, 0, 0, 1, row, first_key),
{
    reveal(pass_key_is);
}

/// A pass goes on over an item whose key ties with the key it is compared
/// with: the item is counted, and the decision for the count says whether
/// it is held from now on.
pub proof fn lemma_pass_key_tie<T, B: Ord, F: Fn(&T) -> B>(
    f: F,
    largest: bool,
    items: Seq<T>,
    seen: int,
    row: Seq<bool>,
    more: Seq<bool>,
    place: int,
    anchor: int,
    count: usize,
    cache: Seq<bool>,
    current_key: B,
    item_key: B,
    take: bool,
    left: Seq<bool>,
)
    requires
        seen >= 1,
        pass_key_is(f, largest, items, seen, row, place, anchor, count, cache, current_key),
        call_ensures(f, (&items[seen],), item_key),
        B::obeys_cmp_spec() ==> item_key.cmp_spec(&current_key) == Ordering::Equal,
        one_over_run(to_nat(one_more(count)), cache + more, retry_budget()) == Some((take, left)),
    ensures
        pass_key_is(
            f,
            largest,
            items,
            seen + 1,
            row + more,
            if take {
                seen
            } else {
                place
            },
            anchor,
            one_more(count),
            left,
            current_key,
        ),
{
    reveal(pass_key_is);
    reveal(obeys_cmp_ord);
    assert forall|key: spec_fn(T) -> B| #[trigger]
        computes_key(f, key) && obeys_cmp::<B>() implies key(items[anchor]) == current_key
        && best_run(
        true,
        tie_of_keys(key),
        beat_of_keys(largest, key),
        items,
        seen + 1,
        row + more,
    ) == Some(
        (
            if take {
                seen
            } else {
                place
            },
            anchor,
            one_more(count),
            left,
        ),
    ) by {
        assert(key(items[seen]) == item_key);
        lemma_best_run_tie(
            true,
            tie_of_keys(key),
            beat_of_keys(largest, key),
            items,
            seen,
            row,
            more,
            take,
            left,
        );
    }
}

/// A pass goes on over an item whose key does not tie with the key it is
/// compared with: the item is held from now on where its key is better,
/// and no coin is read.
pub proof fn lemma_pass_key_plain<T, B: Ord, F: Fn(&T) -> B>(
    f: F,
    largest: bool,
    items: Seq<T>,
    seen: int,
    row: Seq<bool>,
    place: int,
    anchor: int,
    count: usize,
    cache: Seq<bool>,
    current_key: B,
    item_key: B,
    answer: Ordering,
)
    requires
        seen >= 1,
        pass_key_is(f, largest, items, seen, row, place, anchor, count, cache, current_key),
        call_ensures(f, (&items[seen],), item_key),
        B::obeys_cmp_spec() ==> item_key.cmp_spec(&current_key) == answer,
        answer != Ordering::Equal,
    ensures
        pass_key_is(
            f,
            largest,
            items,
            seen + 1,
            row,
            if better(largest, answer) {
                seen
            } else {
                place
            },
            if better(largest, answer) {
                seen
            } else {
                anchor
            },
            if better(largest, answer) {
                1
            } else {
                count
            },
            cache,
            if better(largest, answer) {
                item_key
            } else {
                current_key
            },
        ),
{
    reveal(pass_key_is);
    reveal(obeys_cmp_ord);
    assert forall|key: spec_fn(T) -> B| #[trigger]
        computes_key(f, key) && obeys_cmp::<B>() implies key(
        items[if better(largest, answer) {
            seen
        } else {
            anchor
        }],
    ) == (if better(largest, answer) {
        item_key
    } else {
        current_key
    }) && best_run(true, tie_of_keys(key), beat_of_keys(largest, key), items, seen + 1, row)
        == Some(
        (
            if better(largest, answer) {
                seen
            } else {
                place
            },
            if better(largest, answer) {
                seen
            } else {
                anchor
            },
            if better(largest, answer) {
                1usize
            } else {
                count
            },
            cache,
        ),
    ) by {
        assert(key(items[seen]) == item_key);
        lemma_best_run_plain(
            true,
            tie_of_keys(key),
            beat_of_keys(largest, key),
            items,
            seen,
            row,
        );
    }
}

/// A pass that comes to its first tie needs a coin from then on.
pub proof fn lemma_pass_key_first_tie<T, B: Ord, F: Fn(&T) -> B>(
    f: F,
    largest: bool,
    items: Seq<T>,
    seen: int,
    place: int,
    anchor: int,
    count: usize,
    current_key: B,
    item_key: B,
)
    requires
        seen >= 1,
        count >= 1,
        pass_key_is(
            f,
            largest,
            items,
            seen,
            Seq::<bool>::empty(),
            place,
            anchor,
            count,
            Seq::<bool>::empty(),
            current_key,
        ),
        call_ensures(f, (&items[seen],), item_key),
        B::obeys_cmp_spec() ==> item_key.cmp_spec(&current_key) == Ordering::Equal,
    ensures
        pass_key_needs_coin(f, largest, items, seen + 1),
{
    reveal(pass_key_is);
    reveal(pass_key_needs_coin);
    reveal(obeys_cmp_ord);
    assert forall|key: spec_fn(T) -> B| #[trigger]
        computes_key(f, key) && obeys_cmp::<B>() implies best_run(
        true,
        tie_of_keys(key),
        beat_of_keys(largest, key),
        items,
        seen + 1,
        Seq::<bool>::empty(),
    ) is None by {
        assert(key(items[seen]) == item_key);
        lemma_best_run_tie_needs_coin(
            true,
            tie_of_keys(key),
            beat_of_keys(largest, key),
            items,
            seen,
        );
    }
}

/// A pass that needs a coin needs it whatever items follow.
pub proof fn lemma_pass_key_still_needs_coin<T, B: Ord, F: Fn(&T) -> B>(
    f: F,
    largest: bool,
    items: Seq<T>,
    seen: int,
)
    requires
        seen >= 1,
        pass_key_needs_coin(f, largest, items, seen),
    ensures
        pass_key_needs_coin(f, largest, items, seen + 1),
{
    reveal(pass_key_needs_coin);
    assert forall|key: spec_fn(T) -> B| #[trigger]
        computes_key(f, key) && obeys_cmp::<B>() implies best_run(
        true,
        tie_of_keys(key),
        beat_of_keys(largest, key),
        items,
        seen + 1,
        Seq::<bool>::empty(),
    ) is None by {
        assert(best_run(
            true,
            tie_of_keys(key),
            beat_of_keys(largest, key),
            items,
            seen,
            Seq::<bool>::empty(),
        ) is None);
    }
}

/// At its end a pass by keys holds an item as `holds_by_key` says.
pub proof fn lemma_pass_key_end<T, B: Ord, F: Fn(&T) -> B>(
    f: F,
    largest: bool,
    items: Seq<T>,
    words: Seq<u32>,
    place: int,
    anchor: int,
    count: usize,
    rest: Seq<bool>,
    current_key: B,
    item: T,
)
    requires
        pass_key_is(
            f,
            largest,
            items,
            len_of(items),
            words_coins(words),
            place,
            anchor,
            count,
            rest,
            current_key,
        ),
        item == items[place],
    ensures
        held_by_key(f, largest, items, words, item),
{
    reveal(pass_key_is);
}

/// A pass by keys that needs a coin at its end is no pass that reads no
/// coin.
pub proof fn lemma_pass_key_coin_end<T, B: Ord, F: Fn(&T) -> B>(
    f: F,
    largest: bool,
    items: Seq<T>,
)
    requires
        pass_key_needs_coin(f, largest, items, len_of(items)),
    ensures
        forall|key: spec_fn(T) -> B| #[trigger]
            computes_key(f, key) && obeys_cmp::<B>() ==> !needs_no_coin_by_key(
                largest,
                key,
                items,
            ),
{
    reveal(pass_key_needs_coin);
}

/// Whether `item` is what a pass over `items` holds at its end, on the
/// coins of words that the source `source` gives one after the other,
/// going on as `source_after`.
pub open spec fn chosen_by<T, R: RandomSource, F: Fn(&T, &T) -> Ordering>(
    compare: F,
    largest: bool,
    items: Seq<T>,
    source: R,
    source_after: R,
    item: T,
) -> bool {
    exists|words: Seq<u32>|
        gives_words(source, words, source_after) && #[trigger] held_by(
            compare,
            largest,
            items,
            words,
            item,
        )
}

/// At its end a pass holds an item as `holds_by` says, by every order
/// that `compare` computes.
pub proof fn lemma_pass_by_end<T, F: Fn(&T, &T) -> Ordering>(
    compare: F,
    largest: bool,
    items: Seq<T>,
    words: Seq<u32>,
    place: int,
    count: usize,
    rest: Seq<bool>,
    item: T,
)
    requires
        pass_by_is(
            compare,
            largest,
            items,
            len_of(items),
            words_coins(words),
            place,
            count,
            rest,
        ),
        item == items[place],
    ensures
        held_by(compare, largest, items, words, item),
{
    reveal(pass_by_is);
}

/// A pass that needs a coin at its end is no pass that reads no coin.
pub proof fn lemma_pass_by_coin_end<T, F: Fn(&T, &T) -> Ordering>(
    compare: F,
    largest: bool,
    items: Seq<T>,
)
    requires
        pass_by_needs_coin(compare, largest, items, len_of(items)),
    ensures
        forall|order: spec_fn(T, T) -> Ordering| #[trigger]
            computes_order(compare, order) ==> !needs_no_coin_by(largest, order, items),
{
    reveal(pass_by_needs_coin);
}

/// A random one of the best items by `compare`: the greatest where `MAX`
/// is set, the least where it is not.
///
/// Where `compare` computes a total order, no item is better than the one
/// that comes back. Which of the best items comes back is what `holds_by`
/// says on the coins of the words that the source gives; a pass without a
/// tie leaves the source alone.
#[verifier::rlimit(100)]
pub fn choose_best_by<
    I: Sequence,
    R: RandomSource,
    F: Fn(&I::Item, &I::Item) -> Ordering,
    const MAX: bool,
>(iterator: I, rng: &mut R, compare: F) -> (best: Option<I::Item>)
    requires
        compares_all(compare),
    ensures
        best is None <==> iterator.remaining().len() == 0,
        best matches Some(item) ==> iterator.remaining().contains(item),
        best matches Some(item) ==> forall|order: spec_fn(I::Item, I::Item) -> Ordering| #[trigger]
            computes_order(compare, order) && is_total_order(order) ==> best_by(
                MAX,
                order,
                iterator.remaining(),
                item,
            ),
        best matches Some(item) ==> chosen_by(
            compare,
            MAX,
            iterator.remaining(),
            *old(rng),
            *final(rng),
            item,
        ),
        forall|order: spec_fn(I::Item, I::Item) -> Ordering| #[trigger]
            computes_order(compare, order) && needs_no_coin_by(MAX, order, iterator.remaining())
                ==> *final(rng) == *old(rng),
        best is None ==> *final(rng) == *old(rng),
{
    let mut sequence = iterator;
    let ghost items = sequence.remaining();
    let first = match sequence.next() {
        Some(first) => first,
        None => {
            return None;
        },
    };
    let mut current = first;
    let ghost start = *rng;
    let mut coin_flipper = CoinFlipper::new(rng);
    let mut consumed: usize = 1;
    let ghost mut seen: int = 1;
    let ghost mut place: int = 0;
    let ghost mut words: Seq<u32> = Seq::empty();
    let ghost mut tied: bool = false;
    proof {
        assert(items.skip(1) =~= items.skip(seen));
        assert(words_coins(words) =~= Seq::<bool>::empty());
        lemma_pass_by_start(compare, MAX, items, Seq::<bool>::empty());
        assert forall|order: spec_fn(I::Item, I::Item) -> Ordering| #[trigger]
            computes_order(compare, order) && is_total_order(order) implies best_by(
            MAX,
            order,
            items.take(seen),
            current,
        ) by {
            assert(order(current, current) != Ordering::Greater);
            assert(order(current, current) != Ordering::Less);
        }
    }

    loop
        invariant
            coin_flipper.wf(),
            compares_all(compare),
            consumed > 0,
            items == iterator.remaining(),
            1 <= seen <= items.len(),
            sequence.remaining() == items.skip(seen),
            items.contains(current),
            0 <= place < seen,
            current == items[place],
            gives_words(start, words, coin_flipper.source()),
            start == *old(rng),
            after_borrow(*rng) == *final(coin_flipper.rng),
            !tied ==> words.len() == 0 && coin_flipper@.len() == 0,
            pass_by_is(
                compare,
                MAX,
                items,
                seen,
                words_coins(words),
                place,
                consumed,
                coin_flipper@,
            ),
            tied ==> pass_by_needs_coin(compare, MAX, items, seen),
            forall|order: spec_fn(I::Item, I::Item) -> Ordering| #[trigger]
                computes_order(compare, order) && is_total_order(order) ==> best_by(
                    MAX,
                    order,
                    items.take(seen),
                    current,
                ),
        decreases items.len() - seen,
    {
        let item = match sequence.next() {
            Some(item) => item,
            None => {
                let ghost mut end = start;
                proof {
                    assert(items.take(seen) =~= items);
                    assert(len_of(items) == seen);
                    end = coin_flipper.source();
                    lemma_pass_by_end(
                        compare,
                        MAX,
                        items,
                        words,
                        place,
                        consumed,
                        coin_flipper@,
                        current,
                    );
                    if tied {
                        lemma_pass_by_coin_end(compare, MAX, items);
                    } else {
                        assert(words =~= Seq::<u32>::empty());
                        assert(start == end);
                    }
                }
                proof {
                    assert(*rng == end);
                    assert(gives_words(*old(rng), words, *rng) && held_by(
                        compare,
                        MAX,
                        iterator.remaining(),
                        words,
                        current,
                    ));
                    assert(chosen_by(compare, MAX, iterator.remaining(), *old(rng), *rng, current));
                }
                return Some(current);
            },
        };
        let ghost held = current;
        let ghost was_place = place;
        let ghost was_count = consumed;
        let ghost was_tied = tied;
        let ghost drawn = words;
        let ghost cache = coin_flipper@;
        let ghost source = coin_flipper.source();
        let ghost mut more: Seq<u32> = Seq::empty();
        let ghost mut took: bool = false;
        proof {
            assert(item == items[seen]);
            assert(items.skip(seen).skip(1) =~= items.skip(seen + 1));
        }
        let answer = compare(&item, &current);
        match answer {
            Ordering::Equal => {
                consumed = consumed.saturating_add(1);
                let take = coin_flipper.gen_ratio_one_over(consumed);
                proof {
                    more = choose|more: Seq<u32>|
                        {
                            &&& gives_words(source, more, coin_flipper.source())
                            &&& one_over_run(
                                to_nat(consumed),
                                cache + #[trigger] words_coins(more),
                                retry_budget(),
                            ) == Some((take, coin_flipper@))
                        };
                    took = take;
                    lemma_gives_words_add(start, drawn, source, more, coin_flipper.source());
                    words = drawn + more;
                    tied = true;
                }
                if take {
                    current = item;
                    proof {
                        place = seen;
                    }
                }
            },
            ordering => {
                if MAX == matches!(ordering, Ordering::Greater) {
                    current = item;
                    consumed = 1;
                    proof {
                        place = seen;
                    }
                }
            },
        }
        proof {
            assert(call_ensures(compare, (&items[seen], &items[was_place]), answer));
            if answer == Ordering::Equal {
                lemma_words_coins_add(drawn, more);
                lemma_pass_by_tie(
                    compare,
                    MAX,
                    items,
                    seen,
                    words_coins(drawn),
                    words_coins(more),
                    was_place,
                    was_count,
                    cache,
                    took,
                    coin_flipper@,
                );
                if was_tied {
                    lemma_pass_by_still_needs_coin(compare, MAX, items, seen);
                } else {
                    assert(drawn =~= Seq::<u32>::empty());
                    assert(words_coins(drawn) =~= Seq::<bool>::empty());
                    assert(cache =~= Seq::<bool>::empty());
                    lemma_pass_by_first_tie(compare, MAX, items, seen, was_place, was_count);
                }
            } else {
                lemma_pass_by_plain(
                    compare,
                    MAX,
                    items,
                    seen,
                    words_coins(drawn),
                    was_place,
                    was_count,
                    cache,
                    answer,
                );
                if was_tied {
                    lemma_pass_by_still_needs_coin(compare, MAX, items, seen);
                }
            }
            assert forall|order: spec_fn(I::Item, I::Item) -> Ordering| #[trigger]
                computes_order(compare, order) && is_total_order(order) implies best_by(
                MAX,
                order,
                items.take(seen + 1),
                current,
            ) by {
                let next = items[seen];
                assert(best_by(MAX, order, items.take(seen), held));
                assert(order(next, next) != Ordering::Greater);
                assert(order(next, next) != Ordering::Less);
                assert(order(held, held) != Ordering::Greater);
                assert(order(held, held) != Ordering::Less);
                assert(order(held, next) == Ordering::Less <==> order(next, held)
                    == Ordering::Greater);
                assert(order(next, held) == Ordering::Less <==> order(held, next)
                    == Ordering::Greater);
                assert(!better(MAX, order(held, current)));
                assert(!better(MAX, order(next, current)));
                assert forall|i: int| 0 <= i < seen + 1 implies !better(
                    MAX,
                    order(#[trigger] items.take(seen + 1)[i], current),
                ) by {
                    if i < seen {
                        let other = items.take(seen)[i];
                        assert(!better(MAX, order(other, held)));
                        assert(order(other, held) == Ordering::Less <==> order(held, other)
                            == Ordering::Greater);
                        assert(order(held, current) == Ordering::Less <==> order(current, held)
                            == Ordering::Greater);
                        assert(order(other, current) == Ordering::Less <==> order(current, other)
                            == Ordering::Greater);
                        assert(order(current, held) != Ordering::Greater || order(held, current)
                            != Ordering::Greater);
                    }
                }
            }
            seen = seen + 1;
        }
    }
}

} // verus!
