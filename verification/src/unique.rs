//! One random representative for every key of a sequence, in one pass.
//!
//! The items that share a key form a group. The pass holds one item of
//! every group seen so far and counts the items of the group; each new item
//! of a group takes the place of the one held with probability one over
//! that count, so that every item of a group is held with the same
//! probability. A hash map finds the group of a key.

use crate::coin_flipper::CoinFlipper;
use crate::coins::lemma_words_coins_add;
use crate::coins::words_coins;
use crate::extremum::computes_key;
use crate::extremum::keys_all;
use crate::pass::lemma_one_over_run_longer;
use crate::pass::one_more;
use crate::pass::retry_budget;
use crate::ratio::one_over_run;
use crate::sequence::Sequence;
use crate::source::gives_words;
use crate::source::lemma_gives_words_add;
use crate::source::RandomSource;
use crate::source::RETRY_LIMIT;
use allocator_api2::alloc::Global;
use std::collections::hash_map::RandomState;
use vstd::prelude::*;

verus! {

/// The allocator `Global` of the crate allocator-api2. It is handed to
/// the hash map as it is.
#[verifier::external_type_specification]
#[verifier::external_body]
pub struct ExGlobal(Global);

/// For every key seen so far the place of its group: a `HashMap` of the
/// crate hashbrown from `u64` to `usize`.
#[verifier::external_body]
pub struct SlotIndex {
    inner: hashbrown::HashMap<u64, usize, RandomState, Global>,
}

/// The keys that a `SlotIndex` holds, each with its place.
pub uninterp spec fn slots(index: SlotIndex) -> Map<u64, usize>;

/// `RandomState::new` of std: a hasher with keys of its own. Nothing is
/// claimed of it.
#[verifier::external_body]
pub(crate) fn new_hash_builder() -> RandomState {
    RandomState::new()
}

/// The value `Global` of the crate allocator-api2: the allocator that
/// std uses.
#[verifier::external_body]
pub(crate) fn global_allocator() -> Global {
    Global
}

/// `HashMap::with_hasher_in` of hashbrown: a map that holds nothing yet.
#[verifier::external_body]
fn slot_index_with_hasher_in(hash_builder: RandomState, alloc: Global) -> (index: SlotIndex)
    ensures
        slots(index) == (Map::<u64, usize>::empty()),
{
    SlotIndex { inner: hashbrown::HashMap::with_hasher_in(hash_builder, alloc) }
}

/// `HashMap::get` of hashbrown: the place that is held for `key`, or
/// `None` where the map does not hold the key.
#[verifier::external_body]
fn slot_index_get(index: &SlotIndex, key: u64) -> (slot: Option<usize>)
    ensures
        slot == (if slots(*index).dom().contains(key) {
            Some(slots(*index)[key])
        } else {
            None
        }),
{
    index.inner.get(&key).copied()
}

/// `HashMap::insert` of hashbrown: afterwards the map holds `slot` for
/// `key` and is unchanged for every other key.
#[verifier::external_body]
fn slot_index_insert(index: &mut SlotIndex, key: u64, slot: usize)
    ensures
        slots(*final(index)) == slots(*old(index)).insert(key, slot),
{
    index.inner.insert(key, slot);
}

/// An item that carries the key by which it is told from others: two items
/// with the same key are taken for the same.
pub trait Keyed {
    /// The key of the item.
    fn key(&self) -> u64;
}

impl Keyed for u64 {
    fn key(&self) -> (k: u64)
        ensures
            k == *self,
    {
        *self
    }
}

impl Keyed for u32 {
    fn key(&self) -> (k: u64)
        ensures
            k == *self,
    {
        *self as u64
    }
}

impl Keyed for usize {
    fn key(&self) -> (k: u64)
        ensures
            k == *self,
    {
        *self as u64
    }
}

/// Whether `key` says which keys the items of a type carry: whatever
/// `Keyed::key` can return for an item is what `key` gives for it.
pub open spec fn keyed_by<T: Keyed>(key: spec_fn(T) -> u64) -> bool {
    forall|item: T, answer: u64| #[trigger]
        call_ensures(T::key, (&item,), answer) ==> answer == key(item)
}

/// The keys of `keys` without repetitions, each at the place of its first
/// occurrence.
pub open spec fn distinct(keys: Seq<u64>) -> Seq<u64>
    decreases keys.len(),
{
    if keys.len() == 0 {
        Seq::empty()
    } else {
        let front = distinct(keys.drop_last());
        if front.contains(keys.last()) {
            front
        } else {
            front.push(keys.last())
        }
    }
}

/// `distinct` holds the keys of the row it is made of, and no others.
pub proof fn lemma_distinct_same_keys(keys: Seq<u64>)
    ensures
        forall|key: u64| distinct(keys).contains(key) <==> keys.contains(key),
    decreases keys.len(),
{
    if keys.len() > 0 {
        let front = keys.drop_last();
        lemma_distinct_same_keys(front);
        assert forall|key: u64| distinct(keys).contains(key) <==> keys.contains(key) by {
            assert(distinct(front).contains(key) <==> front.contains(key));
            if keys.contains(key) {
                let i = choose|i: int| 0 <= i < keys.len() && keys[i] == key;
                if i < keys.len() - 1 {
                    assert(front[i] == key);
                    assert(front.contains(key));
                    let j = choose|j: int| 0 <= j < distinct(front).len() && distinct(front)[j] == key;
                    assert(distinct(keys)[j] == key);
                } else if !distinct(front).contains(key) {
                    assert(distinct(keys)[distinct(front).len() as int] == key);
                }
            }
            if distinct(keys).contains(key) {
                let j = choose|j: int| 0 <= j < distinct(keys).len() && distinct(keys)[j] == key;
                if j < distinct(front).len() {
                    assert(distinct(front)[j] == key);
                    assert(distinct(front).contains(key));
                    let i = choose|i: int| 0 <= i < front.len() && front[i] == key;
                    assert(keys[i] == key);
                } else {
                    assert(keys[keys.len() - 1] == key);
                }
            }
        }
    }
}

/// `distinct` holds no key twice.
pub proof fn lemma_distinct_no_duplicates(keys: Seq<u64>)
    ensures
        forall|i: int, j: int|
            0 <= i < j < distinct(keys).len() ==> distinct(keys)[i] != distinct(keys)[j],
    decreases keys.len(),
{
    if keys.len() > 0 {
        let front = distinct(keys.drop_last());
        lemma_distinct_no_duplicates(keys.drop_last());
        assert forall|i: int, j: int| 0 <= i < j < distinct(keys).len() implies distinct(keys)[i]
            != distinct(keys)[j] by {
            if j == front.len() {
                assert(front[i] == distinct(keys)[i]);
            }
        }
    }
}

/// One representative for every key: where the keys of the chosen items
/// are the distinct keys of the items, no two chosen items share a key,
/// and the keys of the chosen items are the keys of the items.
pub proof fn lemma_one_representative_per_key(keys: Seq<u64>, chosen: Seq<u64>)
    requires
        chosen == distinct(keys),
    ensures
        forall|i: int, j: int| 0 <= i < j < chosen.len() ==> chosen[i] != chosen[j],
        forall|key: u64| chosen.contains(key) <==> keys.contains(key),
{
    lemma_distinct_no_duplicates(keys);
    lemma_distinct_same_keys(keys);
}

/// `distinct` is never longer than the row it is made of.
pub proof fn lemma_distinct_len(keys: Seq<u64>)
    ensures
        distinct(keys).len() <= keys.len(),
    decreases keys.len(),
{
    if keys.len() > 0 {
        lemma_distinct_len(keys.drop_last());
    }
}

/// What a pass over items with the keys `keys` holds, on the coins `row`:
/// for every group, in the order in which the keys first occur, the place
/// of the item that stands for it and the number of its items, and the
/// coins left. `None` where the coins run out.
///
/// The first item of a group stands for it. A later item of the group is
/// counted, and stands for the group from then on where `one_over_run`
/// for the count says `true` on the coins left.
pub open spec fn groups_run(keys: Seq<u64>, row: Seq<bool>) -> Option<
    (Seq<int>, Seq<usize>, Seq<bool>),
>
    decreases keys.len(),
{
    if keys.len() == 0 {
        Some((Seq::empty(), Seq::empty(), row))
    } else {
        let front = keys.drop_last();
        let groups = distinct(front);
        match groups_run(front, row) {
            None => None,
            Some((places, counts, rest)) => {
                if groups.contains(keys.last()) {
                    let slot = groups.index_of(keys.last());
                    match one_over_run(one_more(counts[slot]) as nat, rest, retry_budget()) {
                        None => None,
                        Some((take, left)) => Some(
                            (
                                if take {
                                    places.update(slot, keys.len() - 1)
                                } else {
                                    places
                                },
                                counts.update(slot, one_more(counts[slot])),
                                left,
                            ),
                        ),
                    }
                } else {
                    Some((places.push(keys.len() - 1), counts.push(1usize), rest))
                }
            },
        }
    }
}

/// A pass that a row decides holds the same with more coins behind the
/// row, and leaves those coins alone.
pub proof fn lemma_groups_run_longer(keys: Seq<u64>, row: Seq<bool>, more: Seq<bool>)
    requires
        groups_run(keys, row) is Some,
    ensures
        groups_run(keys, row) matches Some((places, counts, rest)) && groups_run(keys, row + more)
            == Some((places, counts, rest + more)),
    decreases keys.len(),
{
    if keys.len() > 0 {
        let front = keys.drop_last();
        lemma_groups_run_longer(front, row, more);
        let (places, counts, rest) = groups_run(front, row)->0;
        if distinct(front).contains(keys.last()) {
            let slot = distinct(front).index_of(keys.last());
            lemma_one_over_run_longer(one_more(counts[slot]) as nat, rest, more, retry_budget());
        }
    }
}

/// An item with a new key: it stands for a new group, and no coin is read.
pub proof fn lemma_groups_run_new(keys: Seq<u64>, key: u64, row: Seq<bool>)
    requires
        groups_run(keys, row) is Some,
        !distinct(keys).contains(key),
    ensures
        groups_run(keys, row) matches Some((places, counts, rest)) && groups_run(
            keys.push(key),
            row,
        ) == Some((places.push(keys.len() as int), counts.push(1usize), rest)),
{
    assert(keys.push(key).drop_last() =~= keys);
}

/// One more item of the group at `slot`: it is counted, and the decision
/// for the count, on the coins left and the coins `more`, says whether it
/// stands for the group from now on.
pub proof fn lemma_groups_run_again(
    keys: Seq<u64>,
    key: u64,
    slot: int,
    row: Seq<bool>,
    more: Seq<bool>,
    take: bool,
    left: Seq<bool>,
)
    requires
        0 <= slot < distinct(keys).len(),
        distinct(keys)[slot] == key,
        groups_run(keys, row) matches Some((places, counts, cache)) && one_over_run(
            one_more(counts[slot]) as nat,
            cache + more,
            retry_budget(),
        ) == Some((take, left)),
    ensures
        groups_run(keys, row) matches Some((places, counts, cache)) && groups_run(
            keys.push(key),
            row + more,
        ) == Some(
            (
                if take {
                    places.update(slot, keys.len() as int)
                } else {
                    places
                },
                counts.update(slot, one_more(counts[slot])),
                left,
            ),
        ),
{
    assert(keys.push(key).drop_last() =~= keys);
    lemma_groups_run_longer(keys, row, more);
    lemma_distinct_no_duplicates(keys);
    assert(distinct(keys).contains(key));
    assert(distinct(keys).index_of(key) == slot);
}

/// Whether the pass over `items`, whose keys are `keys`, on the coins of
/// `words`, ends with the items `chosen` standing for the groups.
pub open spec fn groups_hold<T>(
    items: Seq<T>,
    keys: Seq<u64>,
    words: Seq<u32>,
    chosen: Seq<T>,
) -> bool {
    groups_run(keys, words_coins(words)) matches Some((places, counts, rest)) && places.len()
        == chosen.len() && forall|j: int|
        0 <= j < chosen.len() ==> 0 <= #[trigger] places[j] < items.len() && chosen[j]
            == items[places[j]]
}

/// Whether the pass over `items`, on the coins of `words`, ends with the
/// items `chosen` by every function that `get_key` computes.
pub open spec fn stand_by_key<T, F: Fn(&T) -> u64>(
    get_key: F,
    items: Seq<T>,
    words: Seq<u32>,
    chosen: Seq<T>,
) -> bool {
    forall|key: spec_fn(T) -> u64| #[trigger]
        computes_key(get_key, key) ==> groups_hold(items, items.map_values(key), words, chosen)
}

/// Whether `chosen` are the items that a pass over `items` ends with, on
/// the coins of words that the source `source` gives one after the other,
/// going on as `source_after`.
pub open spec fn chosen_for_keys<T, R: RandomSource, F: Fn(&T) -> u64>(
    get_key: F,
    items: Seq<T>,
    source: R,
    source_after: R,
    chosen: Seq<T>,
) -> bool {
    exists|words: Seq<u32>|
        gives_words(source, words, source_after) && #[trigger] stand_by_key(
            get_key,
            items,
            words,
            chosen,
        )
}

/// Whether the pass over `items`, on the coins of `words`, ends with the
/// items `chosen` by the keys that the items carry.
pub open spec fn stand<T: Keyed>(items: Seq<T>, words: Seq<u32>, chosen: Seq<T>) -> bool {
    forall|key: spec_fn(T) -> u64| #[trigger]
        keyed_by::<T>(key) ==> groups_hold(items, items.map_values(key), words, chosen)
}

/// `chosen_for_keys` for the keys that the items carry.
pub open spec fn chosen_for_own_keys<T: Keyed, R: RandomSource>(
    items: Seq<T>,
    source: R,
    source_after: R,
    chosen: Seq<T>,
) -> bool {
    exists|words: Seq<u32>|
        gives_words(source, words, source_after) && #[trigger] stand(items, words, chosen)
}

/// Whether no two of `keys` are the same.
pub open spec fn all_differ(keys: Seq<u64>) -> bool {
    distinct(keys).len() == keys.len()
}

/// One item for every key of the sequence, each of them a random one of
/// the items with that key. The groups are found by a hash map that is
/// made with `hash_builder` and `alloc`.
///
/// The representatives come in the order in which their keys first
/// occur: where `get_key` computes a function, their keys are the
/// distinct keys of the items.
pub fn choose_representatives<I: Sequence, R: RandomSource, F: Fn(&I::Item) -> u64>(
    iterator: I,
    rng: &mut R,
    get_key: F,
    hash_builder: RandomState,
    alloc: Global,
) -> (chosen: Vec<I::Item>)
    requires
        keys_all(get_key),
    ensures
        forall|j: int| 0 <= j < chosen.len() ==> iterator.remaining().contains(#[trigger] chosen[j]),
        chosen.len() <= iterator.remaining().len(),
        iterator.remaining().len() > 0 ==> chosen.len() > 0,
        forall|key: spec_fn(I::Item) -> u64| #[trigger]
            computes_key(get_key, key) ==> chosen@.map_values(key) == distinct(
                iterator.remaining().map_values(key),
            ),
        chosen_for_keys(get_key, iterator.remaining(), *old(rng), *final(rng), chosen@),
        iterator.remaining().len() == 0 ==> *final(rng) == *old(rng),
        forall|key: spec_fn(I::Item) -> u64| #[trigger]
            computes_key(get_key, key) && all_differ(iterator.remaining().map_values(key))
                ==> *final(rng) == *old(rng),
{
    let mut sequence = iterator;
    let mut index = slot_index_with_hasher_in(hash_builder, alloc);
    let ghost items = sequence.remaining();
    let mut representatives: Vec<I::Item> = Vec::new();
    let mut counts: Vec<usize> = Vec::new();
    let ghost start = *rng;
    let mut coin_flipper = CoinFlipper::new(rng);
    let ghost mut keys: Seq<u64> = Seq::empty();
    let ghost mut origin: Seq<int> = Seq::empty();
    let ghost mut words: Seq<u32> = Seq::empty();
    proof {
        assert(items.skip(0) =~= items);
        assert(words_coins(words) =~= Seq::<bool>::empty());
        assert(counts@ =~= Seq::<usize>::empty());
    }

    loop
        invariant
            coin_flipper.wf(),
            start == *old(rng),
            after_borrow(*rng) == *final(coin_flipper.rng),
            gives_words(start, words, coin_flipper.source()),
            all_differ(keys) ==> coin_flipper.source() == start,
            groups_run(keys, words_coins(words)) == Some((origin, counts@, coin_flipper@)),
            keys_all(get_key),
            items == iterator.remaining(),
            keys.len() <= items.len(),
            sequence.remaining() == items.skip(keys.len() as int),
            forall|i: int| 0 <= i < keys.len() ==> call_ensures(get_key, (&items[i],), #[trigger] keys[i]),
            representatives.len() == distinct(keys).len(),
            counts.len() == representatives.len(),
            origin.len() == representatives.len(),
            forall|j: int| 0 <= j < counts.len() ==> #[trigger] counts[j] > 0,
            forall|j: int|
                0 <= j < origin.len() ==> 0 <= #[trigger] origin[j] < keys.len()
                    && representatives[j] == items[origin[j]] && keys[origin[j]] == distinct(
                    keys,
                )[j],
            forall|key: u64| slots(index).dom().contains(key) <==> distinct(keys).contains(key),
            forall|j: int|
                0 <= j < distinct(keys).len() ==> slots(index)[#[trigger] distinct(keys)[j]] == j,
            keys.len() > 0 ==> representatives.len() > 0,
        ensures
            keys.len() == items.len(),
        decreases items.len() - keys.len(),
    {
        let element = match sequence.next() {
            Some(element) => element,
            None => {
                break ;
            },
        };
        let key = get_key(&element);
        let ghost seen = keys.len() as int;
        let ghost groups = distinct(keys);
        let ghost halfway = coin_flipper.source();
        let ghost cache = coin_flipper@;
        proof {
            assert(element == items[seen]);
            assert(items.skip(seen).skip(1) =~= items.skip(seen + 1));
            assert(keys.push(key).drop_last() =~= keys);
            lemma_distinct_len(keys);
        }
        match slot_index_get(&index, key) {
            Some(slot) => {
                proof {
                    assert(slots(index).dom().contains(key));
                    assert(groups.contains(key));
                    let j = choose|j: int| 0 <= j < groups.len() && groups[j] == key;
                    assert(slots(index)[groups[j]] == j);
                }
                let ghost counted = counts@;
                let new_count = counts[slot].saturating_add(1);
                counts.set(slot, new_count);
                let take = coin_flipper.gen_ratio_one_over(new_count);
                proof {
                    let more = choose|more: Seq<u32>|
                        gives_words(halfway, more, coin_flipper.source()) && one_over_run(
                            new_count as nat,
                            cache + #[trigger] words_coins(more),
                            RETRY_LIMIT as nat,
                        ) == Some((take, coin_flipper@));
                    assert(groups[slot as int] == key);
                    lemma_groups_run_again(
                        keys,
                        key,
                        slot as int,
                        words_coins(words),
                        words_coins(more),
                        take,
                        coin_flipper@,
                    );
                    lemma_words_coins_add(words, more);
                    lemma_gives_words_add(start, words, halfway, more, coin_flipper.source());
                    words = words + more;
                    assert(counts@ =~= counted.update(slot as int, one_more(counted[slot as int])));
                }
                if take {
                    representatives.set(slot, element);
                    proof {
                        origin = origin.update(slot as int, seen);
                    }
                }
            },
            None => {
                proof {
                    lemma_groups_run_new(keys, key, words_coins(words));
                }
                slot_index_insert(&mut index, key, representatives.len());
                representatives.push(element);
                counts.push(1);
                proof {
                    origin = origin.push(seen);
                }
            },
        }
        proof {
            keys = keys.push(key);
            assert forall|k: u64| slots(index).dom().contains(k) <==> distinct(keys).contains(
                k,
            ) by {
                if groups.contains(k) {
                    let j = choose|j: int| 0 <= j < groups.len() && groups[j] == k;
                    assert(distinct(keys)[j] == k);
                }
                if distinct(keys).contains(k) && k != key {
                    let j = choose|j: int| 0 <= j < distinct(keys).len() && distinct(keys)[j] == k;
                    assert(groups[j] == k);
                }
                if k == key && !groups.contains(key) {
                    assert(distinct(keys)[groups.len() as int] == key);
                }
            }
            assert forall|j: int| 0 <= j < distinct(keys).len() implies slots(index)[#[trigger] distinct(
                keys,
            )[j]] == j by {
                if j < groups.len() {
                    assert(groups[j] == distinct(keys)[j]);
                    assert(groups.contains(groups[j]));
                }
            }
            assert forall|j: int| 0 <= j < origin.len() implies 0 <= #[trigger] origin[j] < keys.len()
                && representatives[j] == items[origin[j]] && keys[origin[j]] == distinct(keys)[j] by {
                if j < groups.len() {
                    assert(groups[j] == distinct(keys)[j]);
                }
            }
        }
    }
    let ghost mut end = start;
    proof {
        end = coin_flipper.source();
    }
    proof {
        assert(*rng == end);
        assert forall|key: spec_fn(I::Item) -> u64| #[trigger]
            computes_key(get_key, key) implies items.map_values(key) == keys by {
            assert forall|i: int| 0 <= i < keys.len() implies key(items[i]) == keys[i] by {
                assert(call_ensures(get_key, (&items[i],), keys[i]));
            }
            assert(items.map_values(key) =~= keys);
        }
        assert(groups_hold(items, keys, words, representatives@));
        assert(stand_by_key(get_key, items, words, representatives@));
        assert(gives_words(*old(rng), words, *rng));
        assert(chosen_for_keys(get_key, items, *old(rng), *rng, representatives@));
        assert forall|j: int| 0 <= j < representatives.len() implies items.contains(
            #[trigger] representatives[j],
        ) by {
            assert(representatives[j] == items[origin[j]]);
        }
        assert forall|key: spec_fn(I::Item) -> u64| #[trigger]
            computes_key(get_key, key) implies representatives@.map_values(key) == distinct(
            items.map_values(key),
        ) by {
            assert forall|i: int| 0 <= i < keys.len() implies key(items[i]) == keys[i] by {
                assert(call_ensures(get_key, (&items[i],), keys[i]));
            }
            assert(items.map_values(key) =~= keys);
            assert forall|j: int| 0 <= j < representatives.len() implies key(representatives[j])
                == distinct(keys)[j] by {
                assert(representatives[j] == items[origin[j]]);
                assert(key(items[origin[j]]) == keys[origin[j]]);
            }
            assert(representatives@.map_values(key) =~= distinct(keys));
        }
        lemma_distinct_len(keys);
    }
    representatives
}

} // verus!
