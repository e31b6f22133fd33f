use kindness::Kindness;
use kindness::sequence::{Sequence, VecSequence};
use kindness::source::RandomSource;
use kindness::unique::Keyed;
use rand::rngs::StdRng;
use rand::SeedableRng;

const TRIALS: usize = 10000;

/// A sequence that knows nothing of its length.
struct Unhinted<I: Sequence>(I);

impl<I: Sequence> Sequence for Unhinted<I> {
    type Item = I::Item;

    fn next(&mut self) -> Option<Self::Item> {
        self.0.next()
    }

    fn size_hint(&self) -> (usize, Option<usize>) {
        (0, None)
    }
}

/// A sequence that knows of at most `window` of the items it still holds.
struct Windowed {
    next: usize,
    end: usize,
    window: usize,
}

impl Sequence for Windowed {
    type Item = usize;

    fn next(&mut self) -> Option<usize> {
        if self.next < self.end {
            self.next += 1;
            Some(self.next - 1)
        } else {
            None
        }
    }

    fn size_hint(&self) -> (usize, Option<usize>) {
        (core::cmp::min(self.end - self.next, self.window), None)
    }
}

/// A sequence that knows of at most `window` of its items, and says so
/// when they are the last.
struct Closing {
    next: usize,
    end: usize,
    window: usize,
}

impl Sequence for Closing {
    type Item = usize;

    fn next(&mut self) -> Option<usize> {
        if self.next < self.end {
            self.next += 1;
            Some(self.next - 1)
        } else {
            None
        }
    }

    fn size_hint(&self) -> (usize, Option<usize>) {
        let left = self.end - self.next;
        if left <= self.window {
            (left, Some(left))
        } else {
            (self.window, None)
        }
    }
}

struct CountingRng<Inner: RandomSource> {
    pub rng: Inner,
    pub count: usize,
}

impl<Inner: RandomSource> RandomSource for CountingRng<Inner> {
    fn next_u32(&mut self) -> u32 {
        self.count += 1;
        self.rng.next_u32()
    }

    fn below_u32(&mut self, bound: u32) -> u32 {
        self.count += 1;
        self.rng.below_u32(bound)
    }

    fn below_u64(&mut self, bound: u64) -> u64 {
        self.count += 1;
        self.rng.below_u64(bound)
    }

    fn below_usize(&mut self, bound: usize) -> usize {
        self.count += 1;
        self.rng.below_usize(bound)
    }
}

fn get_rng() -> CountingRng<StdRng> {
    CountingRng { rng: StdRng::seed_from_u64(123), count: 0 }
}

fn numbers(n: usize) -> VecSequence<usize> {
    VecSequence::new((0..n).collect())
}

/// Whether every one of `n` counts that add up to `TRIALS` is within
/// `percent` of the mean.
fn assert_uniform(counts: &[usize], percent: usize) {
    let mean = TRIALS / counts.len();
    for count in counts {
        assert!(*count * 100 >= mean * (100 - percent));
        assert!(*count * 100 <= mean * (100 + percent));
    }
}

#[test]
fn choose_item_is_uniform_with_an_exact_length() {
    for (n, percent) in [(1, 0), (2, 5), (10, 15), (100, 40), (1000, 0)] {
        let mut rng = get_rng();
        let mut counts = vec![0usize; n];
        for _ in 0..TRIALS {
            counts[numbers(n).choose_item(&mut rng).unwrap()] += 1;
        }
        if n == 1000 {
            // Ten draws for every item on average: none gets many more,
            // and hardly any gets none.
            assert!(counts.iter().all(|c| *c <= 30));
            assert!(counts.iter().filter(|c| **c == 0).count() < 5);
        } else {
            assert_uniform(&counts, percent);
        }
        // One index for every sequence, whatever its length.
        assert_eq!(rng.count, TRIALS);
    }
}

#[test]
fn choose_item_is_uniform_without_a_hint() {
    for (n, percent) in [(1, 0), (2, 5), (10, 15), (100, 40), (1000, 0)] {
        let mut rng = get_rng();
        let mut counts = vec![0usize; n];
        for _ in 0..TRIALS {
            counts[Unhinted(numbers(n)).choose_item(&mut rng).unwrap()] += 1;
        }
        if n == 1000 {
            // Ten draws for every item on average: none gets many more,
            // and hardly any gets none.
            assert!(counts.iter().all(|c| *c <= 30));
            assert!(counts.iter().filter(|c| **c == 0).count() < 5);
        } else {
            assert_uniform(&counts, percent);
        }
        // Far less than two words for every item.
        assert!(rng.count < 2 * n * TRIALS);
        assert!(rng.count * 4 < n * TRIALS || n < 4);
    }
}

#[test]
fn choose_item_is_uniform_with_a_window() {
    for window in [1usize, 2, 3, 7, 10, 64] {
        let mut rng = get_rng();
        let mut counts = vec![0usize; 10];
        for _ in 0..TRIALS {
            let sequence = Windowed { next: 0, end: 10, window };
            counts[sequence.choose_item(&mut rng).unwrap()] += 1;
        }
        assert_uniform(&counts, 15);
    }
}

#[test]
fn choose_item_is_uniform_with_a_closing_window() {
    for window in [2usize, 3, 7, 9] {
        let mut rng = get_rng();
        let mut counts = vec![0usize; 10];
        for _ in 0..TRIALS {
            let sequence = Closing { next: 0, end: 10, window };
            counts[sequence.choose_item(&mut rng).unwrap()] += 1;
        }
        assert_uniform(&counts, 15);
    }
}

#[test]
fn choose_item_of_one_item() {
    let mut rng = get_rng();
    assert_eq!(numbers(1).choose_item(&mut rng), Some(0));
    assert_eq!(Unhinted(numbers(1)).choose_item(&mut rng), Some(0));
    assert_eq!(Windowed { next: 5, end: 6, window: 3 }.choose_item(&mut rng), Some(5));
}

#[test]
fn nothing_is_chosen_from_nothing() {
    let mut rng = get_rng();
    let empty = || VecSequence::new(Vec::<u64>::new());
    assert_eq!(empty().choose_item(&mut rng), None);
    assert_eq!(Unhinted(empty()).choose_item(&mut rng), None);
    assert_eq!(empty().choose_max(&mut rng), None);
    assert_eq!(empty().choose_min(&mut rng), None);
    assert_eq!(empty().choose_max_by(&mut rng, |a, b| a.cmp(b)), None);
    assert_eq!(empty().choose_min_by(&mut rng, |a, b| a.cmp(b)), None);
    assert_eq!(empty().choose_max_by_key(&mut rng, |a| *a), None);
    assert_eq!(empty().choose_min_by_key(&mut rng, |a| *a), None);
    assert_eq!(empty().choose_unique(&mut rng), Vec::<u64>::new());
    assert_eq!(empty().choose_unique_by_key(&mut rng, |a| *a), Vec::<u64>::new());
    assert_eq!(rng.count, 0);
}

#[test]
fn choose_max_of_the_documented_example() {
    let mut rng = StdRng::seed_from_u64(123);
    let m = VecSequence::new(vec![3, 2, 1, 2, 3]).choose_max(&mut rng).unwrap();
    assert_eq!(m, 3)
}

#[test]
fn choose_min_of_the_documented_example() {
    let mut rng = StdRng::seed_from_u64(123);
    let m = VecSequence::new(vec![3, 2, 1, 2, 3]).choose_min(&mut rng).unwrap();
    assert_eq!(m, 1)
}

#[test]
fn choose_max_is_fair_among_the_largest() {
    // Items are (key, place): the key 7 is the largest, at three places.
    let items = vec![(7, 0), (1, 1), (7, 2), (3, 3), (0, 4), (7, 5), (6, 6)];
    let mut rng = get_rng();
    let mut counts = [0usize; 7];
    for _ in 0..TRIALS {
        let best = VecSequence::new(items.clone()).choose_max_by_key(&mut rng, |item| item.0);
        counts[best.unwrap().1] += 1;
    }
    for (place, count) in counts.iter().enumerate() {
        if items[place].0 == 7 {
            assert!(*count > 3100);
            assert!(*count < 3550);
        } else {
            assert_eq!(*count, 0);
        }
    }
}

#[test]
fn choose_min_is_fair_among_the_smallest() {
    let items = vec![(7usize, 0usize), (1, 1), (7, 2), (1, 3), (2, 4), (7, 5), (6, 6)];
    let mut rng = get_rng();
    let mut counts = [0usize; 7];
    for _ in 0..TRIALS {
        let best = VecSequence::new(items.clone())
            .choose_min_by(&mut rng, |a, b| a.0.cmp(&b.0));
        counts[best.unwrap().1] += 1;
    }
    for (place, count) in counts.iter().enumerate() {
        if items[place].0 == 1 {
            assert!(*count > 4750);
            assert!(*count < 5250);
        } else {
            assert_eq!(*count, 0);
        }
    }
}

#[test]
fn choose_max_of_distinct_items_uses_no_randomness() {
    let mut rng = get_rng();
    assert_eq!(numbers(100).choose_max(&mut rng), Some(99));
    assert_eq!(numbers(100).choose_min(&mut rng), Some(0));
    assert_eq!(Unhinted(numbers(100)).choose_max_by_key(&mut rng, |x| 1000 - *x), Some(0));
    assert_eq!(rng.count, 0);
}

#[derive(Debug, Clone, Copy, PartialEq)]
struct Tagged(u64, usize);

impl Keyed for Tagged {
    fn key(&self) -> u64 {
        self.0
    }
}

#[test]
fn choose_unique_has_one_item_for_every_key() {
    // Keys in the order of their first occurrence: 5, 9, 0.
    let items = vec![
        Tagged(5, 0), Tagged(9, 1), Tagged(5, 2), Tagged(0, 3),
        Tagged(5, 4), Tagged(9, 5), Tagged(5, 6),
    ];
    let mut rng = get_rng();
    let mut counts = [0usize; 7];
    for _ in 0..TRIALS {
        let chosen = VecSequence::new(items.clone()).choose_unique(&mut rng);
        assert_eq!(chosen.len(), 3);
        assert_eq!(chosen[0].0, 5);
        assert_eq!(chosen[1].0, 9);
        assert_eq!(chosen[2].0, 0);
        for item in chosen {
            assert_eq!(items[item.1], item);
            counts[item.1] += 1;
        }
    }
    // Every item of a group is the one chosen equally often.
    for place in [0, 2, 4, 6] {
        assert!(counts[place] > 2300);
        assert!(counts[place] < 2700);
    }
    for place in [1, 5] {
        assert!(counts[place] > 4750);
        assert!(counts[place] < 5250);
    }
    assert_eq!(counts[3], TRIALS);
}

#[test]
fn choose_unique_by_key_has_one_item_for_every_key() {
    let mut rng = get_rng();
    for _ in 0..100 {
        let chosen = Unhinted(numbers(95)).choose_unique_by_key(&mut rng, |x| (*x % 10) as u64);
        assert_eq!(chosen.len(), 10);
        for (key, item) in chosen.iter().enumerate() {
            assert!(*item < 95);
            assert_eq!(*item % 10, key);
        }
    }
}

#[test]
fn choose_unique_of_distinct_items_is_the_items() {
    let mut rng = get_rng();
    let items: Vec<u64> = vec![4, 8, 15, 16, 23, 42];
    assert_eq!(VecSequence::new(items.clone()).choose_unique(&mut rng), items);
    let places: Vec<usize> = vec![3, 1, 2];
    assert_eq!(VecSequence::new(places.clone()).choose_unique(&mut rng), places);
    let words: Vec<u32> = vec![7, 7, 7];
    assert_eq!(VecSequence::new(words).choose_unique(&mut rng).len(), 1);
}

#[test]
fn vec_sequence_is_read_front_to_back() {
    let mut sequence = VecSequence::new(vec![10, 20, 30, 40, 50]);
    assert_eq!(sequence.size_hint(), (5, Some(5)));
    assert_eq!(sequence.next(), Some(10));
    assert_eq!(sequence.size_hint(), (4, Some(4)));
    assert_eq!(sequence.nth(0), Some(20));
    assert_eq!(sequence.nth(1), Some(40));
    assert_eq!(sequence.size_hint(), (1, Some(1)));
    assert_eq!(sequence.nth(1), None);
    assert_eq!(sequence.size_hint(), (0, Some(0)));
    assert_eq!(sequence.next(), None);
    assert_eq!(sequence.nth(0), None);
}

#[test]
fn a_sequence_without_hint_passes_over_items_one_by_one() {
    let mut sequence = Unhinted(VecSequence::new(vec![10, 20, 30, 40, 50]));
    assert_eq!(sequence.size_hint(), (0, None));
    assert_eq!(sequence.nth(1), Some(20));
    assert_eq!(sequence.nth(0), Some(30));
    assert_eq!(sequence.nth(5), None);
    assert_eq!(sequence.next(), None);
}

#[test]
fn choose_unique_with_a_hasher_and_an_allocator() {
    let mut rng = get_rng();
    let items: Vec<u64> = vec![4, 8, 4, 15, 8, 4];
    let hash_builder = std::collections::hash_map::RandomState::new();
    let chosen = VecSequence::new(items.clone()).choose_unique_with_hasher_in(
        &mut rng,
        hash_builder,
        allocator_api2::alloc::Global,
    );
    assert_eq!(chosen, vec![4, 8, 15]);

    let hash_builder = std::collections::hash_map::RandomState::new();
    let chosen = VecSequence::new(items).choose_unique_by_key_with_hasher_in(
        &mut rng,
        |item| *item % 2,
        hash_builder,
        allocator_api2::alloc::Global,
    );
    assert_eq!(chosen.len(), 2);
    assert_eq!(chosen[0] % 2, 0);
    assert_eq!(chosen[1], 15);
}
