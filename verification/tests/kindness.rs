use kindness::Kindness;
use kindness::sequence::{Sequence, VecSequence};
use kindness::source::RandomSource;
use kindness::unique::Keyed;
use rand::rngs::StdRng;
use rand::SeedableRng;

const RUNS: usize = 10000;
const LENGTH: usize = 100;
const LOWER_TOLERANCE: usize = 60;
const UPPER_TOLERANCE: usize = 140;

#[test]
fn test_choose_max_empty() {
    let vec: Vec<u8> = vec![];
    let mut rng = get_rng();
    let r = VecSequence::new(vec).choose_max(&mut rng);
    assert_eq!(r, None)
}

#[test]
fn test_choose_max_by_key_empty() {
    let vec: Vec<u8> = vec![];
    let mut rng = get_rng();
    let r = VecSequence::new(vec).choose_max_by_key(&mut rng, |x| *x);
    assert_eq!(r, None)
}

#[test]
fn test_choose_unique() {
    let mut counts: [usize; LENGTH] = [0; LENGTH];
    let mut rng = get_rng();

    for _ in 0..RUNS {
        let range = rough_numbers();
        let elements = range.choose_unique(&mut rng);

        for x in elements {
            counts[x.0] += 1;
        }
    }

    for x in counts {
        assert!(x > LOWER_TOLERANCE * 10);
        assert!(x < UPPER_TOLERANCE * 10);
    }
}

#[test]
fn test_choose_unique_by_key() {
    let mut counts: [usize; LENGTH] = [0; LENGTH];
    let mut rng = get_rng();

    for _ in 0..RUNS {
        let range = numbers();
        let elements = range.choose_unique_by_key(&mut rng, |x| (x / 10) as u64);

        for x in elements {
            counts[x] += 1;
        }
    }

    for x in counts {
        assert!(x > LOWER_TOLERANCE * 10);
        assert!(x < UPPER_TOLERANCE * 10);
    }
}

#[test]
fn test_choose_item_empty() {
    let vec: Vec<usize> = vec![];
    let mut rng = get_rng();

    let item = VecSequence::new(vec).choose_item(&mut rng);
    assert_eq!(item, None);
}

#[test]
fn test_random_element_with_size_hint() {
    let mut counts: [usize; LENGTH] = [0; LENGTH];
    let mut rng = get_rng();

    for _ in 0..RUNS {
        let range = numbers();
        assert_eq!((LENGTH, Some(LENGTH)), range.size_hint());
        let element = range.choose_item(&mut rng).unwrap();
        counts[element] += 1;
    }

    for x in counts {
        assert!(x > LOWER_TOLERANCE);
        assert!(x < UPPER_TOLERANCE);
    }

    // One index is drawn for every sequence, and nothing else.
    assert_contains(RUNS..(RUNS * 2), &rng.count);
}

#[test]
fn test_random_element_unhinted() {
    let mut counts: [usize; LENGTH] = [0; LENGTH];
    let mut rng = get_rng();

    for _ in 0..RUNS {
        let range = UnhintedIterator(numbers());
        assert_eq!((0, None), range.size_hint());
        let element = range.choose_item(&mut rng).unwrap();
        counts[element] += 1;
    }

    for x in counts {
        assert!(x > LOWER_TOLERANCE);
        assert!(x < UPPER_TOLERANCE);
    }
}

#[test]
fn test_random_element_windowed() {
    let mut counts: [usize; LENGTH] = [0; LENGTH];
    let mut rng = get_rng();

    for _ in 0..RUNS {
        let range = UnhintedIterator(numbers());
        assert_eq!((0, None), range.size_hint());
        let element = range.choose_item(&mut rng).unwrap();
        counts[element] += 1;
    }

    for x in counts {
        assert!(x > LOWER_TOLERANCE);
        assert!(x < UPPER_TOLERANCE);
    }
}

#[test]
fn test_random_max() {
    let mut counts: [usize; LENGTH] = [0; LENGTH];
    let mut rng = get_rng();

    for _ in 0..RUNS {
        let range = rough_numbers();
        let max = range.choose_max(&mut rng).unwrap();
        counts[max.0] += 1;
    }

    for (i, &x) in counts.iter().enumerate() {
        if i < 90 {
            assert!(x == 0)
        } else {
            assert!(x > LOWER_TOLERANCE * 10);
            assert!(x < UPPER_TOLERANCE * 10);
        }
    }
}

#[test]
fn test_random_max_by() {
    let mut counts: [usize; LENGTH] = [0; LENGTH];
    let mut rng = get_rng();

    for _ in 0..RUNS {
        let range = numbers();
        let max = range
            .choose_max_by(&mut rng, |&a, &b| (a / 10).cmp(&(b / 10)))
            .unwrap();
        counts[max] += 1;
    }

    for (i, &x) in counts.iter().enumerate() {
        if i < 90 {
            assert!(x == 0)
        } else {
            assert!(x > LOWER_TOLERANCE * 10);
            assert!(x < UPPER_TOLERANCE * 10);
        }
    }
}

#[test]
fn test_random_max_by_key() {
    let mut counts: [usize; LENGTH] = [0; LENGTH];
    let mut rng = get_rng();

    for _ in 0..RUNS {
        let range = numbers();
        let max = range
            .choose_max_by_key(&mut rng, |x| RoughNumber(*x))
            .unwrap();
        counts[max] += 1;
    }

    for (i, &x) in counts.iter().enumerate() {
        if i < 90 {
            assert!(x == 0)
        } else {
            assert!(x > LOWER_TOLERANCE * 10);
            assert!(x < UPPER_TOLERANCE * 10);
        }
    }
}

#[test]
fn test_random_min() {
    let mut counts: [usize; LENGTH] = [0; LENGTH];
    let mut rng = get_rng();

    for _ in 0..RUNS {
        let range = rough_numbers();
        let min = range.choose_min(&mut rng).unwrap();
        counts[min.0] += 1;
    }

    for (i, &x) in counts.iter().enumerate() {
        if i >= 10 {
            assert!(x == 0)
        } else {
            assert!(x > LOWER_TOLERANCE * 10);
            assert!(x < UPPER_TOLERANCE * 10);
        }
    }
}

#[test]
fn test_random_min_by() {
    let mut counts: [usize; LENGTH] = [0; LENGTH];
    let mut rng = get_rng();

    for _ in 0..RUNS {
        let range = numbers();
        let max = range
            .choose_min_by(&mut rng, |&a, &b| (a / 10).cmp(&(b / 10)))
            .unwrap();
        counts[max] += 1;
    }

    for (i, &x) in counts.iter().enumerate() {
        if i >= 10 {
            assert!(x == 0)
        } else {
            assert!(x > LOWER_TOLERANCE * 10);
            assert!(x < UPPER_TOLERANCE * 10);
        }
    }
}

#[test]
fn test_random_min_by_key() {
    let mut counts: [usize; LENGTH] = [0; LENGTH];
    let mut rng = get_rng();

    for _ in 0..RUNS {
        let range = numbers();
        let max = range
            .choose_min_by_key(&mut rng, |x| RoughNumber(*x))
            .unwrap();
        counts[max] += 1;
    }

    for (i, &x) in counts.iter().enumerate() {
        if i >= 10 {
            assert!(x == 0)
        } else {
            assert!(x > LOWER_TOLERANCE * 10);
            assert!(x < UPPER_TOLERANCE * 10);
        }
    }
}

/// The numbers below `LENGTH`, in their order.
fn numbers() -> VecSequence<usize> {
    VecSequence::new((0..LENGTH).collect())
}

/// The numbers below `LENGTH` as rough numbers, in their order.
fn rough_numbers() -> VecSequence<RoughNumber> {
    VecSequence::new((0..LENGTH).map(RoughNumber).collect())
}

struct UnhintedIterator<I: Sequence>(I);

impl<I: Sequence> Sequence for UnhintedIterator<I> {
    type Item = I::Item;

    fn next(&mut self) -> Option<Self::Item> {
        self.0.next()
    }

    fn size_hint(&self) -> (usize, Option<usize>) {
        (0, None)
    }
}

/// A number whose ordering is only affected by the tens digit e.g 42 >= 43
#[derive(Debug, Copy, Clone)]
struct RoughNumber(pub usize);

impl Keyed for RoughNumber {
    fn key(&self) -> u64 {
        (self.0 / 10) as u64
    }
}

impl Eq for RoughNumber {}

impl PartialEq for RoughNumber {
    fn eq(&self, other: &Self) -> bool {
        (self.0 / 10) == (other.0 / 10)
    }
}

impl Ord for RoughNumber {
    fn cmp(&self, other: &Self) -> core::cmp::Ordering {
        (self.0 / 10).cmp(&(other.0 / 10))
    }
}

impl PartialOrd for RoughNumber {
    fn partial_cmp(&self, other: &Self) -> Option<core::cmp::Ordering> {
        (self.0 / 10).partial_cmp(&(other.0 / 10))
    }
}

fn assert_contains(range: std::ops::Range<usize>, n: &usize) {
    if !range.contains(n) {
        panic!("The range {:?} does not contain {n}", range)
    }
}

fn get_rng() -> CountingRng<StdRng> {
    let inner = StdRng::seed_from_u64(123);
    CountingRng { rng: inner, count: 0 }
}

struct CountingRng<Inner: RandomSource> {
    pub rng: Inner,
    pub count: usize,
}

impl<Inner: RandomSource> RandomSource for CountingRng<Inner> {
    fn next_u32(&mut self) -> u32 {
        self.count += 1;
        self.rng.next_u32()
    }

    fn below_u32(&mut self, bound: u32) -> u32 {
        self.count += 1;
        self.rng.below_u32(bound)
    }

    fn below_u64(&mut self, bound: u64) -> u64 {
        self.count += 1;
        self.rng.below_u64(bound)
    }

    fn below_usize(&mut self, bound: usize) -> usize {
        self.count += 1;
        self.rng.below_usize(bound)
    }
}
