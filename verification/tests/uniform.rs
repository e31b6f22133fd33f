use kindness::source::RandomSource;
use kindness::uniform::Uniform;
use rand::rngs::StdRng;
use rand::SeedableRng;

const RUNS: usize = 10000;

#[test]
fn test_generate_10() {
    let summary = test_generate(10);
    assert!(summary.chi_squared < 30.0);
    // Nine digits to a word, and about one word in fifteen is rejected.
    assert!(summary.draws > 1112);
    assert!(summary.draws < 1300);
}

#[test]
fn test_generate_100() {
    let summary = test_generate(100);
    assert!(summary.chi_squared < 160.0);
    // Four digits to a word, and about one word in four is rejected.
    assert!(summary.draws > 2500);
    assert!(summary.draws < 3700);
}

#[test]
fn test_generate_1() {
    let summary = test_generate(1);
    assert_eq!(summary.chi_squared, 0.0);
    assert_eq!(summary.draws, 0);
    assert_eq!(summary.counts, vec![RUNS]);
}

#[test]
fn test_generate_2() {
    let summary = test_generate(2);
    assert!(summary.chi_squared < 12.0);
    assert_eq!(summary.draws, 313);
}

#[test]
fn test_generate_8() {
    let summary = test_generate(8);
    assert!(summary.chi_squared < 28.0);
    assert_eq!(summary.draws, 1000);
}

#[test]
fn test_generate_16() {
    let summary = test_generate(16);
    assert!(summary.chi_squared < 42.0);
    assert_eq!(summary.draws, 1250);
}

#[test]
fn generate_with_a_bound_of_half_the_words() {
    let mut rng = get_rng();
    let mut uniform = Uniform::new(1 << 31);
    let mut high = 0usize;
    for _ in 0..RUNS {
        let v = uniform.next(&mut rng);
        assert!(v < 1 << 31);
        if v >= 1 << 30 {
            high += 1;
        }
    }
    assert!(high > 4700);
    assert!(high < 5300);
    assert_eq!(rng.count, RUNS);
}

#[test]
fn generate_with_the_largest_bound() {
    let mut rng = get_rng();
    let mut uniform = Uniform::new(u32::MAX);
    for _ in 0..RUNS {
        assert!(uniform.next(&mut rng) < u32::MAX);
    }
    assert!(rng.count >= RUNS);
    assert!(rng.count < RUNS + 10);
}

#[test]
fn generate_3_hands_out_the_digits_of_a_word() {
    // 3^20 is the largest power of three in 32 bits: a word below it
    // holds twenty digits, the lowest first.
    let mut rng = Scripted { words: vec![2 + 3 * (0 + 3 * (1 + 3 * 2)), 1], drawn: 0 };
    let mut uniform = Uniform::new(3);
    assert!(matches!(uniform, Uniform::NonPowerOfTwo(_)));
    assert_eq!(uniform.next(&mut rng), 2);
    assert_eq!(uniform.next(&mut rng), 0);
    assert_eq!(uniform.next(&mut rng), 1);
    assert_eq!(uniform.next(&mut rng), 2);
    for _ in 4..20 {
        assert_eq!(uniform.next(&mut rng), 0);
    }
    assert_eq!(rng.drawn, 1);
    assert_eq!(uniform.next(&mut rng), 1);
    assert_eq!(rng.drawn, 2);
}

#[test]
fn generate_3_rejects_words_from_the_power_on() {
    // 3^20 = 3486784401 itself is rejected, the word below it is not.
    let mut rng = Scripted { words: vec![3486784401, 0xffff_ffff, 3486784400], drawn: 0 };
    let mut uniform = Uniform::new(3);
    for _ in 0..20 {
        assert_eq!(uniform.next(&mut rng), 2);
    }
    assert_eq!(rng.drawn, 3);
}

#[test]
fn generate_4_hands_out_the_bits_of_a_word() {
    let mut rng = Scripted { words: vec![0b11_10_01_00, 7], drawn: 0 };
    let mut uniform = Uniform::new(4);
    assert!(matches!(uniform, Uniform::PowerOfTwo(_)));
    assert_eq!(uniform.next(&mut rng), 0);
    assert_eq!(uniform.next(&mut rng), 1);
    assert_eq!(uniform.next(&mut rng), 2);
    assert_eq!(uniform.next(&mut rng), 3);
    for _ in 4..16 {
        assert_eq!(uniform.next(&mut rng), 0);
    }
    assert_eq!(rng.drawn, 1);
    assert_eq!(uniform.next(&mut rng), 3);
    assert_eq!(uniform.next(&mut rng), 1);
    assert_eq!(rng.drawn, 2);
}

struct Summary {
    chi_squared: f64,
    draws: usize,
    counts: Vec<usize>,
}

fn test_generate(buckets: usize) -> Summary {
    let mut counts: Vec<usize> = std::iter::repeat(0).take(buckets).collect();
    let mut rng = get_rng();

    let mut uniform = Uniform::new(buckets as u32);
    for _ in 0..RUNS {
        let v = uniform.next(&mut rng);

        counts[v as usize] += 1;
    }

    let mean: f64 = RUNS as f64 / buckets as f64;
    let mut sum_of_squares = 0f64;
    for c in counts.iter() {
        let diff = ((*c as f64) - mean).abs();
        sum_of_squares += diff * diff;
    }

    // Chi squared being less than twice the mean is a good sign
    let chi_squared = sum_of_squares / mean;
    println!("buckets {buckets}: chi squared {chi_squared:.3}, random values used {}", rng.count);

    Summary { chi_squared, draws: rng.count, counts }
}

fn get_rng() -> CountingRng<StdRng> {
    let inner = StdRng::seed_from_u64(123);
    CountingRng { rng: inner, count: 0 }
}

struct CountingRng<Inner: RandomSource> {
    pub rng: Inner,
    pub count: usize,
}

impl<Inner: RandomSource> RandomSource for CountingRng<Inner> {
    fn next_u32(&mut self) -> u32 {
        self.count += 1;
        self.rng.next_u32()
    }

    fn below_u32(&mut self, bound: u32) -> u32 {
        self.count += 1;
        self.rng.below_u32(bound)
    }

    fn below_u64(&mut self, bound: u64) -> u64 {
        self.count += 1;
        self.rng.below_u64(bound)
    }

    fn below_usize(&mut self, bound: usize) -> usize {
        self.count += 1;
        self.rng.below_usize(bound)
    }
}

/// A source that hands out the words it was given, one after the other,
/// and the last one again after them.
struct Scripted {
    words: Vec<u32>,
    drawn: usize,
}

impl RandomSource for Scripted {
    fn next_u32(&mut self) -> u32 {
        self.drawn += 1;
        let last = self.words.len() - 1;
        self.words[(self.drawn - 1).min(last)]
    }

    fn below_u32(&mut self, bound: u32) -> u32 {
        self.next_u32() % bound
    }

    fn below_u64(&mut self, bound: u64) -> u64 {
        self.next_u32() as u64 % bound
    }

    fn below_usize(&mut self, bound: usize) -> usize {
        self.next_u32() as usize % bound
    }
}
