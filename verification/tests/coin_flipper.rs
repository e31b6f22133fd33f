use kindness::coin_flipper::CoinFlipper;
use kindness::source::RandomSource;
use rand::rngs::StdRng;
use rand::SeedableRng;

#[test]
fn test_coin_flipper_gen_index() {
    let mut rng = StdRng::seed_from_u64(123);
    let mut flipper = CoinFlipper::new(&mut rng);
    let results: Vec<usize> = (0..10000).map(|_| flipper.gen_index(9) as usize).collect();
    let max = *results.iter().max().unwrap();
    let min = *results.iter().min().unwrap();

    assert!(max <= 9);
    assert!(min == 0);

    let mut distribution = [0usize; 10];
    let mut differences: [usize; 19] = [0usize; 19];
    let mut prev = 0;
    for x in results {
        distribution[x] += 1;
        let diff = x + 9 - prev;
        differences[diff] += 1;
        prev = x;
    }

    for count in distribution {
        assert!(count > 850);
        assert!(count < 1150);
    }
    // A difference of `k - 9` arises from `10 - |k - 9|` of the 100 pairs.
    for (k, count) in differences.iter().enumerate() {
        let pairs = 10 - (k as isize - 9).unsigned_abs();
        assert!(*count > pairs * 60);
        assert!(*count < pairs * 140);
    }
}

/// A source that hands out the words it was given, one after the other,
/// and zeros after them.
struct Scripted {
    words: Vec<u32>,
    drawn: usize,
}

impl Scripted {
    fn new(words: &[u32]) -> Self {
        Scripted { words: words.to_vec(), drawn: 0 }
    }
}

impl RandomSource for Scripted {
    fn next_u32(&mut self) -> u32 {
        self.drawn += 1;
        self.words.get(self.drawn - 1).copied().unwrap_or(0)
    }

    fn below_u32(&mut self, bound: u32) -> u32 {
        self.next_u32() % bound
    }

    fn below_u64(&mut self, bound: u64) -> u64 {
        self.next_u32() as u64 % bound
    }

    fn below_usize(&mut self, bound: usize) -> usize {
        self.next_u32() as usize % bound
    }
}

#[test]
fn flip_reads_the_top_bit_first() {
    let mut source = Scripted::new(&[0x4000_0000]);
    let mut flipper = CoinFlipper::new(&mut source);
    assert!(flipper.flip());
    assert!(!flipper.flip());
    assert!(flipper.flip());
    drop(flipper);
    assert_eq!(source.drawn, 1);
}

#[test]
fn flip_c_heads_stops_at_the_first_tails() {
    // Coins: heads, heads, tails, then 29 heads.
    let mut source = Scripted::new(&[0x2000_0000, 0xffff_ffff]);
    let mut flipper = CoinFlipper::new(&mut source);
    // The tails is the third coin: the test fails and uses up three coins.
    assert!(!flipper.flip_c_heads(5));
    // 29 heads are left.
    assert!(flipper.flip_c_heads(20));
    assert!(flipper.flip_c_heads(9));
    // The cache is empty: the next coin is the first one of the second word.
    assert!(!flipper.flip_c_heads(1));
    drop(flipper);
    assert_eq!(source.drawn, 2);
}

#[test]
fn flip_c_heads_goes_on_in_the_next_word() {
    // One tails, 31 heads; then 4 heads and a tails.
    let mut source = Scripted::new(&[0x8000_0000, 0x0800_0000]);
    let mut flipper = CoinFlipper::new(&mut source);
    assert!(!flipper.flip_c_heads(1));
    // 31 heads of the first word and one of the second.
    assert!(flipper.flip_c_heads(32));
    // Three heads are left before the tails of the second word.
    assert!(!flipper.flip_c_heads(4));
    drop(flipper);
    assert_eq!(source.drawn, 2);
}

#[test]
fn flip_c_heads_of_no_coin_is_true() {
    let mut source = Scripted::new(&[]);
    let mut flipper = CoinFlipper::new(&mut source);
    assert!(flipper.flip_c_heads(0));
    drop(flipper);
    assert_eq!(source.drawn, 0);
}

#[test]
fn try_skip_counts_the_failed_tests() {
    // Coins: 0 1 0 0 1 0 1 0 0 0 ...
    let mut source = Scripted::new(&[0x4a00_0000]);
    let mut flipper = CoinFlipper::new(&mut source);
    assert!(flipper.flip());
    // Left: 1 0 0 1 0 1 0 0 0 ... A test for two heads fails on the first
    // coin and passes on the two heads behind it.
    assert_eq!(flipper.try_skip(4), 1);
    // Left: 0 0 1 0 1 0 0 0 ... Tests for three heads fail on both tails.
    assert_eq!(flipper.try_skip(8), 2);
    // Only heads are left: nothing to skip.
    assert_eq!(flipper.try_skip(8), 0);
    assert!(flipper.flip_c_heads(24));
    drop(flipper);
    assert_eq!(source.drawn, 1);
}

#[test]
fn try_skip_leaves_an_empty_cache_alone() {
    let mut source = Scripted::new(&[0xffff_ffff]);
    let mut flipper = CoinFlipper::new(&mut source);
    assert_eq!(flipper.try_skip(100), 0);
    assert_eq!(flipper.try_skip(0), 0);
    assert_eq!(flipper.try_skip(1), 0);
    drop(flipper);
    assert_eq!(source.drawn, 0);
}

#[test]
fn try_skip_can_use_up_a_whole_word() {
    let mut source = Scripted::new(&[0xffff_ffff, 0]);
    let mut flipper = CoinFlipper::new(&mut source);
    assert!(!flipper.flip());
    assert_eq!(flipper.try_skip(2), 31);
    // The cache is empty again: the next test draws the second word.
    assert!(flipper.flip());
    drop(flipper);
    assert_eq!(source.drawn, 2);
}

#[test]
fn gen_index_rejects_numbers_above_the_bound() {
    // Four coins at a time: 15, 3, 10, 9.
    let mut source = Scripted::new(&[0xf3a9_0000]);
    let mut flipper = CoinFlipper::new(&mut source);
    assert_eq!(flipper.gen_index(9), 3);
    assert_eq!(flipper.gen_index(9), 9);
    assert_eq!(flipper.gen_index(0), 0);
    assert_eq!(flipper.gen_index(1), 0);
    drop(flipper);
    assert_eq!(source.drawn, 1);
}

#[test]
fn gen_index_takes_a_new_word_when_the_coins_run_short() {
    let mut source = Scripted::new(&[0x0000_0007, 0x9000_0000]);
    let mut flipper = CoinFlipper::new(&mut source);
    assert!(flipper.flip_c_heads(29));
    // Three coins are left, four are needed: they are dropped.
    assert_eq!(flipper.gen_index(9), 9);
    drop(flipper);
    assert_eq!(source.drawn, 2);
}

#[test]
fn gen_index_with_a_full_word_bound() {
    let mut source = Scripted::new(&[0xdead_beef]);
    let mut flipper = CoinFlipper::new(&mut source);
    assert_eq!(flipper.gen_index(u32::MAX), 0xdead_beef);
}

#[test]
fn gen_ratio_one_over_one_is_true() {
    let mut source = Scripted::new(&[]);
    let mut flipper = CoinFlipper::new(&mut source);
    for _ in 0..10 {
        assert!(flipper.gen_ratio_one_over(1));
    }
    drop(flipper);
    assert_eq!(source.drawn, 0);
}

#[test]
fn gen_ratio_one_over_a_power_of_two() {
    // One over eight: three heads decide for true, a tails among the
    // first three coins for false.
    let mut source = Scripted::new(&[0x0400_0000]);
    let mut flipper = CoinFlipper::new(&mut source);
    assert!(flipper.gen_ratio_one_over(8));
    // Left: 0 0 1 0 0 ...
    assert!(!flipper.gen_ratio_one_over(8));
    assert!(flipper.gen_ratio_one_over(8));
}

#[test]
fn gen_ratio_one_over_three() {
    // One over three: heads doubles the numerator to two, then heads is
    // true and tails goes on with one.
    let mut source = Scripted::new(&[0x6000_0000]);
    let mut flipper = CoinFlipper::new(&mut source);
    // heads, tails (back to one over three), tails: false
    assert!(!flipper.gen_ratio_one_over(3));
    // heads, heads: true
    assert!(flipper.gen_ratio_one_over(3));
    drop(flipper);
    assert_eq!(source.drawn, 1);
}

#[test]
fn gen_ratio_bounds() {
    let mut source = Scripted::new(&[0xffff_ffff]);
    let mut flipper = CoinFlipper::new(&mut source);
    assert!(flipper.gen_ratio(5, 5));
    assert!(flipper.gen_ratio(7, 5));
    assert!(flipper.gen_ratio(0, 0));
    assert!(!flipper.gen_ratio(0, 5));
}

#[test]
fn gen_ratio_two_over_three() {
    // Two over three: heads is true, tails goes on with one over three.
    let mut source = Scripted::new(&[0xa000_0000]);
    let mut flipper = CoinFlipper::new(&mut source);
    // tails, heads (two over three again), tails, heads, heads: true
    assert!(flipper.gen_ratio(2, 3));
}

#[test]
fn gen_ratio_one_over_is_fair() {
    let mut rng = StdRng::seed_from_u64(123);
    let mut flipper = CoinFlipper::new(&mut rng);
    for d in [2usize, 3, 5, 7, 10, 100] {
        let mut hits = 0usize;
        let runs = 20000 * d;
        for _ in 0..runs {
            if flipper.gen_ratio_one_over(d) {
                hits += 1;
            }
        }
        assert!(hits > 19000);
        assert!(hits < 21000);
    }
}

#[test]
fn gen_ratio_is_fair() {
    let mut rng = StdRng::seed_from_u64(123);
    let mut flipper = CoinFlipper::new(&mut rng);
    for (n, d) in [(1usize, 3usize), (2, 3), (3, 7), (5, 8), (99, 100), (1, 1000)] {
        let mut hits = 0usize;
        let runs = 100000;
        for _ in 0..runs {
            if flipper.gen_ratio(n, d) {
                hits += 1;
            }
        }
        let expected = runs * n / d;
        assert!(hits + 1000 > expected);
        assert!(hits < expected + 1000);
    }
}

#[test]
fn draw_index_stays_below_the_bound() {
    let mut rng = StdRng::seed_from_u64(123);
    let mut flipper = CoinFlipper::new(&mut rng);
    let mut seen = [false; 7];
    for _ in 0..1000 {
        let ix = flipper.draw_index(7);
        assert!(ix < 7);
        seen[ix] = true;
    }
    assert!(seen.iter().all(|s| *s));
}
