use kindness::choice_iterator::{calculate_upper, ChoiceIterator};
use kindness::ratio::{binary_digits, coins_per_flip, ratio_step};
use kindness::source::{gen_index, RandomSource};
use rand::rngs::StdRng;
use rand::SeedableRng;

#[test]
fn binary_digits_of_some_numbers() {
    assert_eq!(binary_digits(0), 0);
    assert_eq!(binary_digits(1), 1);
    assert_eq!(binary_digits(2), 2);
    assert_eq!(binary_digits(3), 2);
    assert_eq!(binary_digits(4), 3);
    assert_eq!(binary_digits(255), 8);
    assert_eq!(binary_digits(256), 9);
    assert_eq!(binary_digits(u64::MAX), 64);
}

#[test]
fn coins_per_flip_of_some_ratios() {
    // One over sixteen: three heads take the numerator to eight.
    assert_eq!(coins_per_flip(1, 16), 3);
    assert_eq!(coins_per_flip(1, 17), 3);
    assert_eq!(coins_per_flip(1, 31), 3);
    assert_eq!(coins_per_flip(1, 32), 4);
    assert_eq!(coins_per_flip(3, 16), 2);
    // No room for more than one coin.
    assert_eq!(coins_per_flip(1, 2), 1);
    assert_eq!(coins_per_flip(1, 3), 1);
    assert_eq!(coins_per_flip(2, 3), 1);
    assert_eq!(coins_per_flip(5, 8), 1);
    assert_eq!(coins_per_flip(0, 1), 1);
    // Never more than a word of coins.
    assert_eq!(coins_per_flip(0, usize::MAX), 32);
    assert_eq!(coins_per_flip(1, usize::MAX), 32);
}

#[test]
fn ratio_step_of_some_ratios() {
    // Heads: the numerator is doubled once for every coin.
    assert_eq!(ratio_step(3, 16, 2, true), Some(12));
    assert_eq!(ratio_step(1, 3, 1, true), Some(2));
    assert_eq!(ratio_step(0, 5, 2, true), Some(0));
    assert_eq!(ratio_step(usize::MAX - 1, usize::MAX, 1, true), Some(usize::MAX));
    assert_eq!(ratio_step(1, usize::MAX, 32, true), Some(1 << 32));
    // Tails on one coin: on with 2n - d where that is positive.
    assert_eq!(ratio_step(5, 8, 1, false), Some(2));
    assert_eq!(ratio_step(2, 3, 1, false), Some(1));
    assert_eq!(ratio_step(usize::MAX - 1, usize::MAX, 1, false), Some(usize::MAX - 2));
    assert_eq!(ratio_step(4, 8, 1, false), None);
    assert_eq!(ratio_step(3, 8, 1, false), None);
    assert_eq!(ratio_step(0, 1, 1, false), None);
    // Tails among several coins.
    assert_eq!(ratio_step(1, 16, 3, false), None);
}

#[test]
fn calculate_upper_of_some_numbers() {
    // 20! is the largest factorial in 64 bits.
    assert_eq!(calculate_upper(2), (2432902008176640000, 19));
    assert_eq!(calculate_upper(1), (2432902008176640000, 20));
    assert_eq!(calculate_upper(0), (2432902008176640000, 21));
    assert_eq!(calculate_upper(3), (1216451004088320000, 18));
    assert_eq!(calculate_upper(1 << 32), (1 << 32, 1));
    assert_eq!(calculate_upper((1 << 32) - 1), (((1u64 << 32) - 1) * (1 << 32), 2));
    assert_eq!(calculate_upper(u64::MAX), (u64::MAX, 1));
    assert_eq!(calculate_upper(u64::MAX - 1), (u64::MAX - 1, 1));
}

#[test]
fn choice_iterator_starts_with_true() {
    let mut choices = ChoiceIterator::new_zero(StdRng::seed_from_u64(123));
    assert_eq!(choices.get_consumed(), 0);
    assert_eq!(choices.size_hint(), (usize::MAX, None));
    assert_eq!(choices.next(), Some(true));
    assert_eq!(choices.get_consumed(), 1);
    assert!(choices.next().is_some());
    assert_eq!(choices.get_consumed(), 2);
}

#[test]
fn choice_iterator_set_consumed() {
    let mut choices = ChoiceIterator::new_one(StdRng::seed_from_u64(123));
    assert_eq!(choices.get_consumed(), 1);
    choices.set_consumed(41);
    assert_eq!(choices.get_consumed(), 41);
    assert!(choices.next().is_some());
    assert_eq!(choices.get_consumed(), 42);
    choices.set_consumed(usize::MAX);
    assert!(choices.next().is_some());
    assert_eq!(choices.get_consumed(), usize::MAX);
}

/// A source whose numbers below a bound are the numbers it was given.
struct Fixed(Vec<u64>, usize);

impl RandomSource for Fixed {
    fn next_u32(&mut self) -> u32 {
        unreachable!()
    }

    fn below_u32(&mut self, _bound: u32) -> u32 {
        unreachable!()
    }

    fn below_u64(&mut self, bound: u64) -> u64 {
        self.1 += 1;
        assert!(self.0[self.1 - 1] < bound);
        self.0[self.1 - 1]
    }

    fn below_usize(&mut self, _bound: usize) -> usize {
        unreachable!()
    }
}

#[test]
fn choice_iterator_reads_its_number_digit_by_digit() {
    // The first number is below 2 * 3 * ... * 20: its digits are its
    // remainders by 2, by 3 and so on.
    let number = 0 + 2 * (1 + 3 * (0 + 4 * (3 + 5 * 0)));
    let mut choices = ChoiceIterator::new_one(Fixed(vec![number, 0], 0));
    assert_eq!(choices.next(), Some(true));
    assert_eq!(choices.next(), Some(false));
    assert_eq!(choices.next(), Some(true));
    assert_eq!(choices.next(), Some(false));
    for _ in 4..19 {
        assert_eq!(choices.next(), Some(true));
    }
    assert_eq!(choices.rng.1, 1);
    assert_eq!(choices.get_consumed(), 20);
    // The second number is below 21 * 22 * ...
    assert_eq!(choices.next(), Some(true));
    assert_eq!(choices.rng.1, 2);
}

#[test]
fn choice_iterator_keeps_the_last_true_uniform() {
    let mut counts = [0usize; 10];
    let mut choices = ChoiceIterator::new_zero(StdRng::seed_from_u64(123));
    for _ in 0..10000 {
        choices.set_consumed(0);
        let mut last = 0;
        for i in 0..10 {
            if choices.next() == Some(true) {
                last = i;
            }
        }
        counts[last] += 1;
    }
    for count in counts {
        assert!(count > 850);
        assert!(count < 1150);
    }
}

#[test]
fn gen_index_stays_below_the_bound() {
    let mut rng = StdRng::seed_from_u64(123);
    let mut counts = [0usize; 10];
    for _ in 0..10000 {
        counts[gen_index(&mut rng, 10)] += 1;
    }
    for count in counts {
        assert!(count > 850);
        assert!(count < 1150);
    }
    assert_eq!(gen_index(&mut rng, 1), 0);
    assert!(gen_index(&mut rng, usize::MAX) < usize::MAX);
    assert!(gen_index(&mut rng, 1 << 32) < 1 << 32);
}

#[test]
fn std_rng_numbers_stay_below_the_bound() {
    let mut rng = StdRng::seed_from_u64(123);
    for bound in [1u64, 2, 3, 1000, 1 << 40] {
        for _ in 0..100 {
            assert!(rng.below_u64(bound) < bound);
            assert!(rng.below_usize(bound as usize) < bound as usize);
        }
    }
    for bound in [1u32, 2, 3, 1000, u32::MAX] {
        for _ in 0..100 {
            assert!(rng.below_u32(bound) < bound);
        }
    }
    let first = rng.next_u32();
    let mut differs = false;
    for _ in 0..10 {
        differs = differs || rng.next_u32() != first;
    }
    assert!(differs);
}

#[test]
fn gen_index_is_the_32_bit_draw_where_the_bound_fits() {
    let mut by_index = StdRng::seed_from_u64(7);
    let mut by_draw = StdRng::seed_from_u64(7);
    for bound in [1usize, 10, 1000, u32::MAX as usize] {
        assert_eq!(gen_index(&mut by_index, bound), by_draw.below_u32(bound as u32) as usize);
    }
    let wide = (u32::MAX as usize) + 1;
    assert_eq!(gen_index(&mut by_index, wide), by_draw.below_usize(wide));
}
