use kindness::kindness::block_step;
use kindness::sequence::{Sequence, Unhinted, VecSequence};
use kindness::source::RandomSource;
use kindness::Kindness;

/// A source that hands out the words it was given, one after the other,
/// then words of tails only, and counts what it was asked.
struct Written {
    words: Vec<u32>,
    drawn: usize,
}

impl Written {
    fn new(words: &[u32]) -> Self {
        Written { words: words.to_vec(), drawn: 0 }
    }
}

impl RandomSource for Written {
    fn next_u32(&mut self) -> u32 {
        self.drawn += 1;
        self.words.get(self.drawn - 1).copied().unwrap_or(0xffff_ffff)
    }

    fn below_u32(&mut self, bound: u32) -> u32 {
        self.next_u32() % bound
    }

    fn below_u64(&mut self, bound: u64) -> u64 {
        self.next_u32() as u64 % bound
    }

    fn below_usize(&mut self, bound: usize) -> usize {
        self.next_u32() as usize % bound
    }
}

#[test]
fn block_step_takes_the_item_at_the_index() {
    assert_eq!(block_step(3, 2, 1), (Some(1), 1, 5));
    assert_eq!(block_step(3, 2, 0), (Some(0), 2, 5));
    assert_eq!(block_step(3, 2, 2), (Some(2), 0, 5));
}

#[test]
fn block_step_keeps_what_was_held_for_a_late_index() {
    assert_eq!(block_step(3, 2, 3), (None, 3, 5));
    assert_eq!(block_step(3, 2, 4), (None, 3, 5));
}

#[test]
fn block_step_counts_up_to_the_largest_number() {
    assert_eq!(block_step(3, usize::MAX, 0), (Some(0), 2, usize::MAX));
    assert_eq!(block_step(2, usize::MAX - 1, 5), (None, 2, usize::MAX));
}

#[test]
fn an_exact_length_asks_for_one_index() {
    let mut source = Written::new(&[4]);
    let chosen = VecSequence::new(vec![5u64, 6, 7]).choose_item(&mut source);
    assert_eq!(chosen, Some(6));
    assert_eq!(source.drawn, 1);
}

#[test]
fn the_library_can_hide_a_length() {
    let mut sequence = Unhinted(VecSequence::new(vec![1u64, 2, 3]));
    assert_eq!(sequence.size_hint(), (0, None));
    assert_eq!(sequence.nth(1), Some(2));
    assert_eq!(sequence.next(), Some(3));
    assert_eq!(sequence.next(), None);
    assert_eq!(sequence.size_hint(), (0, None));
}

#[test]
fn without_a_hint_tails_keep_the_first_item() {
    let mut source = Written::new(&[0xffff_ffff]);
    let chosen = Unhinted(VecSequence::new(vec![10u64, 20])).choose_item(&mut source);
    assert_eq!(chosen, Some(10));
    assert_eq!(source.drawn, 1);
}

#[test]
fn without_a_hint_heads_take_the_second_item() {
    let mut source = Written::new(&[0]);
    let chosen = Unhinted(VecSequence::new(vec![10u64, 20])).choose_item(&mut source);
    assert_eq!(chosen, Some(20));
    assert_eq!(source.drawn, 1);
}

#[test]
fn without_a_hint_one_item_reads_no_coin() {
    let mut source = Written::new(&[]);
    let chosen = Unhinted(VecSequence::new(vec![10u64])).choose_item(&mut source);
    assert_eq!(chosen, Some(10));
    assert_eq!(source.drawn, 0);
}

#[test]
fn nothing_is_drawn_for_no_item() {
    let mut source = Written::new(&[]);
    assert_eq!(Unhinted(VecSequence::new(Vec::<u64>::new())).choose_item(&mut source), None);
    assert_eq!(VecSequence::new(Vec::<u64>::new()).choose_item(&mut source), None);
    assert_eq!(VecSequence::new(Vec::<u64>::new()).choose_max(&mut source), None);
    assert_eq!(source.drawn, 0);
}

#[test]
fn a_tie_is_decided_by_the_next_coin() {
    // Coins: tails, heads, tails, tails. The second item ties with the
    // first and loses; the fourth ties with the third and wins.
    let items = vec![(1u64, 'a'), (1, 'b'), (2, 'c'), (2, 'd')];
    let mut source = Written::new(&[0xb000_0000]);
    let best = VecSequence::new(items.clone()).choose_max_by_key(&mut source, |item| item.0);
    assert_eq!(best, Some((2, 'd')));
    assert_eq!(source.drawn, 1);
    let mut source = Written::new(&[0xb000_0000]);
    let best = VecSequence::new(items).choose_max_by(&mut source, |a, b| a.0.cmp(&b.0));
    assert_eq!(best, Some((2, 'd')));
    assert_eq!(source.drawn, 1);
}

#[test]
fn tails_keep_the_first_of_the_best() {
    let items = vec![(2u64, 'a'), (1, 'b'), (2, 'c'), (2, 'd')];
    let mut source = Written::new(&[0xffff_ffff]);
    let best = VecSequence::new(items.clone()).choose_max_by_key(&mut source, |item| item.0);
    assert_eq!(best, Some((2, 'a')));
    let mut source = Written::new(&[0xffff_ffff]);
    let least = VecSequence::new(items).choose_min_by_key(&mut source, |item| item.0);
    assert_eq!(least, Some((1, 'b')));
    assert_eq!(source.drawn, 0);
}

/// A sequence that tells of at most `window` of the items it still holds.
struct Window {
    next: u64,
    end: u64,
    window: usize,
}

impl Sequence for Window {
    type Item = u64;

    fn next(&mut self) -> Option<u64> {
        if self.next < self.end {
            self.next += 1;
            Some(self.next - 1)
        } else {
            None
        }
    }

    fn size_hint(&self) -> (usize, Option<usize>) {
        (core::cmp::min((self.end - self.next) as usize, self.window), None)
    }
}

#[test]
fn announced_items_are_decided_by_one_index() {
    // Three of five items are announced: index 4 % 3 = 1 takes item 1.
    // Then two are announced: index 7 % 5 = 2 falls on an item before them.
    let mut source = Written::new(&[4, 7]);
    let chosen = Window { next: 0, end: 5, window: 3 }.choose_item(&mut source);
    assert_eq!(chosen, Some(1));
    assert_eq!(source.drawn, 2);
}

#[test]
fn an_index_in_a_later_block_takes_its_item() {
    // Index 6 % 5 = 1 takes the second of the two items announced last.
    let mut source = Written::new(&[4, 6]);
    let chosen = Window { next: 0, end: 5, window: 3 }.choose_item(&mut source);
    assert_eq!(chosen, Some(4));
    assert_eq!(source.drawn, 2);
}

#[test]
fn a_later_item_of_a_group_stands_for_it_on_heads() {
    // Coins: tails, heads. The second item of group 1 loses, the second
    // item of group 2 wins.
    let items = vec![(1u64, 'a'), (1, 'b'), (2, 'c'), (2, 'd')];
    let mut source = Written::new(&[0xb000_0000]);
    let chosen = VecSequence::new(items).choose_unique_by_key(&mut source, |item| item.0);
    assert_eq!(chosen, vec![(1, 'a'), (2, 'd')]);
    assert_eq!(source.drawn, 1);
}

#[test]
fn the_first_item_of_a_group_stands_for_it_on_tails() {
    let items = vec![(1u64, 'a'), (2, 'b'), (1, 'c'), (2, 'd'), (1, 'e')];
    let mut source = Written::new(&[0xffff_ffff]);
    let chosen = VecSequence::new(items).choose_unique_by_key(&mut source, |item| item.0);
    assert_eq!(chosen, vec![(1, 'a'), (2, 'b')]);
    assert_eq!(source.drawn, 1);
}

#[test]
fn keys_that_all_differ_read_no_coin() {
    let mut source = Written::new(&[]);
    let chosen = VecSequence::new(vec![7u64, 3, 9]).choose_unique(&mut source);
    assert_eq!(chosen, vec![7, 3, 9]);
    assert_eq!(source.drawn, 0);
}
