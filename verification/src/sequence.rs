//! The sequences that the selectors read: one pass, front to back.

use vstd::prelude::*;

verus! {

/// A sequence that is read once, front to back.
///
/// A sequence may know how many items it still holds, or only bounds on
/// that number, and it may be able to pass over items faster than one by
/// one: the selectors use both where they can.
pub trait Sequence {
    /// What the sequence holds.
    type Item;

    /// The items that were not handed out yet, in their order. A sequence
    /// that does not say what it holds holds nothing.
    open spec fn remaining(&self) -> Seq<Self::Item> {
        Seq::empty()
    }

    /// What the sequence will say of the number of items that are left
    /// once `n` more items were taken from it; for `n = 0`, what it says
    /// now. A sequence that does not say what it knows says nothing.
    open spec fn hint_after(&self, n: int) -> (usize, Option<usize>) {
        (0, None)
    }

    /// Hands out the next item, or `None` at the end.
    fn next(&mut self) -> (item: Option<Self::Item>)
        ensures
            old(self).remaining().len() > 0 ==> forall|k: int|
                0 <= k ==> #[trigger] final(self).hint_after(k) == old(self).hint_after(k + 1),
            old(self).remaining().len() == 0 ==> item is None && final(self).remaining()
                == old(self).remaining(),
            old(self).remaining().len() > 0 ==> item == Some(old(self).remaining()[0])
                && final(self).remaining() == old(self).remaining().skip(1),
    ;

    /// Bounds on how many items are left: at least the first number and,
    /// where the second is given, at most that.
    fn size_hint(&self) -> (hint: (usize, Option<usize>))
        ensures
            hint == self.hint_after(0),
            hint.0 <= self.remaining().len(),
            hint.1 matches Some(upper) ==> self.remaining().len() <= upper,
    ;

    /// Passes over `n` items and hands out the one behind them. Where
    /// fewer than `n + 1` items are left, all of them are passed over and
    /// `None` comes back.
    fn nth(&mut self, n: usize) -> (item: Option<Self::Item>)
        ensures
            n < old(self).remaining().len() ==> forall|k: int|
                0 <= k ==> #[trigger] final(self).hint_after(k) == old(self).hint_after(k + n + 1),
            n < old(self).remaining().len() ==> item == Some(old(self).remaining()[n as int])
                && final(self).remaining() == old(self).remaining().skip(n + 1),
            n >= old(self).remaining().len() ==> item is None && final(self).remaining().len()
                == 0,
    {
        let mut passed: usize = 0;
        while passed < n
            invariant
                passed <= n,
                passed <= old(self).remaining().len(),
                self.remaining() == old(self).remaining().skip(passed as int),
                forall|k: int|
                    0 <= k ==> #[trigger] self.hint_after(k) == old(self).hint_after(k + passed),
            decreases n - passed,
        {
            match self.next() {
                Some(_) => {
                    assert(old(self).remaining().skip(passed as int).skip(1) =~= old(self)
                        .remaining().skip(passed + 1));
                    passed = passed + 1;
                },
                None => {
                    return None;
                },
            }
        }
        let item = self.next();
        proof {
            if n < old(self).remaining().len() {
                assert(old(self).remaining().skip(n as int).skip(1) =~= old(self).remaining().skip(
                    n + 1,
                ));
            }
        }
        item
    }
}

/// A sequence that keeps what it knows of its length to itself.
pub struct Unhinted<S: Sequence>(pub S);

impl<S: Sequence> Sequence for Unhinted<S> {
    type Item = S::Item;

    open spec fn remaining(&self) -> Seq<S::Item> {
        self.0.remaining()
    }

    open spec fn hint_after(&self, n: int) -> (usize, Option<usize>) {
        (0, None)
    }

    fn next(&mut self) -> (item: Option<S::Item>) {
        self.0.next()
    }

    fn size_hint(&self) -> (hint: (usize, Option<usize>)) {
        (0, None)
    }
}

/// The items of a vector, read from its front.
pub struct VecSequence<T> {
    items: Vec<T>,
    position: usize,
}

impl<T: Copy> VecSequence<T> {
    /// A sequence of all of `items`.
    pub fn new(items: Vec<T>) -> (sequence: Self)
        ensures
            sequence.remaining() == items@,
    {
        let sequence = VecSequence { items, position: 0 };
        assert(items@.skip(0) =~= items@);
        sequence
    }

    /// How many items were not handed out yet.
    pub closed spec fn left(&self) -> usize {
        if self.position <= self.items.len() {
            (self.items.len() - self.position) as usize
        } else {
            0
        }
    }

    /// How many items are left once `n` more were handed out.
    pub closed spec fn left_after(&self, n: int) -> usize {
        if 0 <= n <= self.left() {
            (self.left() - n) as usize
        } else {
            0
        }
    }

    /// The items that were not handed out yet.
    pub closed spec fn rest(&self) -> Seq<T> {
        if self.position <= self.items@.len() {
            self.items@.skip(self.position as int)
        } else {
            Seq::empty()
        }
    }
}

impl<T: Copy> Sequence for VecSequence<T> {
    type Item = T;

    open spec fn remaining(&self) -> Seq<T> {
        self.rest()
    }

    /// The hint of a vector is exact.
    open spec fn hint_after(&self, n: int) -> (usize, Option<usize>) {
        (self.left_after(n), Some(self.left_after(n)))
    }

    fn next(&mut self) -> (item: Option<T>) {
        if self.position < self.items.len() {
            let item = self.items[self.position];
            self.position = self.position + 1;
            assert(old(self).rest().skip(1) =~= self.rest());
            Some(item)
        } else {
            None
        }
    }

    fn size_hint(&self) -> (hint: (usize, Option<usize>))
        ensures
            hint.0 == self.remaining().len(),
            hint.1 == Some(hint.0),
    {
        if self.position <= self.items.len() {
            let left = self.items.len() - self.position;
            (left, Some(left))
        } else {
            (0, Some(0))
        }
    }

    fn nth(&mut self, n: usize) -> (item: Option<T>) {
        if self.position < self.items.len() && n < self.items.len() - self.position {
            let item = self.items[self.position + n];
            self.position = self.position + n + 1;
            assert(old(self).rest().skip(n + 1) =~= self.rest());
            Some(item)
        } else {
            self.position = self.items.len();
            None
        }
    }
}

} // verus!
