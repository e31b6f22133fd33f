//! Choosing random elements of a sequence in a single pass while spending
//! as few random bits as possible.
//!
//! The entropy engines ([`coin_flipper`], [`uniform`]) cut the 32-bit words
//! of a [`source::RandomSource`] into coins and digits; the selectors
//! ([`kindness`], [`extremum`], [`unique`]) built on them pick one element,
//! a best element or one representative per key of a
//! [`sequence::Sequence`].
//!
//! What the entropy engines return is stated over the coins that they
//! read ([`coins`], [`ratio`]), and the words that they draw are tied to
//! the source by [`source::RandomSource::gives`]. What a selector holds at
//! the end of its pass is stated in the same way: over the items and over
//! what the source gave ([`pass`], and [`unique::groups_run`] for the
//! representatives). That decisions made in this way are fair on fair
//! coins, and that a pass of such decisions holds every item with the same
//! probability, is proved in [`fairness`] and [`reservoir`].

pub mod choice_iterator;
pub mod coin_flipper;
pub mod coins;
pub mod extremum;
pub mod fairness;
pub mod kindness;
pub mod pass;
pub mod ratio;
pub mod reservoir;
pub mod sequence;
pub mod source;
pub mod uniform;
pub mod unique;

pub use crate::kindness::Kindness;
pub use crate::sequence::Sequence;
pub use crate::sequence::Unhinted;
pub use crate::sequence::VecSequence;
pub use crate::source::RandomSource;
pub use crate::unique::Keyed;
