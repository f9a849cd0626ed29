//! Paired mutable access to the elements of one sequence.
//!
//! A [`DoubleIterator`] visits every ordered pair of distinct elements of a slice and
//! lends out both elements mutably at each step; a [`SingleLineIterator`] does the
//! same for the pairs that share one first element. Both borrow the slice
//! exclusively for as long as they live.

use vstd::prelude::*;

pub mod access;
pub mod double;
pub mod order;
pub mod single;

pub use self::access::pair_mut;
pub use self::double::DoubleIterator;
pub use self::single::SingleLineIterator;

verus! {

/// Why a paired iterator could not be built or moved.
#[derive(Clone, Copy, Debug, PartialEq, Eq, Structural)]
pub enum ShareError {
    /// The sequence has fewer than two elements, so it holds no pair.
    InvalidLength,
    /// The fixed index does not lie inside the sequence.
    InvalidIndex,
    /// The position pairs an element with itself or leaves the sequence.
    InvalidPosition,
}

} // verus!
