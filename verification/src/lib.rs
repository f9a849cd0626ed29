//! Iterator adapters for sequences.
//!
//! [`share`] hands out two mutable views into one sequence at a time, never onto the
//! same element; [`filter`] drops chosen values from an iteration; [`child`] names
//! what an adapter around another iterator offers.

use vstd::prelude::*;

pub mod child;
pub mod filter;
pub mod share;

verus! {

/// An iteration that can be started over.
pub trait ResettableIterator {
    /// Goes back to where the iteration began.
    fn reset(&mut self);
}

} // verus!
