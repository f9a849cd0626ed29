//! Adapters that wrap another iterator.

use vstd::prelude::*;

verus! {

/// An adapter that is built around another iterator, its parent.
pub trait ChildIterator {
    /// The type of the wrapped iterator.
    type Parent;

    /// Gives up the adapter and hands back the wrapped iterator.
    fn release_parent(self) -> Self::Parent;

    /// Lends out the wrapped iterator for changes.
    fn get_parent_mut(&mut self) -> &mut Self::Parent;

    /// Lends out the wrapped iterator.
    fn get_parent(&self) -> &Self::Parent;
}

} // verus!
