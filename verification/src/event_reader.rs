use vstd::prelude::*;

pub use crate::event_queue::{EventReader, Iter};

verus! {

/// An iterator whose items borrow from the iterator itself.
pub trait LendingIterator {
    type ItemValue;

    fn next(&mut self) -> Option<&Self::ItemValue>;
}

} // verus!
