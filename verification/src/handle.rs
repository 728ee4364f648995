//! Handles: the keys under which an arena files its values.

use vstd::prelude::*;

verus! {

/// The key of one insertion: the slot that took the value, and the slot's
/// generation when it did. A handle is plain data and may be copied freely;
/// it names a value only while the slot is occupied at that generation.
#[derive(Clone, Copy, Debug, PartialEq, Eq, Structural, Hash)]
pub struct Handle {
    /// The slot's position in the arena.
    pub index: usize,
    /// The number of times the slot had been freed before the insertion.
    pub generation: u64,
}

} // verus!
