//! Mutable sets that allocate no storage while they are empty.
//!
//! A set is either unallocated, with no elements and no storage, or
//! populated, with a non-empty table of distinct elements that a hash index
//! finds by their hashes. Every operation ends in one of these two states,
//! so an empty set never holds storage.
//! Two variants share all behaviour: `NanoSet` also offers the hooks that a
//! cycle collector calls, `PicoSet` does not.
pub mod element;
pub mod frozen;
pub mod handle;
pub mod laws;
pub mod model;
pub mod set;
mod table;

pub use element::Element;
pub use frozen::FrozenSet;
pub use model::Comparison;
pub use set::{CompactSet, NanoSet, PicoSet, SetError};
