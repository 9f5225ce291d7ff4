//! Asynchronous data structures like channels need to track sets of waiting
//! futures. Here the pending wakers are stored in slots, one for each waiting
//! future, and the slots are linked into a doubly-linked list that the shared
//! data structure holds.
//!
//! A [`WakerList`] and the [`WakerSlot`]s that are linked into it refer to one
//! another by address, so they live in an [`Arena`], which gives every value
//! that is pinned in it an address of its own.
mod arena;
mod array;
pub mod effects;
mod extracted;
pub mod history;
pub mod laws;
mod list;
mod marker;
pub mod model;
mod pointers;
mod slot;
mod waker;

pub use arena::Arena;
pub use array::EXTRACT_CAPACITY;
pub use extracted::DrainedWakers;
pub use extracted::ExtractedWakers;
pub use list::ExtractionRound;
pub use list::WakerList;
pub use slot::WakerSlot;
pub use waker::WakeLog;
