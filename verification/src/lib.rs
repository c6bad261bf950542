//! Concurrent FIFO event queue / message queue. Multi consumer: each consumer receives every
//! message pushed after it subscribed.
//!
//! The queue is a list of chunks. Each chunk counts the readers that entered it and the readers
//! that read it to the end; when both are equal and it is at the front, the chunk is freed.
use vstd::prelude::*;

pub mod chunk_state;
pub mod chunk_storage;
pub mod cursor;
pub mod dynamic_chunk;
pub mod event_queue;
pub mod event_reader;
pub mod laws;
pub mod len_and_epoch;
pub mod mpmc;
pub mod spmc;
pub mod utils;

pub use event_queue::CleanupMode;
pub use event_reader::LendingIterator;

verus! {

/// The epoch of a queue's start position; it fits in 31 bits.
pub type StartPositionEpoch = utils::Epoch<2147483647>;

} // verus!
