//! Pop a series of events off the event queue.
use vstd::prelude::*;

verus! {

/// The required arguments for a consume_events instruction.
#[derive(Clone, Copy)]
pub struct Params {
    /// The number of events to pop off the queue.
    pub number_of_entries_to_consume: u64,
}

} // verus!
