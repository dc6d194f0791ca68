//! Remove orders from the book.
use vstd::prelude::*;

verus! {

/// The required arguments for a prune_orders instruction.
#[derive(Clone, Copy)]
pub struct Params {
    /// Depending on available compute or space on the event queue, there may
    /// be a limit to the amount of orders that can be pruned in one
    /// transaction
    pub num_orders_to_prune: u64,
}

} // verus!
