//! Pause the matching of new orders.
use vstd::prelude::*;

verus! {

/// The required arguments for a pause_matching instruction: there are none.
#[derive(Clone, Copy)]
pub struct Params {}

} // verus!
