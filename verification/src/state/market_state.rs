//! The market account: the addresses of the market's other accounts and its
//! parameters.
use vstd::prelude::*;

verus! {

/// The orderbook market's central state
#[derive(Clone, Copy, Debug)]
pub struct MarketState {
    /// The public key of the orderbook's event queue account
    pub event_queue: [u8; 32],
    /// The public key of the orderbook's bids account
    pub bids: [u8; 32],
    /// The public key of the orderbook's asks account
    pub asks: [u8; 32],
    /// The current budget of fees that have been collected.
    /// Cranker rewards are taken from this. This value allows
    /// for a verification that the fee was payed in the caller program
    /// runtime while not having to add a CPI call to the serum-core.
    pub fee_budget: u64,
    /// The amount of lamports the market account was created with.
    pub initial_lamports: u64,
    /// The minimum order size that can be inserted into the orderbook after
    /// matching.
    pub min_base_order_size: u64,
    /// Tick size (FP32)
    pub tick_size: u64,
    /// Cranker reward (in lamports)
    pub cranker_reward: u64,
}

impl MarketState {
    /// Expected size in bytes of MarketState
    pub const LEN: usize = 136;
}

} // verus!
