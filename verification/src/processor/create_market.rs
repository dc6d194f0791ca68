//! Create and initialize a new orderbook market
use crate::error::AccountError;
use crate::state::market_state::MarketState;
use vstd::prelude::*;

verus! {

/// The required arguments for a create_market instruction.
#[derive(Clone, Copy)]
pub struct Params {
    /// The caller authority will be the required signer for all market
    /// instructions.
    ///
    /// In practice, it will almost always be a program-derived address..
    pub caller_authority: [u8; 32],
    /// Callback information can be used by the caller to attach specific
    /// information to all orders.
    ///
    /// An example of this would be to store a public key to uniquely identify
    /// the owner of a particular order. This example would thus require a
    /// value of 32
    pub callback_info_len: u64,
    /// The prefix length of callback information which is used to identify
    /// self-trading
    pub callback_id_len: u64,
    /// The minimum order size that can be inserted into the orderbook after
    /// matching.
    pub min_base_order_size: u64,
    /// Enables the limiting of price precision on the orderbook (price ticks)
    pub tick_size: u64,
    /// Fixed fee for every new order operation. A higher fee increases
    /// incentives for cranking.
    pub cranker_reward: u64,
}

/// The state of a new market whose event queue, bids and asks accounts have
/// the given addresses and whose account holds `initial_lamports`; a market
/// whose minimum order size is zero is refused.
pub fn new_market_state(
    params: &Params,
    event_queue: [u8; 32],
    bids: [u8; 32],
    asks: [u8; 32],
    initial_lamports: u64,
) -> (r: Result<MarketState, AccountError>)
    ensures
        params.min_base_order_size == 0 <==> r == Err::<MarketState, AccountError>(
            AccountError::InvalidArgument,
        ),
        params.min_base_order_size > 0 ==> r == Ok::<MarketState, AccountError>(
            MarketState {
                event_queue,
                bids,
                asks,
                fee_budget: 0,
                initial_lamports,
                min_base_order_size: params.min_base_order_size,
                tick_size: params.tick_size,
                cranker_reward: params.cranker_reward,
            },
        ),
{
    if params.min_base_order_size == 0 {
        return Err(AccountError::InvalidArgument);
    }
    Ok(
        MarketState {
            event_queue,
            bids,
            asks,
            fee_budget: 0,
            initial_lamports,
            min_base_order_size: params.min_base_order_size,
            tick_size: params.tick_size,
            cranker_reward: params.cranker_reward,
        },
    )
}

} // verus!
