//! Execute a new order on the orderbook
use crate::error::AoError;
use crate::state::market_state::MarketState;
use crate::state::{SelfTradeBehavior, Side};
use vstd::prelude::*;

verus! {

/// The required arguments for a new_order instruction.
#[derive(Clone, Copy)]
pub struct Params<C> {
    /// The maximum quantity of base to be traded.
    pub max_base_qty: u64,
    /// The maximum quantity of quote to be traded.
    pub max_quote_qty: u64,
    /// The limit price of the order. This value is understood as a 32-bit
    /// fixed point number. Must be rounded to the nearest tick size multiple
    /// (see [`round_price`][`crate::utils::round_price`])
    pub limit_price: u64,
    /// The order's side.
    pub side: Side,
    /// The maximum number of orders to match against before performing a
    /// partial fill.
    pub match_limit: u64,
    /// The callback information is used to attach metadata to an order. This
    /// callback information will be transmitted back through the event queue.
    pub callback_info: C,
    /// The order will not be matched against the orderbook and will be
    /// directly written into it. The operation fails with
    /// `PostOnlyWouldCross` if the order's limit price crosses the spread.
    pub post_only: bool,
    /// The order will be matched against the orderbook, but what remains will
    /// not be written as a new order into the orderbook.
    pub post_allowed: bool,
    /// Describes what would happen if this order was matched against an order
    /// with an equal `callback_info` field.
    pub self_trade_behavior: SelfTradeBehavior,
}

/// A limit price must be a multiple of the market's tick size.
pub fn check_limit_price(limit_price: u64, tick_size: u64) -> (r: Result<(), AoError>)
    requires
        tick_size > 0,
    ensures
        r is Ok <==> limit_price % tick_size == 0,
        r is Err ==> r == Err::<(), AoError>(AoError::InvalidLimitPrice),
{
    if limit_price % tick_size != 0 {
        return Err(AoError::InvalidLimitPrice);
    }
    Ok(())
}

/// The caller pays the fees into the market account before a new order: the
/// lamports that the account holds beyond those it was created with must
/// cover the fee budget and a cranker reward. The fee budget then becomes
/// those lamports.
pub fn collect_fees(market_state: &mut MarketState, market_lamports: u64) -> (r: Result<(), AoError>)
    requires
        old(market_state).initial_lamports <= market_lamports,
        old(market_state).fee_budget + old(market_state).cranker_reward <= u64::MAX,
    ensures
        r is Err <==> market_lamports - old(market_state).initial_lamports < old(
            market_state,
        ).fee_budget + old(market_state).cranker_reward,
        r is Err ==> r == Err::<(), AoError>(AoError::FeeNotPayed) && *final(market_state) == *old(
            market_state,
        ),
        r is Ok ==> *final(market_state) == (MarketState {
            fee_budget: (market_lamports - old(market_state).initial_lamports) as u64,
            ..*old(market_state)
        }),
{
    let collected = market_lamports - market_state.initial_lamports;
    if collected < market_state.fee_budget + market_state.cranker_reward {
        return Err(AoError::FeeNotPayed);
    }
    market_state.fee_budget = collected;
    Ok(())
}

} // verus!
