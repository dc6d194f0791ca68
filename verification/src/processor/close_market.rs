//! Close an existing market.
use crate::error::AoError;
use crate::state::event_queue::EventQueue;
use crate::state::orderbook::OrderBookState;
use vstd::prelude::*;

verus! {

/// The required arguments for a close_market instruction: there are none.
#[derive(Clone, Copy)]
pub struct Params {}

/// A market can be closed once its book holds no order and its event queue
/// no event; otherwise it is still active.
pub fn check_closable<C>(order_book: &OrderBookState<C>, event_queue: &EventQueue<C>) -> (r: Result<
    (),
    AoError,
>)
    ensures
        r is Ok <==> order_book.bids.header.leaf_count == 0 && order_book.asks.header.leaf_count
            == 0 && event_queue.header.count == 0,
        r is Err ==> r == Err::<(), AoError>(AoError::MarketStillActive),
{
    if !order_book.is_empty() {
        return Err(AoError::MarketStillActive);
    }
    if event_queue.header.count != 0 {
        return Err(AoError::MarketStillActive);
    }
    Ok(())
}

} // verus!
