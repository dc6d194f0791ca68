//! The instructions of the orderbook: their parameters and the checks and
//! computations that each makes on the market's accounts.
pub mod cancel_order;
pub mod close_market;
pub mod consume_events;
pub mod create_market;
pub mod mass_cancel_orders;
pub mod new_order;
pub mod pause_matching;
pub mod prune_orders;
pub mod resume_matching;
