//! An orderbook library for generic assets: a critbit tree of resting orders
//! per side, an event queue that reports matches and removals, and the
//! matching engine that ties them together.

pub mod critbit;
pub mod error;
pub mod instruction;
pub mod processor;
pub mod state;
pub mod utils;
pub mod wasm;

pub use crate::state::orderbook::{OrderSummary, ORDER_SUMMARY_SIZE};
