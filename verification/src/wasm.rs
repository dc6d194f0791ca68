//! What a JavaScript client of the orderbook reads from a slab account.
pub mod critbit;
