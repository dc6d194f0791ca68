//! The data structures that encode the orderbook's state.
use vstd::prelude::*;

pub mod accounts;
pub mod critbit;
pub mod event_queue;
pub mod layout;
pub mod market_state;
pub mod orderbook;

pub use crate::state::orderbook::{OrderSummary, ORDER_SUMMARY_SIZE};

verus! {

/// The tag in the first byte of each account of a market. The tags of the
/// initialized accounts have their high bit set, so that a program built on
/// the orderbook keeps the small tags for its own accounts.
#[derive(Clone, Copy, Debug, PartialEq, Eq, Structural)]
pub enum AccountTag {
    Uninitialized,
    Market,
    EventQueue,
    Bids,
    Asks,
}

impl AccountTag {
    /// The byte that stands for the tag in an account.
    pub open spec fn spec_as_u8(&self) -> u8 {
        match self {
            AccountTag::Uninitialized => 0,
            AccountTag::Market => 128,
            AccountTag::EventQueue => 129,
            AccountTag::Bids => 130,
            AccountTag::Asks => 131,
        }
    }

    /// The byte that stands for the tag in an account.
    pub fn as_u8(&self) -> (r: u8)
        ensures
            r == self.spec_as_u8(),
    {
        match self {
            AccountTag::Uninitialized => 0,
            AccountTag::Market => 128,
            AccountTag::EventQueue => 129,
            AccountTag::Bids => 130,
            AccountTag::Asks => 131,
        }
    }

    /// The tag as the eight-byte integer that starts the market and event
    /// queue accounts.
    pub fn as_u64(&self) -> (r: u64)
        ensures
            r == self.spec_as_u8() as u64,
    {
        self.as_u8() as u64
    }
}

/// The side of an order.
#[derive(Clone, Copy, Debug, PartialEq, Eq, Structural)]
pub enum Side {
    Bid,
    Ask,
}

impl Side {
    /// The other side.
    pub open spec fn spec_opposite(&self) -> Side {
        match self {
            Side::Bid => Side::Ask,
            Side::Ask => Side::Bid,
        }
    }

    /// Helper function to get the opposite side.
    pub fn opposite(&self) -> (r: Self)
        ensures
            r == self.spec_opposite(),
            r != *self,
    {
        match self {
            Side::Bid => Side::Ask,
            Side::Ask => Side::Bid,
        }
    }

    /// The byte that stands for the side in an event.
    pub open spec fn spec_as_u8(&self) -> u8 {
        match self {
            Side::Bid => 0,
            Side::Ask => 1,
        }
    }

    /// The byte that stands for the side in an event.
    pub fn as_u8(&self) -> (r: u8)
        ensures
            r == self.spec_as_u8(),
    {
        match self {
            Side::Bid => 0,
            Side::Ask => 1,
        }
    }
}

/// The opposite of the opposite side is the side itself.
pub proof fn lemma_opposite_involutive(side: Side)
    ensures
        side.spec_opposite().spec_opposite() == side,
{
}

/// Describes what happens when two orders with identical callback
/// informations are matched together.
#[derive(Clone, Copy, Debug, PartialEq, Eq, Structural)]
pub enum SelfTradeBehavior {
    /// The orders are matched together
    DecrementTake,
    /// The order on the provide side is cancelled. Matching for the current
    /// order continues and essentially bypasses the self-provided order.
    CancelProvide,
    /// The entire transaction fails and the program returns an error.
    AbortTransaction,
}

/// This bit is set in the order ids of bids and unset in those of asks.
pub const ORDER_ID_SIDE_FLAG: u128 = 0x8000_0000_0000_0000;

/// The side that an order id stands for: bit 63 of the id is set for bids.
pub open spec fn spec_side_from_order_id(order_id: u128) -> Side {
    if (order_id / 0x8000_0000_0000_0000) % 2 == 1 {
        Side::Bid
    } else {
        Side::Ask
    }
}

/// This helper function deduces an order's side from its order_id
pub fn get_side_from_order_id(order_id: u128) -> (r: Side)
    ensures
        r == spec_side_from_order_id(order_id),
{
    proof {
        lemma_side_flag(order_id);
    }
    if ORDER_ID_SIDE_FLAG & order_id != 0 {
        Side::Bid
    } else {
        Side::Ask
    }
}

proof fn lemma_side_flag(x: u128)
    ensures
        (0x8000_0000_0000_0000u128 & x != 0) == ((x / 0x8000_0000_0000_0000) % 2 == 1),
{
    assert((0x8000_0000_0000_0000u128 & x != 0) == ((x / 0x8000_0000_0000_0000) % 2 == 1))
        by (bit_vector);
}

} // verus!
