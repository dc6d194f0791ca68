use vstd::prelude::*;

verus! {

/// The errors that the orderbook's operations report.
#[derive(Clone, Copy, Debug, PartialEq, Eq, Structural)]
pub enum AoError {
    AlreadyInitialized,
    WrongBidsAccount,
    WrongAsksAccount,
    WrongEventQueueAccount,
    WrongCallerAuthority,
    EventQueueFull,
    OrderNotFound,
    WouldSelfTrade,
    SlabOutOfSpace,
    FeeNotPayed,
    NoOperations,
    MarketStillActive,
    InvalidBaseQuantity,
    WrongEventQueueOwner,
    WrongBidsOwner,
    WrongAsksOwner,
    WrongMarketOwner,
    WrongMsrmOwner,
    WrongMsrmMint,
    WrongMsrmBalance,
    IllegalMsrmOwner,
    InvalidLimitPrice,
    NumericalOverflow,
    InvalidCallbackInfo,
    /// A post-only order would cross the spread.
    PostOnlyWouldCross,
}

/// The ways an account's bytes can be refused.
#[derive(Clone, Copy, Debug, PartialEq, Eq, Structural)]
pub enum AccountError {
    /// The account was expected to be fresh and is not.
    AccountAlreadyInitialized,
    /// The account's tag or size is not what the operation expects.
    InvalidAccountData,
    /// An argument of the instruction is out of its range.
    InvalidArgument,
}

/// The result type of the orderbook's operations.
pub type AoResult<T = ()> = Result<T, AoError>;

impl AoError {
    /// The numeric code of the error: its position in the list of variants.
    pub fn code(&self) -> (r: u32)
        ensures
            r == self.spec_code(),
    {
        match self {
            AoError::AlreadyInitialized => 0,
            AoError::WrongBidsAccount => 1,
            AoError::WrongAsksAccount => 2,
            AoError::WrongEventQueueAccount => 3,
            AoError::WrongCallerAuthority => 4,
            AoError::EventQueueFull => 5,
            AoError::OrderNotFound => 6,
            AoError::WouldSelfTrade => 7,
            AoError::SlabOutOfSpace => 8,
            AoError::FeeNotPayed => 9,
            AoError::NoOperations => 10,
            AoError::MarketStillActive => 11,
            AoError::InvalidBaseQuantity => 12,
            AoError::WrongEventQueueOwner => 13,
            AoError::WrongBidsOwner => 14,
            AoError::WrongAsksOwner => 15,
            AoError::WrongMarketOwner => 16,
            AoError::WrongMsrmOwner => 17,
            AoError::WrongMsrmMint => 18,
            AoError::WrongMsrmBalance => 19,
            AoError::IllegalMsrmOwner => 20,
            AoError::InvalidLimitPrice => 21,
            AoError::NumericalOverflow => 22,
            AoError::InvalidCallbackInfo => 23,
            AoError::PostOnlyWouldCross => 24,
        }
    }

    /// The numeric code of each error variant.
    pub open spec fn spec_code(&self) -> u32 {
        match self {
            AoError::AlreadyInitialized => 0,
            AoError::WrongBidsAccount => 1,
            AoError::WrongAsksAccount => 2,
            AoError::WrongEventQueueAccount => 3,
            AoError::WrongCallerAuthority => 4,
            AoError::EventQueueFull => 5,
            AoError::OrderNotFound => 6,
            AoError::WouldSelfTrade => 7,
            AoError::SlabOutOfSpace => 8,
            AoError::FeeNotPayed => 9,
            AoError::NoOperations => 10,
            AoError::MarketStillActive => 11,
            AoError::InvalidBaseQuantity => 12,
            AoError::WrongEventQueueOwner => 13,
            AoError::WrongBidsOwner => 14,
            AoError::WrongAsksOwner => 15,
            AoError::WrongMarketOwner => 16,
            AoError::WrongMsrmOwner => 17,
            AoError::WrongMsrmMint => 18,
            AoError::WrongMsrmBalance => 19,
            AoError::IllegalMsrmOwner => 20,
            AoError::InvalidLimitPrice => 21,
            AoError::NumericalOverflow => 22,
            AoError::InvalidCallbackInfo => 23,
            AoError::PostOnlyWouldCross => 24,
        }
    }

    /// The error's message.
    pub open spec fn spec_message(&self) -> &'static str {
        match *self {
            AoError::AlreadyInitialized => "This account is already initialized",
            AoError::WrongBidsAccount => "An invalid bids account has been provided.",
            AoError::WrongAsksAccount => "An invalid asks account has been provided.",
            AoError::WrongEventQueueAccount => "An invalid event queue account has been provided.",
            AoError::WrongCallerAuthority => "An invalid caller authority account has been provided.",
            AoError::EventQueueFull => "The event queue is full.",
            AoError::OrderNotFound => "The order could not be found.",
            AoError::WouldSelfTrade => "The order would self trade.",
            AoError::SlabOutOfSpace => "The market's memory is full.",
            AoError::FeeNotPayed => "The due fee was not payed.",
            AoError::NoOperations => "This instruction is a No-op.",
            AoError::MarketStillActive => "The market is still active",
            AoError::InvalidBaseQuantity => "The base quantity must be > 0",
            AoError::WrongEventQueueOwner => "The event queue should be owned by the AO program",
            AoError::WrongBidsOwner => "The bids account should be owned by the AO program",
            AoError::WrongAsksOwner => "The asks account should be owned by the AO program",
            AoError::WrongMarketOwner => "The market account should be owned by the AO program",
            AoError::WrongMsrmOwner => "The MSRM token account should be owned by the cranker",
            AoError::WrongMsrmMint => "An invalid MSRM mint has been provided",
            AoError::WrongMsrmBalance => "The MSRM token account does not have enough balances",
            AoError::IllegalMsrmOwner => "Illegal MSRM token account owner",
            AoError::InvalidLimitPrice => "Limit price must be a tick size multiple",
            AoError::NumericalOverflow => "Numerical overlflow",
            AoError::InvalidCallbackInfo => "Invalid callback info",
            AoError::PostOnlyWouldCross => "The post-only order would cross the spread",
        }
    }

    /// The error's message.
    pub fn message(&self) -> (r: &'static str)
        ensures
            r == self.spec_message(),
    {
        match self {
            AoError::AlreadyInitialized => "This account is already initialized",
            AoError::WrongBidsAccount => "An invalid bids account has been provided.",
            AoError::WrongAsksAccount => "An invalid asks account has been provided.",
            AoError::WrongEventQueueAccount => "An invalid event queue account has been provided.",
            AoError::WrongCallerAuthority => "An invalid caller authority account has been provided.",
            AoError::EventQueueFull => "The event queue is full.",
            AoError::OrderNotFound => "The order could not be found.",
            AoError::WouldSelfTrade => "The order would self trade.",
            AoError::SlabOutOfSpace => "The market's memory is full.",
            AoError::FeeNotPayed => "The due fee was not payed.",
            AoError::NoOperations => "This instruction is a No-op.",
            AoError::MarketStillActive => "The market is still active",
            AoError::InvalidBaseQuantity => "The base quantity must be > 0",
            AoError::WrongEventQueueOwner => "The event queue should be owned by the AO program",
            AoError::WrongBidsOwner => "The bids account should be owned by the AO program",
            AoError::WrongAsksOwner => "The asks account should be owned by the AO program",
            AoError::WrongMarketOwner => "The market account should be owned by the AO program",
            AoError::WrongMsrmOwner => "The MSRM token account should be owned by the cranker",
            AoError::WrongMsrmMint => "An invalid MSRM mint has been provided",
            AoError::WrongMsrmBalance => "The MSRM token account does not have enough balances",
            AoError::IllegalMsrmOwner => "Illegal MSRM token account owner",
            AoError::InvalidLimitPrice => "Limit price must be a tick size multiple",
            AoError::NumericalOverflow => "Numerical overlflow",
            AoError::InvalidCallbackInfo => "Invalid callback info",
            AoError::PostOnlyWouldCross => "The post-only order would cross the spread",
        }
    }
}

} // verus!
