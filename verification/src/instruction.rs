//! The instructions of the orderbook program and the byte that selects each.
use vstd::prelude::*;

verus! {

/// Describes all possible instructions and their required accounts
#[derive(Clone, Copy, Debug, PartialEq, Eq, Structural)]
pub enum AgnosticOrderbookInstruction {
    /// Create and initialize a new orderbook market
    CreateMarket,
    /// Execute a new order on the orderbook.
    ///
    /// Depending on the provided parameters, the program will attempt to match
    /// the order with existing entries in the orderbook, and then optionally
    /// post the remaining order.
    NewOrder,
    /// Pop a series of events off the event queue.
    ConsumeEvents,
    /// Cancel an existing order in the orderbook.
    CancelOrder,
    /// Close an existing market.
    CloseMarket,
    /// Cancel a series of existing orders in the orderbook.
    MassCancelOrders,
}

impl AgnosticOrderbookInstruction {
    /// The instruction that a byte selects: its position in the list of
    /// instructions.
    pub open spec fn spec_from_u8(b: u8) -> Option<AgnosticOrderbookInstruction> {
        if b == 0 {
            Some(AgnosticOrderbookInstruction::CreateMarket)
        } else if b == 1 {
            Some(AgnosticOrderbookInstruction::NewOrder)
        } else if b == 2 {
            Some(AgnosticOrderbookInstruction::ConsumeEvents)
        } else if b == 3 {
            Some(AgnosticOrderbookInstruction::CancelOrder)
        } else if b == 4 {
            Some(AgnosticOrderbookInstruction::CloseMarket)
        } else if b == 5 {
            Some(AgnosticOrderbookInstruction::MassCancelOrders)
        } else {
            None
        }
    }

    /// The byte that selects the instruction.
    pub open spec fn spec_as_u8(&self) -> u8 {
        match self {
            AgnosticOrderbookInstruction::CreateMarket => 0,
            AgnosticOrderbookInstruction::NewOrder => 1,
            AgnosticOrderbookInstruction::ConsumeEvents => 2,
            AgnosticOrderbookInstruction::CancelOrder => 3,
            AgnosticOrderbookInstruction::CloseMarket => 4,
            AgnosticOrderbookInstruction::MassCancelOrders => 5,
        }
    }

    /// The instruction that a byte selects, if any.
    pub fn from_u8(b: u8) -> (r: Option<AgnosticOrderbookInstruction>)
        ensures
            r == Self::spec_from_u8(b),
    {
        match b {
            0 => Some(AgnosticOrderbookInstruction::CreateMarket),
            1 => Some(AgnosticOrderbookInstruction::NewOrder),
            2 => Some(AgnosticOrderbookInstruction::ConsumeEvents),
            3 => Some(AgnosticOrderbookInstruction::CancelOrder),
            4 => Some(AgnosticOrderbookInstruction::CloseMarket),
            5 => Some(AgnosticOrderbookInstruction::MassCancelOrders),
            _ => None,
        }
    }

    /// The byte that selects the instruction.
    pub fn as_u8(&self) -> (r: u8)
        ensures
            r == self.spec_as_u8(),
    {
        match self {
            AgnosticOrderbookInstruction::CreateMarket => 0,
            AgnosticOrderbookInstruction::NewOrder => 1,
            AgnosticOrderbookInstruction::ConsumeEvents => 2,
            AgnosticOrderbookInstruction::CancelOrder => 3,
            AgnosticOrderbookInstruction::CloseMarket => 4,
            AgnosticOrderbookInstruction::MassCancelOrders => 5,
        }
    }
}

/// Reading back the byte of an instruction gives the instruction.
pub proof fn lemma_instruction_byte_roundtrip(i: AgnosticOrderbookInstruction)
    ensures
        AgnosticOrderbookInstruction::spec_from_u8(i.spec_as_u8()) == Some(i),
{
}


/// Each instruction is selected by its position in the list of
/// instructions: create market 0, new order 1, consume events 2, cancel
/// order 3, close market 4, mass cancel 5. A byte selects the instruction
/// at its position, and no byte past the last one selects any.
pub proof fn lemma_instruction_bytes_follow_declaration_order()
    ensures
        AgnosticOrderbookInstruction::CreateMarket.spec_as_u8() == 0,
        AgnosticOrderbookInstruction::NewOrder.spec_as_u8() == 1,
        AgnosticOrderbookInstruction::ConsumeEvents.spec_as_u8() == 2,
        AgnosticOrderbookInstruction::CancelOrder.spec_as_u8() == 3,
        AgnosticOrderbookInstruction::CloseMarket.spec_as_u8() == 4,
        AgnosticOrderbookInstruction::MassCancelOrders.spec_as_u8() == 5,
        forall|b: u8|
            #![trigger AgnosticOrderbookInstruction::spec_from_u8(b)]
            b < 6 ==> (AgnosticOrderbookInstruction::spec_from_u8(b) matches Some(i)
                && i.spec_as_u8() == b),
        forall|b: u8|
            #![trigger AgnosticOrderbookInstruction::spec_from_u8(b)]
            b >= 6 ==> AgnosticOrderbookInstruction::spec_from_u8(b) is None,
{
}

} // verus!
