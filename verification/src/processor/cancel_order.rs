//! Cancel an existing order in the orderbook.
use crate::error::AoError;
use crate::state::critbit::spec_price_from_key;
use crate::state::orderbook::{OrderBookState, OrderSummary};
use crate::state::{get_side_from_order_id, spec_side_from_order_id};
use crate::utils::{fp32_mul, spec_fp32_mul};
use vstd::prelude::*;

verus! {

/// The required arguments for a cancel_order instruction.
#[derive(Clone, Copy)]
pub struct Params {
    /// The order id is a unique identifier for a particular order
    pub order_id: u128,
}

/// What cancelling an order reports: its base quantity, and the quote that
/// it stands for at its price; or `OrderNotFound` when its side of the book
/// does not hold it.
pub open spec fn spec_cancel_summary<C>(
    book: Map<u128, (u64, C)>,
    order_id: u128,
) -> Result<OrderSummary, AoError> {
    if !book.contains_key(order_id) {
        Err(AoError::OrderNotFound)
    } else {
        let qty = book[order_id].0;
        match spec_fp32_mul(qty, spec_price_from_key(order_id)) {
            None => Err(AoError::NumericalOverflow),
            Some(q) => Ok(
                OrderSummary {
                    posted_order_id: None,
                    total_base_qty: qty,
                    total_quote_qty: q,
                    total_base_qty_posted: 0,
                },
            ),
        }
    }
}

/// Removes an order from the side of the book that its id names, and
/// reports what was left of it.
pub fn cancel_order<C: Copy>(order_book: &mut OrderBookState<C>, params: &Params) -> (r: Result<
    OrderSummary,
    AoError,
>)
    requires
        old(order_book).bids.wf(),
        old(order_book).asks.wf(),
    ensures
        final(order_book).bids.wf(),
        final(order_book).asks.wf(),
        final(order_book).bids.leaf_nodes.len() == old(order_book).bids.leaf_nodes.len(),
        final(order_book).asks.leaf_nodes.len() == old(order_book).asks.leaf_nodes.len(),
        ({
            let side = spec_side_from_order_id(params.order_id);
            let book = old(order_book).book(side).orders();
            &&& r == spec_cancel_summary(book, params.order_id)
            &&& final(order_book).book(side).orders() == book.remove(params.order_id)
            &&& final(order_book).book(side.spec_opposite()) == old(order_book).book(
                side.spec_opposite(),
            )
        }),
{
    let side = get_side_from_order_id(params.order_id);
    let slab = order_book.get_tree(side);
    let ghost s0 = *slab;
    proof {
        s0.lemma_handles();
    }
    let removed = slab.remove_by_key(params.order_id);
    proof {
        if removed is Some {
            crate::state::critbit::Slab::lemma_orders_remove(s0, *slab, params.order_id);
        } else {
            assert(s0.orders().remove(params.order_id) =~= s0.orders());
        }
    }
    let (leaf_node, _) = match removed {
        Some(x) => x,
        None => {
            return Err(AoError::OrderNotFound);
        },
    };
    let total_base_qty = leaf_node.base_quantity;
    let total_quote_qty = match fp32_mul(leaf_node.base_quantity, leaf_node.price()) {
        Some(q) => q,
        None => {
            return Err(AoError::NumericalOverflow);
        },
    };
    Ok(
        OrderSummary {
            posted_order_id: None,
            total_base_qty,
            total_quote_qty,
            total_base_qty_posted: 0,
        },
    )
}

} // verus!
