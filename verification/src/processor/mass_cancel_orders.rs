//! Cancel a series of existing orders in the orderbook.
use crate::error::AoError;
use crate::state::critbit::{spec_price_from_key, Slab};
use crate::state::orderbook::{OrderBookState, OrderSummary};
use crate::state::{get_side_from_order_id, spec_side_from_order_id, Side};
use crate::utils::{fp32_mul, spec_fp32_mul};
use vstd::prelude::*;

verus! {

/// The required arguments for a mass_cancel_orders instruction.
#[derive(Clone)]
pub struct Params {
    /// The order ids, unique identifiers of particular orders
    pub order_ids: Vec<u128>,
}

/// Cancels the orders `ids` in turn from the books `bids` and `asks`,
/// adding their base quantities and the quote they stand for to `base` and
/// `quote`. An order that its side of the book does not hold stops with
/// `OrderNotFound`; a total that does not fit in 64 bits with
/// `NumericalOverflow`.
pub open spec fn spec_mass_cancel<C>(
    bids: Map<u128, (u64, C)>,
    asks: Map<u128, (u64, C)>,
    ids: Seq<u128>,
    base: u64,
    quote: u64,
) -> Result<(Map<u128, (u64, C)>, Map<u128, (u64, C)>, u64, u64), AoError>
    decreases ids.len(),
{
    if ids.len() == 0 {
        Ok((bids, asks, base, quote))
    } else {
        let id = ids[0];
        let is_bid = spec_side_from_order_id(id) == Side::Bid;
        let book = if is_bid {
            bids
        } else {
            asks
        };
        if !book.contains_key(id) {
            Err(AoError::OrderNotFound)
        } else {
            let qty = book[id].0;
            match spec_fp32_mul(qty, spec_price_from_key(id)) {
                None => Err(AoError::NumericalOverflow),
                Some(q) => {
                    if base + qty > u64::MAX || quote + q > u64::MAX {
                        Err(AoError::NumericalOverflow)
                    } else if is_bid {
                        spec_mass_cancel(
                            bids.remove(id),
                            asks,
                            ids.skip(1),
                            (base + qty) as u64,
                            (quote + q) as u64,
                        )
                    } else {
                        spec_mass_cancel(
                            bids,
                            asks.remove(id),
                            ids.skip(1),
                            (base + qty) as u64,
                            (quote + q) as u64,
                        )
                    }
                },
            }
        }
    }
}

/// Cancels a series of orders and reports their total: what
/// `spec_mass_cancel` gives, from totals of zero.
pub fn mass_cancel_orders<C: Copy>(order_book: &mut OrderBookState<C>, params: &Params) -> (r: Result<
    OrderSummary,
    AoError,
>)
    requires
        old(order_book).bids.wf(),
        old(order_book).asks.wf(),
    ensures
        final(order_book).bids.wf(),
        final(order_book).asks.wf(),
        (exists|j: int|
            0 <= j < params.order_ids@.len() && !held_by_its_side(
                old(order_book).bids.orders(),
                old(order_book).asks.orders(),
                #[trigger] params.order_ids@[j],
            )) ==> r is Err,
        r is Ok ==> params.order_ids@.no_duplicates() && forall|j: int|
            0 <= j < params.order_ids@.len() ==> held_by_its_side(
                old(order_book).bids.orders(),
                old(order_book).asks.orders(),
                #[trigger] params.order_ids@[j],
            ),
        match spec_mass_cancel(
            old(order_book).bids.orders(),
            old(order_book).asks.orders(),
            params.order_ids@,
            0,
            0,
        ) {
            Err(e) => r == Err::<OrderSummary, AoError>(e),
            Ok((bids, asks, base, quote)) => {
                &&& r == Ok::<OrderSummary, AoError>(
                    OrderSummary {
                        posted_order_id: None,
                        total_base_qty: base,
                        total_quote_qty: quote,
                        total_base_qty_posted: 0,
                    },
                )
                &&& final(order_book).bids.orders() == bids
                &&& final(order_book).asks.orders() == asks
            },
        },
{
    let ghost total = spec_mass_cancel(
        order_book.bids.orders(),
        order_book.asks.orders(),
        params.order_ids@,
        0,
        0,
    );
    proof {
        lemma_mass_cancel_all_or_nothing(
            order_book.bids.orders(),
            order_book.asks.orders(),
            params.order_ids@,
            0,
            0,
        );
    }
    let mut total_base_qty: u64 = 0;
    let mut total_quote_qty: u64 = 0;
    let mut i: usize = 0;
    proof {
        assert(params.order_ids@.skip(0) =~= params.order_ids@);
    }
    while i < params.order_ids.len()
        invariant
            0 <= i <= params.order_ids.len(),
            total == spec_mass_cancel(
                old(order_book).bids.orders(),
                old(order_book).asks.orders(),
                params.order_ids@,
                0,
                0,
            ),
            order_book.bids.wf(),
            order_book.asks.wf(),
            total == spec_mass_cancel(
                order_book.bids.orders(),
                order_book.asks.orders(),
                params.order_ids@.skip(i as int),
                total_base_qty,
                total_quote_qty,
            ),
        decreases params.order_ids.len() - i,
    {
        let order_id = params.order_ids[i];
        let ghost ids = params.order_ids@.skip(i as int);
        proof {
            assert(ids[0] == order_id);
            assert(ids.skip(1) =~= params.order_ids@.skip(i + 1));
        }
        let side = get_side_from_order_id(order_id);
        let slab = order_book.get_tree(side);
        let ghost s0 = *slab;
        proof {
            s0.lemma_handles();
        }
        let (leaf_node, _) = match slab.remove_by_key(order_id) {
            Some(x) => x,
            None => {
                return Err(AoError::OrderNotFound);
            },
        };
        proof {
            Slab::lemma_orders_remove(s0, *slab, order_id);
        }
        let quote = match fp32_mul(leaf_node.base_quantity, leaf_node.price()) {
            Some(q) => q,
            None => {
                return Err(AoError::NumericalOverflow);
            },
        };
        total_base_qty = match total_base_qty.checked_add(leaf_node.base_quantity) {
            Some(t) => t,
            None => {
                return Err(AoError::NumericalOverflow);
            },
        };
        total_quote_qty = match total_quote_qty.checked_add(quote) {
            Some(t) => t,
            None => {
                return Err(AoError::NumericalOverflow);
            },
        };
        i = i + 1;
    }
    Ok(
        OrderSummary {
            posted_order_id: None,
            total_base_qty,
            total_quote_qty,
            total_base_qty_posted: 0,
        },
    )
}


/// The side of the book that the order `id` belongs to holds it.
pub open spec fn held_by_its_side<C>(
    bids: Map<u128, (u64, C)>,
    asks: Map<u128, (u64, C)>,
    id: u128,
) -> bool {
    if spec_side_from_order_id(id) == Side::Bid {
        bids.contains_key(id)
    } else {
        asks.contains_key(id)
    }
}

/// The ids of a list that belong to a side.
pub open spec fn ids_of_side(ids: Seq<u128>, side: Side) -> Set<u128> {
    ids.to_set().filter(|id: u128| spec_side_from_order_id(id) == side)
}

/// Cancelling a list of orders succeeds only when its side of the book
/// holds every listed order, each listed once, and then takes exactly the
/// listed orders off the books; an order that its side does not hold makes
/// the whole cancellation fail, and it fails with `OrderNotFound` only where
/// a listed order is missing or listed twice.
pub proof fn lemma_mass_cancel_all_or_nothing<C>(
    bids: Map<u128, (u64, C)>,
    asks: Map<u128, (u64, C)>,
    ids: Seq<u128>,
    base: u64,
    quote: u64,
)
    ensures
        (exists|j: int| 0 <= j < ids.len() && !held_by_its_side(bids, asks, #[trigger] ids[j]))
            ==> spec_mass_cancel(bids, asks, ids, base, quote) is Err,
        spec_mass_cancel(bids, asks, ids, base, quote) == Err::<
            (Map<u128, (u64, C)>, Map<u128, (u64, C)>, u64, u64),
            AoError,
        >(AoError::OrderNotFound) ==> !(ids.no_duplicates() && forall|j: int|
            0 <= j < ids.len() ==> held_by_its_side(bids, asks, #[trigger] ids[j])),
        spec_mass_cancel(bids, asks, ids, base, quote) matches Ok((b, a, tb, tq)) ==> {
            &&& ids.no_duplicates()
            &&& forall|j: int|
                0 <= j < ids.len() ==> held_by_its_side(bids, asks, #[trigger] ids[j])
            &&& b == bids.remove_keys(ids_of_side(ids, Side::Bid))
            &&& a == asks.remove_keys(ids_of_side(ids, Side::Ask))
            &&& tb >= base
            &&& tq >= quote
        },
    decreases ids.len(),
{
    if ids.len() == 0 {
        assert(ids_of_side(ids, Side::Bid) =~= Set::<u128>::empty());
        assert(ids_of_side(ids, Side::Ask) =~= Set::<u128>::empty());
        assert(bids.remove_keys(Set::<u128>::empty()) =~= bids);
        assert(asks.remove_keys(Set::<u128>::empty()) =~= asks);
    } else {
        let id = ids[0];
        let rest = ids.skip(1);
        let is_bid = spec_side_from_order_id(id) == Side::Bid;
        let book = if is_bid {
            bids
        } else {
            asks
        };
        if book.contains_key(id) {
            let qty = book[id].0;
            if let Some(q) = spec_fp32_mul(qty, spec_price_from_key(id)) {
                if !(base + qty > u64::MAX || quote + q > u64::MAX) {
                    let nb = if is_bid {
                        bids.remove(id)
                    } else {
                        bids
                    };
                    let na = if is_bid {
                        asks
                    } else {
                        asks.remove(id)
                    };
                    let nbase = (base + qty) as u64;
                    let nquote = (quote + q) as u64;
                    lemma_mass_cancel_all_or_nothing(nb, na, rest, nbase, nquote);
                    assert(spec_mass_cancel(bids, asks, ids, base, quote) == spec_mass_cancel(
                        nb,
                        na,
                        rest,
                        nbase,
                        nquote,
                    ));
                    // a missing order further down the list is missing from the smaller books too
                    if exists|j: int|
                        0 <= j < ids.len() && !held_by_its_side(bids, asks, #[trigger] ids[j]) {
                        let j = choose|j: int|
                            0 <= j < ids.len() && !held_by_its_side(bids, asks, #[trigger] ids[j]);
                        assert(j != 0);
                        assert(rest[j - 1] == ids[j]);
                        assert(!held_by_its_side(nb, na, rest[j - 1]));
                    }
                    // the whole list held and listed once: so is the rest, in the smaller books
                    if ids.no_duplicates() && forall|j: int|
                        0 <= j < ids.len() ==> held_by_its_side(bids, asks, #[trigger] ids[j]) {
                        assert(rest.no_duplicates()) by {
                            assert forall|x: int, y: int|
                                0 <= x < rest.len() && 0 <= y < rest.len() && x != y implies rest[x]
                                != rest[y] by {
                                assert(rest[x] == ids[x + 1] && rest[y] == ids[y + 1]);
                            }
                        }
                        assert forall|j: int|
                            0 <= j < rest.len() implies held_by_its_side(nb, na, #[trigger] rest[j]) by {
                            assert(rest[j] == ids[j + 1]);
                            assert(held_by_its_side(bids, asks, ids[j + 1]));
                            assert(ids[j + 1] != ids[0]);
                        }
                    }
                    if let Ok((b, a, tb, tq)) = spec_mass_cancel(nb, na, rest, nbase, nquote) {
                        assert(!rest.contains(id)) by {
                            if rest.contains(id) {
                                let j = choose|j: int| 0 <= j < rest.len() && rest[j] == id;
                                assert(held_by_its_side(nb, na, rest[j]));
                            }
                        }
                        assert forall|x: int, y: int|
                            0 <= x < ids.len() && 0 <= y < ids.len() && x != y implies ids[x]
                            != ids[y] by {
                            if x > 0 && y > 0 {
                                assert(ids[x] == rest[x - 1] && ids[y] == rest[y - 1]);
                            } else if x == 0 {
                                assert(ids[y] == rest[y - 1]);
                            } else {
                                assert(ids[x] == rest[x - 1]);
                            }
                        }
                        assert forall|j: int|
                            0 <= j < ids.len() implies held_by_its_side(bids, asks, #[trigger] ids[j]) by {
                            if j > 0 {
                                assert(ids[j] == rest[j - 1]);
                                assert(held_by_its_side(nb, na, rest[j - 1]));
                            }
                        }
                        assert(ids.to_set() =~= rest.to_set().insert(id)) by {
                            assert forall|x: u128| ids.to_set().contains(x) implies rest.to_set().insert(
                                id,
                            ).contains(x) by {
                                let j = choose|j: int| 0 <= j < ids.len() && ids[j] == x;
                                if j > 0 {
                                    assert(rest[j - 1] == x);
                                }
                            }
                            assert forall|x: u128| rest.to_set().insert(id).contains(x) implies ids.to_set().contains(
                                x,
                            ) by {
                                if x == id {
                                    assert(ids[0] == x);
                                } else {
                                    let j = choose|j: int| 0 <= j < rest.len() && rest[j] == x;
                                    assert(ids[j + 1] == x);
                                }
                            }
                        }
                        if is_bid {
                            assert(ids_of_side(ids, Side::Bid) =~= ids_of_side(rest, Side::Bid).insert(id));
                            assert(ids_of_side(ids, Side::Ask) =~= ids_of_side(rest, Side::Ask));
                            assert(b =~= bids.remove_keys(ids_of_side(ids, Side::Bid)));
                        } else {
                            assert(ids_of_side(ids, Side::Ask) =~= ids_of_side(rest, Side::Ask).insert(id));
                            assert(ids_of_side(ids, Side::Bid) =~= ids_of_side(rest, Side::Bid));
                            assert(a =~= asks.remove_keys(ids_of_side(ids, Side::Ask)));
                        }
                    }
                }
            }
        }
    }
}

} // verus!
