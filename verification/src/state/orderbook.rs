//! The orderbook: a slab of resting orders for each side, and the matching
//! engine that meets an incoming order with the opposite side and posts what
//! is left of it.
use crate::error::AoError;
use crate::processor::new_order::Params;
use crate::state::critbit::{spec_price_from_key, LeafNode, NodeHandle, Slab};
use crate::state::event_queue::{spec_order_id, Event, EventQueue, EventTag, FillEvent, OutEvent};
use crate::state::{SelfTradeBehavior, Side};
use crate::utils::{fp32_div, fp32_mul, spec_fp32_div, spec_fp32_mul};
use vstd::prelude::*;

verus! {

/// This struct is written back into the event queue's register after
/// new_order or cancel_order.
///
/// In the case of a new order, the quantities describe the total order
/// amounts which were either matched against other orders or written into the
/// orderbook.
///
/// In the case of an order cancellation, the quantities describe what was
/// left of the order in the orderbook.
#[derive(Clone, Copy, Debug)]
pub struct OrderSummary {
    /// When applicable, the order id of the newly created order.
    pub posted_order_id: Option<u128>,
    pub total_base_qty: u64,
    pub total_quote_qty: u64,
    pub total_base_qty_posted: u64,
}

/// The serialized size of an OrderSummary object.
pub const ORDER_SUMMARY_SIZE: u32 = 41;

/// The metadata that a caller attaches to an order. Two orders whose
/// callback ids are equal belong to the same owner: matching them together is
/// a self trade.
pub trait CallbackInfo: Sized + Copy {
    type CallbackId;

    /// The owner that the callback information stands for.
    spec fn spec_callback_id(&self) -> Self::CallbackId;

    /// The owner that the callback information stands for.
    fn as_callback_id(&self) -> (r: &Self::CallbackId)
        ensures
            *r == self.spec_callback_id(),
    ;

    /// Whether two callback ids are the same.
    fn callback_id_eq(a: &Self::CallbackId, b: &Self::CallbackId) -> (r: bool)
        ensures
            r == (*a == *b),
    ;
}

impl CallbackInfo for [u8; 32] {
    type CallbackId = [u8; 32];

    open spec fn spec_callback_id(&self) -> [u8; 32] {
        *self
    }

    fn as_callback_id(&self) -> (r: &[u8; 32]) {
        self
    }

    fn callback_id_eq(a: &[u8; 32], b: &[u8; 32]) -> (r: bool) {
        let mut i: usize = 0;
        while i < 32
            invariant
                0 <= i <= 32,
                forall|j: int| 0 <= j < i ==> a[j] == b[j],
            decreases 32 - i,
        {
            if a[i] != b[i] {
                return false;
            }
            i = i + 1;
        }
        assert(*a =~= *b);
        true
    }
}

// ------------------------------------------------------------------------
// The matching engine, as a function of the books.
/// `k` is the order of `book` that an incoming order meets first: the lowest
/// key when `lowest` (asks, for an incoming bid), else the highest (bids,
/// for an incoming ask).
pub open spec fn is_best_key<C>(book: Map<u128, (u64, C)>, k: u128, lowest: bool) -> bool {
    &&& book.contains_key(k)
    &&& forall|k2: u128| #[trigger]
        book.contains_key(k2) ==> if lowest {
            k <= k2
        } else {
            k2 <= k
        }
}

/// The order of `book` that an incoming order meets first.
pub open spec fn best_key<C>(book: Map<u128, (u64, C)>, lowest: bool) -> u128 {
    choose|k: u128| is_best_key(book, k, lowest)
}

/// The best order of a book is the one order that is best.
pub proof fn lemma_best_key_unique<C>(book: Map<u128, (u64, C)>, k: u128, lowest: bool)
    requires
        is_best_key(book, k, lowest),
    ensures
        best_key(book, lowest) == k,
{
    let b = best_key(book, lowest);
    assert(is_best_key(book, b, lowest));
    assert(book.contains_key(k) && book.contains_key(b));
}

/// A resting order at `price` can be matched by an incoming order on `side`
/// with limit price `limit`.
pub open spec fn crosses(side: Side, limit: u64, price: u64) -> bool {
    match side {
        Side::Bid => limit >= price,
        Side::Ask => limit <= price,
    }
}

/// The event that reports an order leaving the book.
pub open spec fn out_event(side: Side, order_id: u128, base_size: u64) -> OutEvent {
    OutEvent {
        tag: 1,
        side: side.spec_as_u8(),
        delete: 1,
        _padding: [0u8, 0, 0, 0, 0, 0, 0, 0, 0, 0, 0, 0, 0],
        order_id,
        base_size,
    }
}

/// The event that reports a match.
pub open spec fn fill_event(
    taker_side: Side,
    maker_order_id: u128,
    quote_size: u64,
    base_size: u64,
) -> FillEvent {
    FillEvent {
        tag: 0,
        taker_side: taker_side.spec_as_u8(),
        _padding: [0u8, 0, 0, 0, 0, 0],
        quote_size,
        maker_order_id,
        base_size,
    }
}

/// The state of an incoming order once matching stops: the opposite book,
/// the events to report (each with the maker's callback information and, for
/// a fill, the taker's), what is left of the order, and whether the last
/// order met crossed its price.
pub struct Matched<C> {
    pub book: Map<u128, (u64, C)>,
    pub events: Seq<(FillEvent, C, Option<C>)>,
    pub base_left: u64,
    pub quote_left: u64,
    pub crossed: bool,
}

/// Matching that stops here.
pub open spec fn stopped<C>(
    book: Map<u128, (u64, C)>,
    base_left: u64,
    quote_left: u64,
    crossed: bool,
) -> Matched<C> {
    Matched { book, events: Seq::empty(), base_left, quote_left, crossed }
}

/// Reports `evs` before the events of a matching.
pub open spec fn with_events<C>(
    evs: Seq<(FillEvent, C, Option<C>)>,
    r: Result<Matched<C>, AoError>,
) -> Result<Matched<C>, AoError> {
    match r {
        Ok(m) => Ok(
            Matched {
                book: m.book,
                events: evs + m.events,
                base_left: m.base_left,
                quote_left: m.quote_left,
                crossed: m.crossed,
            },
        ),
        Err(e) => Err(e),
    }
}

/// Matches an incoming order, of which `base_left` and `quote_left` remain,
/// against `book`, the opposite side, for at most `match_limit` more resting
/// orders, with room for `room` more events.
///
/// The best resting order is met first. Matching stops when the book is
/// empty, the order is post only, the best price does not cross the limit,
/// or the traded quantity would be zero. A resting order of the same owner
/// is cancelled (with an out event) or aborts the order, unless self trades
/// decrement the taker. Otherwise the trade takes the smallest of the resting
/// quantity, the base left and the base that the quote left buys at the
/// resting price, is reported with a fill event, and a resting order left
/// below the minimum size is removed with an out event.
pub open spec fn spec_match<C: CallbackInfo>(
    p: Params<C>,
    min_base_order_size: u64,
    book: Map<u128, (u64, C)>,
    base_left: u64,
    quote_left: u64,
    match_limit: u64,
    room: int,
) -> Result<Matched<C>, AoError>
    decreases match_limit,
{
    if match_limit == 0 {
        Ok(stopped(book, base_left, quote_left, true))
    } else if book.dom().is_empty() {
        Ok(stopped(book, base_left, quote_left, false))
    } else {
        let k = best_key(book, p.side == Side::Bid);
        let qty = book[k].0;
        let maker = book[k].1;
        let price = spec_price_from_key(k);
        let crossed = crosses(p.side, p.limit_price, price);
        if p.post_only || !crossed {
            Ok(stopped(book, base_left, quote_left, crossed))
        } else {
            match spec_fp32_div(quote_left, price) {
                None => Err(AoError::NumericalOverflow),
                Some(base_for_quote) => {
                    let t0 = if qty < base_left {
                        qty
                    } else {
                        base_left
                    };
                    let trade = if base_for_quote < t0 {
                        base_for_quote
                    } else {
                        t0
                    };
                    if trade == 0 {
                        Ok(stopped(book, base_left, quote_left, true))
                    } else {
                        match spec_fp32_mul(trade, price) {
                            None => Err(AoError::NumericalOverflow),
                            Some(trade_quote) => {
                                let opposite = p.side.spec_opposite();
                                if trade_quote == 0 {
                                    Ok(stopped(book, base_left, quote_left, true))
                                } else if p.self_trade_behavior != SelfTradeBehavior::DecrementTake
                                    && p.callback_info.spec_callback_id()
                                    == maker.spec_callback_id() {
                                    if p.self_trade_behavior
                                        == SelfTradeBehavior::AbortTransaction {
                                        Err(AoError::WouldSelfTrade)
                                    } else if room < 1 {
                                        Err(AoError::EventQueueFull)
                                    } else {
                                        with_events(
                                            seq![
                                                (
                                                    out_event(opposite, k, qty).spec_to_generic(),
                                                    maker,
                                                    None,
                                                ),
                                            ],
                                            spec_match(
                                                p,
                                                min_base_order_size,
                                                book.remove(k),
                                                base_left,
                                                quote_left,
                                                (match_limit - 1) as u64,
                                                room - 1,
                                            ),
                                        )
                                    }
                                } else if room < 1 {
                                    Err(AoError::EventQueueFull)
                                } else {
                                    let fill = (
                                        fill_event(
                                            p.side,
                                            k,
                                            trade_quote,
                                            trade,
                                        ).spec_to_generic(),
                                        maker,
                                        Some(p.callback_info),
                                    );
                                    let left = (qty - trade) as u64;
                                    let base_after = (base_left - trade) as u64;
                                    let quote_after = (quote_left - trade_quote) as u64;
                                    if left < min_base_order_size {
                                        if room < 2 {
                                            Err(AoError::EventQueueFull)
                                        } else {
                                            with_events(
                                                seq![
                                                    fill,
                                                    (
                                                        out_event(
                                                            opposite,
                                                            k,
                                                            left,
                                                        ).spec_to_generic(),
                                                        maker,
                                                        None,
                                                    ),
                                                ],
                                                spec_match(
                                                    p,
                                                    min_base_order_size,
                                                    book.remove(k),
                                                    base_after,
                                                    quote_after,
                                                    (match_limit - 1) as u64,
                                                    room - 2,
                                                ),
                                            )
                                        }
                                    } else {
                                        with_events(
                                            seq![fill],
                                            spec_match(
                                                p,
                                                min_base_order_size,
                                                book.insert(k, (left, maker)),
                                                base_after,
                                                quote_after,
                                                (match_limit - 1) as u64,
                                                room - 1,
                                            ),
                                        )
                                    }
                                }
                            },
                        }
                    }
                },
            }
        }
    }
}

// ------------------------------------------------------------------------
// Arithmetic of the fixed point prices.
/// A base quantity that the quote `q` buys at price `p` costs at most `q`.
pub proof fn lemma_fp32_affordable(b: u64, q: u64, p: u64)
    requires
        p > 0,
        b <= (q as int) * 0x1_0000_0000 / (p as int),
    ensures
        (b as int) * (p as int) / 0x1_0000_0000 <= q,
{
    let d = (q as int) * 0x1_0000_0000 / (p as int);
    vstd::arithmetic::div_mod::lemma_fundamental_div_mod((q as int) * 0x1_0000_0000, p as int);
    vstd::arithmetic::mul::lemma_mul_inequality(b as int, d, p as int);
    vstd::arithmetic::mul::lemma_mul_is_commutative(d, p as int);
    vstd::arithmetic::div_mod::lemma_mod_pos_bound((q as int) * 0x1_0000_0000, p as int);
    assert((b as int) * (p as int) <= (q as int) * 0x1_0000_0000);
    vstd::arithmetic::div_mod::lemma_div_is_ordered(
        (b as int) * (p as int),
        (q as int) * 0x1_0000_0000,
        0x1_0000_0000,
    );
    vstd::arithmetic::div_mod::lemma_div_multiples_vanish(q as int, 0x1_0000_0000);
}

/// What is left of an order never grows while it is matched, and the
/// opposite side only loses orders or quantity.
pub proof fn lemma_match_decreasing<C: CallbackInfo>(
    p: Params<C>,
    min_base_order_size: u64,
    book: Map<u128, (u64, C)>,
    base_left: u64,
    quote_left: u64,
    match_limit: u64,
    room: int,
)
    requires
        book.dom().finite(),
    ensures
        spec_match(p, min_base_order_size, book, base_left, quote_left, match_limit, room) matches Ok(
            m,
        ) ==> {
            &&& m.base_left <= base_left
            &&& m.quote_left <= quote_left
            &&& forall|k: u128| #[trigger]
                m.book.contains_key(k) ==> book.contains_key(k) && m.book[k].0 <= book[k].0
                    && m.book[k].1 == book[k].1
        },
    decreases match_limit,
{
    if match_limit > 0 && !book.dom().is_empty() {
        let k = best_key(book, p.side == Side::Bid);
        let w = choose|x: u128| book.contains_key(x);
        lemma_best_key_exists(book, w, p.side == Side::Bid);
        let price = spec_price_from_key(k);
        if let Some(base_for_quote) = spec_fp32_div(quote_left, price) {
            let qty = book[k].0;
            let t0 = if qty < base_left {
                qty
            } else {
                base_left
            };
            let trade = if base_for_quote < t0 {
                base_for_quote
            } else {
                t0
            };
            lemma_fp32_affordable(trade, quote_left, price);
            let base_after = (base_left - trade) as u64;
            if let Some(trade_quote) = spec_fp32_mul(trade, price) {
                let quote_after = (quote_left - trade_quote) as u64;
                let left = (qty - trade) as u64;
                let ml = (match_limit - 1) as u64;
                lemma_match_decreasing(p, min_base_order_size, book.remove(k), base_left, quote_left, ml, room - 1);
                lemma_match_decreasing(p, min_base_order_size, book.remove(k), base_after, quote_after, ml, room - 2);
                lemma_match_decreasing(p, min_base_order_size, book.insert(k, (left, book[k].1)), base_after, quote_after, ml, room - 1);
            }
        }
    }
}


// ------------------------------------------------------------------------
// Posting what is left of an order.
/// What a new order does: its summary, the two sides of the book after it,
/// the events it reports, and whether it took a sequence number.
pub struct NewOrderOutcome<C> {
    pub summary: OrderSummary,
    pub opposite: Map<u128, (u64, C)>,
    pub own: Map<u128, (u64, C)>,
    pub events: Seq<(FillEvent, C, Option<C>)>,
    pub seq_used: bool,
}

/// The base quantity to post: what is left of the order, and no more than
/// the quote left buys at the limit price.
pub open spec fn spec_to_post<C>(m: Matched<C>, limit_price: u64) -> u64 {
    let cap = match spec_fp32_div(m.quote_left, limit_price) {
        Some(q) => q,
        None => u64::MAX,
    };
    if cap < m.base_left {
        cap
    } else {
        m.base_left
    }
}

/// The outcome of an order of which nothing is posted.
pub open spec fn unposted<C>(
    p: Params<C>,
    m: Matched<C>,
    own: Map<u128, (u64, C)>,
    seq_used: bool,
) -> NewOrderOutcome<C> {
    NewOrderOutcome {
        summary: OrderSummary {
            posted_order_id: None,
            total_base_qty: (p.max_base_qty - m.base_left) as u64,
            total_quote_qty: (p.max_quote_qty - m.quote_left) as u64,
            total_base_qty_posted: 0,
        },
        opposite: m.book,
        own,
        events: m.events,
        seq_used,
    }
}

/// The outcome of an order of which `to_post` is posted under `id` into
/// `own`.
pub open spec fn spec_post<C>(
    p: Params<C>,
    m: Matched<C>,
    own: Map<u128, (u64, C)>,
    events: Seq<(FillEvent, C, Option<C>)>,
    id: u128,
    to_post: u64,
) -> Result<NewOrderOutcome<C>, AoError> {
    match spec_fp32_mul(to_post, p.limit_price) {
        None => Err(AoError::NumericalOverflow),
        Some(posted_quote) => Ok(
            NewOrderOutcome {
                summary: OrderSummary {
                    posted_order_id: Some(id),
                    total_base_qty: (p.max_base_qty - (m.base_left - to_post)) as u64,
                    total_quote_qty: (p.max_quote_qty - (m.quote_left - posted_quote)) as u64,
                    total_base_qty_posted: to_post,
                },
                opposite: m.book,
                own: own.insert(id, (to_post, p.callback_info)),
                events,
                seq_used: true,
            },
        ),
    }
}

/// Whether matching `p` against `book`, with room for `room` events, fails
/// at the first resting order it meets, before it changes anything: a
/// quantity that overflows, a self trade that aborts, or no room for the
/// first event.
pub open spec fn aborts_at_first<C: CallbackInfo>(
    p: Params<C>,
    book: Map<u128, (u64, C)>,
    room: int,
) -> bool {
    &&& p.match_limit > 0
    &&& !book.dom().is_empty()
    &&& {
        let k = best_key(book, p.side == Side::Bid);
        let qty = book[k].0;
        let maker = book[k].1;
        let price = spec_price_from_key(k);
        &&& !p.post_only
        &&& crosses(p.side, p.limit_price, price)
        &&& match spec_fp32_div(p.max_quote_qty, price) {
            None => true,
            Some(base_for_quote) => {
                let t0 = if qty < p.max_base_qty {
                    qty
                } else {
                    p.max_base_qty
                };
                let trade = if base_for_quote < t0 {
                    base_for_quote
                } else {
                    t0
                };
                trade != 0 && match spec_fp32_mul(trade, price) {
                    None => true,
                    Some(trade_quote) => trade_quote != 0 && if p.self_trade_behavior
                        != SelfTradeBehavior::DecrementTake && p.callback_info.spec_callback_id()
                        == maker.spec_callback_id() {
                        p.self_trade_behavior == SelfTradeBehavior::AbortTransaction || room < 1
                    } else {
                        room < 1
                    },
                }
            },
        }
    }
}

/// An order that fails at the first resting order fails.
pub proof fn lemma_aborts_at_first<C: CallbackInfo>(
    p: Params<C>,
    min_base_order_size: u64,
    book: Map<u128, (u64, C)>,
    room: int,
)
    requires
        aborts_at_first(p, book, room),
    ensures
        spec_match(
            p,
            min_base_order_size,
            book,
            p.max_base_qty,
            p.max_quote_qty,
            p.match_limit,
            room,
        ) is Err,
{
}

/// A new order on a book whose opposite side is `opposite` and whose own
/// side is `own`, a slab of `capacity` orders, with room for `room` events
/// in the queue, whose next sequence number is `seq_num`.
///
/// A post-only order whose limit price crosses the spread fails, and
/// nothing changes. Otherwise the order is matched (`spec_match`). What is
/// left is posted unless the matching stopped on a crossing price, posting
/// is not allowed, or it is
/// below the minimum order size. The posted order's id is made of the limit
/// price, the side and the sequence number. On a full side, the least
/// aggressive order makes room for it (and is reported out) if the new
/// order's price is better; otherwise nothing is posted.
pub open spec fn spec_new_order<C: CallbackInfo>(
    p: Params<C>,
    min_base_order_size: u64,
    opposite: Map<u128, (u64, C)>,
    own: Map<u128, (u64, C)>,
    capacity: nat,
    room: int,
    seq_num: u64,
) -> Result<NewOrderOutcome<C>, AoError> {
    if post_only_crosses(p, opposite) {
        Err(AoError::PostOnlyWouldCross)
    } else {
        spec_new_order_matched(p, min_base_order_size, opposite, own, capacity, room, seq_num)
    }
}

/// Whether `p` is a post-only order whose limit price crosses the best
/// price of `opposite`, the other side of the book.
pub open spec fn post_only_crosses<C>(p: Params<C>, opposite: Map<u128, (u64, C)>) -> bool {
    &&& p.post_only
    &&& !opposite.dom().is_empty()
    &&& crosses(p.side, p.limit_price, spec_price_from_key(best_key(opposite, p.side == Side::Bid)))
}

/// A new order that is no crossing post-only order: matched, then posted
/// as `spec_new_order` says.
pub open spec fn spec_new_order_matched<C: CallbackInfo>(
    p: Params<C>,
    min_base_order_size: u64,
    opposite: Map<u128, (u64, C)>,
    own: Map<u128, (u64, C)>,
    capacity: nat,
    room: int,
    seq_num: u64,
) -> Result<NewOrderOutcome<C>, AoError> {
    match spec_match(
        p,
        min_base_order_size,
        opposite,
        p.max_base_qty,
        p.max_quote_qty,
        p.match_limit,
        room,
    ) {
        Err(e) => Err(e),
        Ok(m) => {
            let to_post = spec_to_post(m, p.limit_price);
            if m.crossed || !p.post_allowed || to_post < min_base_order_size {
                Ok(unposted(p, m, own, false))
            } else {
                let id = spec_order_id(p.limit_price, p.side, seq_num);
                if !own.contains_key(id) && own.dom().len() == capacity {
                    let lowest = p.side == Side::Bid;
                    let cand = best_key(own, lowest);
                    let boot = if lowest {
                        spec_price_from_key(cand) < p.limit_price
                    } else {
                        spec_price_from_key(cand) > p.limit_price
                    };
                    if !boot {
                        Ok(unposted(p, m, own, true))
                    } else if room - m.events.len() < 1 {
                        Err(AoError::EventQueueFull)
                    } else {
                        spec_post(
                            p,
                            m,
                            own.remove(cand),
                            m.events.push(
                                (
                                    out_event(p.side, cand, own[cand].0).spec_to_generic(),
                                    own[cand].1,
                                    None,
                                ),
                            ),
                            id,
                            to_post,
                        )
                    }
                } else {
                    spec_post(p, m, own, m.events, id, to_post)
                }
            }
        },
    }
}

/// The base quantity that an order posts costs no more than the quote it
/// has left.
pub proof fn lemma_to_post_affordable<C>(m: Matched<C>, limit_price: u64)
    ensures
        spec_fp32_mul(spec_to_post(m, limit_price), limit_price) matches Some(q) && q
            <= m.quote_left,
        spec_to_post(m, limit_price) <= m.base_left,
{
    let b = spec_to_post(m, limit_price);
    if limit_price > 0 {
        lemma_fp32_affordable(b, m.quote_left, limit_price);
    } else {
        assert((b as int) * (limit_price as int) == 0) by (nonlinear_arith)
            requires
                limit_price == 0,
        ;
    }
}

// ------------------------------------------------------------------------
// What every new order keeps to.
/// What an order's matching reports about a book: each event concerns an
/// order of the book; a fill was at the price of that order, which crosses
/// the incoming order's limit, on the incoming order's side and with its
/// callback information; a post only order matches nothing; and no more
/// than two events are reported for each resting order met.
pub open spec fn events_respect<C>(
    p: Params<C>,
    book: Map<u128, (u64, C)>,
    events: Seq<(FillEvent, C, Option<C>)>,
    match_limit: u64,
) -> bool {
    &&& forall|i: int|
        0 <= i < events.len() ==> book.contains_key(#[trigger] events[i].0.maker_order_id)
    &&& forall|i: int|
        0 <= i < events.len() && #[trigger] events[i].0.tag == 0 ==> {
            &&& crosses(p.side, p.limit_price, spec_price_from_key(events[i].0.maker_order_id))
            &&& events[i].0.taker_side == p.side.spec_as_u8()
            &&& events[i].2 == Some(p.callback_info)
            &&& spec_fp32_mul(
                events[i].0.base_size,
                spec_price_from_key(events[i].0.maker_order_id),
            ) == Some(events[i].0.quote_size)
        }
    &&& p.post_only ==> events.len() == 0
    &&& events.len() <= 2 * match_limit
    &&& fill_count(events) <= match_limit
}

/// The number of fills among `events`.
pub open spec fn fill_count<C>(events: Seq<(FillEvent, C, Option<C>)>) -> nat
    decreases events.len(),
{
    if events.len() == 0 {
        0
    } else {
        fill_count(events.drop_last()) + if events.last().0.tag == 0 {
            1nat
        } else {
            0nat
        }
    }
}

proof fn lemma_fill_count_concat<C>(
    a: Seq<(FillEvent, C, Option<C>)>,
    b: Seq<(FillEvent, C, Option<C>)>,
)
    ensures
        fill_count(a + b) == fill_count(a) + fill_count(b),
    decreases b.len(),
{
    if b.len() == 0 {
        assert(a + b =~= a);
    } else {
        assert((a + b).drop_last() =~= a + b.drop_last());
        lemma_fill_count_concat(a, b.drop_last());
    }
}

proof fn lemma_events_respect_prepend<C>(
    p: Params<C>,
    book: Map<u128, (u64, C)>,
    sub: Map<u128, (u64, C)>,
    head: Seq<(FillEvent, C, Option<C>)>,
    events: Seq<(FillEvent, C, Option<C>)>,
    match_limit: u64,
)
    requires
        match_limit > 0,
        !p.post_only,
        1 <= head.len() <= 2,
        head.len() == 2 ==> head[1].0.tag != 0,
        events_respect(p, sub, events, (match_limit - 1) as u64),
        forall|k: u128| sub.contains_key(k) ==> book.contains_key(k),
        forall|i: int|
            0 <= i < head.len() ==> book.contains_key(#[trigger] head[i].0.maker_order_id),
        forall|i: int|
            0 <= i < head.len() && #[trigger] head[i].0.tag == 0 ==> {
                &&& crosses(p.side, p.limit_price, spec_price_from_key(head[i].0.maker_order_id))
                &&& head[i].0.taker_side == p.side.spec_as_u8()
                &&& head[i].2 == Some(p.callback_info)
                &&& spec_fp32_mul(
                    head[i].0.base_size,
                    spec_price_from_key(head[i].0.maker_order_id),
                ) == Some(head[i].0.quote_size)
            },
    ensures
        events_respect(p, book, head + events, match_limit),
{
    let all = head + events;
    lemma_fill_count_concat(head, events);
    let d1 = head.drop_last();
    assert(fill_count(head) == fill_count(d1) + if head.last().0.tag == 0 {
        1nat
    } else {
        0nat
    });
    if head.len() == 2 {
        let d2 = d1.drop_last();
        assert(d2.len() == 0);
        assert(fill_count(d2) == 0);
        assert(fill_count(d1) == fill_count(d2) + if d1.last().0.tag == 0 {
            1nat
        } else {
            0nat
        });
        assert(head.last() == head[1]);
    } else {
        assert(d1.len() == 0);
        assert(fill_count(d1) == 0);
    }
    assert(fill_count(head) <= 1);
    assert forall|i: int| 0 <= i < all.len() implies book.contains_key(
        #[trigger] all[i].0.maker_order_id,
    ) by {
        if i >= head.len() {
            assert(all[i] == events[i - head.len()]);
        }
    }
    assert forall|i: int| 0 <= i < all.len() && #[trigger] all[i].0.tag == 0 implies {
        &&& crosses(p.side, p.limit_price, spec_price_from_key(all[i].0.maker_order_id))
        &&& all[i].0.taker_side == p.side.spec_as_u8()
        &&& all[i].2 == Some(p.callback_info)
        &&& spec_fp32_mul(all[i].0.base_size, spec_price_from_key(all[i].0.maker_order_id))
            == Some(all[i].0.quote_size)
    } by {
        if i >= head.len() {
            assert(all[i] == events[i - head.len()]);
        }
    }
}

/// Every matching keeps to `events_respect` on the book it started from.
pub proof fn lemma_match_events<C: CallbackInfo>(
    p: Params<C>,
    min_base_order_size: u64,
    book: Map<u128, (u64, C)>,
    base_left: u64,
    quote_left: u64,
    match_limit: u64,
    room: int,
)
    requires
        book.dom().finite(),
    ensures
        spec_match(p, min_base_order_size, book, base_left, quote_left, match_limit, room) matches Ok(
            m,
        ) ==> events_respect(p, book, m.events, match_limit),
    decreases match_limit,
{
    let r = spec_match(p, min_base_order_size, book, base_left, quote_left, match_limit, room);
    if match_limit == 0 || book.dom().is_empty() {
        return ;
    }
    let k = best_key(book, p.side == Side::Bid);
    assert(exists|x: u128| book.contains_key(x));
    let w = choose|x: u128| book.contains_key(x);
    lemma_best_key_exists(book, w, p.side == Side::Bid);
    let qty = book[k].0;
    let maker = book[k].1;
    let price = spec_price_from_key(k);
    if p.post_only || !crosses(p.side, p.limit_price, price) {
        return ;
    }
    if let Some(base_for_quote) = spec_fp32_div(quote_left, price) {
        let t0 = if qty < base_left {
            qty
        } else {
            base_left
        };
        let trade = if base_for_quote < t0 {
            base_for_quote
        } else {
            t0
        };
        if let Some(trade_quote) = spec_fp32_mul(trade, price) {
            let opposite = p.side.spec_opposite();
            let ml = (match_limit - 1) as u64;
            let base_after = (base_left - trade) as u64;
            let quote_after = (quote_left - trade_quote) as u64;
            let left = (qty - trade) as u64;
            let out_self = (out_event(opposite, k, qty).spec_to_generic(), maker, None::<C>);
            let fill = (fill_event(p.side, k, trade_quote, trade).spec_to_generic(), maker, Some(p.callback_info));
            let out_small = (out_event(opposite, k, left).spec_to_generic(), maker, None::<C>);
            lemma_match_events(p, min_base_order_size, book.remove(k), base_left, quote_left, ml, room - 1);
            lemma_match_events(p, min_base_order_size, book.remove(k), base_after, quote_after, ml, room - 2);
            lemma_match_events(p, min_base_order_size, book.insert(k, (left, maker)), base_after, quote_after, ml, room - 1);
            if let Ok(m) = r {
                if trade > 0 && trade_quote > 0 {
                    if p.self_trade_behavior != SelfTradeBehavior::DecrementTake
                        && p.callback_info.spec_callback_id() == maker.spec_callback_id() {
                        let sub = spec_match(p, min_base_order_size, book.remove(k), base_left, quote_left, ml, room - 1).unwrap();
                        assert(m.events == seq![out_self] + sub.events);
                        lemma_events_respect_prepend(p, book, book.remove(k), seq![out_self], sub.events, match_limit);
                    } else if left < min_base_order_size {
                        let sub = spec_match(p, min_base_order_size, book.remove(k), base_after, quote_after, ml, room - 2).unwrap();
                        assert(m.events == seq![fill, out_small] + sub.events);
                        lemma_events_respect_prepend(p, book, book.remove(k), seq![fill, out_small], sub.events, match_limit);
                    } else {
                        let sub = spec_match(p, min_base_order_size, book.insert(k, (left, maker)), base_after, quote_after, ml, room - 1).unwrap();
                        assert(m.events == seq![fill] + sub.events);
                        lemma_events_respect_prepend(p, book, book.insert(k, (left, maker)), seq![fill], sub.events, match_limit);
                    }
                }
            }
        }
    }
}

/// A book that holds an order has a best order.
pub proof fn lemma_best_key_exists<C>(book: Map<u128, (u64, C)>, k: u128, lowest: bool)
    requires
        book.dom().finite(),
        book.contains_key(k),
    ensures
        is_best_key(book, best_key(book, lowest), lowest),
    decreases book.dom().len(),
{
    let rest = book.remove(k);
    if rest.dom().is_empty() {
        assert forall|k2: u128| #[trigger] book.contains_key(k2) implies k2 == k by {
            if k2 != k {
                assert(rest.contains_key(k2));
            }
        }
        assert(is_best_key(book, k, lowest));
    } else {
        let k1 = rest.dom().choose();
        assert(rest.contains_key(k1));
        assert(rest.dom().len() < book.dom().len());
        lemma_best_key_exists(rest, k1, lowest);
        let b = best_key(rest, lowest);
        let better = if lowest {
            k < b
        } else {
            b < k
        };
        if better {
            assert(is_best_key(book, k, lowest));
        } else {
            assert(is_best_key(book, b, lowest));
        }
    }
}

/// What a new order gives: its totals stay within the order's maximum
/// quantities and include what it posts; it posts only if posting is allowed,
/// at least the minimum order size, under the id made of its limit price,
/// its side and the sequence number, with its callback information; the
/// opposite side only loses orders or quantity; it fills at most
/// `match_limit` resting orders; and each fill was at a
/// resting price that crosses the limit, on the order's side, never for a
/// post only order.
pub proof fn lemma_new_order_outcome<C: CallbackInfo>(
    p: Params<C>,
    min_base_order_size: u64,
    opposite: Map<u128, (u64, C)>,
    own: Map<u128, (u64, C)>,
    capacity: nat,
    room: int,
    seq_num: u64,
)
    requires
        opposite.dom().finite(),
    ensures
        spec_new_order(p, min_base_order_size, opposite, own, capacity, room, seq_num) matches Ok(
            o,
        ) ==> {
            &&& o.summary.total_base_qty <= p.max_base_qty
            &&& o.summary.total_quote_qty <= p.max_quote_qty
            &&& o.summary.total_base_qty_posted <= o.summary.total_base_qty
            &&& (o.summary.posted_order_id is None ==> o.summary.total_base_qty_posted == 0)
            &&& (o.summary.posted_order_id matches Some(id) ==> {
                &&& id == spec_order_id(p.limit_price, p.side, seq_num)
                &&& p.post_allowed
                &&& o.summary.total_base_qty_posted >= min_base_order_size
                &&& o.own.contains_key(id)
                &&& o.own[id] == (o.summary.total_base_qty_posted, p.callback_info)
                &&& o.seq_used
            })
            &&& forall|k: u128| #[trigger]
                o.opposite.contains_key(k) ==> opposite.contains_key(k) && o.opposite[k].0
                    <= opposite[k].0
            &&& fill_count(o.events) <= p.match_limit
            &&& forall|i: int|
                0 <= i < o.events.len() && #[trigger] o.events[i].0.tag == 0 ==> {
                    &&& !p.post_only
                    &&& crosses(
                        p.side,
                        p.limit_price,
                        spec_price_from_key(o.events[i].0.maker_order_id),
                    )
                    &&& o.events[i].0.taker_side == p.side.spec_as_u8()
                    &&& o.events[i].2 == Some(p.callback_info)
                }
        },
{
    let r = spec_match(
        p,
        min_base_order_size,
        opposite,
        p.max_base_qty,
        p.max_quote_qty,
        p.match_limit,
        room,
    );
    lemma_match_decreasing(
        p,
        min_base_order_size,
        opposite,
        p.max_base_qty,
        p.max_quote_qty,
        p.match_limit,
        room,
    );
    lemma_match_events(
        p,
        min_base_order_size,
        opposite,
        p.max_base_qty,
        p.max_quote_qty,
        p.match_limit,
        room,
    );
    if let Ok(m) = r {
        lemma_to_post_affordable(m, p.limit_price);
        if let Ok(o) = spec_new_order(p, min_base_order_size, opposite, own, capacity, room, seq_num) {
            assert forall|i: int|
                0 <= i < o.events.len() && #[trigger] o.events[i].0.tag == 0 implies {
                &&& !p.post_only
                &&& crosses(p.side, p.limit_price, spec_price_from_key(o.events[i].0.maker_order_id))
                &&& o.events[i].0.taker_side == p.side.spec_as_u8()
                &&& o.events[i].2 == Some(p.callback_info)
            } by {
                if i < m.events.len() {
                    assert(o.events[i] == m.events[i]);
                }
            }
            if o.events.len() > m.events.len() {
                assert(o.events.drop_last() =~= m.events);
            }
        }
    }
}

/// The id of a new order holds its limit price in its upper 64 bits.
pub proof fn lemma_order_id_price(limit_price: u64, side: Side, seq_num: u64)
    ensures
        spec_price_from_key(spec_order_id(limit_price, side, seq_num)) == limit_price,
{
}

/// The id of a new order tells its side, as long as the sequence number is
/// below 2^63.
pub proof fn lemma_order_id_side(limit_price: u64, side: Side, seq_num: u64)
    requires
        seq_num < 0x8000_0000_0000_0000,
    ensures
        crate::state::spec_side_from_order_id(spec_order_id(limit_price, side, seq_num)) == side,
{
    let id = spec_order_id(limit_price, side, seq_num);
    let lower: u64 = match side {
        Side::Bid => (u64::MAX - seq_num) as u64,
        Side::Ask => seq_num,
    };
    assert(id == limit_price as int * 0x1_0000_0000_0000_0000 + lower as int);
    assert(id / 0x8000_0000_0000_0000 == 2 * limit_price + lower / 0x8000_0000_0000_0000)
        by (nonlinear_arith)
        requires
            id == limit_price as int * 0x1_0000_0000_0000_0000 + lower as int,
            0 <= lower < 0x1_0000_0000_0000_0000,
    ;
}

/// Price-time priority: among the orders of one side, the better price is
/// met first (the lowest ask, the highest bid), and at one price the order
/// with the smaller sequence number, the older one.
pub proof fn lemma_order_id_priority(p1: u64, s1: u64, p2: u64, s2: u64)
    ensures
        p1 < p2 ==> spec_order_id(p1, Side::Ask, s1) < spec_order_id(p2, Side::Ask, s2),
        p1 < p2 ==> spec_order_id(p1, Side::Bid, s1) < spec_order_id(p2, Side::Bid, s2),
        p1 == p2 && s1 < s2 ==> spec_order_id(p1, Side::Ask, s1) < spec_order_id(p2, Side::Ask, s2),
        p1 == p2 && s1 < s2 ==> spec_order_id(p1, Side::Bid, s1) > spec_order_id(p2, Side::Bid, s2),
{
}

// ------------------------------------------------------------------------
// Events appended to the queue.
/// A queue entry reports the event `x`: same event, same maker callback
/// information and, where `x` gives one, same taker callback information.
pub open spec fn reports<C>(e: (FillEvent, C, C), x: (FillEvent, C, Option<C>)) -> bool {
    &&& e.0 == x.0
    &&& e.1 == x.1
    &&& (x.2 matches Some(c) ==> e.2 == c)
}

/// The queue entries `after` are `before` followed by entries that report
/// `evs`, in order.
pub open spec fn appended<C>(
    before: Seq<(FillEvent, C, C)>,
    after: Seq<(FillEvent, C, C)>,
    evs: Seq<(FillEvent, C, Option<C>)>,
) -> bool {
    &&& after.len() == before.len() + evs.len()
    &&& after.subrange(0, before.len() as int) == before
    &&& forall|i: int| 0 <= i < evs.len() ==> reports(after[before.len() + i], #[trigger] evs[i])
}

proof fn lemma_appended_none<C>(q: Seq<(FillEvent, C, C)>)
    ensures
        appended(q, q, Seq::empty()),
{
    assert(q.subrange(0, q.len() as int) =~= q);
}

proof fn lemma_appended_push<C>(
    before: Seq<(FillEvent, C, C)>,
    after: Seq<(FillEvent, C, C)>,
    evs: Seq<(FillEvent, C, Option<C>)>,
    e: (FillEvent, C, C),
    x: (FillEvent, C, Option<C>),
)
    requires
        appended(before, after, evs),
        reports(e, x),
    ensures
        appended(before, after.push(e), evs.push(x)),
{
    assert(after.push(e).subrange(0, before.len() as int) =~= after.subrange(
        0,
        before.len() as int,
    ));
    assert forall|i: int| 0 <= i < evs.push(x).len() implies reports(
        after.push(e)[before.len() + i],
        #[trigger] evs.push(x)[i],
    ) by {
        if i < evs.len() {
            assert(evs.push(x)[i] == evs[i]);
        }
    }
}

proof fn lemma_with_events_concat<C>(
    a: Seq<(FillEvent, C, Option<C>)>,
    b: Seq<(FillEvent, C, Option<C>)>,
    r: Result<Matched<C>, AoError>,
)
    ensures
        with_events(a, with_events(b, r)) == with_events(a + b, r),
{
    if let Ok(m) = r {
        assert(a + (b + m.events) =~= (a + b) + m.events);
    }
}

proof fn lemma_with_events_empty<C>(r: Result<Matched<C>, AoError>)
    ensures
        with_events(Seq::empty(), r) == r,
{
    if let Ok(m) = r {
        assert(Seq::empty() + m.events =~= m.events);
    }
}

proof fn lemma_with_events_stop<C>(
    a: Seq<(FillEvent, C, Option<C>)>,
    book: Map<u128, (u64, C)>,
    base_left: u64,
    quote_left: u64,
    crossed: bool,
)
    ensures
        with_events(a, Ok(stopped(book, base_left, quote_left, crossed))) == Ok::<
            Matched<C>,
            AoError,
        >(Matched { book, events: a, base_left, quote_left, crossed }),
{
    assert(a + Seq::empty() =~= a);
}

// ------------------------------------------------------------------------
// The book.
/// Both sides of the book.
pub struct OrderBookState<C> {
    pub bids: Slab<C>,
    pub asks: Slab<C>,
}

impl<C> OrderBookState<C> {
    /// The slab of a side.
    pub open spec fn book(&self, side: Side) -> Slab<C> {
        match side {
            Side::Bid => self.bids,
            Side::Ask => self.asks,
        }
    }

    /// The best order of a side: the highest bid or the lowest ask.
    pub fn find_bbo(&self, side: Side) -> (r: Option<NodeHandle>)
        requires
            self.bids.wf(),
            self.asks.wf(),
        ensures
            r is None <==> self.book(side).orders().dom().is_empty(),
            r matches Some(h) ==> {
                &&& h < self.book(side).leaf_nodes.len()
                &&& self.book(side).handles().contains_key(
                    self.book(side).leaf_nodes@[h as int].key,
                )
                &&& self.book(side).handles()[self.book(side).leaf_nodes@[h as int].key] == h
                &&& is_best_key(
                    self.book(side).orders(),
                    self.book(side).leaf_nodes@[h as int].key,
                    side == Side::Ask,
                )
            },
    {
        proof {
            self.book(side).lemma_orders();
            self.book(side).lemma_handles();
        }
        match side {
            Side::Bid => self.bids.find_max(),
            Side::Ask => self.asks.find_min(),
        }
    }

    /// The prices of the best bid and of the best ask.
    pub fn get_spread(&self) -> (r: (Option<u64>, Option<u64>))
        requires
            self.bids.wf(),
            self.asks.wf(),
        ensures
            r.0 == (if self.bids.orders().dom().is_empty() {
                None
            } else {
                Some(spec_price_from_key(best_key(self.bids.orders(), false)))
            }),
            r.1 == (if self.asks.orders().dom().is_empty() {
                None
            } else {
                Some(spec_price_from_key(best_key(self.asks.orders(), true)))
            }),
    {
        let best_bid_price = match self.find_bbo(Side::Bid) {
            Some(h) => {
                proof {
                    lemma_best_key_unique(self.bids.orders(), self.bids.leaf_nodes@[h as int].key, false);
                }
                Some(self.bids.leaf_nodes[h as usize].price())
            },
            None => None,
        };
        let best_ask_price = match self.find_bbo(Side::Ask) {
            Some(h) => {
                proof {
                    lemma_best_key_unique(self.asks.orders(), self.asks.leaf_nodes@[h as int].key, true);
                }
                Some(self.asks.leaf_nodes[h as usize].price())
            },
            None => None,
        };
        (best_bid_price, best_ask_price)
    }

    /// The slab of a side, to be written.
    pub fn get_tree(&mut self, side: Side) -> (r: &mut Slab<C>)
        ensures
            *r == old(self).book(side),
            final(self).book(side) == *final(r),
            final(self).book(side.spec_opposite()) == old(self).book(side.spec_opposite()),
    {
        match side {
            Side::Bid => &mut self.bids,
            Side::Ask => &mut self.asks,
        }
    }

    /// Whether neither side holds an order.
    pub fn is_empty(&self) -> (r: bool)
        ensures
            r == (self.asks.header.leaf_count == 0 && self.bids.header.leaf_count == 0),
    {
        self.asks.header.leaf_count == 0 && self.bids.header.leaf_count == 0
    }
}

impl<C: CallbackInfo> OrderBookState<C> {
    /// Matches an incoming order against `opposite`, the other side of the
    /// book, and reports the matches in the queue: what `spec_match` gives.
    #[verifier::rlimit(100)]
    fn match_orders(
        opposite: &mut Slab<C>,
        params: &Params<C>,
        event_queue: &mut EventQueue<C>,
        min_base_order_size: u64,
    ) -> (r: Result<(u64, u64, bool), AoError>)
        requires
            old(opposite).wf(),
            old(event_queue).wf(),
        ensures
            final(opposite).wf(),
            final(event_queue).wf(),
            final(opposite).leaf_nodes.len() == old(opposite).leaf_nodes.len(),
            final(opposite).header.market_address == old(opposite).header.market_address,
            final(event_queue).header.seq_num == old(event_queue).header.seq_num,
            final(event_queue).events.len() == old(event_queue).events.len(),
            aborts_at_first(*params, old(opposite).orders(), old(event_queue).room())
                ==> *final(opposite) == *old(opposite) && *final(event_queue) == *old(event_queue),
            match spec_match(
                *params,
                min_base_order_size,
                old(opposite).orders(),
                params.max_base_qty,
                params.max_quote_qty,
                params.match_limit,
                old(event_queue).room(),
            ) {
                Err(e) => r == Err::<(u64, u64, bool), AoError>(e),
                Ok(m) => {
                    &&& r == Ok::<(u64, u64, bool), AoError>((m.base_left, m.quote_left, m.crossed))
                    &&& final(opposite).orders() == m.book
                    &&& appended(old(event_queue).entries(), final(event_queue).entries(), m.events)
                },
            },
    {
        let ghost s0 = *opposite;
        let ghost q0 = *event_queue;
        let ghost total = spec_match(
            *params,
            min_base_order_size,
            s0.orders(),
            params.max_base_qty,
            params.max_quote_qty,
            params.match_limit,
            q0.room(),
        );
        let ghost mut pushed: Seq<(FillEvent, C, Option<C>)> = Seq::empty();
        let side = params.side;
        let lowest = match side {
            Side::Bid => true,
            Side::Ask => false,
        };
        let mut base_qty_remaining = params.max_base_qty;
        let mut quote_qty_remaining = params.max_quote_qty;
        let mut match_limit = params.match_limit;
        let mut crossed = true;
        proof {
            lemma_appended_none(q0.entries());
            lemma_with_events_concat(Seq::empty(), Seq::empty(), total);
            lemma_with_events_empty(total);
        }
        loop
            invariant_except_break
                crossed,
            invariant
                s0 == *old(opposite),
                q0 == *old(event_queue),
                total == spec_match(
                    *params,
                    min_base_order_size,
                    s0.orders(),
                    params.max_base_qty,
                    params.max_quote_qty,
                    params.match_limit,
                    q0.room(),
                ),
                opposite.wf(),
                event_queue.wf(),
                opposite.leaf_nodes.len() == s0.leaf_nodes.len(),
                opposite.header.market_address == s0.header.market_address,
                event_queue.header.seq_num == q0.header.seq_num,
                event_queue.events.len() == q0.events.len(),
                appended(q0.entries(), event_queue.entries(), pushed),
                lowest == (params.side == Side::Bid),
                pushed.len() == 0 ==> *opposite == s0 && *event_queue == q0 && match_limit
                    == params.match_limit && base_qty_remaining == params.max_base_qty
                    && quote_qty_remaining == params.max_quote_qty,
                pushed.len() > 0 ==> !aborts_at_first(*params, s0.orders(), q0.room()),
                side == params.side,
                total == with_events(
                    pushed,
                    spec_match(
                        *params,
                        min_base_order_size,
                        opposite.orders(),
                        base_qty_remaining,
                        quote_qty_remaining,
                        match_limit,
                        event_queue.room(),
                    ),
                ),
            ensures
                opposite.wf(),
                event_queue.wf(),
                opposite.leaf_nodes.len() == s0.leaf_nodes.len(),
                opposite.header.market_address == s0.header.market_address,
                event_queue.header.seq_num == q0.header.seq_num,
                event_queue.events.len() == q0.events.len(),
                appended(q0.entries(), event_queue.entries(), pushed),
                total == Ok::<Matched<C>, AoError>(
                    Matched {
                        book: opposite.orders(),
                        events: pushed,
                        base_left: base_qty_remaining,
                        quote_left: quote_qty_remaining,
                        crossed,
                    },
                ),
            decreases match_limit,
        {
            let ghost book = opposite.orders();
            let ghost room = event_queue.room();
            proof {
                opposite.lemma_orders();
                opposite.lemma_handles();
            }
            if match_limit == 0 {
                proof {
                    lemma_with_events_stop(pushed, book, base_qty_remaining, quote_qty_remaining, true);
                }
                break;
            }
            let best = if lowest {
                opposite.find_min()
            } else {
                opposite.find_max()
            };
            let h = match best {
                None => {
                    crossed = false;
                    proof {
                        assert(book.dom() =~= Set::<u128>::empty());
                        lemma_with_events_stop(pushed, book, base_qty_remaining, quote_qty_remaining, false);
                    }
                    break;
                },
                Some(h) => h,
            };
            let best_bo = opposite.leaf_nodes[h as usize];
            let ghost k = best_bo.key;
            proof {
                assert(book.contains_key(k));
                lemma_best_key_unique(book, k, lowest);
                assert(book[k] == (best_bo.base_quantity, opposite.callback_infos@[h as int]));
            }
            let trade_price = best_bo.price();
            crossed = match side {
                Side::Bid => params.limit_price >= trade_price,
                Side::Ask => params.limit_price <= trade_price,
            };
            if params.post_only || !crossed {
                proof {
                    lemma_with_events_stop(pushed, book, base_qty_remaining, quote_qty_remaining, crossed);
                }
                break;
            }
            let offer_size = best_bo.base_quantity;
            let base_for_quote = match fp32_div(quote_qty_remaining, trade_price) {
                Some(q) => q,
                None => {
                    return Err(AoError::NumericalOverflow);
                },
            };
            let mut base_trade_qty = if offer_size < base_qty_remaining {
                offer_size
            } else {
                base_qty_remaining
            };
            if base_for_quote < base_trade_qty {
                base_trade_qty = base_for_quote;
            }
            if base_trade_qty == 0 {
                proof {
                    lemma_with_events_stop(pushed, book, base_qty_remaining, quote_qty_remaining, true);
                }
                break;
            }
            let quote_maker_qty = match fp32_mul(base_trade_qty, trade_price) {
                Some(q) => q,
                None => {
                    return Err(AoError::NumericalOverflow);
                },
            };
            if quote_maker_qty == 0 {
                proof {
                    lemma_with_events_stop(pushed, book, base_qty_remaining, quote_qty_remaining, true);
                }
                break;
            }
            proof {
                lemma_fp32_affordable(base_trade_qty, quote_qty_remaining, trade_price);
            }
            let maker_callback_info = opposite.callback_infos[h as usize];
            if params.self_trade_behavior != SelfTradeBehavior::DecrementTake {
                let order_would_self_trade = C::callback_id_eq(
                    params.callback_info.as_callback_id(),
                    maker_callback_info.as_callback_id(),
                );
                if order_would_self_trade {
                    let best_offer_id = best_bo.order_id();
                    if params.self_trade_behavior == SelfTradeBehavior::AbortTransaction {
                        return Err(AoError::WouldSelfTrade);
                    }
                    let provide_out = OutEvent {
                        tag: EventTag::Out.as_u8(),
                        side: side.opposite().as_u8(),
                        delete: 1,
                        _padding: [0u8, 0, 0, 0, 0, 0, 0, 0, 0, 0, 0, 0, 0],
                        order_id: best_offer_id,
                        base_size: best_bo.base_quantity,
                    };
                    let ghost qa = *event_queue;
                    match event_queue.push_back(provide_out, Some(&maker_callback_info), None) {
                        Ok(()) => {},
                        Err(_) => {
                            return Err(AoError::EventQueueFull);
                        },
                    }
                    let ghost sa = *opposite;
                    proof {
                        assert(pushed.len() == 0 ==> !aborts_at_first(*params, s0.orders(), q0.room()));
                        let x = (provide_out.spec_to_generic(), maker_callback_info, None::<C>);
                        lemma_appended_push(q0.entries(), qa.entries(), pushed, event_queue.entries().last(), x);
                        assert(qa.entries().push(event_queue.entries().last()) == event_queue.entries());
                        lemma_with_events_concat(pushed, seq![x], spec_match(*params, min_base_order_size, book.remove(k), base_qty_remaining, quote_qty_remaining, (match_limit - 1) as u64, room - 1));
                        assert(pushed + seq![x] =~= pushed.push(x));
                        pushed = pushed.push(x);
                    }
                    let removed = opposite.remove_by_key(best_offer_id);
                    proof {
                        Slab::lemma_orders_remove(sa, *opposite, best_offer_id);
                    }
                    match_limit = match_limit - 1;
                    continue;
                }
            }
            let maker_fill = FillEvent {
                tag: EventTag::Fill.as_u8(),
                taker_side: side.as_u8(),
                _padding: [0u8, 0, 0, 0, 0, 0],
                quote_size: quote_maker_qty,
                maker_order_id: best_bo.order_id(),
                base_size: base_trade_qty,
            };
            let ghost qa = *event_queue;
            match event_queue.push_back(maker_fill, Some(&maker_callback_info), Some(&params.callback_info)) {
                Ok(()) => {},
                Err(_) => {
                    return Err(AoError::EventQueueFull);
                },
            }
            let ghost fill = (maker_fill.spec_to_generic(), maker_callback_info, Some(params.callback_info));
            proof {
                assert(pushed.len() == 0 ==> !aborts_at_first(*params, s0.orders(), q0.room()));
                lemma_appended_push(q0.entries(), qa.entries(), pushed, event_queue.entries().last(), fill);
                assert(qa.entries().push(event_queue.entries().last()) == event_queue.entries());
            }
            let new_quantity = best_bo.base_quantity - base_trade_qty;
            let ghost sa = *opposite;
            opposite.set_leaf_base_quantity(h, new_quantity);
            proof {
                Slab::lemma_orders_set_quantity(sa, *opposite, k, new_quantity);
            }
            base_qty_remaining = base_qty_remaining - base_trade_qty;
            quote_qty_remaining = quote_qty_remaining - quote_maker_qty;
            if new_quantity < min_base_order_size {
                let best_offer_id = best_bo.order_id();
                let out_event = OutEvent {
                    tag: EventTag::Out.as_u8(),
                    side: side.opposite().as_u8(),
                    delete: 1,
                    _padding: [0u8, 0, 0, 0, 0, 0, 0, 0, 0, 0, 0, 0, 0],
                    order_id: best_offer_id,
                    base_size: new_quantity,
                };
                let ghost sb = *opposite;
                proof {
                    opposite.lemma_handles();
                }
                let (_, out_event_callback_info) = opposite.remove_by_key(best_offer_id).unwrap();
                proof {
                    Slab::lemma_orders_remove(sb, *opposite, best_offer_id);
                    assert(book.insert(k, (new_quantity, maker_callback_info)).remove(k) =~= book.remove(k));
                }
                let ghost qb = *event_queue;
                match event_queue.push_back(out_event, Some(&out_event_callback_info), None) {
                    Ok(()) => {},
                    Err(_) => {
                        return Err(AoError::EventQueueFull);
                    },
                }
                proof {
                    let x = (out_event.spec_to_generic(), maker_callback_info, None::<C>);
                    lemma_appended_push(q0.entries(), qa.entries().push(qb.entries().last()), pushed.push(fill), event_queue.entries().last(), x);
                    assert(qb.entries().push(event_queue.entries().last()) == event_queue.entries());
                    lemma_with_events_concat(pushed, seq![fill, x], spec_match(*params, min_base_order_size, book.remove(k), base_qty_remaining, quote_qty_remaining, (match_limit - 1) as u64, room - 2));
                    assert(pushed + seq![fill, x] =~= pushed.push(fill).push(x));
                    pushed = pushed.push(fill).push(x);
                }
            } else {
                proof {
                    lemma_with_events_concat(pushed, seq![fill], spec_match(*params, min_base_order_size, book.insert(k, (new_quantity, maker_callback_info)), base_qty_remaining, quote_qty_remaining, (match_limit - 1) as u64, room - 1));
                    assert(pushed + seq![fill] =~= pushed.push(fill));
                    pushed = pushed.push(fill);
                }
            }
            match_limit = match_limit - 1;
        }
        Ok((base_qty_remaining, quote_qty_remaining, crossed))
    }
}


impl<C: CallbackInfo> OrderBookState<C> {
    /// Matches an incoming order against `opposite` and posts what is left
    /// of it into `own`: what `spec_new_order` gives.
    fn execute(
        opposite: &mut Slab<C>,
        own: &mut Slab<C>,
        params: &Params<C>,
        event_queue: &mut EventQueue<C>,
        min_base_order_size: u64,
    ) -> (r: Result<OrderSummary, AoError>)
        requires
            old(opposite).wf(),
            old(own).wf(),
            old(event_queue).wf(),
            old(event_queue).header.seq_num < u64::MAX,
        ensures
            final(opposite).wf(),
            final(own).wf(),
            final(event_queue).wf(),
            final(opposite).leaf_nodes.len() == old(opposite).leaf_nodes.len(),
            final(own).leaf_nodes.len() == old(own).leaf_nodes.len(),
            final(opposite).header.market_address == old(opposite).header.market_address,
            final(own).header.market_address == old(own).header.market_address,
            final(event_queue).events.len() == old(event_queue).events.len(),
            post_only_crosses(*params, old(opposite).orders()) ==> *final(opposite) == *old(opposite)
                && *final(own) == *old(own) && *final(event_queue) == *old(event_queue),
            aborts_at_first(*params, old(opposite).orders(), old(event_queue).room())
                ==> *final(opposite) == *old(opposite) && *final(own) == *old(own)
                && *final(event_queue) == *old(event_queue),
            match spec_new_order(
                *params,
                min_base_order_size,
                old(opposite).orders(),
                old(own).orders(),
                old(own).leaf_nodes.len() as nat,
                old(event_queue).room(),
                old(event_queue).header.seq_num,
            ) {
                Err(e) => r == Err::<OrderSummary, AoError>(e),
                Ok(o) => {
                    &&& r == Ok::<OrderSummary, AoError>(o.summary)
                    &&& final(opposite).orders() == o.opposite
                    &&& final(own).orders() == o.own
                    &&& appended(old(event_queue).entries(), final(event_queue).entries(), o.events)
                    &&& final(event_queue).header.seq_num == old(event_queue).header.seq_num + (
                    if o.seq_used {
                        1int
                    } else {
                        0int
                    })
                },
            },
    {
        if params.post_only {
            proof {
                opposite.lemma_orders();
                opposite.lemma_handles();
            }
            let lowest = match params.side {
                Side::Bid => true,
                Side::Ask => false,
            };
            let best = if lowest {
                opposite.find_min()
            } else {
                opposite.find_max()
            };
            if let Some(h) = best {
                let best_bo = opposite.leaf_nodes[h as usize];
                proof {
                    let k = best_bo.key;
                    assert(opposite.orders().contains_key(k));
                    lemma_best_key_unique(opposite.orders(), k, lowest);
                }
                let trade_price = best_bo.price();
                let crossing = match params.side {
                    Side::Bid => params.limit_price >= trade_price,
                    Side::Ask => params.limit_price <= trade_price,
                };
                if crossing {
                    return Err(AoError::PostOnlyWouldCross);
                }
            } else {
                proof {
                    assert(opposite.orders().dom() =~= Set::<u128>::empty());
                }
            }
        }
        let ghost q0 = *event_queue;
        let ghost own0 = *own;
        let ghost opp0 = opposite.orders();
        proof {
            opposite.lemma_orders();
        }
        let ghost mres = spec_match(
            *params,
            min_base_order_size,
            opposite.orders(),
            params.max_base_qty,
            params.max_quote_qty,
            params.match_limit,
            event_queue.room(),
        );
        proof {
            if aborts_at_first(*params, opposite.orders(), event_queue.room()) {
                lemma_aborts_at_first(*params, min_base_order_size, opposite.orders(), event_queue.room());
            }
        }
        let (base_left, quote_left, crossed) = match Self::match_orders(
            opposite,
            params,
            event_queue,
            min_base_order_size,
        ) {
            Ok(x) => x,
            Err(e) => {
                return Err(e);
            },
        };
        let ghost m = mres.unwrap();
        proof {
            lemma_match_decreasing(
                *params,
                min_base_order_size,
                opp0,
                params.max_base_qty,
                params.max_quote_qty,
                params.match_limit,
                q0.room(),
            );
            lemma_to_post_affordable(m, params.limit_price);
            own.lemma_orders();
        }
        let cap = match fp32_div(quote_left, params.limit_price) {
            Some(q) => q,
            None => u64::MAX,
        };
        let base_qty_to_post = if cap < base_left {
            cap
        } else {
            base_left
        };
        if crossed || !params.post_allowed || base_qty_to_post < min_base_order_size {
            return Ok(
                OrderSummary {
                    posted_order_id: None,
                    total_base_qty: params.max_base_qty - base_left,
                    total_quote_qty: params.max_quote_qty - quote_left,
                    total_base_qty_posted: 0,
                },
            );
        }
        let ghost q1 = *event_queue;
        let new_leaf_order_id = event_queue.gen_order_id(params.limit_price, params.side);
        proof {
            assert(event_queue.entries() =~= q1.entries());
        }
        let new_leaf = LeafNode { key: new_leaf_order_id, base_quantity: base_qty_to_post };
        let ghost o1 = *own;
        let insert_result = own.insert_leaf(&new_leaf);
        let ghost mut before_insert = o1;
        let k = match insert_result {
            Ok((h, _)) => h,
            Err(_) => {
                proof {
                    o1.lemma_full_nonempty();
                    own.lemma_orders();
                }
                let boot_candidate = match params.side {
                    Side::Bid => own.find_min().unwrap(),
                    Side::Ask => own.find_max().unwrap(),
                };
                proof {
                    own.lemma_handles();
                }
                let boot_candidate_key = own.leaf_nodes[boot_candidate as usize].key;
                proof {
                    lemma_best_key_unique(own.orders(), boot_candidate_key, params.side == Side::Bid);
                }
                let boot_candidate_price = LeafNode::price_from_key(boot_candidate_key);
                let should_boot = match params.side {
                    Side::Bid => boot_candidate_price < params.limit_price,
                    Side::Ask => boot_candidate_price > params.limit_price,
                };
                if should_boot {
                    let (order, callback_info_booted) = own.remove_by_key(boot_candidate_key).unwrap();
                    proof {
                        Slab::lemma_orders_remove(o1, *own, boot_candidate_key);
                    }
                    let out = OutEvent {
                        tag: EventTag::Out.as_u8(),
                        side: params.side.as_u8(),
                        delete: 1,
                        _padding: [0u8, 0, 0, 0, 0, 0, 0, 0, 0, 0, 0, 0, 0],
                        order_id: order.order_id(),
                        base_size: order.base_quantity,
                    };
                    let ghost q2 = *event_queue;
                    match event_queue.push_back(out, Some(&callback_info_booted), None) {
                        Ok(()) => {},
                        Err(_) => {
                            return Err(AoError::EventQueueFull);
                        },
                    }
                    proof {
                        let x = (out.spec_to_generic(), callback_info_booted, None::<C>);
                        lemma_appended_push(q0.entries(), q2.entries(), m.events, event_queue.entries().last(), x);
                        assert(q2.entries().push(event_queue.entries().last()) == event_queue.entries());
                        own.lemma_orders();
                        own.lemma_not_full();
                        before_insert = *own;
                    }
                    let (h, _) = own.insert_leaf(&new_leaf).unwrap();
                    h
                } else {
                    return Ok(
                        OrderSummary {
                            posted_order_id: None,
                            total_base_qty: params.max_base_qty - base_left,
                            total_quote_qty: params.max_quote_qty - quote_left,
                            total_base_qty_posted: 0,
                        },
                    );
                }
            },
        };
        let ghost o4 = *own;
        proof {
            own.lemma_handles();
            assert(own.handles().contains_key(new_leaf.key));
        }
        *own.get_callback_info_mut(k) = params.callback_info;
        proof {
            Slab::lemma_orders_insert(before_insert, o4, *own, new_leaf, k, params.callback_info);
        }
        let posted_quote = match fp32_mul(base_qty_to_post, params.limit_price) {
            Some(q) => q,
            None => {
                return Err(AoError::NumericalOverflow);
            },
        };
        Ok(
            OrderSummary {
                posted_order_id: Some(new_leaf_order_id),
                total_base_qty: params.max_base_qty - (base_left - base_qty_to_post),
                total_quote_qty: params.max_quote_qty - (quote_left - posted_quote),
                total_base_qty_posted: base_qty_to_post,
            },
        )
    }

    /// Matches a new order against the book, reports the matches in the
    /// event queue and posts what is left of it: what `spec_new_order` gives
    /// for the side of the order.
    pub fn new_order(
        &mut self,
        params: Params<C>,
        event_queue: &mut EventQueue<C>,
        min_base_order_size: u64,
    ) -> (r: Result<OrderSummary, AoError>)
        requires
            old(self).bids.wf(),
            old(self).asks.wf(),
            old(event_queue).wf(),
            old(event_queue).header.seq_num < u64::MAX,
        ensures
            final(self).bids.wf(),
            final(self).asks.wf(),
            final(event_queue).wf(),
            final(self).bids.leaf_nodes.len() == old(self).bids.leaf_nodes.len(),
            final(self).asks.leaf_nodes.len() == old(self).asks.leaf_nodes.len(),
            final(self).bids.header.market_address == old(self).bids.header.market_address,
            final(self).asks.header.market_address == old(self).asks.header.market_address,
            final(event_queue).events.len() == old(event_queue).events.len(),
            post_only_crosses(params, old(self).book(params.side.spec_opposite()).orders())
                ==> *final(self) == *old(self) && *final(event_queue) == *old(event_queue),
            aborts_at_first(
                params,
                old(self).book(params.side.spec_opposite()).orders(),
                old(event_queue).room(),
            ) ==> *final(self) == *old(self) && *final(event_queue) == *old(event_queue),
            match spec_new_order(
                params,
                min_base_order_size,
                old(self).book(params.side.spec_opposite()).orders(),
                old(self).book(params.side).orders(),
                old(self).book(params.side).leaf_nodes.len() as nat,
                old(event_queue).room(),
                old(event_queue).header.seq_num,
            ) {
                Err(e) => r == Err::<OrderSummary, AoError>(e),
                Ok(o) => {
                    &&& r == Ok::<OrderSummary, AoError>(o.summary)
                    &&& final(self).book(params.side.spec_opposite()).orders() == o.opposite
                    &&& final(self).book(params.side).orders() == o.own
                    &&& appended(old(event_queue).entries(), final(event_queue).entries(), o.events)
                    &&& final(event_queue).header.seq_num == old(event_queue).header.seq_num + (
                    if o.seq_used {
                        1int
                    } else {
                        0int
                    })
                },
            },
    {
        match params.side {
            Side::Bid => Self::execute(
                &mut self.asks,
                &mut self.bids,
                &params,
                event_queue,
                min_base_order_size,
            ),
            Side::Ask => Self::execute(
                &mut self.bids,
                &mut self.asks,
                &params,
                event_queue,
                min_base_order_size,
            ),
        }
    }
}

// ------------------------------------------------------------------------
// The book stays uncrossed.
/// Every bid of `bids` is priced below every ask of `asks`.
pub open spec fn uncrossed<C>(bids: Map<u128, (u64, C)>, asks: Map<u128, (u64, C)>) -> bool {
    forall|kb: u128, ka: u128|
        #![trigger bids.contains_key(kb), asks.contains_key(ka)]
        bids.contains_key(kb) && asks.contains_key(ka) ==> spec_price_from_key(kb)
            < spec_price_from_key(ka)
}

proof fn lemma_price_mono(a: u128, b: u128)
    requires
        a <= b,
    ensures
        spec_price_from_key(a) <= spec_price_from_key(b),
{
    vstd::arithmetic::div_mod::lemma_div_is_ordered(a as int, b as int, 0x1_0000_0000_0000_0000);
}

/// Matching that stops without crossing leaves no resting order that the
/// order's limit price crosses.
proof fn lemma_match_stops_uncrossed<C: CallbackInfo>(
    p: Params<C>,
    min_base_order_size: u64,
    book: Map<u128, (u64, C)>,
    base_left: u64,
    quote_left: u64,
    match_limit: u64,
    room: int,
)
    requires
        book.dom().finite(),
    ensures
        spec_match(p, min_base_order_size, book, base_left, quote_left, match_limit, room) matches Ok(
            m,
        ) ==> !m.crossed ==> forall|k: u128| #[trigger]
            m.book.contains_key(k) ==> !crosses(p.side, p.limit_price, spec_price_from_key(k)),
    decreases match_limit,
{
    if match_limit > 0 && !book.dom().is_empty() {
        let lowest = p.side == Side::Bid;
        let k = best_key(book, lowest);
        let w = choose|x: u128| book.contains_key(x);
        lemma_best_key_exists(book, w, lowest);
        let price = spec_price_from_key(k);
        if !crosses(p.side, p.limit_price, price) {
            assert forall|k2: u128| #[trigger] book.contains_key(k2) implies !crosses(
                p.side,
                p.limit_price,
                spec_price_from_key(k2),
            ) by {
                if lowest {
                    lemma_price_mono(k, k2);
                } else {
                    lemma_price_mono(k2, k);
                }
            }
        }
        if let Some(base_for_quote) = spec_fp32_div(quote_left, price) {
            let qty = book[k].0;
            let t0 = if qty < base_left {
                qty
            } else {
                base_left
            };
            let trade = if base_for_quote < t0 {
                base_for_quote
            } else {
                t0
            };
            let base_after = (base_left - trade) as u64;
            if let Some(trade_quote) = spec_fp32_mul(trade, price) {
                let quote_after = (quote_left - trade_quote) as u64;
                let left = (qty - trade) as u64;
                let ml = (match_limit - 1) as u64;
                lemma_match_stops_uncrossed(p, min_base_order_size, book.remove(k), base_left, quote_left, ml, room - 1);
                lemma_match_stops_uncrossed(p, min_base_order_size, book.remove(k), base_after, quote_after, ml, room - 2);
                lemma_match_stops_uncrossed(p, min_base_order_size, book.insert(k, (left, book[k].1)), base_after, quote_after, ml, room - 1);
            }
        }
    }
}

/// A new order keeps an uncrossed book uncrossed: what it posts is priced
/// beyond every resting order left on the other side.
pub proof fn lemma_new_order_uncrossed<C: CallbackInfo>(
    p: Params<C>,
    min_base_order_size: u64,
    opposite: Map<u128, (u64, C)>,
    own: Map<u128, (u64, C)>,
    capacity: nat,
    room: int,
    seq_num: u64,
)
    requires
        opposite.dom().finite(),
        p.side == Side::Bid ==> uncrossed(own, opposite),
        p.side == Side::Ask ==> uncrossed(opposite, own),
    ensures
        spec_new_order(p, min_base_order_size, opposite, own, capacity, room, seq_num) matches Ok(
            o,
        ) ==> {
            &&& p.side == Side::Bid ==> uncrossed(o.own, o.opposite)
            &&& p.side == Side::Ask ==> uncrossed(o.opposite, o.own)
        },
{
    lemma_match_decreasing(p, min_base_order_size, opposite, p.max_base_qty, p.max_quote_qty, p.match_limit, room);
    lemma_match_stops_uncrossed(p, min_base_order_size, opposite, p.max_base_qty, p.max_quote_qty, p.match_limit, room);
    lemma_order_id_price(p.limit_price, p.side, seq_num);
    if let Ok(o) = spec_new_order(p, min_base_order_size, opposite, own, capacity, room, seq_num) {
        let m = spec_match(p, min_base_order_size, opposite, p.max_base_qty, p.max_quote_qty, p.match_limit, room).unwrap();
        let id = spec_order_id(p.limit_price, p.side, seq_num);
        assert(o.opposite == m.book);
        assert forall|ko: u128, kn: u128| #[trigger]
            o.opposite.contains_key(ko) && #[trigger] o.own.contains_key(kn) implies if p.side
            == Side::Bid {
            spec_price_from_key(kn) < spec_price_from_key(ko)
        } else {
            spec_price_from_key(ko) < spec_price_from_key(kn)
        } by {
            assert(opposite.contains_key(ko));
            if !own.contains_key(kn) {
                assert(kn == id);
                assert(!m.crossed);
            }
        }
    }
}

// ------------------------------------------------------------------------
// What the fills add up to.
/// The base and quote quantities that the fill events of `events` trade.
pub open spec fn fill_totals<C>(events: Seq<(FillEvent, C, Option<C>)>) -> (int, int)
    decreases events.len(),
{
    if events.len() == 0 {
        (0, 0)
    } else {
        let rest = fill_totals(events.drop_last());
        let e = events.last().0;
        if e.tag == 0 {
            (rest.0 + e.base_size, rest.1 + e.quote_size)
        } else {
            rest
        }
    }
}

proof fn lemma_fill_totals_one<C>(e: (FillEvent, C, Option<C>))
    ensures
        fill_totals(seq![e]) == if e.0.tag == 0 {
            (e.0.base_size as int, e.0.quote_size as int)
        } else {
            (0int, 0int)
        },
{
    assert(seq![e].drop_last() =~= Seq::<(FillEvent, C, Option<C>)>::empty());
    assert(fill_totals(Seq::<(FillEvent, C, Option<C>)>::empty()) == (0int, 0int));
}

proof fn lemma_fill_totals_concat<C>(
    a: Seq<(FillEvent, C, Option<C>)>,
    b: Seq<(FillEvent, C, Option<C>)>,
)
    ensures
        fill_totals(a + b) == ((fill_totals(a).0 + fill_totals(b).0), (fill_totals(a).1
            + fill_totals(b).1)),
    decreases b.len(),
{
    if b.len() == 0 {
        assert(a + b =~= a);
    } else {
        lemma_fill_totals_concat(a, b.drop_last());
        assert((a + b).drop_last() =~= a + b.drop_last());
        assert((a + b).last() == b.last());
    }
}

/// The fills of a matching trade exactly what the order lost of its base
/// and quote quantities.
proof fn lemma_match_fill_totals<C: CallbackInfo>(
    p: Params<C>,
    min_base_order_size: u64,
    book: Map<u128, (u64, C)>,
    base_left: u64,
    quote_left: u64,
    match_limit: u64,
    room: int,
)
    ensures
        spec_match(p, min_base_order_size, book, base_left, quote_left, match_limit, room) matches Ok(
            m,
        ) ==> fill_totals(m.events) == (base_left - m.base_left, quote_left - m.quote_left),
    decreases match_limit,
{
    assert(fill_totals(Seq::<(FillEvent, C, Option<C>)>::empty()) == (0int, 0int));
    if match_limit > 0 && !book.dom().is_empty() {
        let k = best_key(book, p.side == Side::Bid);
        let price = spec_price_from_key(k);
        let qty = book[k].0;
        let maker = book[k].1;
        if let Some(base_for_quote) = spec_fp32_div(quote_left, price) {
            let t0 = if qty < base_left {
                qty
            } else {
                base_left
            };
            let trade = if base_for_quote < t0 {
                base_for_quote
            } else {
                t0
            };
            lemma_fp32_affordable(trade, quote_left, price);
            let base_after = (base_left - trade) as u64;
            if let Some(trade_quote) = spec_fp32_mul(trade, price) {
                let quote_after = (quote_left - trade_quote) as u64;
                let left = (qty - trade) as u64;
                let ml = (match_limit - 1) as u64;
                let opp = p.side.spec_opposite();
                lemma_match_fill_totals(p, min_base_order_size, book.remove(k), base_left, quote_left, ml, room - 1);
                lemma_match_fill_totals(p, min_base_order_size, book.remove(k), base_after, quote_after, ml, room - 2);
                lemma_match_fill_totals(p, min_base_order_size, book.insert(k, (left, maker)), base_after, quote_after, ml, room - 1);
                let out = (out_event(opp, k, qty).spec_to_generic(), maker, None::<C>);
                let out2 = (out_event(opp, k, left).spec_to_generic(), maker, None::<C>);
                let fill = (fill_event(p.side, k, trade_quote, trade).spec_to_generic(), maker, Some(p.callback_info));
                lemma_fill_totals_one(out);
                lemma_fill_totals_one(fill);
                assert(fill_totals(seq![fill, out2]) == (trade as int, trade_quote as int)) by {
                    assert(seq![fill, out2].drop_last() =~= seq![fill]);
                    assert(seq![fill].drop_last() =~= Seq::<(FillEvent, C, Option<C>)>::empty());
                }
                if let Ok(m) = spec_match(p, min_base_order_size, book.remove(k), base_left, quote_left, ml, room - 1) {
                    lemma_fill_totals_concat(seq![out], m.events);
                }
                if let Ok(m) = spec_match(p, min_base_order_size, book.remove(k), base_after, quote_after, ml, room - 2) {
                    lemma_fill_totals_concat(seq![fill, out2], m.events);
                }
                if let Ok(m) = spec_match(p, min_base_order_size, book.insert(k, (left, maker)), base_after, quote_after, ml, room - 1) {
                    lemma_fill_totals_concat(seq![fill], m.events);
                }
            }
        }
    }
}

/// The fill events of a new order trade what its summary reports less what
/// it posted.
pub proof fn lemma_new_order_fill_totals<C: CallbackInfo>(
    p: Params<C>,
    min_base_order_size: u64,
    opposite: Map<u128, (u64, C)>,
    own: Map<u128, (u64, C)>,
    capacity: nat,
    room: int,
    seq_num: u64,
)
    requires
        opposite.dom().finite(),
    ensures
        spec_new_order(p, min_base_order_size, opposite, own, capacity, room, seq_num) matches Ok(
            o,
        ) ==> {
            &&& fill_totals(o.events).0 == o.summary.total_base_qty
                - o.summary.total_base_qty_posted
            &&& o.summary.posted_order_id is None ==> fill_totals(o.events).1
                == o.summary.total_quote_qty
            &&& o.summary.posted_order_id is Some ==> (spec_fp32_mul(
                o.summary.total_base_qty_posted,
                p.limit_price,
            ) matches Some(q) && fill_totals(o.events).1 + q == o.summary.total_quote_qty)
        },
{
    lemma_match_decreasing(p, min_base_order_size, opposite, p.max_base_qty, p.max_quote_qty, p.match_limit, room);
    lemma_match_fill_totals(p, min_base_order_size, opposite, p.max_base_qty, p.max_quote_qty, p.match_limit, room);
    if let Ok(o) = spec_new_order(p, min_base_order_size, opposite, own, capacity, room, seq_num) {
        let m = spec_match(p, min_base_order_size, opposite, p.max_base_qty, p.max_quote_qty, p.match_limit, room).unwrap();
        lemma_to_post_affordable(m, p.limit_price);
        if o.events != m.events {
            let own_best = best_key(own, p.side == Side::Bid);
            let x = (out_event(p.side, own_best, own[own_best].0).spec_to_generic(), own[own_best].1, None::<C>);
            assert(o.events == m.events.push(x));
            assert(m.events.push(x) =~= m.events + seq![x]);
            lemma_fill_totals_concat(m.events, seq![x]);
            lemma_fill_totals_one(x);
        }
    }
}


// ------------------------------------------------------------------------
// What the fills take from each resting order.
/// The base quantity that the fill events of `events` trade against the
/// resting order `k`.
pub open spec fn filled_against<C>(events: Seq<(FillEvent, C, Option<C>)>, k: u128) -> int
    decreases events.len(),
{
    if events.len() == 0 {
        0
    } else {
        let e = events.last().0;
        filled_against(events.drop_last(), k) + if e.tag == 0 && e.maker_order_id == k {
            e.base_size as int
        } else {
            0
        }
    }
}

proof fn lemma_filled_against_concat<C>(
    a: Seq<(FillEvent, C, Option<C>)>,
    b: Seq<(FillEvent, C, Option<C>)>,
    k: u128,
)
    ensures
        filled_against(a + b, k) == filled_against(a, k) + filled_against(b, k),
    decreases b.len(),
{
    if b.len() == 0 {
        assert(a + b =~= a);
    } else {
        lemma_filled_against_concat(a, b.drop_last(), k);
        assert((a + b).drop_last() =~= a + b.drop_last());
        assert((a + b).last() == b.last());
    }
}

proof fn lemma_filled_against_prefix<C>(
    evs: Seq<(FillEvent, C, Option<C>)>,
    rest: Seq<(FillEvent, C, Option<C>)>,
    k: u128,
)
    requires
        evs.len() <= 2,
    ensures
        filled_against(evs + rest, k) == filled_against(evs, k) + filled_against(rest, k),
        filled_against(evs, k) == (if evs.len() == 0 {
            0
        } else if evs.len() == 1 {
            if evs[0].0.tag == 0 && evs[0].0.maker_order_id == k {
                evs[0].0.base_size as int
            } else {
                0
            }
        } else {
            (if evs[0].0.tag == 0 && evs[0].0.maker_order_id == k {
                evs[0].0.base_size as int
            } else {
                0
            }) + (if evs[1].0.tag == 0 && evs[1].0.maker_order_id == k {
                evs[1].0.base_size as int
            } else {
                0
            })
        }),
{
    lemma_filled_against_concat(evs, rest, k);
    let e: Seq<(FillEvent, C, Option<C>)> = Seq::empty();
    assert(filled_against(e, k) == 0);
    if evs.len() == 1 {
        assert(evs.drop_last() =~= e);
        assert(evs.last() == evs[0]);
    } else if evs.len() == 2 {
        let d = evs.drop_last();
        assert(d.len() == 1);
        assert(d.drop_last() =~= e);
        assert(d.last() == evs[0]);
        assert(evs.last() == evs[1]);
        assert(filled_against(d, k) == filled_against(e, k) + if evs[0].0.tag == 0
            && evs[0].0.maker_order_id == k {
            evs[0].0.base_size as int
        } else {
            0
        });
    }
}

/// Matching conserves each resting order's quantity: an order that stays
/// on the book holds what it held before less the base that the reported
/// fills traded against it, an order taken off the book had at least that
/// much, and no fill is reported against an order that was not on the book.
pub proof fn lemma_match_conserves_resting<C: CallbackInfo>(
    p: Params<C>,
    min_base_order_size: u64,
    book: Map<u128, (u64, C)>,
    base_left: u64,
    quote_left: u64,
    match_limit: u64,
    room: int,
)
    requires
        book.dom().finite(),
    ensures
        spec_match(p, min_base_order_size, book, base_left, quote_left, match_limit, room) matches Ok(
            m,
        ) ==> {
            &&& forall|k: u128| #[trigger]
                m.book.contains_key(k) ==> book.contains_key(k) && m.book[k].0 + filled_against(
                    m.events,
                    k,
                ) == book[k].0 && m.book[k].1 == book[k].1
            &&& forall|k: u128|
                !book.contains_key(k) ==> #[trigger] filled_against(m.events, k) == 0
            &&& forall|k: u128|
                #![trigger book.contains_key(k), m.book.contains_key(k)]
                book.contains_key(k) && !m.book.contains_key(k) ==> filled_against(m.events, k)
                    <= book[k].0
        },
    decreases match_limit,
{
    if match_limit > 0 && !book.dom().is_empty() {
        let k0 = best_key(book, p.side == Side::Bid);
        let w = choose|x: u128| book.contains_key(x);
        lemma_best_key_exists(book, w, p.side == Side::Bid);
        let price = spec_price_from_key(k0);
        let qty = book[k0].0;
        let maker = book[k0].1;
        if let Some(base_for_quote) = spec_fp32_div(quote_left, price) {
            let t0 = if qty < base_left {
                qty
            } else {
                base_left
            };
            let trade = if base_for_quote < t0 {
                base_for_quote
            } else {
                t0
            };
            lemma_fp32_affordable(trade, quote_left, price);
            let base_after = (base_left - trade) as u64;
            if let Some(trade_quote) = spec_fp32_mul(trade, price) {
                let quote_after = (quote_left - trade_quote) as u64;
                let left = (qty - trade) as u64;
                let ml = (match_limit - 1) as u64;
                let opp = p.side.spec_opposite();
                let removed = book.remove(k0);
                let kept = book.insert(k0, (left, maker));
                lemma_match_conserves_resting(p, min_base_order_size, removed, base_left, quote_left, ml, room - 1);
                lemma_match_conserves_resting(p, min_base_order_size, removed, base_after, quote_after, ml, room - 2);
                lemma_match_conserves_resting(p, min_base_order_size, kept, base_after, quote_after, ml, room - 1);
                let out = (out_event(opp, k0, qty).spec_to_generic(), maker, None::<C>);
                let out2 = (out_event(opp, k0, left).spec_to_generic(), maker, None::<C>);
                let fill = (fill_event(p.side, k0, trade_quote, trade).spec_to_generic(), maker, Some(p.callback_info));
                if let Ok(m) = spec_match(p, min_base_order_size, book, base_left, quote_left, match_limit, room) {
                    if let Ok(sub) = spec_match(p, min_base_order_size, removed, base_left, quote_left, ml, room - 1) {
                        if m.events == seq![out] + sub.events && m.book == sub.book {
                            assert forall|k: u128| true implies filled_against(m.events, k)
                                == filled_against(sub.events, k) by {
                                lemma_filled_against_prefix(seq![out], sub.events, k);
                            }
                        }
                    }
                    if let Ok(sub) = spec_match(p, min_base_order_size, removed, base_after, quote_after, ml, room - 2) {
                        if m.events == seq![fill, out2] + sub.events && m.book == sub.book {
                            assert forall|k: u128| true implies filled_against(m.events, k)
                                == filled_against(sub.events, k) + if k == k0 {
                                trade as int
                            } else {
                                0
                            } by {
                                lemma_filled_against_prefix(seq![fill, out2], sub.events, k);
                            }
                        }
                    }
                    if let Ok(sub) = spec_match(p, min_base_order_size, kept, base_after, quote_after, ml, room - 1) {
                        if m.events == seq![fill] + sub.events && m.book == sub.book {
                            assert forall|k: u128| true implies filled_against(m.events, k)
                                == filled_against(sub.events, k) + if k == k0 {
                                trade as int
                            } else {
                                0
                            } by {
                                lemma_filled_against_prefix(seq![fill], sub.events, k);
                            }
                        }
                    }
                }
            }
        }
    }
}

/// The fills of a new order against the opposite side conserve each
/// resting order's quantity: an order that stays on the opposite side holds
/// what it held before less the base that the reported fills traded
/// against it, and no fill is reported against an order that was not there.
pub proof fn lemma_new_order_conserves_resting<C: CallbackInfo>(
    p: Params<C>,
    min_base_order_size: u64,
    opposite: Map<u128, (u64, C)>,
    own: Map<u128, (u64, C)>,
    capacity: nat,
    room: int,
    seq_num: u64,
)
    requires
        opposite.dom().finite(),
    ensures
        spec_new_order(p, min_base_order_size, opposite, own, capacity, room, seq_num) matches Ok(
            o,
        ) ==> {
            &&& forall|k: u128| #[trigger]
                o.opposite.contains_key(k) ==> opposite.contains_key(k) && o.opposite[k].0
                    + filled_against(o.events, k) == opposite[k].0
            &&& forall|k: u128|
                !opposite.contains_key(k) ==> #[trigger] filled_against(o.events, k) == 0
        },
{
    lemma_match_conserves_resting(p, min_base_order_size, opposite, p.max_base_qty, p.max_quote_qty, p.match_limit, room);
    if let Ok(o) = spec_new_order(p, min_base_order_size, opposite, own, capacity, room, seq_num) {
        let m = spec_match(p, min_base_order_size, opposite, p.max_base_qty, p.max_quote_qty, p.match_limit, room).unwrap();
        assert(o.opposite == m.book);
        if o.events != m.events {
            let own_best = best_key(own, p.side == Side::Bid);
            let x = (out_event(p.side, own_best, own[own_best].0).spec_to_generic(), own[own_best].1, None::<C>);
            assert(o.events == m.events.push(x));
            assert forall|k: u128| true implies filled_against(o.events, k) == filled_against(m.events, k) by {
                assert(o.events.drop_last() =~= m.events);
            }
        }
    }
}

} // verus!
