use agnostic_orderbook::error::{AccountError, AoError};
use agnostic_orderbook::instruction::AgnosticOrderbookInstruction;
use agnostic_orderbook::processor::cancel_order::{self, cancel_order};
use agnostic_orderbook::processor::close_market::check_closable;
use agnostic_orderbook::processor::create_market::{self, new_market_state};
use agnostic_orderbook::processor::mass_cancel_orders::{self, mass_cancel_orders};
use agnostic_orderbook::processor::new_order::{check_limit_price, collect_fees, Params};
use agnostic_orderbook::state::critbit::{LeafNode, Slab};
use agnostic_orderbook::state::event_queue::{
    EventQueue, EventRef, FillEvent, FillEventRef, OutEvent, OutEventRef,
};
use agnostic_orderbook::state::market_state::MarketState;
use agnostic_orderbook::state::orderbook::{OrderBookState, OrderSummary};
use agnostic_orderbook::state::{get_side_from_order_id, AccountTag, SelfTradeBehavior, Side};
use agnostic_orderbook::utils::{
    check_account_key, check_account_owner, check_unitialized, round_price,
};

type TestSlab = Slab<[u8; 32]>;
type TestQueue = EventQueue<[u8; 32]>;
type TestBook = OrderBookState<[u8; 32]>;

fn book(capacity: usize) -> (TestBook, Vec<u8>, Vec<u8>) {
    let size = TestSlab::compute_allocation_size(capacity);
    let (mut asks, mut bids) = (vec![0u8; size], vec![0u8; size]);
    TestSlab::initialize(&mut asks, &mut bids, [7; 32]).unwrap();
    let b = TestBook::new_safe(&bids, &asks).unwrap();
    (b, bids, asks)
}

fn queue(capacity: usize) -> (TestQueue, Vec<u8>) {
    let mut buf = vec![0u8; TestQueue::compute_allocation_size(capacity)];
    let q = TestQueue::from_buffer(&mut buf, AccountTag::Uninitialized).unwrap();
    (q, buf)
}

fn order(side: Side, price: u64, base: u64, who: u8) -> Params<[u8; 32]> {
    Params {
        max_base_qty: base,
        max_quote_qty: u64::MAX,
        limit_price: price << 32,
        side,
        match_limit: 10,
        callback_info: [who; 32],
        post_only: false,
        post_allowed: true,
        self_trade_behavior: SelfTradeBehavior::DecrementTake,
    }
}

#[test]
fn round_price_rounds_bids_down_and_asks_up() {
    assert_eq!(round_price(10, 95, Side::Bid), 90);
    assert_eq!(round_price(10, 95, Side::Ask), 100);
    assert_eq!(round_price(10, 90, Side::Bid), 90);
    assert_eq!(round_price(10, 90, Side::Ask), 90);
}

#[test]
fn order_ids_carry_side_and_price() {
    let (_, _) = queue(10);
    let (mut q, _buf) = queue(10);
    let bid = q.gen_order_id(42 << 32, Side::Bid);
    let ask = q.gen_order_id(42 << 32, Side::Ask);
    assert_eq!(get_side_from_order_id(bid), Side::Bid);
    assert_eq!(get_side_from_order_id(ask), Side::Ask);
    assert_eq!(LeafNode::price_from_key(bid), 42 << 32);
    assert_eq!(LeafNode::price_from_key(ask), 42 << 32);
    assert_eq!(q.header.seq_num, 2);
}

#[test]
fn older_order_at_same_price_is_matched_first() {
    let (mut b, _, _) = book(10);
    let (mut q, _buf) = queue(100);
    let first = b.new_order(order(Side::Ask, 10, 100, 1), &mut q, 1).unwrap();
    let _second = b.new_order(order(Side::Ask, 10, 100, 2), &mut q, 1).unwrap();
    let taker = b.new_order(order(Side::Bid, 10, 50, 3), &mut q, 1).unwrap();
    assert_eq!(taker.total_base_qty, 50);
    assert_eq!(taker.total_quote_qty, 500);
    match q.peek_at(0).unwrap() {
        EventRef::Fill(f) => {
            assert_eq!(f.event.maker_order_id, first.posted_order_id.unwrap());
            assert_eq!(f.maker_callback_info, [1; 32]);
            assert_eq!(f.taker_callback_info, [3; 32]);
        }
        EventRef::Out(_) => panic!("expected a fill"),
    }
}

#[test]
fn better_price_is_matched_first_at_its_own_price() {
    let (mut b, _, _) = book(10);
    let (mut q, _buf) = queue(100);
    b.new_order(order(Side::Ask, 12, 100, 1), &mut q, 1).unwrap();
    let cheap = b.new_order(order(Side::Ask, 11, 100, 2), &mut q, 1).unwrap();
    let taker = b.new_order(order(Side::Bid, 20, 10, 3), &mut q, 1).unwrap();
    assert_eq!(taker.total_quote_qty, 110);
    match q.peek_at(0).unwrap() {
        EventRef::Fill(f) => {
            assert_eq!(f.event.maker_order_id, cheap.posted_order_id.unwrap());
            assert_eq!(f.event.quote_size, 110);
        }
        EventRef::Out(_) => panic!("expected a fill"),
    }
}

#[test]
fn post_only_order_never_matches() {
    let (mut b, _, _) = book(10);
    let (mut q, _buf) = queue(100);
    b.new_order(order(Side::Ask, 10, 100, 1), &mut q, 1).unwrap();
    let mut p = order(Side::Bid, 10, 100, 2);
    p.post_only = true;
    // A post-only order that crosses the spread fails and changes nothing.
    assert!(matches!(b.new_order(p, &mut q, 1), Err(AoError::PostOnlyWouldCross)));
    assert_eq!(q.header.count, 0);
    assert_eq!(b.get_spread(), (None, Some(10 << 32)));
    let mut p = order(Side::Bid, 9, 100, 2);
    p.post_only = true;
    let s = b.new_order(p, &mut q, 1).unwrap();
    assert_eq!(q.header.count, 0);
    assert_eq!(s.total_base_qty_posted, 100);
}

#[test]
fn totals_stay_within_the_order() {
    let (mut b, _, _) = book(10);
    let (mut q, _buf) = queue(100);
    b.new_order(order(Side::Ask, 10, 1000, 1), &mut q, 1).unwrap();
    let mut p = order(Side::Bid, 10, 1000, 2);
    p.max_quote_qty = 2005;
    let s: OrderSummary = b.new_order(p, &mut q, 1).unwrap();
    assert_eq!(s.total_base_qty, 200);
    assert_eq!(s.total_quote_qty, 2000);
    assert!(s.total_base_qty <= 1000);
    assert!(s.total_quote_qty <= 2005);
    assert_eq!(s.posted_order_id, None);
}

#[test]
fn self_trade_is_refused_or_cancels_the_resting_order() {
    let (mut b, _, _) = book(10);
    let (mut q, _buf) = queue(100);
    let resting = b.new_order(order(Side::Ask, 10, 100, 1), &mut q, 1).unwrap();
    let mut p = order(Side::Bid, 10, 50, 1);
    p.self_trade_behavior = SelfTradeBehavior::AbortTransaction;
    assert_eq!(b.new_order(p, &mut q, 1).unwrap_err(), AoError::WouldSelfTrade);
    p.self_trade_behavior = SelfTradeBehavior::CancelProvide;
    let s = b.new_order(p, &mut q, 1).unwrap();
    assert_eq!(s.total_base_qty_posted, 50);
    assert_eq!(
        q.peek_at(0).unwrap(),
        EventRef::Out(OutEventRef {
            event: OutEvent {
                tag: 1,
                side: Side::Ask as u8,
                delete: 1,
                _padding: [0; 13],
                order_id: resting.posted_order_id.unwrap(),
                base_size: 100,
            },
            callback_info: [1; 32],
        })
    );
}

#[test]
fn full_event_queue_stops_the_order() {
    let (mut b, _, _) = book(10);
    let (mut q, _buf) = queue(1);
    b.new_order(order(Side::Ask, 10, 100, 1), &mut q, 1).unwrap();
    b.new_order(order(Side::Ask, 11, 100, 1), &mut q, 1).unwrap();
    let r = b.new_order(order(Side::Bid, 11, 200, 2), &mut q, 1);
    assert_eq!(r.unwrap_err(), AoError::EventQueueFull);
}

#[test]
fn small_remainder_is_removed_with_an_out_event() {
    let (mut b, _, _) = book(10);
    let (mut q, _buf) = queue(100);
    let resting = b.new_order(order(Side::Ask, 10, 100, 1), &mut q, 10).unwrap();
    b.new_order(order(Side::Bid, 10, 95, 2), &mut q, 10).unwrap();
    assert_eq!(q.header.count, 2);
    assert_eq!(
        q.peek_at(1).unwrap(),
        EventRef::Out(OutEventRef {
            event: OutEvent {
                tag: 1,
                side: Side::Ask as u8,
                delete: 1,
                _padding: [0; 13],
                order_id: resting.posted_order_id.unwrap(),
                base_size: 5,
            },
            callback_info: [1; 32],
        })
    );
    assert_eq!(b.get_spread(), (None, None));
}

#[test]
fn cancel_reports_what_was_left() {
    let (mut b, _, _) = book(10);
    let (mut q, _buf) = queue(100);
    let s = b.new_order(order(Side::Bid, 5, 3, 1), &mut q, 1).unwrap();
    let id = s.posted_order_id.unwrap();
    let c = cancel_order(&mut b, &cancel_order::Params { order_id: id }).unwrap();
    assert_eq!(c.total_base_qty, 3);
    assert_eq!(c.total_quote_qty, 15);
    assert_eq!(c.posted_order_id, None);
    assert_eq!(
        cancel_order(&mut b, &cancel_order::Params { order_id: id }).unwrap_err(),
        AoError::OrderNotFound
    );
    assert!(b.is_empty());
}

#[test]
fn cancel_of_a_huge_order_overflows() {
    let (mut b, _, _) = book(10);
    let id = ((u64::MAX as u128) << 64) | 1;
    b.asks
        .insert_leaf(&LeafNode {
            key: id,
            base_quantity: u64::MAX,
        })
        .unwrap();
    assert_eq!(
        cancel_order(&mut b, &cancel_order::Params { order_id: id }).unwrap_err(),
        AoError::NumericalOverflow
    );
}

#[test]
fn mass_cancel_adds_up_and_stops_at_a_missing_order() {
    let (mut b, _, _) = book(10);
    let (mut q, _buf) = queue(100);
    let a = b.new_order(order(Side::Bid, 5, 3, 1), &mut q, 1).unwrap();
    let c = b.new_order(order(Side::Ask, 7, 2, 1), &mut q, 1).unwrap();
    let s = mass_cancel_orders(
        &mut b,
        &mass_cancel_orders::Params {
            order_ids: vec![a.posted_order_id.unwrap(), c.posted_order_id.unwrap()],
        },
    )
    .unwrap();
    assert_eq!(s.total_base_qty, 5);
    assert_eq!(s.total_quote_qty, 29);
    assert!(b.is_empty());
    let r = mass_cancel_orders(
        &mut b,
        &mass_cancel_orders::Params {
            order_ids: vec![a.posted_order_id.unwrap()],
        },
    );
    assert_eq!(r.unwrap_err(), AoError::OrderNotFound);
}

#[test]
fn booting_needs_a_better_price() {
    let (mut b, _, _) = book(1);
    let (mut q, _buf) = queue(100);
    let first = b.new_order(order(Side::Bid, 10, 5, 1), &mut q, 1).unwrap();
    let worse = b.new_order(order(Side::Bid, 9, 5, 2), &mut q, 1).unwrap();
    assert_eq!(worse.posted_order_id, None);
    let better = b.new_order(order(Side::Bid, 11, 5, 2), &mut q, 1).unwrap();
    assert!(better.posted_order_id.is_some());
    assert_eq!(
        q.peek_at(0).unwrap(),
        EventRef::Out(OutEventRef {
            event: OutEvent {
                tag: 1,
                side: Side::Bid as u8,
                delete: 1,
                _padding: [0; 13],
                order_id: first.posted_order_id.unwrap(),
                base_size: 5,
            },
            callback_info: [1; 32],
        })
    );
}

#[test]
fn slab_reports_out_of_space() {
    let mut bytes = vec![0u8; TestSlab::compute_allocation_size(1)];
    bytes[0] = AccountTag::Bids.as_u8();
    let mut slab = TestSlab::from_buffer(&bytes, AccountTag::Bids).unwrap();
    slab.insert_leaf(&LeafNode { key: 1, base_quantity: 1 }).unwrap();
    assert_eq!(
        slab.insert_leaf(&LeafNode { key: 2, base_quantity: 1 }).unwrap_err(),
        AoError::SlabOutOfSpace
    );
    let (h, prev) = slab.insert_leaf(&LeafNode { key: 1, base_quantity: 9 }).unwrap();
    assert_eq!(prev, Some(LeafNode { key: 1, base_quantity: 1 }));
    assert_eq!(slab.leaf_nodes[h as usize].base_quantity, 9);
}

#[test]
fn slab_written_then_read_is_the_same() {
    let (mut b, mut bids, mut asks) = book(10);
    let (mut q, mut qbuf) = queue(100);
    b.new_order(order(Side::Bid, 5, 3, 1), &mut q, 1).unwrap();
    b.new_order(order(Side::Ask, 8, 4, 2), &mut q, 1).unwrap();
    b.new_order(order(Side::Ask, 5, 1, 3), &mut q, 1).unwrap();
    b.bids.write_to(&mut bids);
    b.asks.write_to(&mut asks);
    q.write_to(&mut qbuf);
    let b2 = TestBook::new_safe(&bids, &asks).unwrap();
    assert_eq!(b2.bids.leaf_nodes, b.bids.leaf_nodes);
    assert_eq!(b2.asks.leaf_nodes, b.asks.leaf_nodes);
    assert_eq!(b2.bids.callback_infos, b.bids.callback_infos);
    assert_eq!(b2.bids.header.leaf_count, b.bids.header.leaf_count);
    assert_eq!(b2.asks.header.root_node, b.asks.header.root_node);
    assert_eq!(b2.get_spread(), b.get_spread());
    let q2 = TestQueue::from_buffer(&mut qbuf, AccountTag::EventQueue).unwrap();
    assert_eq!(q2.header.count, q.header.count);
    assert_eq!(q2.header.seq_num, q.header.seq_num);
    assert_eq!(q2.peek_at(0), q.peek_at(0));
}

#[test]
fn accounts_refuse_wrong_tags() {
    let size = TestSlab::compute_allocation_size(3);
    let (mut asks, mut bids) = (vec![0u8; size], vec![0u8; size]);
    assert!(matches!(
        TestSlab::from_buffer(&bids, AccountTag::Bids),
        Err(AccountError::InvalidAccountData)
    ));
    TestSlab::initialize(&mut asks, &mut bids, [9; 32]).unwrap();
    assert_eq!(bids[0], AccountTag::Bids.as_u8());
    assert_eq!(asks[0], AccountTag::Asks.as_u8());
    assert_eq!(&bids[56..88], &[9u8; 32][..]);
    assert_eq!(
        TestSlab::initialize(&mut asks, &mut bids, [9; 32]).unwrap_err(),
        AccountError::AccountAlreadyInitialized
    );
    let slab = TestSlab::from_buffer(&bids, AccountTag::Bids).unwrap();
    assert_eq!(slab.header.market_address, [9; 32]);
    assert_eq!(slab.leaf_nodes.len(), 3);
    assert_eq!(slab.inner_nodes.len(), 2);
}

#[test]
fn market_state_roundtrip_and_tag() {
    let mut buffer = [0u8; MarketState::LEN + 8];
    let m = MarketState::from_buffer(&mut buffer, AccountTag::Uninitialized).unwrap();
    assert_eq!(buffer[0], AccountTag::Market.as_u8());
    assert_eq!(m.tick_size, 0);
    let state = new_market_state(
        &create_market::Params {
            caller_authority: [0; 32],
            callback_info_len: 32,
            callback_id_len: 32,
            min_base_order_size: 10,
            tick_size: 1 << 32,
            cranker_reward: 5,
        },
        [1; 32],
        [2; 32],
        [3; 32],
        1000,
    )
    .unwrap();
    state.write_to(&mut buffer);
    let back = MarketState::from_buffer(&mut buffer, AccountTag::Market).unwrap();
    assert_eq!(back.bids, [2; 32]);
    assert_eq!(back.tick_size, 1 << 32);
    assert_eq!(back.initial_lamports, 1000);
    assert_eq!(back.min_base_order_size, 10);
    assert_eq!(back.cranker_reward, 5);
}

#[test]
fn market_checks() {
    assert_eq!(check_limit_price(30, 10), Ok(()));
    assert_eq!(check_limit_price(35, 10), Err(AoError::InvalidLimitPrice));
    let zero_min = create_market::Params {
        caller_authority: [0; 32],
        callback_info_len: 32,
        callback_id_len: 32,
        min_base_order_size: 0,
        tick_size: 1,
        cranker_reward: 0,
    };
    assert_eq!(
        new_market_state(&zero_min, [0; 32], [0; 32], [0; 32], 0).unwrap_err(),
        AccountError::InvalidArgument
    );
    let mut m = new_market_state(
        &create_market::Params { min_base_order_size: 1, ..zero_min },
        [0; 32],
        [0; 32],
        [0; 32],
        100,
    )
    .unwrap();
    m.cranker_reward = 10;
    assert_eq!(collect_fees(&mut m, 105), Err(AoError::FeeNotPayed));
    assert_eq!(m.fee_budget, 0);
    assert_eq!(collect_fees(&mut m, 130), Ok(()));
    assert_eq!(m.fee_budget, 30);
}

#[test]
fn market_closes_only_when_empty() {
    let (mut b, _, _) = book(10);
    let (mut q, _buf) = queue(100);
    assert_eq!(check_closable(&b, &q), Ok(()));
    let s = b.new_order(order(Side::Bid, 5, 3, 1), &mut q, 1).unwrap();
    assert_eq!(check_closable(&b, &q), Err(AoError::MarketStillActive));
    cancel_order(
        &mut b,
        &cancel_order::Params {
            order_id: s.posted_order_id.unwrap(),
        },
    )
    .unwrap();
    q.push_back(
        FillEvent {
            tag: 0,
            taker_side: 0,
            _padding: [0; 6],
            quote_size: 1,
            maker_order_id: 2,
            base_size: 3,
        },
        Some(&[1; 32]),
        Some(&[2; 32]),
    )
    .unwrap();
    assert_eq!(check_closable(&b, &q), Err(AoError::MarketStillActive));
    q.pop_n(5);
    assert_eq!(check_closable(&b, &q), Ok(()));
}

#[test]
fn queue_is_first_in_first_out() {
    let (mut q, _buf) = queue(3);
    for i in 0..3u64 {
        q.push_back(
            FillEvent {
                tag: 0,
                taker_side: 1,
                _padding: [0; 6],
                quote_size: i,
                maker_order_id: i as u128,
                base_size: i,
            },
            Some(&[i as u8; 32]),
            Some(&[9; 32]),
        )
        .unwrap();
    }
    assert_eq!(q.len(), 3);
    q.pop_n(1);
    q.push_back(
        FillEvent {
            tag: 0,
            taker_side: 1,
            _padding: [0; 6],
            quote_size: 3,
            maker_order_id: 3,
            base_size: 3,
        },
        Some(&[3; 32]),
        Some(&[9; 32]),
    )
    .unwrap();
    let mut it = q.iter();
    for i in 1..4u64 {
        assert_eq!(
            it.next().unwrap(),
            EventRef::Fill(FillEventRef {
                event: FillEvent {
                    tag: 0,
                    taker_side: 1,
                    _padding: [0; 6],
                    quote_size: i,
                    maker_order_id: i as u128,
                    base_size: i,
                },
                maker_callback_info: [i as u8; 32],
                taker_callback_info: [9; 32],
            })
        );
    }
    assert!(it.next().is_none());
    q.pop_n(10);
    assert!(q.is_empty());
}

#[test]
fn instruction_bytes() {
    for b in 0..6u8 {
        assert_eq!(AgnosticOrderbookInstruction::from_u8(b).unwrap().as_u8(), b);
    }
    assert_eq!(AgnosticOrderbookInstruction::from_u8(6), None);
    assert_eq!(
        AgnosticOrderbookInstruction::from_u8(1),
        Some(AgnosticOrderbookInstruction::NewOrder)
    );
}

#[test]
fn error_codes_follow_the_variants() {
    assert_eq!(AoError::AlreadyInitialized.code(), 0);
    assert_eq!(AoError::EventQueueFull.code(), 5);
    assert_eq!(AoError::NumericalOverflow.code(), 22);
    assert_eq!(AoError::OrderNotFound.message(), "The order could not be found.");
}

#[test]
fn account_checks() {
    let a = [1u8; 32];
    let mut b = [1u8; 32];
    assert_eq!(check_account_key(&a, &b, AoError::WrongBidsAccount), Ok(()));
    b[31] = 2;
    assert_eq!(
        check_account_key(&a, &b, AoError::WrongBidsAccount),
        Err(AoError::WrongBidsAccount)
    );
    assert_eq!(check_account_owner(&a, &a, AoError::WrongMarketOwner), Ok(()));
    assert_eq!(
        check_account_owner(&a, &a[..31], AoError::WrongMarketOwner),
        Err(AoError::WrongMarketOwner)
    );
    assert_eq!(check_unitialized(&[0, 5]), Ok(()));
    assert_eq!(check_unitialized(&[1]), Err(AoError::AlreadyInitialized));
}

#[test]
fn post_only_ask_crossing_the_best_bid_fails() {
    let (mut b, _, _) = book(10);
    let (mut q, _buf) = queue(100);
    b.new_order(order(Side::Bid, 10, 100, 1), &mut q, 1).unwrap();
    let mut p = order(Side::Ask, 9, 100, 2);
    p.post_only = true;
    p.match_limit = 0;
    assert!(matches!(b.new_order(p, &mut q, 1), Err(AoError::PostOnlyWouldCross)));
    assert_eq!(b.get_spread(), (Some(10 << 32), None));
}

#[test]
fn self_trade_abort_at_the_first_order_changes_nothing() {
    let (mut b, _, _) = book(10);
    let (mut q, _buf) = queue(100);
    b.new_order(order(Side::Ask, 10, 100, 1), &mut q, 1).unwrap();
    let mut p = order(Side::Bid, 10, 50, 1);
    p.self_trade_behavior = SelfTradeBehavior::AbortTransaction;
    assert!(matches!(b.new_order(p, &mut q, 1), Err(AoError::WouldSelfTrade)));
    assert_eq!(q.header.count, 0);
    assert_eq!(b.get_spread(), (None, Some(10 << 32)));
}

#[test]
fn removing_an_absent_key_from_a_one_order_slab() {
    let (mut b, _, _) = book(4);
    let (mut q, _buf) = queue(100);
    let first = b.new_order(order(Side::Ask, 10, 100, 1), &mut q, 1).unwrap().posted_order_id.unwrap();
    let second = b.new_order(order(Side::Ask, 11, 100, 2), &mut q, 1).unwrap().posted_order_id.unwrap();
    // The first order's leaf is freed but still holds its key.
    assert!(b.asks.remove_by_key(first).is_some());
    assert!(b.asks.remove_by_key(first).is_none());
    assert_eq!(b.asks.header.leaf_count, 1);
    assert!(b.asks.find_by_key(second).is_some());
    let r = cancel_order(&mut b, &cancel_order::Params { order_id: first });
    assert!(matches!(r, Err(AoError::OrderNotFound)));
}

#[test]
fn book_stays_uncrossed() {
    let (mut b, _, _) = book(10);
    let (mut q, _buf) = queue(100);
    b.new_order(order(Side::Ask, 10, 100, 1), &mut q, 1).unwrap();
    b.new_order(order(Side::Bid, 8, 100, 2), &mut q, 1).unwrap();
    // A bid above the best ask takes it and rests at its own price.
    b.new_order(order(Side::Bid, 12, 150, 3), &mut q, 1).unwrap();
    let (bid, ask) = b.get_spread();
    assert_eq!(bid, Some(12 << 32));
    assert_eq!(ask, None);
    b.new_order(order(Side::Ask, 11, 10, 4), &mut q, 1).unwrap();
    let (bid, ask) = b.get_spread();
    assert!(ask.is_none() || bid.unwrap() < ask.unwrap());
}

#[test]
fn a_freed_leaf_is_taken_again_first() {
    let size = TestSlab::compute_allocation_size(4);
    let (mut asks, mut bids) = (vec![0u8; size], vec![0u8; size]);
    TestSlab::initialize(&mut asks, &mut bids, [7; 32]).unwrap();
    let mut s = TestSlab::from_buffer(&asks, AccountTag::Asks).unwrap();
    let (h1, _) = s.insert_leaf(&LeafNode { key: 5, base_quantity: 1 }).unwrap();
    let (_h2, _) = s.insert_leaf(&LeafNode { key: 9, base_quantity: 1 }).unwrap();
    let bump = s.header.leaf_bump_index;
    s.remove_by_key(5).unwrap();
    let (h3, _) = s.insert_leaf(&LeafNode { key: 7, base_quantity: 1 }).unwrap();
    assert_eq!(h3, h1);
    assert_eq!(s.header.leaf_bump_index, bump);
    assert_eq!(s.header.leaf_free_list_len, 0);
}

#[test]
fn fills_add_up_to_the_summary_less_what_was_posted() {
    let (mut b, _, _) = book(10);
    let (mut q, _buf) = queue(100);
    b.new_order(order(Side::Ask, 10, 100, 1), &mut q, 1).unwrap();
    b.new_order(order(Side::Ask, 11, 100, 2), &mut q, 1).unwrap();
    let start = q.header.count;
    let s = b.new_order(order(Side::Bid, 11, 250, 3), &mut q, 1).unwrap();
    let (mut base, mut quote) = (0u64, 0u64);
    for i in start..q.header.count {
        if let Some(EventRef::Fill(f)) = q.peek_at(i) {
            base += f.event.base_size;
            quote += f.event.quote_size;
        }
    }
    assert_eq!(s.total_base_qty_posted, 50);
    assert_eq!(base, 200);
    assert_eq!(base, s.total_base_qty - s.total_base_qty_posted);
    assert_eq!(quote, 2100);
    assert_eq!(quote + 50 * 11, s.total_quote_qty);
}

#[test]
fn iteration_gives_what_peek_at_finds() {
    let (mut q, _buf) = queue(4);
    for i in 0..6u64 {
        let e = FillEvent {
            tag: 0,
            taker_side: 0,
            _padding: [0; 6],
            quote_size: i,
            maker_order_id: i as u128,
            base_size: i,
        };
        if q.full() {
            q.pop_n(1);
        }
        q.push_back(e, Some(&[i as u8; 32]), Some(&[0; 32])).unwrap();
    }
    let mut it = q.iter();
    let mut i = 0u64;
    while let Some(e) = it.next() {
        assert!(e == q.peek_at(i).unwrap());
        i += 1;
    }
    assert_eq!(i, q.len());
    assert!(q.peek_at(i).is_none());
}

#[test]
fn slab_check_accepts_fresh_and_valid_slabs_and_refuses_corrupted_ones() {
    let size = TestSlab::compute_allocation_size(4);
    let (mut asks, mut bids) = (vec![0u8; size], vec![0u8; size]);
    TestSlab::initialize(&mut asks, &mut bids, [7; 32]).unwrap();
    let mut s = TestSlab::from_buffer(&asks, AccountTag::Asks).unwrap();
    assert!(s.check_invariants());
    s.insert_leaf(&LeafNode { key: 5, base_quantity: 1 }).unwrap();
    s.insert_leaf(&LeafNode { key: 9, base_quantity: 1 }).unwrap();
    s.insert_leaf(&LeafNode { key: 7, base_quantity: 1 }).unwrap();
    assert!(s.check_invariants());
    s.remove_by_key(9).unwrap();
    assert!(s.check_invariants());
    // A wrong order count.
    s.header.leaf_count += 1;
    assert!(!s.check_invariants());
    s.header.leaf_count -= 1;
    assert!(s.check_invariants());
    // A leaf of the tree also on the free list.
    let free_len = s.header.leaf_free_list_len;
    let free_head = s.header.leaf_free_list_head;
    s.header.leaf_free_list_len += 1;
    s.header.leaf_free_list_head = s.find_min().unwrap();
    assert!(!s.check_invariants());
    s.header.leaf_free_list_len = free_len;
    s.header.leaf_free_list_head = free_head;
    // A child that does not lie deeper than its parent.
    let root = s.header.root_node;
    let i = (!root) as usize;
    let saved = s.inner_nodes[i];
    s.inner_nodes[i].children[1] = root;
    assert!(!s.check_invariants());
    s.inner_nodes[i] = saved;
    assert!(s.check_invariants());
}

#[test]
fn keys_that_differ_only_in_their_low_half_are_told_apart() {
    let size = TestSlab::compute_allocation_size(8);
    let (mut asks, mut bids) = (vec![0u8; size], vec![0u8; size]);
    TestSlab::initialize(&mut asks, &mut bids, [7; 32]).unwrap();
    let mut s = TestSlab::from_buffer(&asks, AccountTag::Asks).unwrap();
    let keys = [1u128, 2, 3, 1 << 63, (1 << 64) + 1, 1 << 127, u128::MAX];
    for k in keys {
        s.insert_leaf(&LeafNode { key: k, base_quantity: 1 }).unwrap();
        assert!(s.check_invariants());
    }
    for k in keys {
        let h = s.find_by_key(k).unwrap();
        assert_eq!(s.leaf_nodes[h as usize].key, k);
    }
    assert!(s.find_by_key(4).is_none());
    assert!(s.find_by_key(1 << 64).is_none());
    assert_eq!(s.leaf_nodes[s.find_min().unwrap() as usize].key, 1);
    assert_eq!(s.leaf_nodes[s.find_max().unwrap() as usize].key, u128::MAX);
}
