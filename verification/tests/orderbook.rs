use agnostic_orderbook::error::AoError;
use agnostic_orderbook::processor::new_order::Params;
use agnostic_orderbook::state::critbit::Slab;
use agnostic_orderbook::state::event_queue::{
    EventQueue, EventRef, EventTag, FillEvent, FillEventRef, OutEvent, OutEventRef,
};
use agnostic_orderbook::state::orderbook::{OrderBookState, OrderSummary};
use agnostic_orderbook::state::{AccountTag, SelfTradeBehavior, Side};
use solana_program::pubkey::Pubkey;

type SlabTest = Slab<[u8; 32]>;
type OrderBookStateTest = OrderBookState<[u8; 32]>;
type EventQueueTest = EventQueue<[u8; 32]>;

pub struct TestContext {
    asks_buffer: Vec<u8>,
    bids_buffer: Vec<u8>,
    event_queue_buffer: Vec<u8>,
}

impl TestContext {
    pub fn new(order_capacity: usize, event_capacity: usize) -> Self {
        let allocation_size = SlabTest::compute_allocation_size(order_capacity);
        let (mut asks_buffer, mut bids_buffer) =
            (vec![0; allocation_size], vec![0; allocation_size]);
        SlabTest::initialize(
            &mut asks_buffer,
            &mut bids_buffer,
            Pubkey::new_unique().to_bytes(),
        )
        .unwrap();
        Self {
            asks_buffer,
            bids_buffer,
            event_queue_buffer: vec![0; EventQueueTest::compute_allocation_size(event_capacity)],
        }
    }
    pub fn get(&mut self) -> (OrderBookStateTest, EventQueueTest) {
        (
            OrderBookStateTest::new_safe(&self.bids_buffer, &self.asks_buffer).unwrap(),
            EventQueueTest::from_buffer(&mut self.event_queue_buffer, AccountTag::Uninitialized)
                .unwrap(),
        )
    }
}

#[test]
fn test_ob_0() {
    let mut test_context = TestContext::new(1000, 1000);
    let (mut orderbook, mut event_queue) = test_context.get();
    let alice = [1; 32];
    let bob = [2; 32];
    orderbook
        .new_order(
            Params {
                max_base_qty: 10,
                max_quote_qty: 10,
                limit_price: 10 << 32,
                side: Side::Ask,
                match_limit: 0,
                callback_info: [0; 32],
                post_only: false,
                post_allowed: false,
                self_trade_behavior: SelfTradeBehavior::DecrementTake,
            },
            &mut event_queue,
            10,
        )
        .unwrap();
    assert!(event_queue.header.count == 0);

    // Alice posts a bid order for 1 BTC at 10 USD/BTC

    let OrderSummary {
        posted_order_id,
        total_base_qty,
        total_quote_qty,
        total_base_qty_posted,
    } = orderbook
        .new_order(
            Params {
                max_base_qty: 2_000_000,
                max_quote_qty: 10_000_000,
                limit_price: 10 << 32,
                side: Side::Bid,
                match_limit: 10,
                callback_info: alice,
                post_only: false,
                post_allowed: true,
                self_trade_behavior: SelfTradeBehavior::DecrementTake,
            },
            &mut event_queue,
            10,
        )
        .unwrap();
    assert!(posted_order_id.is_some());
    assert_eq!(total_base_qty, 1_000_000);
    assert_eq!(total_quote_qty, 10_000_000);
    assert_eq!(total_base_qty_posted, 1_000_000);

    // Bob posts an ask order for 3 BTC at 20 USD/BTC
    let OrderSummary {
        posted_order_id,
        total_base_qty,
        total_quote_qty,
        total_base_qty_posted,
    } = orderbook
        .new_order(
            Params {
                max_base_qty: 3_000_000,
                max_quote_qty: 1_000_000_000,
                limit_price: 20 << 32,
                side: Side::Ask,
                match_limit: 10,
                callback_info: bob,
                post_only: false,
                post_allowed: true,
                self_trade_behavior: SelfTradeBehavior::DecrementTake,
            },
            &mut event_queue,
            10,
        )
        .unwrap();
    assert!(posted_order_id.is_some());
    assert_eq!(total_base_qty, 3_000_000);
    assert_eq!(total_quote_qty, 60_000_000);
    assert_eq!(total_base_qty_posted, 3_000_000);

    // Bob posts a bid order for 0.5 BTC at 15 USD/BTC
    let OrderSummary {
        posted_order_id: bob_order_id_0,
        total_base_qty,
        total_quote_qty,
        total_base_qty_posted,
    } = orderbook
        .new_order(
            Params {
                max_base_qty: 500_000,
                max_quote_qty: 1_000_000_000,
                limit_price: 15 << 32,
                side: Side::Bid,
                match_limit: 10,
                callback_info: bob,
                post_only: false,
                post_allowed: true,
                self_trade_behavior: SelfTradeBehavior::DecrementTake,
            },
            &mut event_queue,
            10,
        )
        .unwrap();
    assert!(posted_order_id.is_some());
    assert_eq!(total_base_qty, 500_000);
    assert_eq!(total_quote_qty, 7_500_000);
    assert_eq!(total_base_qty_posted, 500_000);
    assert_eq!(orderbook.get_spread(), (Some(15 << 32), Some(20 << 32)));

    // Alice posts an ask order for 0.75 BTC at 14 USD/BTC, and is partially matched
    let OrderSummary {
        posted_order_id: alice_order_id_0,
        total_base_qty,
        total_quote_qty,
        total_base_qty_posted,
    } = orderbook
        .new_order(
            Params {
                max_base_qty: 750_000,
                max_quote_qty: 1_000_000_000,
                limit_price: 14 << 32,
                side: Side::Ask,
                match_limit: 10,
                callback_info: alice,
                post_only: false,
                post_allowed: true,
                self_trade_behavior: SelfTradeBehavior::DecrementTake,
            },
            &mut event_queue,
            10,
        )
        .unwrap();
    assert!(posted_order_id.is_some());
    assert_eq!(total_base_qty, 750_000);
    assert_eq!(total_quote_qty, 500_000 * 15 + 250_000 * 14);
    assert_eq!(total_base_qty_posted, 250_000);
    assert_eq!(orderbook.get_spread(), (Some(10 << 32), Some(14 << 32)));

    assert_eq!(event_queue.header.count, 2);
    let mut event_queue_iter = event_queue.iter();
    assert_eq!(
        event_queue_iter.next().unwrap(),
        EventRef::Fill(FillEventRef {
            event: FillEvent {
                tag: EventTag::Fill as u8,
                taker_side: Side::Ask as u8,
                _padding: [0; 6],
                quote_size: 500_000 * 15,
                maker_order_id: bob_order_id_0.unwrap(),
                base_size: 500_000
            },
            maker_callback_info: bob,
            taker_callback_info: alice
        })
    );

    assert_eq!(
        event_queue_iter.next().unwrap(),
        EventRef::Out(OutEventRef {
            event: OutEvent {
                tag: EventTag::Out as u8,
                side: Side::Bid as u8,
                _padding: [0; 13],
                base_size: 0,
                delete: true as u8,
                order_id: bob_order_id_0.unwrap()
            },
            callback_info: bob
        })
    );
    println!("Event queue head: {}", event_queue.header.head);
    event_queue.pop_n(2);
    println!("Event queue head: {}", event_queue.header.head);

    assert_eq!(event_queue.header.count, 0);

    // Alice makes a bid for 0.05 BTC at 15 USD/BTC, and attempts to self-trade
    let r = orderbook
        .new_order(
            Params {
                max_base_qty: 50_000,
                max_quote_qty: 1_000_000_000,
                limit_price: 15 << 32,
                side: Side::Bid,
                match_limit: 10,
                callback_info: alice,
                post_only: false,
                post_allowed: true,
                self_trade_behavior: SelfTradeBehavior::AbortTransaction,
            },
            &mut event_queue,
            10,
        )
        .unwrap_err();
    assert!(matches!(r, AoError::WouldSelfTrade));
    println!("Event queue head: {}", event_queue.header.head);

    assert_eq!(event_queue.header.count, 0);

    // Alice changes her self trading behavior

    let OrderSummary {
        posted_order_id,
        total_base_qty,
        total_quote_qty,
        total_base_qty_posted,
    } = orderbook
        .new_order(
            Params {
                max_base_qty: 50_000,
                max_quote_qty: 1_000_000_000,
                limit_price: 15 << 32,
                side: Side::Bid,
                match_limit: 10,
                callback_info: alice,
                post_only: false,
                post_allowed: true,
                self_trade_behavior: SelfTradeBehavior::CancelProvide,
            },
            &mut event_queue,
            10,
        )
        .unwrap();
    assert!(posted_order_id.is_some());
    assert_eq!(total_base_qty, 50_000);
    assert_eq!(total_quote_qty, 50_000 * 15);
    assert_eq!(total_base_qty_posted, 50_000);
    assert_eq!(event_queue.header.count, 1);
    println!("Event queue head: {}", event_queue.header.head);

    assert_eq!(
        event_queue.iter().next().unwrap(),
        EventRef::Out(OutEventRef {
            event: OutEvent {
                tag: EventTag::Out as u8,
                side: Side::Ask as u8,
                _padding: [0; 13],
                base_size: 250_000,
                delete: true as u8,
                order_id: alice_order_id_0.unwrap()
            },
            callback_info: alice
        })
    );

    event_queue.pop_n(1);

    orderbook
        .new_order(
            Params {
                max_base_qty: 1,
                max_quote_qty: 10,
                limit_price: 1,
                side: Side::Ask,
                match_limit: 10,
                callback_info: [0; 32],
                post_only: false,
                post_allowed: false,
                self_trade_behavior: SelfTradeBehavior::DecrementTake,
            },
            &mut event_queue,
            10,
        )
        .unwrap();
    assert!(event_queue.header.count == 0);

    println!("Spread : {:?}", orderbook.get_spread());
}

#[test]
fn test_ob_booting_ask() {
    let mut test_context = TestContext::new(2, 1000);
    let (mut orderbook, mut event_queue) = test_context.get();
    let alice = [1; 32];

    // Alice posts an ask order for 3 BTC at 20 USD/BTC
    let OrderSummary {
        posted_order_id,
        total_base_qty,
        total_quote_qty,
        total_base_qty_posted,
    } = orderbook
        .new_order(
            Params {
                max_base_qty: 3_000_000,
                max_quote_qty: 1_000_000_000,
                limit_price: 20 << 32,
                side: Side::Ask,
                match_limit: 10,
                callback_info: alice,
                post_only: false,
                post_allowed: true,
                self_trade_behavior: SelfTradeBehavior::DecrementTake,
            },
            &mut event_queue,
            10,
        )
        .unwrap();
    assert!(posted_order_id.is_some());
    assert_eq!(total_base_qty, 3_000_000);
    assert_eq!(total_quote_qty, 60_000_000);
    assert_eq!(total_base_qty_posted, 3_000_000);
    assert_eq!(event_queue.header.count, 0);

    // Alice posts an ask order for 6 BTC at 40 USD/BTC
    let OrderSummary {
        posted_order_id: order_id_to_be_booted,
        total_base_qty,
        total_quote_qty,
        total_base_qty_posted,
    } = orderbook
        .new_order(
            Params {
                max_base_qty: 6_000_000,
                max_quote_qty: 1_000_000_000,
                limit_price: 40 << 32,
                side: Side::Ask,
                match_limit: 10,
                callback_info: alice,
                post_only: false,
                post_allowed: true,
                self_trade_behavior: SelfTradeBehavior::DecrementTake,
            },
            &mut event_queue,
            10,
        )
        .unwrap();
    assert!(posted_order_id.is_some());
    assert_eq!(total_base_qty, 6_000_000);
    assert_eq!(total_quote_qty, 240_000_000);
    assert_eq!(total_base_qty_posted, 6_000_000);
    assert_eq!(event_queue.header.count, 0);

    // Alice posts an ask order for 1 BTC at 10 USD/BTC
    let OrderSummary {
        posted_order_id,
        total_base_qty,
        total_quote_qty,
        total_base_qty_posted,
    } = orderbook
        .new_order(
            Params {
                max_base_qty: 1_000_000,
                max_quote_qty: 1_000_000_000,
                limit_price: 10 << 32,
                side: Side::Ask,
                match_limit: 10,
                callback_info: alice,
                post_only: false,
                post_allowed: true,
                self_trade_behavior: SelfTradeBehavior::DecrementTake,
            },
            &mut event_queue,
            10,
        )
        .unwrap();
    assert!(posted_order_id.is_some());
    assert_eq!(total_base_qty, 1_000_000);
    assert_eq!(total_quote_qty, 10_000_000);
    assert_eq!(total_base_qty_posted, 1_000_000);
    assert_eq!(event_queue.header.count, 1);

    assert_eq!(
        event_queue.iter().next().unwrap(),
        EventRef::Out(OutEventRef {
            event: OutEvent {
                tag: EventTag::Out as u8,
                side: Side::Ask as u8,
                _padding: [0; 13],
                base_size: 6_000_000,
                delete: true as u8,
                order_id: order_id_to_be_booted.unwrap()
            },
            callback_info: alice
        })
    );

    event_queue.pop_n(1);

    // Alice posts an ask order for 1 BTC at 50 USD/BTC, but is not added to the ob
    let OrderSummary {
        posted_order_id,
        total_base_qty,
        total_quote_qty,
        total_base_qty_posted,
    } = orderbook
        .new_order(
            Params {
                max_base_qty: 1_000_000,
                max_quote_qty: 1_000_000_000,
                limit_price: 50 << 32,
                side: Side::Ask,
                match_limit: 10,
                callback_info: alice,
                post_only: false,
                post_allowed: true,
                self_trade_behavior: SelfTradeBehavior::DecrementTake,
            },
            &mut event_queue,
            10,
        )
        .unwrap();
    assert!(posted_order_id.is_none());
    assert_eq!(total_base_qty, 0);
    assert_eq!(total_quote_qty, 0);
    assert_eq!(total_base_qty_posted, 0);
    assert_eq!(event_queue.header.count, 0);
}

#[test]
fn test_ob_small_prices() {
    let mut test_context = TestContext::new(2, 1000);
    let (mut orderbook, mut event_queue) = test_context.get();
    let alice = [1; 32];

    // Alice posts a bid order for 1 BTC at 0.25 USD/BTC

    let OrderSummary {
        posted_order_id,
        total_base_qty,
        total_quote_qty,
        total_base_qty_posted,
    } = orderbook
        .new_order(
            Params {
                max_base_qty: 2_000_000,
                max_quote_qty: 10_000_000,
                limit_price: 1 << 30,
                side: Side::Bid,
                match_limit: 10,
                callback_info: alice,
                post_only: false,
                post_allowed: true,
                self_trade_behavior: SelfTradeBehavior::DecrementTake,
            },
            &mut event_queue,
            10,
        )
        .unwrap();
    assert!(posted_order_id.is_some());
    assert_eq!(total_base_qty, 2_000_000);
    assert_eq!(total_quote_qty, 500_000);
    assert_eq!(total_base_qty_posted, 2_000_000);
    assert!(event_queue.header.count == 0);

    // Best bid is 0.25 USD / BTC

    orderbook
        .new_order(
            Params {
                max_base_qty: 3,
                max_quote_qty: 1_000_000,
                limit_price: 1 << 28,
                side: Side::Ask,
                match_limit: 10,
                callback_info: [0; 32],
                post_only: false,
                post_allowed: false,
                self_trade_behavior: SelfTradeBehavior::DecrementTake,
            },
            &mut event_queue,
            10,
        )
        .unwrap();
    assert!(event_queue.header.count == 0);
}

#[test]
fn test_ob_booting_bid() {
    let mut test_context = TestContext::new(2, 1000);
    let (mut orderbook, mut event_queue) = test_context.get();
    let alice = [1; 32];

    // Alice posts an ask order for 3 BTC at 20 USD/BTC
    let OrderSummary {
        posted_order_id,
        total_base_qty,
        total_quote_qty,
        total_base_qty_posted,
    } = orderbook
        .new_order(
            Params {
                max_base_qty: 3_000_000,
                max_quote_qty: 1_000_000_000,
                limit_price: 20 << 32,
                side: Side::Bid,
                match_limit: 10,
                callback_info: alice,
                post_only: false,
                post_allowed: true,
                self_trade_behavior: SelfTradeBehavior::DecrementTake,
            },
            &mut event_queue,
            10,
        )
        .unwrap();
    assert!(posted_order_id.is_some());
    assert_eq!(total_base_qty, 3_000_000);
    assert_eq!(total_quote_qty, 60_000_000);
    assert_eq!(total_base_qty_posted, 3_000_000);
    assert_eq!(event_queue.header.count, 0);

    // Alice posts a bid order for 6 BTC at 10 USD/BTC
    let OrderSummary {
        posted_order_id: order_id_to_be_booted,
        total_base_qty,
        total_quote_qty,
        total_base_qty_posted,
    } = orderbook
        .new_order(
            Params {
                max_base_qty: 6_000_000,
                max_quote_qty: 1_000_000_000,
                limit_price: 10 << 32,
                side: Side::Bid,
                match_limit: 10,
                callback_info: alice,
                post_only: false,
                post_allowed: true,
                self_trade_behavior: SelfTradeBehavior::DecrementTake,
            },
            &mut event_queue,
            10,
        )
        .unwrap();
    assert!(posted_order_id.is_some());
    assert_eq!(total_base_qty, 6_000_000);
    assert_eq!(total_quote_qty, 60_000_000);
    assert_eq!(total_base_qty_posted, 6_000_000);
    assert_eq!(event_queue.header.count, 0);

    // Alice posts a bid order for 1 BTC at 40 USD/BTC
    let OrderSummary {
        posted_order_id,
        total_base_qty,
        total_quote_qty,
        total_base_qty_posted,
    } = orderbook
        .new_order(
            Params {
                max_base_qty: 1_000_000,
                max_quote_qty: 1_000_000_000,
                limit_price: 40 << 32,
                side: Side::Bid,
                match_limit: 10,
                callback_info: alice,
                post_only: false,
                post_allowed: true,
                self_trade_behavior: SelfTradeBehavior::DecrementTake,
            },
            &mut event_queue,
            10,
        )
        .unwrap();
    assert!(posted_order_id.is_some());
    assert_eq!(total_base_qty, 1_000_000);
    assert_eq!(total_quote_qty, 40_000_000);
    assert_eq!(total_base_qty_posted, 1_000_000);
    assert_eq!(event_queue.header.count, 1);

    assert_eq!(
        event_queue.iter().next().unwrap(),
        EventRef::Out(OutEventRef {
            event: OutEvent {
                tag: EventTag::Out as u8,
                side: Side::Bid as u8,
                _padding: [0; 13],
                base_size: 6_000_000,
                delete: true as u8,
                order_id: order_id_to_be_booted.unwrap()
            },
            callback_info: alice
        })
    );

    event_queue.pop_n(1);

    // Alice posts an ask order for 1 BTC at 50 USD/BTC, but is not added to the ob
    let OrderSummary {
        posted_order_id,
        total_base_qty,
        total_quote_qty,
        total_base_qty_posted,
    } = orderbook
        .new_order(
            Params {
                max_base_qty: 1_000_000,
                max_quote_qty: 1_000_000_000,
                limit_price: 5 << 32,
                side: Side::Bid,
                match_limit: 10,
                callback_info: alice,
                post_only: false,
                post_allowed: true,
                self_trade_behavior: SelfTradeBehavior::DecrementTake,
            },
            &mut event_queue,
            10,
        )
        .unwrap();
    assert!(posted_order_id.is_none());
    assert_eq!(total_base_qty, 0);
    assert_eq!(total_quote_qty, 0);
    assert_eq!(total_base_qty_posted, 0);
    assert_eq!(event_queue.header.count, 0);
}
