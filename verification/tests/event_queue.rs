use agnostic_orderbook::state::event_queue::{
    EventQueue, EventRef, EventTag, FillEvent, FillEventRef, OutEvent, OutEventRef,
};
use agnostic_orderbook::state::market_state::MarketState;
use agnostic_orderbook::error::AccountError;
use agnostic_orderbook::state::{AccountTag, Side};

type EventQueueTest = EventQueue<[u8; 32]>;

#[test]
fn test_event_queue_0() {
    let allocation_size = EventQueue::<[u8; 32]>::compute_allocation_size(100);
    let mut buffer = vec![0; allocation_size];

    assert!(EventQueueTest::from_buffer(&mut buffer, AccountTag::EventQueue).is_err());

    assert!(EventQueueTest::check_buffer_size(&[0; 10]).is_err());
    assert!(EventQueueTest::check_buffer_size(&[0; 1000]).is_err());

    let mut event_queue =
        EventQueueTest::from_buffer(&mut buffer, AccountTag::Uninitialized).unwrap();

    let mut seq_gen = 0..;
    let mut parity_gen = 0..;

    for _ in 0..100 {
        if parity_gen.next().unwrap() % 7 != 3 {
            event_queue
                .push_back(
                    FillEvent {
                        tag: EventTag::Fill as u8,
                        taker_side: Side::Ask as u8,
                        _padding: [0; 6],
                        quote_size: seq_gen.next().unwrap(),
                        maker_order_id: seq_gen.next().unwrap() as u128,
                        base_size: seq_gen.next().unwrap(),
                    },
                    Some(&[seq_gen.next().unwrap() as u8; 32]),
                    Some(&[seq_gen.next().unwrap() as u8; 32]),
                )
                .unwrap();
        } else {
            event_queue
                .push_back(
                    OutEvent {
                        tag: EventTag::Out as u8,
                        side: Side::Ask as u8,
                        _padding: [0; 13],
                        base_size: seq_gen.next().unwrap(),
                        delete: true as u8,
                        order_id: seq_gen.next().unwrap() as u128,
                    },
                    Some(&[seq_gen.next().unwrap() as u8; 32]),
                    None,
                )
                .unwrap();
        }
    }
    let extra_event = FillEvent {
        tag: EventTag::Fill as u8,
        taker_side: Side::Ask as u8,
        _padding: [0; 6],
        quote_size: seq_gen.next().unwrap(),
        maker_order_id: seq_gen.next().unwrap() as u128,
        base_size: seq_gen.next().unwrap(),
    };
    assert_eq!(
        extra_event,
        event_queue.push_back(extra_event, None, None).unwrap_err()
    );
    let mut number_of_events = 0;
    let mut seq_gen = 0..;
    let mut parity_gen = 0..;

    assert!(event_queue.peek_at(100).is_none());

    let mut iter = event_queue.iter();
    let mut i = 0;
    while let Some(e) = iter.next() {
        let is_fill = parity_gen.next().unwrap() % 7 != 3;
        match e {
            EventRef::Out(o) => {
                assert!(!is_fill);
                assert_eq!(
                    o,
                    OutEventRef {
                        event: OutEvent {
                            tag: EventTag::Out as u8,
                            side: Side::Ask as u8,
                            _padding: [0; 13],
                            base_size: seq_gen.next().unwrap(),
                            delete: true as u8,
                            order_id: seq_gen.next().unwrap() as u128,
                        },
                        callback_info: [seq_gen.next().unwrap() as u8; 32]
                    }
                );
            }
            EventRef::Fill(e) => {
                assert!(is_fill);
                assert_eq!(
                    e,
                    FillEventRef {
                        event: FillEvent {
                            tag: EventTag::Fill as u8,
                            taker_side: Side::Ask as u8,
                            _padding: [0; 6],
                            quote_size: seq_gen.next().unwrap(),
                            maker_order_id: seq_gen.next().unwrap() as u128,
                            base_size: seq_gen.next().unwrap(),
                        },
                        maker_callback_info: [seq_gen.next().unwrap() as u8; 32],
                        taker_callback_info: [seq_gen.next().unwrap() as u8; 32]
                    }
                );
                assert_eq!(EventRef::Fill(e), event_queue.peek_at(i as u64).unwrap());
            }
        }
        number_of_events = i + 1;
        i += 1;
    }
    assert_eq!(number_of_events, 100);
}

#[test]
fn market_cast() {
    let mut buffer = [0u8; MarketState::LEN + 8];
    let r = MarketState::from_buffer(&mut buffer, AccountTag::Market);
    assert!(r.is_err());
    assert_eq!(r.unwrap_err(), AccountError::InvalidAccountData)
}
