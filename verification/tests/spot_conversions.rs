use offgrid_primitives::spot::event::{EventQueue, SpotEvent};
use offgrid_primitives::spot::market::L1;
use offgrid_primitives::spot::matching_engine::MatchingEngine;
use offgrid_primitives::spot::orderbook::OrderBookError;
use offgrid_primitives::spot::orders::L3Error;
use offgrid_primitives::spot::prices::L2Error;

#[test]
fn l3_and_l2_errors_convert_into_order_book_errors() {
    assert_eq!(OrderBookError::from(L3Error::OrderDoesNotExist(7)), OrderBookError::L3(L3Error::OrderDoesNotExist(7)));
    assert_eq!(OrderBookError::from(L2Error::PriceIsZero), OrderBookError::L2(L2Error::PriceIsZero));
}

#[test]
fn event_queue_converts_to_and_from_vec() {
    let events = vec![SpotEvent::SpotPairAdded { cid: vec![1], pair_id: vec![2], timestamp: 3 }];
    let queue = EventQueue::from(events.clone());
    assert_eq!(queue.len(), 1);
    let back: Vec<SpotEvent> = queue.into();
    assert_eq!(back, events);
}

#[test]
fn defaults_equal_new() {
    assert_eq!(L1::default(), L1::new());
    assert_eq!(L1::default().limit_buy_slippage_limit, Some(10000));
    assert_eq!(MatchingEngine::default().pair_count(), 0);
}
