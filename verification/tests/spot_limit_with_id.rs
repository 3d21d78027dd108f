use offgrid_primitives::spot::event::EventQueue;
use offgrid_primitives::spot::market::L1;
use offgrid_primitives::spot::orderbook::OrderBookError;
use offgrid_primitives::spot::orders::L3Error;
use offgrid_primitives::spot::time_in_force::TimeInForce;
use offgrid_primitives::spot::Pair;

const SCALE_8: u64 = 1_0000_0000;

fn pair_with_ask() -> (Pair, EventQueue) {
    let mut events = EventQueue::new();
    let mut pair = Pair::new();
    pair.pair_id = vec![1];
    pair.base_asset_id = vec![2];
    pair.quote_asset_id = vec![3];
    pair.orderbook
        .place_order_with_id(7, vec![1], vec![1], vec![2], vec![3], vec![10], false, 90 * SCALE_8, SCALE_8, 0, 123,
            i64::MAX, 5, &mut events)
        .expect("place ask");
    (pair, events)
}

#[test]
fn limit_with_id_answers_its_id_and_moves_lmp() {
    let (mut pair, mut events) = pair_with_ask();
    let r = pair.limit_with_id(true, 8, vec![2], None, vec![20], 100 * SCALE_8, 100 * SCALE_8, 0, 124, i64::MAX, 5, 10,
        TimeInForce::GoodTillCanceled, &mut events);
    assert_eq!(r, Ok(8));
    assert_eq!(pair.orderbook.lmp(), Some(90 * SCALE_8));
}

#[test]
fn limit_with_id_refuses_a_taken_id() {
    let (mut pair, mut events) = pair_with_ask();
    let before = pair.clone();
    let r = pair.limit_with_id(true, 7, vec![2], None, vec![20], 100 * SCALE_8, 100 * SCALE_8, 0, 124, i64::MAX, 5, 10,
        TimeInForce::GoodTillCanceled, &mut events);
    assert_eq!(r, Err(OrderBookError::L3(L3Error::DuplicateOrderId(7))));
    assert_eq!(pair, before);
}

#[test]
fn market_sell_price_on_an_empty_book_is_one() {
    let l1 = L1::new();
    assert_eq!(l1.det_market_sell_make_price(0, 0, 100), (1, 0));
}

#[test]
fn limit_with_id_refuses_an_unfilled_fill_or_kill() {
    let (mut pair, mut events) = pair_with_ask();
    // another bid at the same price keeps that level listed when the rest is cancelled
    pair.orderbook
        .place_order_with_id(6, vec![1], vec![1], vec![2], vec![3], vec![11], true, 100 * SCALE_8, SCALE_8, 0, 123,
            i64::MAX, 5, &mut events)
        .expect("place bid");
    let r = pair.limit_with_id(true, 8, vec![2], None, vec![20], 100 * SCALE_8, 100 * SCALE_8, 0, 124, i64::MAX, 5, 10,
        TimeInForce::FillOrKill, &mut events);
    assert_eq!(r, Err(OrderBookError::OrderNotFullyFilled));
    assert_eq!(pair.orderbook.lmp(), Some(90 * SCALE_8));
    // what could not be filled does not rest in the book
    assert!(pair.orderbook.l3.get_order(8).is_err());
}

#[test]
fn limit_with_id_accepts_a_filled_fill_or_kill() {
    let (mut pair, mut events) = pair_with_ask();
    let r = pair.limit_with_id(true, 8, vec![2], None, vec![20], 100 * SCALE_8, SCALE_8, 0, 124, i64::MAX, 5, 10,
        TimeInForce::FillOrKill, &mut events);
    assert_eq!(r, Ok(8));
    assert!(pair.orderbook.l3.get_order(7).is_err());
    assert_eq!(pair.orderbook.lmp(), Some(90 * SCALE_8));
}

#[test]
fn limit_with_id_reports_the_failed_check_first() {
    let (mut pair, mut events) = pair_with_ask();
    let before = pair.clone();
    let r = pair.limit_with_id(true, 8, vec![2], None, vec![20], 0, 100 * SCALE_8, 0, 124, i64::MAX, 5, 10,
        TimeInForce::GoodTillCanceled, &mut events);
    assert_eq!(r, Err(OrderBookError::L3(L3Error::PriceIsZero)));
    assert_eq!(pair, before);
    let r = pair.limit_with_id(true, 8, vec![2], None, vec![20], 100 * SCALE_8, SCALE_8, 2 * SCALE_8, 124, i64::MAX, 5,
        10, TimeInForce::GoodTillCanceled, &mut events);
    assert_eq!(r, Err(OrderBookError::IcebergQuantityIsBiggerThanWholeAmount));
}
