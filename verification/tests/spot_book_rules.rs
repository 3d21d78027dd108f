use offgrid_primitives::spot::event::{self, EventQueue, SpotEvent};
use offgrid_primitives::spot::market::L1;
use offgrid_primitives::spot::matching_engine::MatchingEngine;
use offgrid_primitives::spot::orderbook::{OrderBook, OrderBookError};
use offgrid_primitives::spot::orders::{L3Error, Order};
use offgrid_primitives::spot::prices::{L2, L2Error};
use offgrid_primitives::spot::time_in_force::TimeInForce;
use offgrid_primitives::spot::Pair;

const S: u64 = 1_0000_0000;

fn order(is_bid: bool, price: u64, cqty: u64) -> Order {
    Order::new(vec![1], 7, vec![2], is_bid, price, cqty, 0, cqty, cqty, 0, i64::MAX, 0)
}

#[test]
fn get_required_for_bid_and_ask() {
    let ob = OrderBook::new();
    // bid: amount * price / 1e8
    assert_eq!(ob.get_required(order(true, 1, 1), 200 * S, 3 * S), Ok(600 * S));
    // ask: amount * 1e8 / price
    assert_eq!(ob.get_required(order(false, 1, 1), 4 * S, 10 * S), Ok(250_000_000));
    // saturating product
    assert_eq!(ob.get_required(order(true, 1, 1), u64::MAX, u64::MAX), Ok(u64::MAX / S));
}

#[test]
fn calculate_fees_by_side() {
    let ob = OrderBook::new();
    // bid taker: maker pays on base, taker on quote
    assert_eq!(ob._calculate_fees(true, 10_000, 20_000, 25, 10), (25, 20));
    // ask taker: taker pays on base, maker on quote
    assert_eq!(ob._calculate_fees(false, 10_000, 20_000, 25, 10), (10, 50));
}

#[test]
fn matching_amount_takes_whole_maker_or_whole_taker() {
    let ob = OrderBook::new();
    // bid taker with 500 quote at 100 converts to 5 base, more than the maker's 3
    let taker = order(true, 100 * S, 500 * S);
    let maker = order(false, 100 * S, 3 * S);
    assert_eq!(ob._get_matching_amount(&taker, &maker), Ok((3_000_000, false, true)));
    // ask taker with 2 base converts to 200 quote, less than the maker's 500
    let taker = order(false, 100 * S, 2 * S);
    let maker = order(true, 100 * S, 500 * S);
    assert_eq!(ob._get_matching_amount(&taker, &maker), Ok((2_000_000, true, false)));
}

#[test]
fn place_rejects_iceberg_above_amount_and_zero_price() {
    let mut ob = OrderBook::new();
    let mut events = EventQueue::new();
    let r = ob.place_bid(vec![1], vec![0], vec![0], vec![0], vec![2], 100, 10, 11, 0, i64::MAX, 0, &mut events);
    assert_eq!(r, Err(OrderBookError::IcebergQuantityIsBiggerThanWholeAmount));
    let r = ob.place_ask(vec![1], vec![0], vec![0], vec![0], vec![2], 0, 10, 1, 0, i64::MAX, 0, &mut events);
    assert_eq!(r, Err(OrderBookError::L3(L3Error::PriceIsZero)));
    assert!(events.is_empty());
    assert_eq!(ob, OrderBook::new());
}

#[test]
fn place_with_taken_id_is_refused() {
    let mut ob = OrderBook::new();
    let mut events = EventQueue::new();
    let o = ob.place_order_with_id(42, vec![1], vec![0], vec![0], vec![0], vec![2], true, 100, 10, 0, 0, i64::MAX, 0, &mut events).unwrap();
    assert_eq!(o.id, 42);
    let before = ob.clone();
    let r = ob.place_order_with_id(42, vec![1], vec![0], vec![0], vec![0], vec![2], true, 100, 10, 0, 0, i64::MAX, 0, &mut events);
    assert_eq!(r, Err(OrderBookError::L3(L3Error::DuplicateOrderId(42))));
    assert_eq!(ob, before);
}

#[test]
fn placed_orders_get_distinct_ids_and_report_their_bytes() {
    let mut ob = OrderBook::new();
    let mut events = EventQueue::new();
    let a = ob.place_bid(vec![1], vec![0], vec![0], vec![0], vec![2], 100, 10, 0, 0, i64::MAX, 0, &mut events).unwrap();
    let b = ob.place_bid(vec![1], vec![0], vec![0], vec![0], vec![2], 100, 10, 0, 0, i64::MAX, 0, &mut events).unwrap();
    assert_ne!(a.id, b.id);
    match &events.as_vec()[0] {
        SpotEvent::SpotOrderPlaced { order_id, .. } => {
            assert_eq!(order_id, &ulid::Ulid(a.id).to_bytes().to_vec());
            assert_eq!(order_id.len(), 16);
            assert_ne!(order_id, &a.id.to_le_bytes().to_vec());
        }
        e => panic!("unexpected event {:?}", e),
    }
    // the second placement at a listed price reports the new level quantities
    assert!(matches!(&events.as_vec()[2], SpotEvent::SpotOrderBlockChanged { price: 100, pqty: 20, cqty: 20, .. }));
}

#[test]
fn cancel_rejects_unknown_order_and_other_owner() {
    let mut ob = OrderBook::new();
    let mut events = EventQueue::new();
    assert_eq!(ob.cancel_order(vec![1], vec![0], true, 5, vec![2], &mut events), Err(OrderBookError::L3(L3Error::OrderDoesNotExist(5))));
    let o = ob.place_bid(vec![1], vec![0], vec![0], vec![0], vec![2], 100, 10, 0, 0, i64::MAX, 0, &mut events).unwrap();
    assert_eq!(ob.cancel_order(vec![1], vec![0], true, o.id, vec![3], &mut events), Err(OrderBookError::OrderNotOwnedBySender));
    assert!(ob.l3.get_order(o.id).is_ok());
}

#[test]
fn cancel_undoes_place_in_level_three() {
    let mut ob = OrderBook::new();
    let mut events = EventQueue::new();
    let keep = ob.place_bid(vec![1], vec![0], vec![0], vec![0], vec![2], 100, 10, 0, 0, i64::MAX, 0, &mut events).unwrap();
    let l3_before = ob.l3.clone();
    let o = ob.place_bid(vec![1], vec![0], vec![0], vec![0], vec![2], 100, 30, 10, 0, i64::MAX, 0, &mut events).unwrap();
    let r = ob.cancel_order(vec![9], vec![0], true, o.id, vec![2], &mut events);
    assert_eq!(r, Ok(()));
    assert_eq!(ob.l3.orders, l3_before.orders);
    assert_eq!(ob.l3.price_head, l3_before.price_head);
    assert_eq!(ob.l3.price_tail, l3_before.price_tail);
    assert_eq!(ob.l3.head(100), Some(keep.id));
    assert_eq!(ob.l2.public_bid_level(100), Some(10));
    assert!(events.as_vec().iter().any(|e| matches!(e, SpotEvent::SpotOrderCancelled { cid, pqty: 20, cqty: 30, .. } if cid == &vec![9])));
}

#[test]
fn cancel_of_last_order_at_a_price_reports_the_missing_level() {
    let mut ob = OrderBook::new();
    let mut events = EventQueue::new();
    let o = ob.place_bid(vec![1], vec![0], vec![0], vec![0], vec![2], 100, 10, 0, 0, i64::MAX, 0, &mut events).unwrap();
    let r = ob.cancel_order(vec![1], vec![0], true, o.id, vec![2], &mut events);
    assert_eq!(r, Err(OrderBookError::L2(L2Error::PriceMissing { price: 100, is_bid: true, is_placed: false })));
    assert!(ob.l3.get_order(o.id).is_err());
    assert_eq!(ob.l2.bid_head(), None);
}

#[test]
fn set_iceberg_quantity_errors() {
    let mut ob = OrderBook::new();
    let mut events = EventQueue::new();
    assert_eq!(ob.set_iceberg_quantity(vec![1], vec![0], true, 5, 1, &mut events), Err(OrderBookError::L3(L3Error::OrderDoesNotExist(5))));
    let o = ob.place_bid(vec![1], vec![0], vec![0], vec![0], vec![2], 100, 10, 0, 0, i64::MAX, 0, &mut events).unwrap();
    assert_eq!(ob.set_iceberg_quantity(vec![1], vec![0], true, o.id, 11, &mut events),
        Err(OrderBookError::L3(L3Error::IcebergQuantityIsBiggerThanWholeAmount)));
    // the iceberg quantity is stored before the check
    assert_eq!(ob.l3.get_order(o.id).unwrap().iqty, 11);
}

#[test]
fn expire_order_errors_and_effect() {
    let mut ob = OrderBook::new();
    let mut events = EventQueue::new();
    assert_eq!(ob._expire_order(9, true, vec![0], 5, &mut events), Err(OrderBookError::L3(L3Error::OrderDoesNotExist(9))));
    let o = ob.place_ask(vec![1], vec![0], vec![0], vec![0], vec![2], 100, 10, 4, 0, 3, 0, &mut events).unwrap();
    assert_eq!(ob._expire_order(o.id, false, vec![0], 5, &mut events), Ok(()));
    assert!(ob.l3.get_order(o.id).is_err());
    assert_eq!(ob.l2.ask_head(), None);
    assert!(matches!(events.as_vec().last().unwrap(), SpotEvent::SpotOrderExpired { timestamp: 5, pqty: 6, cqty: 10, .. }));
}

#[test]
fn expire_orders_hands_back_every_expired_order() {
    let mut ob = OrderBook::new();
    let mut events = EventQueue::new();
    let a = ob.place_bid(vec![1], vec![0], vec![0], vec![0], vec![2], 100, 10, 0, 0, 3, 0, &mut events).unwrap();
    let b = ob.place_bid(vec![1], vec![0], vec![0], vec![0], vec![3], 90, 20, 0, 0, i64::MAX, 0, &mut events).unwrap();
    let _ = event::drain_events(&mut events);
    assert_eq!(ob.expire_orders(true, vec![0], vec![4], vec![5], vec![6], 10, &mut events), Ok(()));
    assert!(ob.l3.get_order(a.id).is_err());
    assert!(ob.l3.get_order(b.id).is_ok());
    assert_eq!(ob.l2.collect_bid_prices(), vec![90]);
    let v = events.as_vec();
    assert!(matches!(&v[0], SpotEvent::SpotOrderExpired { timestamp: 10, .. }));
    assert!(matches!(&v[1], SpotEvent::Transfer { from, to, asset, amnt: 10, timestamp: 10, .. }
        if from == &vec![6] && to == &vec![2] && asset == &vec![5]));
    assert!(matches!(&v[2], SpotEvent::SpotOrderBlockChanged { price: 100, pqty: 0, cqty: 0, .. }));
}

#[test]
fn execute_with_expired_maker_expires_it() {
    let mut ob = OrderBook::new();
    let mut events = EventQueue::new();
    let maker = ob.place_ask(vec![1], vec![0], vec![0], vec![0], vec![2], 100 * S, 5 * S, 0, 0, 1, 0, &mut events).unwrap();
    let taker = ob.place_bid(vec![3], vec![0], vec![0], vec![0], vec![4], 100 * S, 500 * S, 0, 0, i64::MAX, 0, &mut events).unwrap();
    let r = ob.execute(taker, maker.clone(), vec![0], vec![0], vec![0], 2, &mut events);
    assert_eq!(r, Err(OrderBookError::OrderExpired));
    assert!(ob.l3.get_order(maker.id).is_err());
}

#[test]
fn execute_fills_both_sides() {
    let mut ob = OrderBook::new();
    let mut events = EventQueue::new();
    let maker = ob.place_bid(vec![1], vec![0], vec![0], vec![0], vec![2], 100 * S, 500 * S, 0, 0, i64::MAX, 10, &mut events).unwrap();
    let taker = ob.place_ask(vec![3], vec![0], vec![0], vec![0], vec![4], 100 * S, 2 * S, 0, 0, i64::MAX, 20, &mut events).unwrap();
    let _ = event::drain_events(&mut events);
    assert_eq!(ob.execute(taker.clone(), maker.clone(), vec![7], vec![8], vec![9], 3, &mut events), Ok(()));
    // the taker is used up; the maker gives 2e8 of its 500e8
    assert!(ob.l3.get_order(taker.id).is_err());
    assert_eq!(ob.l3.get_order(maker.id).unwrap().cqty, 49_800_000_000);
    let v = events.as_vec();
    assert!(matches!(&v[0], SpotEvent::SpotOrderFullyFilled { is_taker_event: true, base_volume: 2_000_000,
        quote_volume: 200_000_000, base_fee: 4_000, quote_fee: 200_000, timestamp: 3, .. }));
    assert!(matches!(&v[1], SpotEvent::SpotOrderPartiallyFilled { is_taker_event: false, cqty: 49_800_000_000, .. }));
    assert_eq!(ob.l2.current_bid_level(100 * S), Some(49_800_000_000));
}

#[test]
fn pop_front_takes_oldest_at_best_price() {
    let mut ob = OrderBook::new();
    let mut events = EventQueue::new();
    let a = ob.place_ask(vec![1], vec![0], vec![0], vec![0], vec![2], 90, 10, 0, 0, i64::MAX, 0, &mut events).unwrap();
    let _b = ob.place_ask(vec![1], vec![0], vec![0], vec![0], vec![2], 90, 10, 0, 1, i64::MAX, 0, &mut events).unwrap();
    let _c = ob.place_ask(vec![1], vec![0], vec![0], vec![0], vec![2], 80, 10, 0, 2, 5, 0, &mut events).unwrap();
    // the order at 80 has expired by 6
    let popped = ob.pop_front_at(false, 6, &mut events).unwrap();
    assert_eq!(popped.id, a.id);
    assert_eq!(ob.pop_front_at(false, 6, &mut events).unwrap().timestamp, 1);
    assert_eq!(ob.pop_front_at(false, 6, &mut events), Err(OrderBookError::PriceIsZero));
}

#[test]
fn clear_empty_head_of_empty_side_fails() {
    let mut ob = OrderBook::new();
    assert_eq!(ob.clear_empty_head(true), Err(OrderBookError::PriceIsZero));
    assert_eq!(ob.clear_empty_head_or_zero(false), 0);
}

#[test]
fn update_price_level_of_missing_price() {
    let mut ob = OrderBook::new();
    let mut events = EventQueue::new();
    assert_eq!(ob.update_price_level(vec![0], false, true, 100, 1, 1, None, &mut events),
        Err(OrderBookError::L2(L2Error::PriceMissing { price: 100, is_bid: true, is_placed: false })));
    assert_eq!(ob.update_price_level(vec![0], true, true, 0, 1, 1, None, &mut events),
        Err(OrderBookError::L2(L2Error::PriceIsZero)));
    assert_eq!(ob.update_price_level(vec![0], true, false, 70, 3, 4, None, &mut events), Ok(()));
    assert_eq!(ob.l2.public_ask_level(70), Some(3));
    assert_eq!(ob.l2.current_ask_level(70), Some(4));
    assert!(events.is_empty());
}

#[test]
fn remove_undoes_insert_and_head_is_best() {
    let mut l2 = L2::new();
    l2.insert_price(true, 100).unwrap();
    l2.insert_price(true, 80).unwrap();
    let before = l2.collect_bid_prices();
    l2.insert_price(true, 90).unwrap();
    assert_eq!(l2.bid_head(), Some(100));
    l2.insert_price(true, 90).unwrap();
    assert_eq!(l2.collect_bid_prices(), vec![100, 90, 80]);
    l2.remove_price(true, 90).unwrap();
    assert_eq!(l2.collect_bid_prices(), before);
    assert_eq!(l2.insert_price(false, 0), Err(L2Error::PriceIsZero));
}

#[test]
fn limit_buy_never_takes_beyond_its_limit() {
    let mut pair = Pair::new();
    let mut events = EventQueue::new();
    let cheap = pair.orderbook.place_ask(vec![1], vec![0], vec![0], vec![0], vec![2], 90 * S, 1 * S, 0, 0, i64::MAX, 0, &mut events).unwrap();
    let dear = pair.orderbook.place_ask(vec![1], vec![0], vec![0], vec![0], vec![2], 110 * S, 1 * S, 0, 0, i64::MAX, 0, &mut events).unwrap();
    let id = pair.limit_buy(vec![5], None, vec![6], 100 * S, 5 * S, 0, 1, i64::MAX, 0, 0, TimeInForce::GoodTillCanceled, &mut events).unwrap();
    assert!(pair.orderbook.l3.get_order(cheap.id).is_err());
    assert_eq!(pair.orderbook.l3.get_order(dear.id).unwrap().cqty, 1 * S);
    assert!(pair.orderbook.l3.get_order(id).is_ok());
    assert_eq!(pair.orderbook.lmp(), Some(90 * S));
}

#[test]
fn limit_order_refusals() {
    let mut pair = Pair::new();
    let mut events = EventQueue::new();
    assert_eq!(pair.limit_sell(vec![1], Some(3), vec![2], 100, 10, 0, 0, i64::MAX, 0, 0, TimeInForce::GoodTillCanceled, &mut events),
        Err(OrderBookError::L3(L3Error::OrderDoesNotExist(3))));
    let o = pair.orderbook.place_bid(vec![1], vec![0], vec![0], vec![0], vec![2], 50, 10, 0, 0, i64::MAX, 0, &mut events).unwrap();
    assert_eq!(pair.limit_sell(vec![9], Some(o.id), vec![2], 100, 10, 0, 0, i64::MAX, 0, 0, TimeInForce::GoodTillCanceled, &mut events),
        Err(OrderBookError::OrderNotOwnedBySender));
    // nothing to fill against: the rest is cancelled (the bid at 50 keeps the level) and the order refused
    assert_eq!(pair.limit_buy(vec![1], None, vec![2], 50, 10, 0, 0, i64::MAX, 0, 0, TimeInForce::FillOrKill, &mut events),
        Err(OrderBookError::OrderNotFullyFilled));
    assert_eq!(pair.limit_buy(vec![1], None, vec![2], 100, 10, 11, 0, i64::MAX, 0, 0, TimeInForce::GoodTillCanceled, &mut events),
        Err(OrderBookError::IcebergQuantityIsBiggerThanWholeAmount));
}

#[test]
fn immediate_or_cancel_removes_the_rest() {
    let mut pair = Pair::new();
    let mut events = EventQueue::new();
    pair.orderbook.place_ask(vec![1], vec![0], vec![0], vec![0], vec![2], 90 * S, 1 * S, 0, 0, i64::MAX, 0, &mut events).unwrap();
    pair.orderbook.place_ask(vec![1], vec![0], vec![0], vec![0], vec![2], 95 * S, 1 * S, 0, 0, i64::MAX, 0, &mut events).unwrap();
    let r = pair.limit_buy(vec![5], None, vec![6], 100 * S, 5 * S, 0, 1, i64::MAX, 0, 0, TimeInForce::ImmediateOrCancel, &mut events);
    // the rest of the buy is cancelled; its level, emptied and unlisted first, is then missing
    assert_eq!(r, Err(OrderBookError::L2(L2Error::PriceMissing { price: 100 * S, is_bid: true, is_placed: false })));
    assert_eq!(pair.orderbook.l2.bid_head(), None);
    assert_eq!(pair.orderbook.l2.ask_head(), None);
    assert_eq!(pair.orderbook.lmp(), Some(95 * S));
}

#[test]
fn clients_are_added_and_removed() {
    let mut pair = Pair::new();
    pair.pair_id = vec![7];
    let mut events = EventQueue::new();
    pair.add_client(vec![1], vec![2], vec![3], &mut events);
    pair.add_client(vec![4], vec![5], vec![6], &mut events);
    assert_eq!(pair.clients, vec![vec![1], vec![4]]);
    assert_eq!(pair.orderbook.fee_recipients.get(&vec![1]), Some(&vec![3]));
    match &events.as_vec()[0] {
        SpotEvent::SpotPairClientAccountChanged { pair_id, cid, admin_account_id, fee_account_id, timestamp } => {
            assert_eq!(pair_id, &vec![7]);
            assert_eq!(cid, &Some(vec![1]));
            assert_eq!(admin_account_id, &Some(vec![2]));
            assert_eq!(fee_account_id, &Some(vec![3]));
            assert!(*timestamp > 0);
        }
        e => panic!("unexpected event {:?}", e),
    }
    pair.remove_client(vec![1], &mut events);
    assert_eq!(pair.clients, vec![vec![4]]);
    assert_eq!(pair.client_admin_account_ids.get(&vec![1]), None);
    assert_eq!(pair.orderbook.fee_recipients.get(&vec![1]), None);
    assert!(matches!(events.as_vec().last().unwrap(),
        SpotEvent::SpotPairClientAccountChanged { admin_account_id: None, fee_account_id: None, .. }));
}

#[test]
fn add_pair_keeps_a_new_pair() {
    let mut engine = MatchingEngine::new();
    assert_eq!(engine.pair_count(), 0);
    assert!(!engine.has_pair(&vec![9]));
    let mut events = EventQueue::new();
    engine.add_pair(vec![1], vec![2], vec![3], vec![9], 77, &mut events);
    assert_eq!(events.len(), 2);
    assert!(matches!(events.as_vec().last().unwrap(), SpotEvent::SpotPairAdded { timestamp: 77, .. }));
    assert!(engine.has_pair(&vec![9]));
    assert_eq!(engine.pair_count(), 1);
    let pair = engine.pairs.get(&vec![9]).expect("kept");
    assert_eq!(pair.pair_id, vec![9]);
    assert_eq!(pair.clients, vec![vec![1u8]]);
    // the same pair again only gains the client
    engine.add_pair(vec![4], vec![5], vec![6], vec![9], 78, &mut events);
    assert_eq!(engine.pair_count(), 1);
    assert_eq!(engine.pairs.get(&vec![9]).expect("kept").clients, vec![vec![1u8], vec![4u8]]);
}

#[test]
fn engine_runs_orders_of_a_pair() {
    let mut engine = MatchingEngine::new();
    let mut pair = Pair::new();
    pair.pair_id = vec![9];
    engine.pairs.insert(vec![9], pair);
    assert!(engine.has_pair(&vec![9]));
    assert_eq!(engine.pair_count(), 1);
    let q = engine.add_pair_client(vec![1], vec![9], vec![2], vec![3]).unwrap();
    assert_eq!(q.len(), 1);
    let events = engine.limit_sell(vec![1], vec![9], None, vec![2], 100, 10, 0, 0, i64::MAX, 0, 0, TimeInForce::GoodTillCanceled).unwrap();
    assert!(matches!(&events.as_vec()[0], SpotEvent::SpotOrderPlaced { price: 100, .. }));
    assert_eq!(engine.market_buy(vec![1], vec![9], None, vec![2], 1, 0, 0, 0, 0, 0, TimeInForce::GoodTillCanceled).unwrap().len(), 0);
    let r = engine.cancel_order(vec![1], vec![9], 5, vec![2], false);
    assert!(matches!(r, Err(OrderBookError::L3(L3Error::OrderDoesNotExist(5)))));
}

#[test]
fn level_one_prices_stay_within_the_limit() {
    let mut l1 = L1::new();
    l1.set_lmp(100 * S);
    // a limit buy is never made above its limit, a limit sell never below
    let (buy, lmp) = l1.det_limit_buy_make_price(95 * S, 0, 0, 500);
    assert_eq!((buy, lmp), (95 * S, 100 * S));
    let (sell, _) = l1.det_limit_sell_make_price(105 * S, 0, 0, 500);
    assert_eq!(sell, 105 * S);
    // with a wide limit the spread around the last match price decides
    assert_eq!(l1.det_limit_buy_make_price(200 * S, 0, 0, 500).0, 105 * S);
    assert_eq!(l1.det_limit_sell_make_price(1, 0, 0, 500).0, 95 * S);
}

#[test]
fn drained_events_come_back_in_order() {
    let mut q = EventQueue::new();
    event::emit_event(&mut q, SpotEvent::SpotPairAdded { cid: vec![1], pair_id: vec![2], timestamp: 3 });
    event::emit_event(&mut q, SpotEvent::SpotPairAdded { cid: vec![4], pair_id: vec![5], timestamp: 6 });
    let d = event::drain_events(&mut q);
    assert!(q.is_empty());
    assert_eq!(d.len(), 2);
    assert!(matches!(&d.as_vec()[1], SpotEvent::SpotPairAdded { timestamp: 6, .. }));
    let mut q2 = EventQueue::from_vec(d.into_vec());
    event::clear_events(&mut q2);
    assert!(q2.is_empty());
}
