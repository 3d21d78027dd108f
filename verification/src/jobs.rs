//! Periodic housekeeping of an order book.
use vstd::prelude::*;
use crate::spot::event::{EventQueue, SpotEvent};
use crate::spot::orderbook::{OrderBook, OrderBookError, expire_orders_spec, now_millis, rest_unchanged};
use crate::spot::orders::OrderId;

verus! {

/// The housekeeping pair id, `default_pair`.
pub open spec fn housekeeping_pair_id() -> Seq<u8> {
    seq![100u8, 101, 102, 97, 117, 108, 116, 95, 112, 97, 105, 114]
}

/// The housekeeping base asset id, `base`.
pub open spec fn housekeeping_base_id() -> Seq<u8> {
    seq![98u8, 97, 115, 101]
}

/// The housekeeping quote asset id, `quote`.
pub open spec fn housekeeping_quote_id() -> Seq<u8> {
    seq![113u8, 117, 111, 116, 101]
}

/// The housekeeping managing account id, `manager`.
pub open spec fn housekeeping_manager_id() -> Seq<u8> {
    seq![109u8, 97, 110, 97, 103, 101, 114]
}

/// The effect of the housekeeping pass at `now` on book `o` (giving `n`):
/// the expired orders are gone, the others kept, by a bid pass and then an
/// ask pass of order expiry whose results are `r`.
pub open spec fn cleanup_spec(o: OrderBook, n: OrderBook, ev0: Seq<SpotEvent>, ev1: Seq<SpotEvent>, now: i64,
    r: (Result<(), OrderBookError>, Result<(), OrderBookError>)) -> bool {
    &&& rest_unchanged(o, n)
    &&& forall|id: OrderId| #[trigger] n.l3.orders@.contains_key(id) <==>
        o.l3.orders@.contains_key(id) && !o.l3.expired_at(id, now)
    &&& forall|id: OrderId| #[trigger] n.l3.orders@.contains_key(id) ==> n.l3.orders@[id] == o.l3.orders@[id]
    &&& exists|mid: OrderBook, mid_events: Seq<SpotEvent>| {
        &&& #[trigger] expire_orders_spec(o, mid, ev0, mid_events, true,
            housekeeping_pair_id(), housekeeping_base_id(), housekeeping_quote_id(), housekeeping_manager_id(), now, r.0)
        &&& expire_orders_spec(mid, n, mid_events, ev1, false,
            housekeeping_pair_id(), housekeeping_base_id(), housekeeping_quote_id(), housekeeping_manager_id(), now, r.1)
    }
}

/// Expires, as of `now`, the resting orders of both sides of `orderbook`,
/// under the generic housekeeping ids (`default_pair`, `base`, `quote`,
/// `manager`). Returns the results of the bid and the ask pass.
pub fn cleanup_expired_orders_at(orderbook: &mut OrderBook, now: i64, events: &mut EventQueue)
    -> (r: (Result<(), OrderBookError>, Result<(), OrderBookError>))
    requires
        old(orderbook).wf(),
    ensures
        final(orderbook).wf(),
        cleanup_spec(*old(orderbook), *final(orderbook), old(events).events(), final(events).events(), now, r),
{
    // generic housekeeping identifiers
    let pair_id: Vec<u8> = vec![100u8, 101, 102, 97, 117, 108, 116, 95, 112, 97, 105, 114];
    let base_asset_id: Vec<u8> = vec![98u8, 97, 115, 101];
    let quote_asset_id: Vec<u8> = vec![113u8, 117, 111, 116, 101];
    let managing_account_id: Vec<u8> = vec![109u8, 97, 110, 97, 103, 101, 114];
    proof {
        assert(pair_id@ == housekeeping_pair_id());
        assert(base_asset_id@ == housekeeping_base_id());
        assert(quote_asset_id@ == housekeeping_quote_id());
        assert(managing_account_id@ == housekeeping_manager_id());
    }
    // expire resting bid orders
    let bids = orderbook.expire_orders(true, pair_id.clone(), base_asset_id.clone(), quote_asset_id.clone(),
        managing_account_id.clone(), now, events);
    let ghost after_bids = orderbook.l3;
    let ghost mid = *orderbook;
    let ghost mid_events = events.events();
    // expire resting ask orders
    let asks = orderbook.expire_orders(false, pair_id, base_asset_id, quote_asset_id, managing_account_id, now, events);
    proof {
        assert forall|id: OrderId| #[trigger] orderbook.l3.orders@.contains_key(id) <==>
            old(orderbook).l3.orders@.contains_key(id) && !old(orderbook).l3.expired_at(id, now) by {
            if after_bids.orders@.contains_key(id) {
                assert(after_bids.orders@[id] == old(orderbook).l3.orders@[id]);
            }
        }
    }
    let r = (bids, asks);
    proof {
        assert(expire_orders_spec(*old(orderbook), mid, old(events).events(), mid_events, true,
            housekeeping_pair_id(), housekeeping_base_id(), housekeeping_quote_id(), housekeeping_manager_id(), now, r.0)
            && expire_orders_spec(mid, *orderbook, mid_events, events.events(), false,
            housekeeping_pair_id(), housekeeping_base_id(), housekeeping_quote_id(), housekeeping_manager_id(), now, r.1));
    }
    r
}

/// Expires the orders of `orderbook` that have expired by now.
pub fn cleanup_expired_orders(orderbook: &mut OrderBook, events: &mut EventQueue)
    -> (r: (Result<(), OrderBookError>, Result<(), OrderBookError>))
    requires
        old(orderbook).wf(),
    ensures
        final(orderbook).wf(),
        exists|now: i64| #[trigger] cleanup_spec(*old(orderbook), *final(orderbook), old(events).events(),
            final(events).events(), now, r),
{
    let now = now_millis();
    let r = cleanup_expired_orders_at(orderbook, now, events);
    assert(cleanup_spec(*old(orderbook), *orderbook, old(events).events(), events.events(), now, r));
    r
}

} // verus!
