//! Order events of the market.
use vstd::prelude::*;

verus! {

/// An order event.
#[derive(Debug, Clone, PartialEq, Eq, Structural)]
pub enum Event {
    OrderPlaced { id: u64, is_bid: bool, price: u64, iqty: u64, cqty: u64, timestamp: i64, expires_at: i64 },
    OrderMatched { maker_id: u64, taker_id: u64, is_bid: bool, price: u64, iqty: u64, cqty: u64, timestamp: i64, expires_at: i64 },
    OrderCancelled { id: u64, is_bid: bool, price: u64, iqty: u64, cqty: u64, timestamp: i64, expires_at: i64 },
    OrderExpired { id: u64, is_bid: bool, price: u64, iqty: u64, cqty: u64, timestamp: i64, expires_at: i64 },
    OrderFilled { id: u64, is_bid: bool, price: u64, iqty: u64, cqty: u64, timestamp: i64, expires_at: i64 },
    OrderPartiallyFilled { id: u64, is_bid: bool, price: u64, iqty: u64, cqty: u64, timestamp: i64, expires_at: i64 },
    OrderFullyFilled { id: u64, is_bid: bool, price: u64, iqty: u64, cqty: u64, timestamp: i64, expires_at: i64 },
}

/// A consumer of order events.
pub trait EventBackend {
    fn handle_event(&mut self, event: Event);
}

/// Emits `event`: appends it to the events of the running operation, which
/// the caller hands on to the registered backends.
pub fn emit_event(events: &mut Vec<Event>, event: Event)
    ensures
        final(events)@ == old(events)@.push(event),
{
    events.push(event);
}

} // verus!
