//! Events of the spot market and the queue that collects them while an
//! operation runs.
use vstd::prelude::*;

verus! {

/// An event of the spot market.
#[derive(Debug, Clone, PartialEq, Eq)]
pub enum SpotEvent {
    /// Pair added to the matching engine
    SpotPairAdded { cid: Vec<u8>, pair_id: Vec<u8>, timestamp: i64 },
    /// A client of a pair was added (accounts set) or removed (accounts `None`)
    SpotPairClientAccountChanged {
        pair_id: Vec<u8>,
        cid: Option<Vec<u8>>,
        admin_account_id: Option<Vec<u8>>,
        fee_account_id: Option<Vec<u8>>,
        timestamp: i64,
    },
    /// Transfer event from an account to another account
    Transfer { cid: Vec<u8>, from: Vec<u8>, to: Vec<u8>, asset: Vec<u8>, amnt: u64, timestamp: i64 },
    /// The quantities resting at a price changed
    SpotOrderBlockChanged { pair_id: Vec<u8>, is_bid: bool, price: u64, pqty: u64, cqty: u64, timestamp: i64 },
    /// Spot order placed in the orderbook being a maker
    SpotOrderPlaced {
        cid: Vec<u8>,
        pair_id: Vec<u8>,
        base_asset_id: Vec<u8>,
        quote_asset_id: Vec<u8>,
        order_id: Vec<u8>,
        maker_account_id: Vec<u8>,
        is_bid: bool,
        price: u64,
        amnt: u64,
        iqty: u64,
        pqty: u64,
        cqty: u64,
        timestamp: i64,
        expires_at: i64,
    },
    /// Spot order matched in the orderbook being a taker
    SpotOrderMatched {
        cid: Vec<u8>,
        order_id: u64,
        maker_account_id: Vec<u8>,
        taker_account_id: Vec<u8>,
        is_bid: bool,
        price: u64,
        amnt: u64,
        iqty: u64,
        pqty: u64,
        cqty: u64,
        timestamp: i64,
        expires_at: i64,
    },
    /// Spot order partially matched in the orderbook being a taker
    SpotOrderPartiallyMatched {
        cid: Vec<u8>,
        order_id: u64,
        maker_account_id: Vec<u8>,
        taker_account_id: Vec<u8>,
        is_bid: bool,
        price: u64,
        amnt: u64,
        iqty: u64,
        pqty: u64,
        cqty: u64,
        timestamp: i64,
        expires_at: i64,
    },
    /// Spot order fully matched in the orderbook being a taker
    SpotOrderFullyMatched {
        cid: Vec<u8>,
        order_id: u64,
        maker_account_id: Vec<u8>,
        taker_account_id: Vec<u8>,
        is_bid: bool,
        price: u64,
        amnt: u64,
        iqty: u64,
        pqty: u64,
        cqty: u64,
        timestamp: i64,
        expires_at: i64,
    },
    /// Spot order cancelled in the orderbook
    SpotOrderCancelled {
        cid: Vec<u8>,
        order_id: Vec<u8>,
        maker_account_id: Vec<u8>,
        is_bid: bool,
        price: u64,
        amnt: u64,
        iqty: u64,
        pqty: u64,
        cqty: u64,
        timestamp: i64,
        expires_at: i64,
    },
    /// Spot order expired in the orderbook
    SpotOrderExpired {
        cid: Vec<u8>,
        order_id: Vec<u8>,
        maker_account_id: Vec<u8>,
        is_bid: bool,
        price: u64,
        amnt: u64,
        iqty: u64,
        pqty: u64,
        cqty: u64,
        timestamp: i64,
        expires_at: i64,
    },
    /// Spot order filled in the orderbook
    SpotOrderFilled {
        cid: Vec<u8>,
        order_id: Vec<u8>,
        maker_account_id: Vec<u8>,
        is_bid: bool,
        price: u64,
        amnt: u64,
        iqty: u64,
        pqty: u64,
        cqty: u64,
        timestamp: i64,
        expires_at: i64,
    },
    /// An order of a match keeps a remainder
    SpotOrderPartiallyFilled {
        is_taker_event: bool,
        taker_cid: Vec<u8>,
        maker_cid: Vec<u8>,
        taker_order_id: Vec<u8>,
        maker_order_id: Vec<u8>,
        taker_account_id: Vec<u8>,
        maker_account_id: Vec<u8>,
        taker_order_is_bid: bool,
        maker_order_is_bid: bool,
        price: u64,
        pair_id: Vec<u8>,
        base_asset_id: Vec<u8>,
        quote_asset_id: Vec<u8>,
        base_volume: u64,
        quote_volume: u64,
        base_fee: u64,
        quote_fee: u64,
        maker_fee_bps: u16,
        taker_fee_bps: u16,
        amnt: u64,
        iqty: u64,
        pqty: u64,
        cqty: u64,
        timestamp: i64,
        expires_at: i64,
    },
    /// An order of a match is used up
    SpotOrderFullyFilled {
        is_taker_event: bool,
        taker_cid: Vec<u8>,
        maker_cid: Vec<u8>,
        taker_order_id: Vec<u8>,
        maker_order_id: Vec<u8>,
        taker_account_id: Vec<u8>,
        maker_account_id: Vec<u8>,
        taker_order_is_bid: bool,
        maker_order_is_bid: bool,
        price: u64,
        pair_id: Vec<u8>,
        base_asset_id: Vec<u8>,
        quote_asset_id: Vec<u8>,
        base_volume: u64,
        quote_volume: u64,
        base_fee: u64,
        quote_fee: u64,
        maker_fee_bps: u16,
        taker_fee_bps: u16,
        amnt: u64,
        iqty: u64,
        pqty: u64,
        cqty: u64,
        timestamp: i64,
        expires_at: i64,
    },
    /// The iceberg quantity of an order changed
    SpotOrderIcebergQuantityChanged {
        cid: Vec<u8>,
        order_id: Vec<u8>,
        amnt: u64,
        iqty: u64,
        pqty: u64,
        cqty: u64,
        timestamp: i64,
        expires_at: i64,
    },
}

/// A queue of events, oldest first.
#[derive(Debug, Clone, PartialEq, Eq)]
pub struct EventQueue(pub Vec<SpotEvent>);

impl EventQueue {
    pub open spec fn events(&self) -> Seq<SpotEvent> {
        self.0@
    }

    /// Create a new empty event queue
    pub fn new() -> (q: Self)
        ensures
            q.events() == Seq::<SpotEvent>::empty(),
    {
        EventQueue(Vec::new())
    }

    /// Create an event queue from a vector of events
    pub fn from_vec(events: Vec<SpotEvent>) -> (q: Self)
        ensures
            q.events() == events@,
    {
        EventQueue(events)
    }

    /// Get a reference to the underlying vector
    pub fn as_vec(&self) -> (v: &Vec<SpotEvent>)
        ensures
            v@ == self.events(),
    {
        &self.0
    }

    /// Consume the wrapper and return the underlying vector
    pub fn into_vec(self) -> (v: Vec<SpotEvent>)
        ensures
            v@ == self.events(),
    {
        self.0
    }

    /// Check if the queue is empty
    pub fn is_empty(&self) -> (r: bool)
        ensures
            r == (self.events().len() == 0),
    {
        self.0.len() == 0
    }

    /// Get the number of events in the queue
    pub fn len(&self) -> (n: usize)
        ensures
            n == self.events().len(),
    {
        self.0.len()
    }
}

impl Default for EventQueue {
    fn default() -> (q: Self)
        ensures
            q.events() == Seq::<SpotEvent>::empty(),
    {
        EventQueue::new()
    }
}

impl From<Vec<SpotEvent>> for EventQueue {
    /// The queue of `events`, oldest first.
    fn from(events: Vec<SpotEvent>) -> (q: Self) {
        EventQueue(events)
    }
}

impl vstd::std_specs::convert::FromSpecImpl<Vec<SpotEvent>> for EventQueue {
    open spec fn obeys_from_spec() -> bool {
        true
    }

    open spec fn from_spec(v: Vec<SpotEvent>) -> Self {
        EventQueue(v)
    }
}

impl From<EventQueue> for Vec<SpotEvent> {
    /// The events of `queue`, oldest first.
    fn from(queue: EventQueue) -> (v: Self) {
        queue.0
    }
}

impl vstd::std_specs::convert::FromSpecImpl<EventQueue> for Vec<SpotEvent> {
    open spec fn obeys_from_spec() -> bool {
        true
    }

    open spec fn from_spec(v: EventQueue) -> Self {
        v.0
    }
}

/// Appends `event` to `queue`.
pub fn emit_event(queue: &mut EventQueue, event: SpotEvent)
    ensures
        final(queue).events() == old(queue).events().push(event),
{
    queue.0.push(event);
}

/// Takes all events out of `queue`, which is left empty.
pub fn drain_events(queue: &mut EventQueue) -> (r: EventQueue)
    ensures
        r.events() == old(queue).events(),
        final(queue).events() == Seq::<SpotEvent>::empty(),
{
    let mut drained: Vec<SpotEvent> = Vec::new();
    std::mem::swap(&mut drained, &mut queue.0);
    EventQueue(drained)
}

/// Removes all events from `queue`.
pub fn clear_events(queue: &mut EventQueue)
    ensures
        final(queue).events() == Seq::<SpotEvent>::empty(),
{
    queue.0 = Vec::new();
}

/// A consumer of spot events.
pub trait EventBackend {
    fn handle_event(&mut self, event: SpotEvent);
}

} // verus!
