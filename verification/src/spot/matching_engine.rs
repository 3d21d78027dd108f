//! The spot matching engine: the trading pairs and the order operations on them.
use vstd::prelude::*;
use crate::bytes::{ByteMap, copy_bytes, view_values};
use crate::spot::event::{SpotEvent, EventQueue, emit_event};
use crate::spot::orderbook::{OrderBookError, cancel_spec, rest_unchanged};
use crate::spot::orders::{Order, OrderId};
use crate::spot::pair::{Pair, limit_spec, limit_success_owed, crossing, lmp_moved, is_duplicate_id, price_priority,
    other_side, client_added};
use crate::spot::time_in_force::TimeInForce;

verus! {

/// The spot matching engine.
#[derive(Debug, Clone, PartialEq, Eq)]
pub struct MatchingEngine {
    pub pairs: ByteMap<Pair>,
    pub total_pairs: u32,
}

/// `e` reports that client `cid` added pair `pair_id` at `timestamp`.
pub open spec fn is_pair_added(e: SpotEvent, cid: Seq<u8>, pair_id: Seq<u8>, timestamp: i64) -> bool {
    match e {
        SpotEvent::SpotPairAdded { cid: c, pair_id: p, timestamp: t } => c@ == cid && p@ == pair_id && t == timestamp,
        _ => false,
    }
}

/// The pairs of `n` are those of `o` but for the pair under `pair_id`.
pub open spec fn others_unchanged(o: MatchingEngine, n: MatchingEngine, pair_id: Seq<u8>) -> bool {
    &&& n.pairs@.dom() == o.pairs@.dom()
    &&& forall|k: Seq<u8>| #[trigger] n.pairs@.contains_key(k) && k != pair_id ==> n.pairs@[k] == o.pairs@[k]
    &&& n.total_pairs == o.total_pairs
}

/// `n` holds the pairs of `o`, and maybe a pair `pair_id` more; every pair
/// but `pair_id` is unchanged.
pub open spec fn others_kept(o: MatchingEngine, n: MatchingEngine, pair_id: Seq<u8>) -> bool {
    &&& n.pairs@.dom() == o.pairs@.dom().insert(pair_id)
    &&& forall|k: Seq<u8>| #[trigger] n.pairs@.contains_key(k) && k != pair_id ==> n.pairs@[k] == o.pairs@[k]
    &&& n.total_pairs == o.total_pairs
}

impl MatchingEngine {
    pub open spec fn wf(&self) -> bool {
        &&& self.pairs.wf()
        &&& forall|k: Seq<u8>| #[trigger] self.pairs@.contains_key(k) ==> self.pairs@[k].wf()
    }

    /// An engine without pairs.
    pub fn new() -> (e: Self)
        ensures
            e.wf(),
            e.pairs@ == Map::<Seq<u8>, Pair>::empty(),
            e.total_pairs == 0,
    {
        MatchingEngine { pairs: ByteMap::new(), total_pairs: 0 }
    }

    /// Takes the pair under `pair_id` out of the engine.
    fn take_pair(&mut self, pair_id: &Vec<u8>) -> (p: Pair)
        requires
            old(self).wf(),
            old(self).pairs@.contains_key(pair_id@),
        ensures
            final(self).pairs.wf(),
            final(self).pairs@ == old(self).pairs@.remove(pair_id@),
            final(self).total_pairs == old(self).total_pairs,
            p == old(self).pairs@[pair_id@],
            p.wf(),
    {
        match self.pairs.remove(pair_id) {
            Some(p) => p,
            None => vstd::pervasive::unreached(),
        }
    }

    /// Puts pair `p` back under `pair_id`.
    fn put_pair(&mut self, pair_id: &Vec<u8>, p: Pair)
        requires
            old(self).pairs.wf(),
            forall|k: Seq<u8>| #[trigger] old(self).pairs@.contains_key(k) ==> old(self).pairs@[k].wf(),
            p.wf(),
        ensures
            final(self).wf(),
            final(self).pairs@ == old(self).pairs@.insert(pair_id@, p),
            final(self).total_pairs == old(self).total_pairs,
    {
        self.pairs.insert(copy_bytes(pair_id), p);
    }

    /// Adds client `cid` to pair `pair_id` and reports the pair as added at
    /// `timestamp`. A pair that does not exist yet is created for the client
    /// and kept in the engine.
    pub fn add_pair(&mut self, cid: Vec<u8>, client_admin_account_id: Vec<u8>, client_fee_account_id: Vec<u8>,
        pair_id: Vec<u8>, timestamp: i64, events: &mut EventQueue)
        requires
            old(self).wf(),
            old(events).events().len() < usize::MAX,
        ensures
            final(self).wf(),
            others_kept(*old(self), *final(self), pair_id@),
            !old(self).pairs@.contains_key(pair_id@) ==> {
                let p1 = final(self).pairs@[pair_id@];
                &&& p1.pair_id@ == pair_id@
                &&& p1.base_asset_id@ == Seq::<u8>::empty()
                &&& p1.quote_asset_id@ == Seq::<u8>::empty()
                &&& p1.clients@.len() == 1
                &&& p1.clients@[0]@ == cid@
                &&& view_values(p1.client_admin_account_ids@) == map![cid@ => client_admin_account_id@]
                &&& view_values(p1.client_fee_account_ids@) == map![cid@ => client_fee_account_id@]
                &&& view_values(p1.orderbook.fee_recipients@) == map![cid@ => client_fee_account_id@]
                &&& p1.orderbook.l3.orders@ == Map::<OrderId, Order>::empty()
                &&& p1.orderbook.l2.bid_prices() == Seq::<u64>::empty()
                &&& p1.orderbook.l2.ask_prices() == Seq::<u64>::empty()
                &&& p1.orderbook.l1.lmp is None
            },
            old(self).pairs@.contains_key(pair_id@) ==> {
                let p0 = old(self).pairs@[pair_id@];
                let p1 = final(self).pairs@[pair_id@];
                &&& client_added(p0, p1, cid@, client_admin_account_id@, client_fee_account_id@)
                &&& p1.clients@.drop_last() == p0.clients@
                &&& p1.clients@.len() == p0.clients@.len() + 1
                &&& p1.clients@.last()@ == cid@
                &&& p1.orderbook.l3 == p0.orderbook.l3
                &&& p1.orderbook.l2 == p0.orderbook.l2
            },
            final(events).events().len() == old(events).events().len() + 2,
            final(events).events().take(old(events).events().len() as int) == old(events).events(),
            is_pair_added(final(events).events().last(), cid@, pair_id@, timestamp),
    {
        let ghost ev0 = events.events();
        if self.pairs.contains_key(&pair_id) {
            // add the client to the pair
            let mut pair = self.take_pair(&pair_id);
            pair.add_client(copy_bytes(&cid), client_admin_account_id, client_fee_account_id, events);
            self.put_pair(&pair_id, pair);
            emit_event(events, SpotEvent::SpotPairAdded { cid, pair_id, timestamp });
            proof {
                assert(events.events().take(ev0.len() as int) =~= ev0);
                assert(self.pairs@.dom() =~= old(self).pairs@.dom().insert(pair_id@));
            }
            return;
        }
        // create the pair and keep it
        let mut pair = Pair::new();
        pair.pair_id = copy_bytes(&pair_id);
        let ghost p0 = pair;
        proof {
            assert(view_values(p0.client_admin_account_ids@) =~= Map::<Seq<u8>, Seq<u8>>::empty());
            assert(view_values(p0.client_fee_account_ids@) =~= Map::<Seq<u8>, Seq<u8>>::empty());
            assert(view_values(p0.orderbook.fee_recipients@) =~= Map::<Seq<u8>, Seq<u8>>::empty());
        }
        pair.add_client(copy_bytes(&cid), client_admin_account_id, client_fee_account_id, events);
        proof {
            assert(pair.clients@.len() == 1);
            assert(pair.clients@[0] == pair.clients@.last());
        }
        self.put_pair(&pair_id, pair);
        emit_event(events, SpotEvent::SpotPairAdded { cid, pair_id, timestamp });
        proof {
            assert(events.events().take(ev0.len() as int) =~= ev0);
            assert(self.pairs@.dom() =~= old(self).pairs@.dom().insert(pair_id@));
        }
    }

    /// Adds client `cid` to pair `pair_id`; returns the events of the change.
    pub fn add_pair_client(&mut self, cid: Vec<u8>, pair_id: Vec<u8>, admin_account_id: Vec<u8>, fee_account_id: Vec<u8>)
        -> (r: Result<EventQueue, OrderBookError>)
        requires
            old(self).wf(),
            old(self).pairs@.contains_key(pair_id@),
        ensures
            final(self).wf(),
            others_unchanged(*old(self), *final(self), pair_id@),
            r is Ok,
            r->Ok_0.events().len() == 1,
            client_added(old(self).pairs@[pair_id@], final(self).pairs@[pair_id@], cid@, admin_account_id@,
                fee_account_id@),
            ({
                let p0 = old(self).pairs@[pair_id@];
                let p1 = final(self).pairs@[pair_id@];
                &&& p1.clients@.drop_last() == p0.clients@
                &&& p1.clients@.len() == p0.clients@.len() + 1
                &&& p1.clients@.last()@ == cid@
                &&& p1.orderbook.l3 == p0.orderbook.l3
                &&& p1.orderbook.l2 == p0.orderbook.l2
            }),
    {
        let mut events = EventQueue::new();
        let mut pair = self.take_pair(&pair_id);
        pair.add_client(cid, admin_account_id, fee_account_id, &mut events);
        self.put_pair(&pair_id, pair);
        proof { assert(self.pairs@.dom() =~= old(self).pairs@.dom()); }
        Ok(events)
    }

    /// Places a limit sell order on pair `pair_id`; returns the events of the operation.
    #[allow(clippy::too_many_arguments)]
    pub fn limit_sell(
        &mut self,
        cid: Vec<u8>,
        pair_id: Vec<u8>,
        existing_order_id: Option<OrderId>,
        owner: Vec<u8>,
        price: u64,
        amnt: u64,
        iqty: u64,
        timestamp: i64,
        expires_at: i64,
        maker_fee_bps: u16,
        taker_fee_bps: u16,
        time_in_force: TimeInForce,
    ) -> (r: Result<EventQueue, OrderBookError>)
        requires
            old(self).wf(),
            old(self).pairs@.contains_key(pair_id@),
        ensures
            final(self).wf(),
            others_unchanged(*old(self), *final(self), pair_id@),
            exists|pr: Result<OrderId, OrderBookError>, ev: Seq<SpotEvent>| {
                &&& #[trigger] limit_spec(old(self).pairs@[pair_id@], final(self).pairs@[pair_id@], Seq::empty(), ev, false,
                    cid@, existing_order_id, price, amnt, iqty, time_in_force, pr)
                &&& limit_success_owed(old(self).pairs@[pair_id@], cid@, existing_order_id, price, amnt, iqty, time_in_force, pr)
                &&& crossing(old(self).pairs@[pair_id@], false, cid@, existing_order_id, price, amnt, iqty) ==>
                    lmp_moved(old(self).pairs@[pair_id@], final(self).pairs@[pair_id@], false, price) || is_duplicate_id(pr)
                &&& match pr {
                    Ok(_) => r is Ok && r->Ok_0.events() == ev,
                    Err(e) => r == Err::<EventQueue, OrderBookError>(e),
                }
            },
            exists|m: int| #[trigger] price_priority(old(self).pairs@[pair_id@].orderbook,
                final(self).pairs@[pair_id@].orderbook.l3, other_side(false), m),
    {
        let mut events = EventQueue::new();
        let mut pair = self.take_pair(&pair_id);
        let pr = pair.limit_sell(cid, existing_order_id, owner, price, amnt, iqty, timestamp, expires_at, maker_fee_bps,
            taker_fee_bps, time_in_force, &mut events);
        self.put_pair(&pair_id, pair);
        proof { assert(self.pairs@.dom() =~= old(self).pairs@.dom()); }
        match pr {
            Ok(_) => Ok(events),
            Err(e) => Err(e),
        }
    }

    /// Places a limit buy order on pair `pair_id`; returns the events of the operation.
    #[allow(clippy::too_many_arguments)]
    pub fn limit_buy(
        &mut self,
        cid: Vec<u8>,
        pair_id: Vec<u8>,
        existing_order_id: Option<OrderId>,
        owner: Vec<u8>,
        price: u64,
        amnt: u64,
        iqty: u64,
        timestamp: i64,
        expires_at: i64,
        maker_fee_bps: u16,
        taker_fee_bps: u16,
        time_in_force: TimeInForce,
    ) -> (r: Result<EventQueue, OrderBookError>)
        requires
            old(self).wf(),
            old(self).pairs@.contains_key(pair_id@),
        ensures
            final(self).wf(),
            others_unchanged(*old(self), *final(self), pair_id@),
            exists|pr: Result<OrderId, OrderBookError>, ev: Seq<SpotEvent>| {
                &&& #[trigger] limit_spec(old(self).pairs@[pair_id@], final(self).pairs@[pair_id@], Seq::empty(), ev, true,
                    cid@, existing_order_id, price, amnt, iqty, time_in_force, pr)
                &&& limit_success_owed(old(self).pairs@[pair_id@], cid@, existing_order_id, price, amnt, iqty, time_in_force, pr)
                &&& crossing(old(self).pairs@[pair_id@], true, cid@, existing_order_id, price, amnt, iqty) ==>
                    lmp_moved(old(self).pairs@[pair_id@], final(self).pairs@[pair_id@], true, price) || is_duplicate_id(pr)
                &&& match pr {
                    Ok(_) => r is Ok && r->Ok_0.events() == ev,
                    Err(e) => r == Err::<EventQueue, OrderBookError>(e),
                }
            },
            exists|m: int| #[trigger] price_priority(old(self).pairs@[pair_id@].orderbook,
                final(self).pairs@[pair_id@].orderbook.l3, other_side(true), m),
    {
        let mut events = EventQueue::new();
        let mut pair = self.take_pair(&pair_id);
        let pr = pair.limit_buy(cid, existing_order_id, owner, price, amnt, iqty, timestamp, expires_at, maker_fee_bps,
            taker_fee_bps, time_in_force, &mut events);
        self.put_pair(&pair_id, pair);
        proof { assert(self.pairs@.dom() =~= old(self).pairs@.dom()); }
        match pr {
            Ok(_) => Ok(events),
            Err(e) => Err(e),
        }
    }

    /// Market sell orders on pair `pair_id` are accepted and do nothing yet.
    #[allow(clippy::too_many_arguments)]
    pub fn market_sell(
        &mut self,
        cid: Vec<u8>,
        pair_id: Vec<u8>,
        existing_order_id: Option<OrderId>,
        owner: Vec<u8>,
        amnt: u64,
        iqty: u64,
        timestamp: i64,
        expires_at: i64,
        maker_fee_bps: u16,
        taker_fee_bps: u16,
        time_in_force: TimeInForce,
    ) -> (r: Result<EventQueue, OrderBookError>)
        requires
            old(self).wf(),
            old(self).pairs@.contains_key(pair_id@),
        ensures
            final(self).wf(),
            final(self).pairs@ == old(self).pairs@,
            final(self).total_pairs == old(self).total_pairs,
            r is Ok,
            r->Ok_0.events() == Seq::<SpotEvent>::empty(),
    {
        let events = EventQueue::new();
        let mut pair = self.take_pair(&pair_id);
        let ghost p0 = pair;
        let _ = pair.market_sell(cid, existing_order_id, owner, amnt, iqty, timestamp, expires_at, maker_fee_bps,
            taker_fee_bps, time_in_force);
        self.put_pair(&pair_id, pair);
        proof { assert(self.pairs@ =~= old(self).pairs@); }
        Ok(events)
    }

    /// Market buy orders on pair `pair_id` are accepted and do nothing yet.
    #[allow(clippy::too_many_arguments)]
    pub fn market_buy(
        &mut self,
        cid: Vec<u8>,
        pair_id: Vec<u8>,
        existing_order_id: Option<OrderId>,
        owner: Vec<u8>,
        amnt: u64,
        iqty: u64,
        timestamp: i64,
        expires_at: i64,
        maker_fee_bps: u16,
        taker_fee_bps: u16,
        time_in_force: TimeInForce,
    ) -> (r: Result<EventQueue, OrderBookError>)
        requires
            old(self).wf(),
            old(self).pairs@.contains_key(pair_id@),
        ensures
            final(self).wf(),
            final(self).pairs@ == old(self).pairs@,
            final(self).total_pairs == old(self).total_pairs,
            r is Ok,
            r->Ok_0.events() == Seq::<SpotEvent>::empty(),
    {
        let events = EventQueue::new();
        let mut pair = self.take_pair(&pair_id);
        let _ = pair.market_buy(cid, existing_order_id, owner, amnt, iqty, timestamp, expires_at, maker_fee_bps,
            taker_fee_bps, time_in_force);
        self.put_pair(&pair_id, pair);
        proof { assert(self.pairs@ =~= old(self).pairs@); }
        Ok(events)
    }

    /// Cancels order `order_id` of `owner` on pair `pair_id`; returns the
    /// events of the operation.
    pub fn cancel_order(&mut self, cid: Vec<u8>, pair_id: Vec<u8>, order_id: OrderId, owner: Vec<u8>, is_bid: bool)
        -> (r: Result<EventQueue, OrderBookError>)
        requires
            old(self).wf(),
            old(self).pairs@.contains_key(pair_id@),
        ensures
            final(self).wf(),
            others_unchanged(*old(self), *final(self), pair_id@),
            final(self).pairs@[pair_id@].same_but_book(&old(self).pairs@[pair_id@]),
            exists|pr: Result<(), OrderBookError>, ev: Seq<SpotEvent>| {
                &&& #[trigger] cancel_spec(old(self).pairs@[pair_id@].orderbook, final(self).pairs@[pair_id@].orderbook,
                    Seq::empty(), ev, cid@, pair_id@, is_bid, order_id, owner@, pr)
                &&& match pr {
                    Ok(_) => r is Ok && r->Ok_0.events() == ev,
                    Err(e) => r == Err::<EventQueue, OrderBookError>(e),
                }
            },
    {
        let mut events = EventQueue::new();
        let mut pair = self.take_pair(&pair_id);
        let pid = copy_bytes(&pair_id);
        let pr = pair.cancel_order(cid, pid, is_bid, order_id, owner, &mut events);
        self.put_pair(&pair_id, pair);
        proof { assert(self.pairs@.dom() =~= old(self).pairs@.dom()); }
        match pr {
            Ok(_) => Ok(events),
            Err(e) => Err(e),
        }
    }

    /// The number of pairs in the engine.
    pub fn pair_count(&self) -> (n: usize)
        requires
            self.pairs.wf(),
        ensures
            n == self.pairs@.dom().len(),
    {
        proof { self.pairs.lemma_len(); }
        self.pairs.len()
    }

    /// Whether pair `pair_id` exists.
    pub fn has_pair(&self, pair_id: &Vec<u8>) -> (r: bool)
        requires
            self.wf(),
        ensures
            r == self.pairs@.contains_key(pair_id@),
    {
        self.pairs.contains_key(pair_id)
    }
}

impl Default for MatchingEngine {
    /// An engine without pairs.
    fn default() -> (e: Self)
        ensures
            e.wf(),
            e.pairs@ == Map::<Seq<u8>, Pair>::empty(),
            e.total_pairs == 0,
    {
        MatchingEngine::new()
    }
}

} // verus!
