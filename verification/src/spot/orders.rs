//! Level-3 data of a spot market: every resting order, kept in a FIFO queue
//! per price level.
use std::collections::{BTreeMap, HashMap};
use vstd::prelude::*;
use vstd::std_specs::iter::IteratorSpec;
use crate::bytes::copy_bytes;
use crate::dll::{chain, ends_ok, linked_at, unlink_links, link_in_links, Links, prev_in, next_in,
    lemma_chain_unlink, lemma_chain_link_in, lemma_chain_frame, lemma_chain_unique};

verus! {

broadcast use {vstd::std_specs::btree::group_btree_axioms, vstd::std_specs::hash::group_hash_axioms,
    vstd::laws_cmp::group_laws_cmp};

/// Order identifiers (128-bit ULIDs).
pub type OrderId = u128;

/// An order stored in the order book.
#[derive(Clone, Debug, PartialEq, Eq)]
pub struct Order {
    /// client order id
    pub cid: Vec<u8>,
    /// order id
    pub id: OrderId,
    /// owner of the order
    pub owner: Vec<u8>,
    /// is bid order
    pub is_bid: bool,
    /// price of the order in 8 decimals
    pub price: u64,
    /// whole amount of the order in 8 decimals without iceberg protection
    pub amnt: u64,
    /// iceberg quantity of the order in 8 decimals to hide the order from the public
    pub iqty: u64,
    /// public quantity of the order in 8 decimals with iceberg protection
    pub pqty: u64,
    /// current quantity of the order in 8 decimals without iceberg protection
    pub cqty: u64,
    /// timestamp of the order in milliseconds
    pub timestamp: i64,
    /// expires at timestamp in milliseconds
    pub expires_at: i64,
    /// fee basis points of the order
    pub fee_bps: u16,
}

/// The mathematical value of an order.
pub struct OrderModel {
    pub cid: Seq<u8>,
    pub id: OrderId,
    pub owner: Seq<u8>,
    pub is_bid: bool,
    pub price: u64,
    pub amnt: u64,
    pub iqty: u64,
    pub pqty: u64,
    pub cqty: u64,
    pub timestamp: i64,
    pub expires_at: i64,
    pub fee_bps: u16,
}

impl View for Order {
    type V = OrderModel;

    open spec fn view(&self) -> OrderModel {
        OrderModel {
            cid: self.cid@,
            id: self.id,
            owner: self.owner@,
            is_bid: self.is_bid,
            price: self.price,
            amnt: self.amnt,
            iqty: self.iqty,
            pqty: self.pqty,
            cqty: self.cqty,
            timestamp: self.timestamp,
            expires_at: self.expires_at,
            fee_bps: self.fee_bps,
        }
    }
}

impl Order {
    #[allow(clippy::too_many_arguments)]
    pub fn new(
        cid: Vec<u8>,
        id: OrderId,
        owner: Vec<u8>,
        is_bid: bool,
        price: u64,
        amnt: u64,
        iqty: u64,
        pqty: u64,
        cqty: u64,
        timestamp: i64,
        expires_at: i64,
        fee_bps: u16,
    ) -> (o: Self)
        ensures
            o@ == (OrderModel {
                cid: cid@, id, owner: owner@, is_bid, price, amnt, iqty, pqty, cqty, timestamp, expires_at, fee_bps,
            }),
    {
        Self { cid, id, owner, is_bid, price, amnt, iqty, pqty, cqty, timestamp, expires_at, fee_bps }
    }

    /// A copy of this order.
    pub fn cloned(&self) -> (o: Self)
        ensures
            o@ == self@,
    {
        Order {
            cid: copy_bytes(&self.cid),
            id: self.id,
            owner: copy_bytes(&self.owner),
            is_bid: self.is_bid,
            price: self.price,
            amnt: self.amnt,
            iqty: self.iqty,
            pqty: self.pqty,
            cqty: self.cqty,
            timestamp: self.timestamp,
            expires_at: self.expires_at,
            fee_bps: self.fee_bps,
        }
    }
}

/// A node of a price level's queue.
#[derive(Debug, Clone, Copy, PartialEq, Eq, Structural)]
pub struct Node {
    pub prev: Option<OrderId>,
    pub next: Option<OrderId>,
}

/// Errors of level-3 data.
#[derive(Debug, Clone, Copy, PartialEq, Eq, Structural)]
pub enum L3Error {
    PriceIsZero,
    OrderDoesNotExist(OrderId),
    IcebergQuantityIsBiggerThanWholeAmount,
    /// A freshly drawn order id is already in use.
    DuplicateOrderId(OrderId),
}

/// Level-3 book data.
#[derive(Debug, Clone, PartialEq, Eq)]
pub struct L3 {
    /// Mapping price -> head of the linked list in a price level.
    pub price_head: BTreeMap<u64, OrderId>,
    /// Mapping price -> last of the linked list in a price level.
    pub price_tail: BTreeMap<u64, OrderId>,
    /// Mapping order_id -> node of its price level's list.
    pub order_nodes: HashMap<OrderId, Node>,
    /// Mapping order_id -> Order.
    pub orders: HashMap<OrderId, Order>,
    /// dust limit to determine if the order should be deleted
    pub dust: u64,
    /// Last displaced order when IDs collide.
    pub dormant_order: Option<OrderId>,
}

/// The links of an order-node map.
pub open spec fn node_links(m: Map<OrderId, Node>) -> Links<OrderId> {
    m.map_values(|n: Node| (n.prev, n.next))
}

proof fn lemma_node_links_insert(m: Map<OrderId, Node>, k: OrderId, n: Node)
    ensures
        node_links(m.insert(k, n)) == node_links(m).insert(k, (n.prev, n.next)),
{
    assert(node_links(m.insert(k, n)) =~= node_links(m).insert(k, (n.prev, n.next)));
}

proof fn lemma_node_links_remove(m: Map<OrderId, Node>, k: OrderId)
    ensures
        node_links(m.remove(k)) == node_links(m).remove(k),
{
    assert(node_links(m.remove(k)) =~= node_links(m).remove(k));
}

/// `id` sits in one of the levels of `lv`.
pub open spec fn in_levels(lv: Map<u64, Seq<OrderId>>, id: OrderId) -> bool {
    exists|p: u64| lv.contains_key(p) && #[trigger] lv[p].contains(id)
}

impl L3 {
    /// `s` is the queue of price level `p`.
    pub open spec fn level_ok(&self, p: u64, s: Seq<OrderId>) -> bool {
        &&& s.len() > 0
        &&& chain(node_links(self.order_nodes@), s)
        &&& self.price_head@[p] == s[0]
        &&& self.price_tail@[p] == s.last()
    }

    /// `lv` maps each non-empty price level to its queue of order ids: no queue
    /// sits at price 0, the queues are disjoint, hold exactly the stored orders,
    /// and each order sits at its price.
    pub open spec fn levels_ok(&self, lv: Map<u64, Seq<OrderId>>) -> bool {
        &&& !lv.contains_key(0u64)
        &&& lv.dom() == self.price_head@.dom()
        &&& lv.dom() == self.price_tail@.dom()
        &&& forall|p: u64| #[trigger] lv.contains_key(p) ==> self.level_ok(p, lv[p])
        &&& forall|p: u64, q: u64, id: OrderId|
            lv.contains_key(p) && lv.contains_key(q) && p != q && #[trigger] lv[p].contains(id) ==> !#[trigger] lv[q].contains(id)
        &&& forall|p: u64, id: OrderId| lv.contains_key(p) && #[trigger] lv[p].contains(id) ==>
            self.orders@.contains_key(id) && self.orders@[id].price == p
        &&& forall|id: OrderId| #[trigger] self.orders@.contains_key(id) ==> in_levels(lv, id)
    }

    pub open spec fn wf(&self) -> bool {
        &&& exists|lv: Map<u64, Seq<OrderId>>| self.levels_ok(lv)
        &&& self.ids_ok()
    }

    /// Each order is stored under its own id.
    pub open spec fn ids_ok(&self) -> bool {
        forall|k: OrderId| #[trigger] self.orders@.contains_key(k) ==> self.orders@[k].id == k
    }

    /// The queues of order ids of all non-empty price levels, oldest first.
    pub open spec fn levels(&self) -> Map<u64, Seq<OrderId>> {
        choose|lv: Map<u64, Seq<OrderId>>| self.levels_ok(lv)
    }

    /// The queue of price level `p` (empty when the level is).
    pub open spec fn level(&self, p: u64) -> Seq<OrderId> {
        if self.levels().contains_key(p) { self.levels()[p] } else { Seq::empty() }
    }

    /// The stored orders.
    pub open spec fn orders_view(&self) -> Map<OrderId, OrderModel> {
        self.orders@.map_values(|o: Order| o@)
    }

    /// The stored orders and their values.
    pub proof fn lemma_orders_view(&self)
        ensures
            self.orders_view().dom() == self.orders@.dom(),
            forall|id: OrderId| #[trigger] self.orders@.contains_key(id) ==> self.orders_view()[id] == self.orders@[id]@,
    {
        assert(self.orders_view().dom() =~= self.orders@.dom());
    }

    proof fn lemma_levels_unique(&self, lv1: Map<u64, Seq<OrderId>>, lv2: Map<u64, Seq<OrderId>>)
        requires
            self.levels_ok(lv1),
            self.levels_ok(lv2),
        ensures
            lv1 == lv2,
    {
        assert forall|p: u64| #[trigger] lv1.contains_key(p) implies lv1[p] == lv2[p] by {
            assert(lv2.contains_key(p));
            assert(self.level_ok(p, lv1[p]));
            assert(self.level_ok(p, lv2[p]));
            lemma_chain_unique(node_links(self.order_nodes@), lv1[p], lv2[p]);
        }
        assert(lv1 =~= lv2);
    }

    pub proof fn lemma_levels_is(&self, lv: Map<u64, Seq<OrderId>>)
        requires
            self.levels_ok(lv),
            self.ids_ok(),
        ensures
            self.wf(),
            self.levels() == lv,
    {
        self.lemma_levels_unique(self.levels(), lv);
    }

    pub proof fn lemma_levels(&self)
        requires
            self.wf(),
        ensures
            self.levels_ok(self.levels()),
    {
    }

    /// A new, empty L3 with a dust limit of 1.
    pub fn new() -> (l3: Self)
        ensures
            l3.wf(),
            l3.levels() == Map::<u64, Seq<OrderId>>::empty(),
            l3.orders@ == Map::<OrderId, Order>::empty(),
            l3.order_nodes@ == Map::<OrderId, Node>::empty(),
            l3.dust == 1,
            l3.dormant_order is None,
    {
        let l3 = Self {
            price_head: BTreeMap::new(),
            price_tail: BTreeMap::new(),
            order_nodes: HashMap::new(),
            orders: HashMap::new(),
            dust: 1,
            dormant_order: None,
        };
        proof {
            let e = Map::<u64, Seq<OrderId>>::empty();
            assert(l3.levels_ok(e));
            l3.lemma_levels_is(e);
        }
        l3
    }

    fn ensure_price(price: u64) -> (r: Result<(), L3Error>)
        ensures
            r == (if price == 0 { Err(L3Error::PriceIsZero) } else { Ok::<(), L3Error>(()) }),
    {
        if price == 0 {
            Err(L3Error::PriceIsZero)
        } else {
            Ok(())
        }
    }

    /// Sets the dust limit to determine if the order should be deleted
    pub fn set_dust(&mut self, dust: u64)
        ensures
            *final(self) == (L3 { dust, ..*old(self) }),
    {
        self.dust = dust;
    }

    /// The oldest order id of price level `price`.
    pub fn head(&self, price: u64) -> (r: Option<OrderId>)
        requires
            self.wf(),
        ensures
            r == (if self.level(price).len() > 0 { Some(self.level(price)[0]) } else { None::<OrderId> }),
    {
        proof { self.lemma_levels(); }
        match self.price_head.get(&price) {
            Some(id) => Some(*id),
            None => None,
        }
    }

    /// The newest order id of price level `price`.
    pub fn tail(&self, price: u64) -> (r: Option<OrderId>)
        requires
            self.wf(),
        ensures
            r == (if self.level(price).len() > 0 { Some(self.level(price).last()) } else { None::<OrderId> }),
    {
        proof { self.lemma_levels(); }
        match self.price_tail.get(&price) {
            Some(id) => Some(*id),
            None => None,
        }
    }

    /// Whether price level `price` holds no order.
    pub fn is_empty(&self, price: u64) -> (r: bool)
        requires
            self.wf(),
        ensures
            r == (self.level(price).len() == 0),
    {
        proof { self.lemma_levels(); }
        !self.price_head.contains_key(&price)
    }

    /// The order stored under `id`.
    pub fn get_order(&self, id: OrderId) -> (r: Result<&Order, L3Error>)
        ensures
            match r {
                Ok(o) => self.orders@.contains_key(id) && *o == self.orders@[id],
                Err(e) => !self.orders@.contains_key(id) && e == L3Error::OrderDoesNotExist(id),
            },
    {
        match self.orders.get(&id) {
            Some(o) => Ok(o),
            None => Err(L3Error::OrderDoesNotExist(id)),
        }
    }

    /// All of `levels_ok` but that the orders are all queued.
    pub open spec fn levels_core(&self, lv: Map<u64, Seq<OrderId>>) -> bool {
        &&& !lv.contains_key(0u64)
        &&& lv.dom() == self.price_head@.dom()
        &&& lv.dom() == self.price_tail@.dom()
        &&& forall|p: u64| #[trigger] lv.contains_key(p) ==> self.level_ok(p, lv[p])
        &&& forall|p: u64, q: u64, id: OrderId|
            lv.contains_key(p) && lv.contains_key(q) && p != q && #[trigger] lv[p].contains(id) ==> !#[trigger] lv[q].contains(id)
        &&& forall|p: u64, id: OrderId| lv.contains_key(p) && #[trigger] lv[p].contains(id) ==>
            self.orders@.contains_key(id) && self.orders@[id].price == p
    }

    /// The L3 is well formed but for order `id`, stored at `price` and not queued.
    pub open spec fn ready_to_queue(&self, price: u64, id: OrderId) -> bool {
        &&& self.ids_ok()
        &&& exists|lv: Map<u64, Seq<OrderId>>| {
            &&& self.levels_core(lv)
            &&& !in_levels(lv, id)
            &&& forall|oid: OrderId| #[trigger] self.orders@.contains_key(oid) ==> in_levels(lv, oid) || oid == id
            &&& self.orders@.contains_key(id)
            &&& self.orders@[id].price == price
        }
    }

    /// The queue of `price` with `id` appended.
    pub open spec fn queued(lv: Map<u64, Seq<OrderId>>, price: u64, id: OrderId) -> Map<u64, Seq<OrderId>> {
        if lv.contains_key(price) { lv.insert(price, lv[price].push(id)) } else { lv.insert(price, seq![id]) }
    }

    /// Appends order `id` to the queue of price level `price` (FIFO).
    pub fn insert_id(&mut self, price: u64, id: OrderId, _amount: u128) -> (r: Result<(), L3Error>)
        requires
            old(self).ready_to_queue(price, id),
        ensures
            price == 0 ==> r == Err::<(), L3Error>(L3Error::PriceIsZero) && *final(self) == *old(self),
            price != 0 && !old(self).order_nodes@.contains_key(id) ==> r == Err::<(), L3Error>(L3Error::OrderDoesNotExist(id)) && *final(self) == *old(self),
            price != 0 && old(self).order_nodes@.contains_key(id) ==> {
                &&& r is Ok
                &&& final(self).wf()
                &&& exists|lv: Map<u64, Seq<OrderId>>| old(self).levels_core(lv) && final(self).levels() == Self::queued(lv, price, id)
                &&& final(self).orders@ == old(self).orders@
                &&& final(self).dust == old(self).dust
                &&& final(self).dormant_order == old(self).dormant_order
            },
    {
        Self::ensure_price(price)?;
        if !self.order_nodes.contains_key(&id) {
            return Err(L3Error::OrderDoesNotExist(id));
        }
        let ghost lv = choose|lv: Map<u64, Seq<OrderId>>| {
            &&& self.levels_core(lv)
            &&& !in_levels(lv, id)
            &&& forall|oid: OrderId| #[trigger] self.orders@.contains_key(oid) ==> in_levels(lv, oid) || oid == id
            &&& self.orders@.contains_key(id)
            &&& self.orders@[id].price == price
        };
        let ghost old_links = node_links(self.order_nodes@);
        let ghost nlv = Self::queued(lv, price, id);
        let tail = match self.price_tail.get(&price) {
            Some(t) => Some(*t),
            None => None,
        };
        match tail {
            Some(t) => {
                let ghost s = lv[price];
                assert(self.level_ok(price, s));
                let ghost k = s.len() as int;
                assert(t == s[k - 1]);
                assert(linked_at(old_links, s, k - 1));
                let tn = match self.order_nodes.get(&t) {
                    Some(n) => *n,
                    None => {
                        assert(false);
                        return Err(L3Error::OrderDoesNotExist(t));
                    },
                };
                assert(!s.contains(id)) by {
                    if s.contains(id) { assert(in_levels(lv, id)); }
                }
                proof {
                    lemma_node_links_insert(self.order_nodes@, id, Node { prev: Some(t), next: None });
                }
                self.order_nodes.insert(id, Node { prev: Some(t), next: None });
                proof {
                    lemma_node_links_insert(self.order_nodes@, t, Node { prev: tn.prev, next: Some(id) });
                }
                self.order_nodes.insert(t, Node { prev: tn.prev, next: Some(id) });
                self.price_tail.insert(price, id);
                proof {
                    assert(s[k - 1] != id);
                    assert(node_links(self.order_nodes@) =~= link_in_links(old_links, s, k, id));
                    lemma_chain_link_in(old_links, s, k, id);
                    assert(s.insert(k, id) =~= s.push(id));
                    assert(lv.dom().insert(price) =~= self.price_head@.dom());
                    assert(lv.dom().insert(price) =~= self.price_tail@.dom());
                    self.lemma_queue_frame(lv, nlv, price, id, old_links, Some(t));
                }
            },
            None => {
                assert(!lv.contains_key(price));
                proof {
                    lemma_node_links_insert(self.order_nodes@, id, Node { prev: None, next: None });
                }
                self.order_nodes.insert(id, Node { prev: None, next: None });
                self.price_head.insert(price, id);
                self.price_tail.insert(price, id);
                proof {
                    let t = seq![id];
                    assert(linked_at(node_links(self.order_nodes@), t, 0));
                    assert(chain(node_links(self.order_nodes@), t));
                    assert(lv.dom().insert(price) =~= self.price_head@.dom());
                    assert(lv.dom().insert(price) =~= self.price_tail@.dom());
                    self.lemma_queue_frame(lv, nlv, price, id, old_links, None);
                }
            },
        }
        Ok(())
    }

    /// After queueing `id` at `price`, the other levels are untouched and the result is well formed.
    proof fn lemma_queue_frame(&self, lv: Map<u64, Seq<OrderId>>, nlv: Map<u64, Seq<OrderId>>, price: u64, id: OrderId,
        old_links: Links<OrderId>, t: Option<OrderId>)
        requires
            price != 0,
            !lv.contains_key(0u64),
            nlv == Self::queued(lv, price, id),
            lv.dom().insert(price) == self.price_head@.dom(),
            lv.dom().insert(price) == self.price_tail@.dom(),
            self.level_ok(price, nlv[price]),
            !in_levels(lv, id),
            self.orders@.contains_key(id),
            self.orders@[id].price == price,
            self.ids_ok(),
            forall|oid: OrderId| #[trigger] self.orders@.contains_key(oid) ==> in_levels(lv, oid) || oid == id,
            forall|q: u64| #[trigger] lv.contains_key(q) && q != price ==> {
                &&& lv[q].len() > 0
                &&& chain(old_links, lv[q])
                &&& self.price_head@[q] == lv[q][0]
                &&& self.price_tail@[q] == lv[q].last()
            },
            forall|p: u64, q: u64, x: OrderId|
                lv.contains_key(p) && lv.contains_key(q) && p != q && #[trigger] lv[p].contains(x) ==> !#[trigger] lv[q].contains(x),
            forall|p: u64, x: OrderId| lv.contains_key(p) && #[trigger] lv[p].contains(x) ==>
                self.orders@.contains_key(x) && self.orders@[x].price == p,
            forall|x: OrderId| x != id && (t is None || x != t->0) ==>
                (old_links.contains_key(x) ==> node_links(self.order_nodes@).contains_key(x) && node_links(self.order_nodes@)[x] == old_links[x]),
            t is Some ==> lv.contains_key(price) && lv[price].contains(t->0),
            t is None ==> !lv.contains_key(price),
        ensures
            self.levels_ok(nlv),
            self.wf(),
            self.levels() == nlv,
    {
        let nl = node_links(self.order_nodes@);
        assert forall|q: u64| #[trigger] nlv.contains_key(q) implies self.level_ok(q, nlv[q]) by {
            if q != price {
                assert(lv.contains_key(q));
                assert forall|i: int| 0 <= i < lv[q].len() implies nl.contains_key(#[trigger] lv[q][i]) && nl[lv[q][i]] == old_links[lv[q][i]] by {
                    let x = lv[q][i];
                    assert(lv[q].contains(x));
                    if x == id { assert(in_levels(lv, id)); }
                    if t is Some && x == t->0 { assert(lv[price].contains(x)); }
                    assert(linked_at(old_links, lv[q], i));
                }
                lemma_chain_frame(old_links, nl, lv[q]);
            }
        }
        assert forall|p: u64, q: u64, x: OrderId|
            nlv.contains_key(p) && nlv.contains_key(q) && p != q && #[trigger] nlv[p].contains(x) implies !#[trigger] nlv[q].contains(x) by {
            if p == price {
                if x == id {
                    if nlv[q].contains(x) { assert(lv[q].contains(x)); assert(in_levels(lv, id)); }
                } else {
                    if lv.contains_key(price) {
                        let j = choose|j: int| 0 <= j < nlv[p].len() && nlv[p][j] == x;
                        assert(lv[price].contains(x)) by { assert(lv[price][j] == x); }
                    }
                    assert(lv[q] == nlv[q]);
                }
            } else if q == price {
                assert(lv[p] == nlv[p]);
                if nlv[q].contains(x) {
                    if x == id { assert(in_levels(lv, id)); }
                    else {
                        let j = choose|j: int| 0 <= j < nlv[q].len() && nlv[q][j] == x;
                        assert(lv[price].contains(x)) by { assert(lv[price][j] == x); }
                    }
                }
            } else {
                assert(lv[p] == nlv[p] && lv[q] == nlv[q]);
            }
        }
        assert forall|p: u64, x: OrderId| nlv.contains_key(p) && #[trigger] nlv[p].contains(x) implies
            self.orders@.contains_key(x) && self.orders@[x].price == p by {
            if p == price && x != id {
                let j = choose|j: int| 0 <= j < nlv[p].len() && nlv[p][j] == x;
                assert(lv.contains_key(price));
                assert(lv[price][j] == x);
                assert(lv[price].contains(x));
            } else if p != price {
                assert(lv[p] == nlv[p]);
            }
        }
        assert forall|oid: OrderId| #[trigger] self.orders@.contains_key(oid) implies in_levels(nlv, oid) by {
            if oid == id {
                assert(nlv[price].last() == id);
                assert(nlv[price].contains(id));
            } else {
                assert(in_levels(lv, oid));
                let p = choose|p: u64| lv.contains_key(p) && #[trigger] lv[p].contains(oid);
                if p == price {
                    let j = choose|j: int| 0 <= j < lv[p].len() && lv[p][j] == oid;
                    assert(nlv[p][j] == oid);
                    assert(nlv[p].contains(oid));
                } else {
                    assert(nlv[p] == lv[p]);
                }
            }
        }
        assert(nlv.dom() =~= self.price_head@.dom());
        assert(nlv.dom() =~= self.price_tail@.dom());
        assert(self.levels_ok(nlv));
        self.lemma_levels_is(nlv);
    }

    /// The levels after `id` left the queue of `price`.
    pub open spec fn unqueued(lv: Map<u64, Seq<OrderId>>, price: u64, id: OrderId) -> Map<u64, Seq<OrderId>> {
        let t = lv[price].remove_value(id);
        if t.len() > 0 { lv.insert(price, t) } else { lv.remove(price) }
    }

    /// After order `id` left the queue of `price` (and the order map), the other
    /// levels are untouched and the result is well formed.
    proof fn lemma_unqueue_frame(&self, old_l3: &L3, lv: Map<u64, Seq<OrderId>>, price: u64, id: OrderId, k: int)
        requires
            old_l3.levels_ok(lv),
            old_l3.ids_ok(),
            lv.contains_key(price),
            0 <= k < lv[price].len(),
            lv[price][k] == id,
            self.orders@ == old_l3.orders@.remove(id),
            ({
                let t = lv[price].remove(k);
                &&& t.len() > 0 ==> self.level_ok(price, t)
                &&& t.len() > 0 ==> self.price_head@.dom() == old_l3.price_head@.dom()
                &&& t.len() > 0 ==> self.price_tail@.dom() == old_l3.price_tail@.dom()
                &&& t.len() == 0 ==> self.price_head@.dom() == old_l3.price_head@.dom().remove(price)
                &&& t.len() == 0 ==> self.price_tail@.dom() == old_l3.price_tail@.dom().remove(price)
            }),
            forall|q: u64| q != price ==> #[trigger] self.price_head@.contains_key(q) ==> self.price_head@[q] == old_l3.price_head@[q],
            forall|q: u64| q != price ==> #[trigger] self.price_tail@.contains_key(q) ==> self.price_tail@[q] == old_l3.price_tail@[q],
            forall|x: OrderId| !lv[price].contains(x) && #[trigger] node_links(old_l3.order_nodes@).contains_key(x) ==>
                node_links(self.order_nodes@).contains_key(x) && node_links(self.order_nodes@)[x] == node_links(old_l3.order_nodes@)[x],
        ensures
            self.levels_ok(Self::unqueued(lv, price, id)),
            self.wf(),
            self.levels() == Self::unqueued(lv, price, id),
    {
        let s = lv[price];
        s.index_of_first_ensures(id);
        assert(s.index_of_first(id) == Some(k));
        let t = s.remove(k);
        assert(s.remove_value(id) == t);
        let nlv = Self::unqueued(lv, price, id);
        let ol = node_links(old_l3.order_nodes@);
        let nl = node_links(self.order_nodes@);
        assert(forall|q: u64| #[trigger] lv.contains_key(q) ==> old_l3.level_ok(q, lv[q]));
        assert forall|x: OrderId| t.contains(x) implies s.contains(x) && x != id by {
            let j = choose|j: int| 0 <= j < t.len() && t[j] == x;
            let sj = if j < k { j } else { j + 1 };
            assert(s[sj] == x);
        }
        assert forall|q: u64| #[trigger] nlv.contains_key(q) implies self.level_ok(q, nlv[q]) by {
            if q != price {
                assert(lv.contains_key(q));
                assert(old_l3.level_ok(q, lv[q]));
                assert forall|i: int| 0 <= i < lv[q].len() implies nl.contains_key(#[trigger] lv[q][i]) && nl[lv[q][i]] == ol[lv[q][i]] by {
                    let x = lv[q][i];
                    assert(lv[q].contains(x));
                    assert(!s.contains(x));
                    assert(linked_at(ol, lv[q], i));
                }
                lemma_chain_frame(ol, nl, lv[q]);
                assert(self.price_head@.contains_key(q));
                assert(self.price_tail@.contains_key(q));
            }
        }
        assert forall|p: u64, q: u64, x: OrderId|
            nlv.contains_key(p) && nlv.contains_key(q) && p != q && #[trigger] nlv[p].contains(x) implies !#[trigger] nlv[q].contains(x) by {
            if p == price {
                assert(lv[q] == nlv[q]);
                assert(s.contains(x));
            } else if q == price {
                assert(lv[p] == nlv[p]);
                if nlv[q].contains(x) { assert(s.contains(x)); }
            } else {
                assert(lv[p] == nlv[p] && lv[q] == nlv[q]);
            }
        }
        assert forall|p: u64, x: OrderId| nlv.contains_key(p) && #[trigger] nlv[p].contains(x) implies
            self.orders@.contains_key(x) && self.orders@[x].price == p by {
            if p == price {
                assert(s.contains(x) && x != id);
            } else {
                assert(lv[p] == nlv[p]);
                if x == id { assert(s.contains(id)); }
            }
        }
        assert forall|oid: OrderId| #[trigger] self.orders@.contains_key(oid) implies in_levels(nlv, oid) by {
            assert(old_l3.orders@.contains_key(oid) && oid != id);
            assert(in_levels(lv, oid));
            let p = choose|p: u64| lv.contains_key(p) && #[trigger] lv[p].contains(oid);
            if p == price {
                let j = choose|j: int| 0 <= j < s.len() && s[j] == oid;
                assert(j != k);
                if j < k { assert(t[j] == oid); } else { assert(t[j - 1] == oid); }
                assert(t.contains(oid));
                assert(nlv.contains_key(price));
                assert(nlv[price].contains(oid));
            } else {
                assert(nlv[p] == lv[p]);
            }
        }
        if t.len() > 0 {
            assert(nlv.dom() =~= self.price_head@.dom());
            assert(nlv.dom() =~= self.price_tail@.dom());
        } else {
            assert(nlv.dom() =~= self.price_head@.dom());
            assert(nlv.dom() =~= self.price_tail@.dom());
        }
        assert(self.levels_ok(nlv));
        self.lemma_levels_is(nlv);
    }

    /// Deletes an order; returns its price when its level became empty.
    pub fn delete_order(&mut self, id: OrderId) -> (r: Result<Option<u64>, L3Error>)
        requires
            old(self).wf(),
        ensures
            final(self).wf(),
            !old(self).orders@.contains_key(id) ==> r == Err::<Option<u64>, L3Error>(L3Error::OrderDoesNotExist(id)) && *final(self) == *old(self),
            old(self).orders@.contains_key(id) ==> {
                let price = old(self).orders@[id].price;
                &&& final(self).levels() == Self::unqueued(old(self).levels(), price, id)
                &&& final(self).orders@ == old(self).orders@.remove(id)
                &&& r == Ok::<Option<u64>, L3Error>(if final(self).level(price).len() == 0 { Some(price) } else { None })
                &&& final(self).dust == old(self).dust
                &&& final(self).dormant_order == old(self).dormant_order
            },
    {
        let price = match self.orders.get(&id) {
            Some(o) => o.price,
            None => return Err(L3Error::OrderDoesNotExist(id)),
        };
        let ghost lv = self.levels();
        let ghost old_l3 = *self;
        let ghost ol = node_links(self.order_nodes@);
        proof {
            self.lemma_levels();
            assert(in_levels(lv, id));
            let p = choose|p: u64| lv.contains_key(p) && #[trigger] lv[p].contains(id);
            assert(self.orders@[id].price == p);
            assert(lv.contains_key(price));
        }
        let ghost s = lv[price];
        let ghost k = s.index_of_first(id).unwrap();
        proof {
            s.index_of_first_ensures(id);
            assert(self.level_ok(price, s));
            assert(linked_at(ol, s, k));
        }
        let node = match self.order_nodes.get(&id) {
            Some(n) => *n,
            None => {
                assert(false);
                return Err(L3Error::OrderDoesNotExist(id));
            },
        };
        let ghost t = s.remove(k);
        let mut emptied_price: Option<u64> = None;
        match (node.prev, node.next) {
            (Some(prev), Some(next)) => {
                // connect prev and next nodes in both directions
                proof {
                    assert(linked_at(ol, s, k - 1));
                    assert(linked_at(ol, s, k + 1));
                    assert(s[k - 1] != s[k + 1]);
                }
                let pn = self.order_nodes.get(&prev).unwrap();
                let pn = *pn;
                let nn = self.order_nodes.get(&next).unwrap();
                let nn = *nn;
                proof { lemma_node_links_insert(self.order_nodes@, prev, Node { prev: pn.prev, next: Some(next) }); }
                self.order_nodes.insert(prev, Node { prev: pn.prev, next: Some(next) });
                proof { lemma_node_links_insert(self.order_nodes@, next, Node { prev: Some(prev), next: nn.next }); }
                self.order_nodes.insert(next, Node { prev: Some(prev), next: nn.next });
                proof {
                    assert(node_links(self.order_nodes@) =~= unlink_links(ol, s, k));
                    lemma_chain_unlink(ol, s, k);
                    assert(t[0] == s[0]);
                    assert(t.last() == s.last());
                }
            },
            (Some(prev), None) => {
                // the order was the tail: prev becomes the tail
                proof { assert(linked_at(ol, s, k - 1)); }
                let pn = self.order_nodes.get(&prev).unwrap();
                let pn = *pn;
                proof { lemma_node_links_insert(self.order_nodes@, prev, Node { prev: pn.prev, next: None }); }
                self.order_nodes.insert(prev, Node { prev: pn.prev, next: None });
                self.price_tail.insert(price, prev);
                proof {
                    assert(node_links(self.order_nodes@) =~= unlink_links(ol, s, k));
                    lemma_chain_unlink(ol, s, k);
                    assert(t[0] == s[0]);
                    assert(t.last() == s[k - 1]);
                    assert(self.price_tail@.dom() =~= old_l3.price_tail@.dom());
                }
            },
            (None, Some(next)) => {
                // the order was the head: next becomes the head
                proof { assert(linked_at(ol, s, k + 1)); }
                let nn = self.order_nodes.get(&next).unwrap();
                let nn = *nn;
                proof { lemma_node_links_insert(self.order_nodes@, next, Node { prev: None, next: nn.next }); }
                self.order_nodes.insert(next, Node { prev: None, next: nn.next });
                self.price_head.insert(price, next);
                proof {
                    assert(node_links(self.order_nodes@) =~= unlink_links(ol, s, k));
                    lemma_chain_unlink(ol, s, k);
                    assert(t[0] == s[1]);
                    assert(t.last() == s.last());
                    assert(self.price_head@.dom() =~= old_l3.price_head@.dom());
                }
            },
            (None, None) => {
                // the level becomes empty
                self.price_head.remove(&price);
                self.price_tail.remove(&price);
                proof { lemma_node_links_remove(self.order_nodes@, id); }
                self.order_nodes.remove(&id);
                emptied_price = Some(price);
                proof {
                    assert(s.len() == 1);
                    assert(t.len() == 0);
                }
            },
        }
        self.orders.remove(&id);
        proof {
            assert(self.orders@ =~= old_l3.orders@.remove(id));
            if t.len() > 0 {
                assert(node_links(self.order_nodes@) == unlink_links(ol, s, k));
                assert(chain(node_links(self.order_nodes@), t));
            }
            assert forall|x: OrderId| !s.contains(x) && #[trigger] ol.contains_key(x) implies
                node_links(self.order_nodes@).contains_key(x) && node_links(self.order_nodes@)[x] == ol[x] by {
                if k > 0 { assert(s[k - 1] != x); }
                if k + 1 < s.len() { assert(s[k + 1] != x); }
                assert(s[k] != x);
            }
            self.lemma_unqueue_frame(&old_l3, lv, price, id, k);
        }
        Ok(emptied_price)
    }

    /// Removes the oldest order of price level `price` and returns it, with
    /// whether the level became empty.
    pub fn pop_front(&mut self, price: u64) -> (r: Result<(Option<Order>, bool), L3Error>)
        requires
            old(self).wf(),
        ensures
            final(self).wf(),
            price == 0 ==> r is Err && r->Err_0 == L3Error::PriceIsZero && *final(self) == *old(self),
            price != 0 && old(self).level(price).len() == 0 ==> r is Ok && r->Ok_0.0 is None && r->Ok_0.1 && *final(self) == *old(self),
            price != 0 && old(self).level(price).len() > 0 ==> {
                let h = old(self).level(price)[0];
                &&& r is Ok
                &&& r->Ok_0.0 is Some
                &&& r->Ok_0.0->Some_0@ == old(self).orders_view()[h]
                &&& r->Ok_0.1 == (old(self).level(price).len() == 1)
                &&& final(self).levels() == Self::unqueued(old(self).levels(), price, h)
                &&& final(self).orders@ == old(self).orders@.remove(h)
                &&& final(self).dust == old(self).dust
                &&& final(self).dormant_order == old(self).dormant_order
            },
    {
        Self::ensure_price(price)?;
        let head_id = match self.price_head.get(&price) {
            Some(h) => *h,
            None => {
                proof { self.lemma_levels(); }
                return Ok((None, true));
            },
        };
        let ghost lv = self.levels();
        let ghost old_l3 = *self;
        let ghost ol = node_links(self.order_nodes@);
        let ghost s = lv[price];
        proof {
            self.lemma_levels();
            assert(lv.contains_key(price));
            assert(self.level_ok(price, s));
            assert(linked_at(ol, s, 0));
            assert(s.contains(head_id));
            assert(self.orders@.contains_key(head_id));
        }
        let node = match self.order_nodes.get(&head_id) {
            Some(n) => *n,
            None => {
                assert(false);
                return Err(L3Error::OrderDoesNotExist(head_id));
            },
        };
        let ghost t = s.remove(0);
        let is_empty = match node.next {
            Some(next) => {
                proof {
                    assert(linked_at(ol, s, 1));
                    assert(s[0] != s[1]);
                }
                let nn = self.order_nodes.get(&next).unwrap();
                let nn = *nn;
                assert(ol[next] == (nn.prev, nn.next));
                proof { lemma_node_links_insert(self.order_nodes@, head_id, Node { prev: node.prev, next: None }); }
                self.order_nodes.insert(head_id, Node { prev: node.prev, next: None });
                proof { lemma_node_links_insert(self.order_nodes@, next, Node { prev: None, next: nn.next }); }
                self.order_nodes.insert(next, Node { prev: None, next: nn.next });
                // set next node as the new head of the price level
                self.price_head.insert(price, next);
                proof {
                    lemma_chain_unlink(ol, s, 0);
                    let ul = unlink_links(ol, s, 0);
                    assert forall|i: int| 0 <= i < t.len() implies node_links(self.order_nodes@).contains_key(#[trigger] t[i])
                        && node_links(self.order_nodes@)[t[i]] == ul[t[i]] by {
                        assert(t[i] == s[i + 1]);
                        assert(s[i + 1] != s[0]);
                        assert(linked_at(ol, s, i + 1));
                        if i > 0 { assert(s[i + 1] != s[1]); }
                    }
                    lemma_chain_frame(ul, node_links(self.order_nodes@), t);
                    assert(t[0] == s[1]);
                    assert(t.last() == s.last());
                    assert(self.price_head@.dom() =~= old_l3.price_head@.dom());
                }
                false
            },
            None => {
                self.price_head.remove(&price);
                self.price_tail.remove(&price);
                true
            },
        };
        let order = match self.orders.remove(&head_id) {
            Some(o) => o,
            None => {
                assert(false);
                return Err(L3Error::OrderDoesNotExist(head_id));
            },
        };
        proof {
            assert(self.orders@ =~= old_l3.orders@.remove(head_id));
            assert forall|x: OrderId| !s.contains(x) && #[trigger] ol.contains_key(x) implies
                node_links(self.order_nodes@).contains_key(x) && node_links(self.order_nodes@)[x] == ol[x] by {
                assert(s[0] != x);
                if s.len() > 1 { assert(s[1] != x); }
            }
            self.lemma_unqueue_frame(&old_l3, lv, price, head_id, 0);
        }
        Ok((Some(order), is_empty))
    }

    /// Takes `amount` from order `id`. When what remains is at most `dust`, or
    /// `clear` is set, the order is deleted and its whole current quantity is
    /// returned. Returns the quantity taken and, when the order's level became
    /// empty, its price. An unknown order gives `(0, None)`.
    pub fn decrease_order(&mut self, id: OrderId, amount: u64, dust: u64, clear: bool) -> (r: Result<(u64, Option<u64>), L3Error>)
        requires
            old(self).wf(),
        ensures
            final(self).wf(),
            r is Ok,
            !old(self).orders@.contains_key(id) ==> r->Ok_0 == (0u64, None::<u64>) && *final(self) == *old(self),
            old(self).orders@.contains_key(id) ==> {
                let o = old(self).orders@[id];
                let sent = if amount < o.cqty { amount } else { o.cqty };
                let decreased = o.cqty - sent;
                if clear || decreased <= dust {
                    &&& r->Ok_0.0 == o.cqty
                    &&& final(self).levels() == Self::unqueued(old(self).levels(), o.price, id)
                    &&& final(self).orders@ == old(self).orders@.remove(id)
                    &&& r->Ok_0.1 == (if final(self).level(o.price).len() == 0 { Some(o.price) } else { None })
                } else {
                    &&& r->Ok_0 == (sent, None::<u64>)
                    &&& final(self).levels() == old(self).levels()
                    &&& final(self).orders@.dom() == old(self).orders@.dom()
                    &&& final(self).orders_view() == old(self).orders_view().insert(id, OrderModel {
                        cqty: decreased as u64,
                        pqty: if decreased >= o.pqty { o.pqty } else { decreased as u64 },
                        ..o@
                    })
                }
            },
            final(self).dust == old(self).dust,
            final(self).dormant_order == old(self).dormant_order,
    {
        let original = match self.orders.get(&id) {
            Some(o) => o.cqty,
            None => return Ok((0, None)),
        };
        let ghost old_l3 = *old(self);
        let mut amount_to_send = if amount < original { amount } else { original };
        let decreased = original - amount_to_send;
        if clear || decreased <= dust {
            amount_to_send = original;
            let delete_price = self.delete_order(id)?;
            Ok((amount_to_send, delete_price))
        } else {
            let mut order = self.orders.remove(&id).unwrap();
            order.cqty = decreased;
            order.pqty = if order.cqty >= order.pqty { order.pqty } else { order.cqty };
            self.orders.insert(id, order);
            proof {
                let lv = old_l3.levels();
                old_l3.lemma_levels();
                assert(self.orders@.dom() =~= old_l3.orders@.dom());
                assert(self.orders_view() =~= old_l3.orders_view().insert(id, self.orders@[id]@));
                assert(forall|p: u64| #[trigger] lv.contains_key(p) ==> self.level_ok(p, lv[p]));
                assert(self.levels_ok(lv));
                self.lemma_levels_is(lv);
            }
            Ok((amount_to_send, None))
        }
    }

    /// Sets the iceberg quantity of order `id` and recomputes its public
    /// quantity; returns the updated order. The iceberg quantity is stored
    /// before it is checked against the whole amount.
    pub fn set_iceberg_quantity(&mut self, id: OrderId, iqty: u64) -> (r: Result<Order, L3Error>)
        requires
            old(self).wf(),
        ensures
            final(self).wf(),
            final(self).levels() == old(self).levels(),
            final(self).orders@.dom() == old(self).orders@.dom(),
            !old(self).orders@.contains_key(id) ==> r == Err::<Order, L3Error>(L3Error::OrderDoesNotExist(id)) && *final(self) == *old(self),
            old(self).orders@.contains_key(id) ==> {
                let o = old(self).orders@[id]@;
                if iqty > o.amnt {
                    &&& r == Err::<Order, L3Error>(L3Error::IcebergQuantityIsBiggerThanWholeAmount)
                    &&& final(self).orders_view() == old(self).orders_view().insert(id, OrderModel { iqty, ..o })
                } else {
                    let pqty = if o.cqty >= (o.amnt - iqty) as u64 { (o.amnt - iqty) as u64 } else { o.cqty };
                    &&& r is Ok
                    &&& r->Ok_0@ == OrderModel { iqty, pqty, ..o }
                    &&& final(self).orders_view() == old(self).orders_view().insert(id, OrderModel { iqty, pqty, ..o })
                }
            },
            final(self).order_nodes == old(self).order_nodes,
            final(self).price_head == old(self).price_head,
            final(self).price_tail == old(self).price_tail,
            final(self).dust == old(self).dust,
            final(self).dormant_order == old(self).dormant_order,
    {
        if !self.orders.contains_key(&id) {
            return Err(L3Error::OrderDoesNotExist(id));
        }
        let mut order = self.orders.remove(&id).unwrap();
        let ghost old_l3 = *old(self);
        // update iqty of the order and public quantity of the order
        order.iqty = iqty;
        let result = if order.iqty > order.amnt {
            Err(L3Error::IcebergQuantityIsBiggerThanWholeAmount)
        } else {
            let new_pqty = order.amnt - order.iqty;
            order.pqty = if order.cqty >= new_pqty { new_pqty } else { order.cqty };
            Ok(order.cloned())
        };
        self.orders.insert(id, order);
        proof {
            let lv = old_l3.levels();
            old_l3.lemma_levels();
            assert(self.orders@.dom() =~= old_l3.orders@.dom());
            assert(self.orders_view() =~= old_l3.orders_view().insert(id, self.orders@[id]@));
            assert(forall|p: u64| #[trigger] lv.contains_key(p) ==> self.level_ok(p, lv[p]));
            assert(self.levels_ok(lv));
            self.lemma_levels_is(lv);
        }
        result
    }

    /// Creates order `id` and queues it at the tail of its price level.
    #[allow(clippy::too_many_arguments)]
    pub fn create_order_with_id(
        &mut self,
        id: OrderId,
        cid: Vec<u8>,
        owner: Vec<u8>,
        is_bid: bool,
        price: u64,
        amnt: u64,
        iqty: u64,
        timestamp: i64,
        expires_at: i64,
        fee_bps: u16,
    ) -> (r: Result<Order, L3Error>)
        requires
            old(self).wf(),
        ensures
            final(self).wf(),
            price == 0 ==> r == Err::<Order, L3Error>(L3Error::PriceIsZero),
            price != 0 && iqty > amnt ==> r == Err::<Order, L3Error>(L3Error::IcebergQuantityIsBiggerThanWholeAmount),
            price != 0 && iqty <= amnt && old(self).orders@.contains_key(id) ==> r == Err::<Order, L3Error>(L3Error::DuplicateOrderId(id)),
            r is Err ==> *final(self) == *old(self),
            price != 0 && iqty <= amnt && !old(self).orders@.contains_key(id) ==> {
                let m = OrderModel {
                    cid: cid@, id, owner: owner@, is_bid, price, amnt, iqty, pqty: (amnt - iqty) as u64, cqty: amnt,
                    timestamp, expires_at, fee_bps,
                };
                &&& r is Ok
                &&& r->Ok_0@ == m
                &&& final(self).orders_view() == old(self).orders_view().insert(id, m)
                &&& final(self).levels() == Self::queued(old(self).levels(), price, id)
                &&& final(self).dust == old(self).dust
                &&& final(self).dormant_order == old(self).dormant_order
            },
    {
        Self::ensure_price(price)?;
        if iqty > amnt {
            return Err(L3Error::IcebergQuantityIsBiggerThanWholeAmount);
        }
        if self.orders.contains_key(&id) {
            return Err(L3Error::DuplicateOrderId(id));
        }
        let pqty = amnt - iqty;
        let order = Order::new(cid, id, owner, is_bid, price, amnt, iqty, pqty, amnt, timestamp, expires_at, fee_bps);
        let ghost lv = self.levels();
        let ghost old_l3 = *self;
        let ghost ol = node_links(self.order_nodes@);
        proof { self.lemma_levels(); }
        // Create a new node for the order
        proof { lemma_node_links_insert(self.order_nodes@, id, Node { prev: None, next: None }); }
        self.order_nodes.insert(id, Node { prev: None, next: None });
        self.orders.insert(id, order.cloned());
        proof {
            assert(!in_levels(lv, id)) by {
                if in_levels(lv, id) {
                    let p = choose|p: u64| lv.contains_key(p) && #[trigger] lv[p].contains(id);
                    assert(old_l3.orders@.contains_key(id));
                }
            }
            assert forall|p: u64| #[trigger] lv.contains_key(p) implies self.level_ok(p, lv[p]) by {
                assert(old_l3.level_ok(p, lv[p]));
                assert forall|i: int| 0 <= i < lv[p].len() implies node_links(self.order_nodes@).contains_key(#[trigger] lv[p][i])
                    && node_links(self.order_nodes@)[lv[p][i]] == ol[lv[p][i]] by {
                    assert(lv[p].contains(lv[p][i]));
                    assert(linked_at(ol, lv[p], i));
                }
                lemma_chain_frame(ol, node_links(self.order_nodes@), lv[p]);
            }
            assert forall|p: u64, x: OrderId| lv.contains_key(p) && #[trigger] lv[p].contains(x) implies
                self.orders@.contains_key(x) && self.orders@[x].price == p by {
                if x == id { assert(in_levels(lv, id)); }
            }
            assert(self.levels_core(lv));
            assert(self.ready_to_queue(price, id));
        }
        let ghost mid = *self;
        let _ = self.insert_id(price, id, amnt as u128);
        proof {
            let nlv = choose|nlv: Map<u64, Seq<OrderId>>| mid.levels_core(nlv) && self.levels() == Self::queued(nlv, price, id);
            assert(mid.levels_core(nlv));
            // both `lv` and `nlv` describe the levels of `mid`
            assert forall|p: u64| #[trigger] lv.contains_key(p) implies lv[p] == nlv[p] by {
                assert(nlv.contains_key(p));
                assert(mid.level_ok(p, lv[p]));
                assert(mid.level_ok(p, nlv[p]));
                lemma_chain_unique(node_links(mid.order_nodes@), lv[p], nlv[p]);
            }
            assert(lv =~= nlv);
            assert(self.orders_view() =~= old_l3.orders_view().insert(id, order@));
        }
        Ok(order)
    }

    /// Creates a new order under a fresh id and queues it at its price level.
    #[allow(clippy::too_many_arguments)]
    pub fn create_order(
        &mut self,
        cid: Vec<u8>,
        owner: Vec<u8>,
        is_bid: bool,
        price: u64,
        amnt: u64,
        iqty: u64,
        timestamp: i64,
        expires_at: i64,
        fee_bps: u16,
    ) -> (r: Result<Order, L3Error>)
        requires
            old(self).wf(),
        ensures
            final(self).wf(),
            price == 0 ==> r == Err::<Order, L3Error>(L3Error::PriceIsZero),
            price != 0 && iqty > amnt ==> r == Err::<Order, L3Error>(L3Error::IcebergQuantityIsBiggerThanWholeAmount),
            r is Err ==> *final(self) == *old(self),
            r is Err && price != 0 && iqty <= amnt ==> r->Err_0 is DuplicateOrderId && old(self).orders@.contains_key(r->Err_0->DuplicateOrderId_0),
            r is Ok ==> {
                let id = r->Ok_0.id;
                let m = OrderModel {
                    cid: cid@, id, owner: owner@, is_bid, price, amnt, iqty, pqty: (amnt - iqty) as u64, cqty: amnt,
                    timestamp, expires_at, fee_bps,
                };
                &&& price != 0 && iqty <= amnt
                &&& !old(self).orders@.contains_key(id)
                &&& r->Ok_0@ == m
                &&& final(self).orders_view() == old(self).orders_view().insert(id, m)
                &&& final(self).levels() == Self::queued(old(self).levels(), price, id)
                &&& final(self).dust == old(self).dust
                &&& final(self).dormant_order == old(self).dormant_order
            },
    {
        let id = new_order_id();
        self.create_order_with_id(id, cid, owner, is_bid, price, amnt, iqty, timestamp, expires_at, fee_bps)
    }

    /// Returns a fresh id, as the next order creation would draw.
    pub fn next_make_id(&self) -> (id: OrderId) {
        new_order_id()
    }

    /// The id linked after `current` in its level.
    pub fn next(&self, _price: u64, current: OrderId) -> (r: Option<OrderId>)
        requires
            self.wf(),
        ensures
            r == (if self.order_nodes@.contains_key(current) { self.order_nodes@[current].next } else { None::<OrderId> }),
            forall|i: int| 0 <= i < self.level(_price).len() && self.level(_price)[i] == current ==>
                r == next_in(self.level(_price), i),
    {
        proof {
            self.lemma_levels();
            assert forall|i: int| 0 <= i < self.level(_price).len() && self.level(_price)[i] == current implies
                self.order_nodes@.contains_key(current) && self.order_nodes@[current].next == next_in(self.level(_price), i) by {
                assert(self.level_ok(_price, self.levels()[_price]));
                assert(linked_at(node_links(self.order_nodes@), self.level(_price), i));
            }
        }
        match self.order_nodes.get(&current) {
            Some(node) => node.next,
            None => None,
        }
    }

    /// How many ids `get_order_ids(price, n)` returns: up to `n` but at least
    /// one when the level is not empty.
    pub open spec fn ids_count(&self, price: u64, n: u32) -> int {
        let len = self.level(price).len() as int;
        let want: int = if n == 0 { 1 } else { n as int };
        if want < len { want } else { len }
    }

    /// Reads the node of `id`, which level `price` holds at position `i`.
    fn node_of(&self, price: u64, id: OrderId, Ghost(i): Ghost<int>) -> (n: Node)
        requires
            self.wf(),
            0 <= i < self.level(price).len(),
            self.level(price)[i] == id,
        ensures
            n.prev == prev_in(self.level(price), i),
            n.next == next_in(self.level(price), i),
    {
        proof {
            self.lemma_levels();
            assert(self.level_ok(price, self.levels()[price]));
            assert(linked_at(node_links(self.order_nodes@), self.level(price), i));
        }
        match self.order_nodes.get(&id) {
            Some(n) => *n,
            None => {
                assert(false);
                Node { prev: None, next: None }
            },
        }
    }

    /// Collects up to `n` order ids from the front of price level `price`
    /// (at least one when the level is not empty).
    pub fn get_order_ids(&self, price: u64, n: u32) -> (r: Vec<OrderId>)
        requires
            self.wf(),
        ensures
            r@ == self.level(price).take(self.ids_count(price, n)),
    {
        let mut result: Vec<OrderId> = Vec::new();
        let mut current = self.head(price);
        let ghost s = self.level(price);
        let ghost mut i: int = 0;
        while current.is_some()
            invariant
                self.wf(),
                s == self.level(price),
                0 <= i <= s.len(),
                i <= self.ids_count(price, n),
                result@ == s.take(i),
                i > 0 ==> i < (if n == 0 { 1int } else { n as int }),
                current == (if i < s.len() { Some(s[i]) } else { None::<OrderId> }),
            decreases s.len() - i,
        {
            let id = current.unwrap();
            result.push(id);
            proof {
                assert(s.take(i + 1) =~= s.take(i).push(s[i]));
                i = i + 1;
            }
            if result.len() as u32 >= n {
                return result;
            }
            let node = self.node_of(price, id, Ghost(i - 1));
            current = node.next;
        }
        assert(s.take(i) =~= s);
        result
    }

    /// The orders of the given ids, in order.
    fn orders_of(&self, ids: &Vec<OrderId>) -> (r: Vec<Order>)
        requires
            forall|i: int| 0 <= i < ids@.len() ==> self.orders@.contains_key(#[trigger] ids@[i]),
        ensures
            r@.len() == ids@.len(),
            forall|i: int| 0 <= i < ids@.len() ==> (#[trigger] r@[i])@ == self.orders_view()[ids@[i]],
    {
        let mut out: Vec<Order> = Vec::new();
        let mut i: usize = 0;
        while i < ids.len()
            invariant
                forall|j: int| 0 <= j < ids@.len() ==> self.orders@.contains_key(#[trigger] ids@[j]),
                i <= ids@.len(),
                out@.len() == i,
                forall|j: int| 0 <= j < i ==> (#[trigger] out@[j])@ == self.orders_view()[ids@[j]],
            decreases ids@.len() - i,
        {
            let o = self.orders.get(&ids[i]).unwrap();
            out.push(o.cloned());
            i = i + 1;
        }
        out
    }

    /// Collects up to `n` orders from the front of price level `price`
    /// (at least one when the level is not empty).
    pub fn get_orders(&self, price: u64, n: u32) -> (r: Vec<Order>)
        requires
            self.wf(),
        ensures
            r@.len() == self.ids_count(price, n),
            forall|i: int| 0 <= i < r@.len() ==> (#[trigger] r@[i])@ == self.orders_view()[self.level(price)[i]],
    {
        let ids = self.get_order_ids(price, n);
        proof {
            self.lemma_levels();
            assert forall|i: int| 0 <= i < ids@.len() implies self.orders@.contains_key(#[trigger] ids@[i]) by {
                assert(ids@[i] == self.level(price)[i]);
                assert(self.levels()[price].contains(ids@[i]));
            }
        }
        self.orders_of(&ids)
    }

    /// Collects the orders at positions `[start, end)` of price level `price`.
    pub fn get_orders_in_range(&self, price: u64, start: u32, end: u32) -> (r: Vec<Order>)
        requires
            self.wf(),
        ensures
            ({
                let len = self.level(price).len() as int;
                let lo: int = if (start as int) < len { start as int } else { len };
                let hi: int = if (end as int) < len { end as int } else { len };
                &&& start >= end ==> r@.len() == 0
                &&& start < end ==> r@.len() == hi - lo
                &&& start < end ==> forall|i: int| 0 <= i < r@.len() ==> (#[trigger] r@[i])@ == self.orders_view()[self.level(price)[lo + i]]
            }),
    {
        if start >= end {
            return Vec::new();
        }
        let ghost s = self.level(price);
        let ghost len = s.len() as int;
        let ghost lo: int = if (start as int) < len { start as int } else { len };
        let mut current_index: u32 = 0;
        let mut current = self.head(price);
        let mut result: Vec<Order> = Vec::new();
        proof { self.lemma_levels(); }
        while current.is_some() && current_index < end
            invariant
                self.wf(),
                s == self.level(price),
                len == s.len(),
                lo == (if (start as int) < len { start as int } else { len }),
                start < end,
                0 <= current_index <= len,
                current_index <= end,
                current == (if (current_index as int) < len { Some(s[current_index as int]) } else { None::<OrderId> }),
                result@.len() == (if current_index < start { 0 } else { current_index - start }),
                forall|i: int| 0 <= i < result@.len() ==> (#[trigger] result@[i])@ == self.orders_view()[s[lo + i]],
            decreases len - current_index,
        {
            let id = current.unwrap();
            if current_index >= start {
                proof {
                    assert(self.levels()[price].contains(id));
                }
                let o = self.orders.get(&id).unwrap();
                result.push(o.cloned());
            }
            let node = self.node_of(price, id, Ghost(current_index as int));
            current = node.next;
            current_index = current_index + 1;
        }
        result
    }
}

/// Filtering by a predicate that always holds keeps everything.
proof fn lemma_filter_all(s: Seq<OrderId>)
    ensures
        s.filter(|y: OrderId| true) == s,
    decreases s.len(),
{
    reveal(Seq::filter);
    if s.len() > 0 {
        lemma_filter_all(s.drop_last());
        assert(s.drop_last().push(s.last()) =~= s);
    }
}

/// After order `id` (at `price`) left the queues, the queue of `price` lost
/// its `id` and the other queues are as they were.
proof fn lemma_level_after_unqueue(before: L3, after: L3, id: OrderId, price: u64)
    requires
        before.wf(),
        before.orders@.contains_key(id),
        before.orders@[id].price == price,
        after.levels() == L3::unqueued(before.levels(), price, id),
    ensures
        after.level(price) == before.level(price).remove_value(id),
        forall|q: u64| q != price ==> #[trigger] after.level(q) == before.level(q),
{
    before.lemma_levels();
    let lv = before.levels();
    assert(in_levels(lv, id));
    let p = choose|p: u64| lv.contains_key(p) && #[trigger] lv[p].contains(id);
    assert(before.orders@[id].price == p);
    assert(lv.contains_key(price));
    let t = lv[price].remove_value(id);
    if t.len() == 0 {
        assert(after.level(price) =~= t);
    }
}

/// Filtering by two predicates that agree on every element gives the same.
proof fn lemma_filter_congruent(s: Seq<OrderId>, p: spec_fn(OrderId) -> bool, q: spec_fn(OrderId) -> bool)
    requires
        forall|i: int| 0 <= i < s.len() ==> p(#[trigger] s[i]) == q(s[i]),
    ensures
        s.filter(p) == s.filter(q),
    decreases s.len(),
{
    reveal(Seq::filter);
    if s.len() > 0 {
        let rest = s.drop_last();
        assert forall|i: int| 0 <= i < rest.len() implies p(#[trigger] rest[i]) == q(rest[i]) by {
            assert(rest[i] == s[i]);
        }
        lemma_filter_congruent(rest, p, q);
    }
}

/// Removing `x` from a sequence without `x` changes nothing.
proof fn lemma_remove_absent(t: Seq<OrderId>, x: OrderId)
    requires
        !t.contains(x),
    ensures
        t.remove_value(x) == t,
{
    t.index_of_first_ensures(x);
}

/// The first `x` of `t` followed by `y != x` is the first `x` of `t`.
proof fn lemma_remove_value_push(t: Seq<OrderId>, y: OrderId, x: OrderId)
    requires
        y != x,
    ensures
        t.push(y).remove_value(x) == t.remove_value(x).push(y),
{
    t.index_of_first_ensures(x);
    t.push(y).index_of_first_ensures(x);
    if t.contains(x) {
        let i = t.index_of_first(x).unwrap();
        assert(t.push(y).contains(x)) by { assert(t.push(y)[i] == x); }
        let j = t.push(y).index_of_first(x).unwrap();
        if j < i { assert(t[j] == x); }
        if i < j { assert(t.push(y)[i] == x); }
        assert(t.push(y).remove(j) =~= t.remove(i).push(y));
    } else {
        assert(!t.push(y).contains(x)) by {
            if t.push(y).contains(x) {
                let k = choose|k: int| 0 <= k < t.push(y).len() && t.push(y)[k] == x;
                assert(t[k] == x);
            }
        }
    }
}

/// Removing the `x` just pushed onto a sequence without `x`.
proof fn lemma_remove_pushed(t: Seq<OrderId>, x: OrderId)
    requires
        !t.contains(x),
    ensures
        t.push(x).remove_value(x) == t,
{
    let u = t.push(x);
    u.index_of_first_ensures(x);
    assert(u[t.len() as int] == x);
    let j = u.index_of_first(x).unwrap();
    if j < t.len() { assert(t[j] == x); }
    assert(u.remove(j) =~= t);
}

/// Filtering a sequence without repeats by `h` and then removing `x` is
/// filtering by `h` and "not `x`".
proof fn lemma_filter_without(s: Seq<OrderId>, h: spec_fn(OrderId) -> bool, g: spec_fn(OrderId) -> bool, x: OrderId)
    requires
        s.no_duplicates(),
        forall|y: OrderId| #[trigger] g(y) == (h(y) && y != x),
    ensures
        s.filter(g) == s.filter(h).remove_value(x),
    decreases s.len(),
{
    reveal(Seq::filter);
    if s.len() == 0 {
        lemma_remove_absent(s.filter(h), x);
    } else {
        let rest = s.drop_last();
        let y = s.last();
        assert(rest.no_duplicates());
        lemma_filter_without(rest, h, g, x);
        assert(rest.push(y) =~= s);
        rest.lemma_filter_push(y, g);
        rest.lemma_filter_push(y, h);
        let t = rest.filter(h);
        if y == x {
            assert(!rest.contains(x)) by {
                if rest.contains(x) {
                    let k = choose|k: int| 0 <= k < rest.len() && rest[k] == x;
                    assert(s[k] == s[s.len() - 1]);
                }
            }
            assert(!t.contains(x)) by {
                if t.contains(x) { rest.lemma_filter_contains_rev(h, x); }
            }
            lemma_remove_absent(t, x);
            if h(y) {
                lemma_remove_pushed(t, x);
            }
        } else if h(y) {
            lemma_remove_value_push(t, y, x);
        }
    }
}

impl L3 {
    /// Whether stored order `id` has expired at time `now`.
    pub open spec fn expired_at(&self, id: OrderId, now: i64) -> bool {
        self.orders@.contains_key(id) && self.orders@[id].expires_at <= now
    }

    /// The ids and copies of all orders expired at `now`, each once.
    fn collect_expired(&self, now: i64) -> (r: Vec<(OrderId, Order)>)
        ensures
            forall|i: int| 0 <= i < r@.len() ==> self.expired_at((#[trigger] r@[i]).0, now) && r@[i].1@ == self.orders_view()[r@[i].0],
            forall|id: OrderId| self.expired_at(id, now) ==> exists|i: int| 0 <= i < r@.len() && (#[trigger] r@[i]).0 == id,
            forall|i: int, j: int| 0 <= i < j < r@.len() ==> (#[trigger] r@[i]).0 != (#[trigger] r@[j]).0,
    {
        let mut expired: Vec<(OrderId, Order)> = Vec::new();
        let ghost keys = vstd::std_specs::hash::spec_keys_iter(&self.orders).remaining().unref();
        proof {
            broadcast use vstd::std_specs::hash::axiom_spec_keys_iter;
            assert(keys.to_set() == self.orders@.dom());
            assert(keys.no_duplicates());
        }
        let mut ids: Vec<OrderId> = Vec::new();
        for idr in it: self.orders.keys()
            invariant
                it.seq().unref() == keys,
                ids@ == keys.take(it.index()),
        {
            ids.push(*idr);
            proof { assert(keys.take(it.index() + 1) =~= keys.take(it.index()).push(keys[it.index()])); }
        }
        assert(ids@ =~= keys);
        let mut n: usize = 0;
        while n < ids.len()
            invariant
                ids@ == keys,
                keys.to_set() == self.orders@.dom(),
                keys.no_duplicates(),
                n <= keys.len(),
                forall|i: int| 0 <= i < expired@.len() ==> self.expired_at((#[trigger] expired@[i]).0, now)
                    && expired@[i].1@ == self.orders_view()[expired@[i].0],
                forall|k: int| 0 <= k < n && self.expired_at(#[trigger] keys[k], now) ==>
                    exists|i: int| 0 <= i < expired@.len() && (#[trigger] expired@[i]).0 == keys[k],
                forall|i: int| 0 <= i < expired@.len() ==> exists|k: int| 0 <= k < n && keys[k] == (#[trigger] expired@[i]).0,
                forall|i: int, j: int| 0 <= i < j < expired@.len() ==> (#[trigger] expired@[i]).0 != (#[trigger] expired@[j]).0,
            decreases ids@.len() - n,
        {
            let id = ids[n];
            assert(keys.to_set().contains(id));
            let o = self.orders.get(&id).unwrap();
            let ghost before = expired@;
            if o.expires_at <= now {
                proof {
                    assert forall|i: int| 0 <= i < expired@.len() implies (#[trigger] expired@[i]).0 != id by {
                        let k2 = choose|k2: int| 0 <= k2 < n && keys[k2] == expired@[i].0;
                        assert(keys[k2] != keys[n as int]);
                    }
                }
                expired.push((id, o.cloned()));
                proof {
                    let last = expired@.len() - 1;
                    assert(expired@[last].0 == keys[n as int]);
                    assert forall|i: int| 0 <= i < expired@.len() implies exists|k: int| 0 <= k < n + 1 && keys[k] == (#[trigger] expired@[i]).0 by {
                        if i == last {
                            assert(keys[n as int] == expired@[i].0);
                        } else {
                            let k2 = choose|k2: int| 0 <= k2 < n && keys[k2] == expired@[i].0;
                            assert(keys[k2] == expired@[i].0);
                        }
                    }
                    assert forall|k: int| 0 <= k < n + 1 && self.expired_at(#[trigger] keys[k], now) implies
                        exists|i: int| 0 <= i < expired@.len() && (#[trigger] expired@[i]).0 == keys[k] by {
                        if k == n {
                            assert(expired@[last].0 == keys[k]);
                        } else {
                            let i = choose|i: int| 0 <= i < before.len() && (#[trigger] before[i]).0 == keys[k];
                            assert(expired@[i] == before[i]);
                        }
                    }
                }
            }
            n = n + 1;
        }
        proof {
            assert forall|id: OrderId| self.expired_at(id, now) implies exists|i: int| 0 <= i < expired@.len() && (#[trigger] expired@[i]).0 == id by {
                assert(keys.to_set().contains(id));
                let k = choose|k: int| 0 <= k < keys.len() && keys[k] == id;
                assert(self.expired_at(keys[k], now));
            }
        }
        expired
    }

    /// Removes the orders that expired at `now` (`expires_at <= now`) and
    /// returns them with their ids.
    pub fn remove_dormant_orders(&mut self, now: i64) -> (r: Vec<(OrderId, Order)>)
        requires
            old(self).wf(),
        ensures
            final(self).wf(),
            forall|i: int| 0 <= i < r@.len() ==> old(self).expired_at((#[trigger] r@[i]).0, now) && r@[i].1@ == old(self).orders_view()[r@[i].0],
            forall|id: OrderId| old(self).expired_at(id, now) ==> exists|i: int| 0 <= i < r@.len() && (#[trigger] r@[i]).0 == id,
            forall|i: int, j: int| 0 <= i < j < r@.len() ==> (#[trigger] r@[i]).0 != (#[trigger] r@[j]).0,
            forall|id: OrderId| #[trigger] final(self).orders@.contains_key(id) <==> old(self).orders@.contains_key(id) && !old(self).expired_at(id, now),
            forall|id: OrderId| #[trigger] final(self).orders@.contains_key(id) ==> final(self).orders@[id] == old(self).orders@[id],
            final(self).dust == old(self).dust,
            final(self).dormant_order == old(self).dormant_order,
            forall|p: u64| #[trigger] final(self).level(p) == old(self).level(p).filter(|id: OrderId| !old(self).expired_at(id, now)),
    {
        let expired = self.collect_expired(now);
        let mut i: usize = 0;
        let ghost mut gone: Set<OrderId> = Set::empty();
        proof {
            old(self).lemma_levels();
            assert forall|p: u64| #[trigger] self.level(p) == old(self).level(p).filter(|y: OrderId| !gone.contains(y)) by {
                lemma_filter_congruent(old(self).level(p), |y: OrderId| !gone.contains(y), |y: OrderId| true);
                lemma_filter_all(old(self).level(p));
            }
        }
        while i < expired.len()
            invariant
                self.wf(),
                old(self).wf(),
                forall|id: OrderId| #[trigger] gone.contains(id) <==> (exists|j: int| 0 <= j < i && (#[trigger] expired@[j]).0 == id),
                forall|p: u64| #[trigger] self.level(p) == old(self).level(p).filter(|y: OrderId| !gone.contains(y)),
                i <= expired@.len(),
                forall|j: int| 0 <= j < expired@.len() ==> old(self).expired_at((#[trigger] expired@[j]).0, now),
                forall|a: int, b: int| 0 <= a < b < expired@.len() ==> (#[trigger] expired@[a]).0 != (#[trigger] expired@[b]).0,
                forall|id: OrderId| #[trigger] self.orders@.contains_key(id) <==>
                    old(self).orders@.contains_key(id) && !(exists|j: int| 0 <= j < i && (#[trigger] expired@[j]).0 == id),
                forall|id: OrderId| #[trigger] self.orders@.contains_key(id) ==> self.orders@[id] == old(self).orders@[id],
                self.dust == old(self).dust,
                self.dormant_order == old(self).dormant_order,
            decreases expired@.len() - i,
        {
            let id = expired[i].0;
            proof {
                assert(old(self).orders@.contains_key(id));
                assert(!(exists|j: int| 0 <= j < i && (#[trigger] expired@[j]).0 == id)) by {
                    if exists|j: int| 0 <= j < i && (#[trigger] expired@[j]).0 == id {
                        let j = choose|j: int| 0 <= j < i && (#[trigger] expired@[j]).0 == id;
                        assert(expired@[j].0 != expired@[i as int].0);
                    }
                }
                assert(self.orders@.contains_key(id));
            }
            let ghost before = self.orders@;
            let ghost l3_before = *self;
            let ghost price = self.orders@[id].price;
            proof { self.lemma_levels(); }
            let _ = self.delete_order(id);
            proof {
                let gone2 = gone.insert(id);
                old(self).lemma_levels();
                assert(old(self).orders@[id].price == price);
                assert forall|p: u64| #[trigger] self.level(p) == old(self).level(p).filter(|y: OrderId| !gone2.contains(y)) by {
                    let lp = old(self).level(p);
                    assert(lp.no_duplicates());
                    let before_pred = |y: OrderId| !gone.contains(y);
                    let after_pred = |y: OrderId| !gone2.contains(y);
                    lemma_filter_without(lp, before_pred, after_pred, id);
                    assert(l3_before.level(p) == lp.filter(before_pred));
                    if p == price {
                        lemma_level_after_unqueue(l3_before, *self, id, price);
                    } else {
                        assert(!lp.contains(id)) by {
                            if lp.contains(id) {
                                assert(old(self).levels().contains_key(p));
                            }
                        }
                        assert(!lp.filter(before_pred).contains(id)) by {
                            if lp.filter(before_pred).contains(id) {
                                lp.lemma_filter_contains_rev(before_pred, id);
                            }
                        }
                        lemma_remove_absent(lp.filter(before_pred), id);
                        assert(self.level(p) == l3_before.level(p));
                    }
                }
                gone = gone2;
                assert forall|x: OrderId| #[trigger] self.orders@.contains_key(x) <==>
                    old(self).orders@.contains_key(x) && !(exists|j: int| 0 <= j < i + 1 && (#[trigger] expired@[j]).0 == x) by {
                    if x == id {
                        assert(expired@[i as int].0 == x);
                    } else {
                        if exists|j: int| 0 <= j < i + 1 && (#[trigger] expired@[j]).0 == x {
                            let j = choose|j: int| 0 <= j < i + 1 && (#[trigger] expired@[j]).0 == x;
                            assert(j < i);
                        }
                    }
                }
            }
            i = i + 1;
        }
        proof {
            old(self).lemma_levels();
            assert forall|p: u64| #[trigger] self.level(p) == old(self).level(p).filter(|id: OrderId| !old(self).expired_at(id, now)) by {
                let lp = old(self).level(p);
                assert forall|k: int| 0 <= k < lp.len() implies
                    (!gone.contains(#[trigger] lp[k])) == !old(self).expired_at(lp[k], now) by {
                    let y = lp[k];
                    assert(lp.contains(y));
                    assert(old(self).levels().contains_key(p));
                    assert(old(self).orders@.contains_key(y));
                    if old(self).expired_at(y, now) {
                        let j = choose|j: int| 0 <= j < expired@.len() && (#[trigger] expired@[j]).0 == y;
                        assert(expired@[j].0 == y);
                    }
                    if gone.contains(y) {
                        let j = choose|j: int| 0 <= j < i && (#[trigger] expired@[j]).0 == y;
                        assert(old(self).expired_at(expired@[j].0, now));
                    }
                }
                lemma_filter_congruent(lp, |y: OrderId| !gone.contains(y), |id: OrderId| !old(self).expired_at(id, now));
            }
            assert forall|id: OrderId| #[trigger] self.orders@.contains_key(id) <==> old(self).orders@.contains_key(id) && !old(self).expired_at(id, now) by {
                if old(self).expired_at(id, now) {
                    let j = choose|j: int| 0 <= j < expired@.len() && (#[trigger] expired@[j]).0 == id;
                    assert(expired@[j].0 == id);
                }
                if exists|j: int| 0 <= j < expired@.len() && (#[trigger] expired@[j]).0 == id {
                    let j = choose|j: int| 0 <= j < expired@.len() && (#[trigger] expired@[j]).0 == id;
                    assert(old(self).expired_at(expired@[j].0, now));
                }
            }
        }
        expired
    }
}

/// Taking an order out of its queue right after queueing it gives back the
/// queues as they were.
pub proof fn law_unqueue_undoes_queue(lv: Map<u64, Seq<OrderId>>, price: u64, id: OrderId)
    requires
        !in_levels(lv, id),
        forall|p: u64| #[trigger] lv.contains_key(p) ==> lv[p].len() > 0,
    ensures
        L3::unqueued(L3::queued(lv, price, id), price, id) == lv,
{
    let q = L3::queued(lv, price, id);
    if lv.contains_key(price) {
        let s = lv[price];
        assert(!s.contains(id));
        let t = s.push(id);
        t.index_of_first_ensures(id);
        assert(t.contains(id)) by { assert(t[s.len() as int] == id); }
        assert(t.index_of_first(id) == Some(s.len() as int)) by {
            let k = t.index_of_first(id)->Some_0;
            if k < s.len() { assert(t[k] == s[k]); assert(s[k] == id); }
        }
        assert(t.remove_value(id) =~= s);
        assert(q[price].remove_value(id) == s);
        assert(L3::unqueued(q, price, id) =~= lv);
    } else {
        let t = seq![id];
        t.index_of_first_ensures(id);
        assert(t.contains(id)) by { assert(t[0] == id); }
        assert(t.index_of_first(id) == Some(0int));
        assert(t.remove(0) =~= Seq::<OrderId>::empty());
        assert(t.remove_value(id) =~= Seq::<OrderId>::empty());
        assert(L3::unqueued(q, price, id) =~= lv);
    }
}

/// The 16 bytes of `x`, most significant first.
pub open spec fn be_bytes(x: u128) -> Seq<u8> {
    Seq::new(16, |i: int| ((x as int / vstd::arithmetic::power2::pow2((8 * (15 - i)) as nat) as int) % 256) as u8)
}

/// The bytes of order id `id` as `ulid::Ulid::to_bytes` gives them, which
/// is `u128::to_be_bytes`: the 16 bytes of the id, most significant first.
#[verifier::external_body]
pub(crate) fn order_id_bytes(id: OrderId) -> (b: Vec<u8>)
    ensures
        b@ == be_bytes(id),
{
    ulid::Ulid(id).to_bytes().to_vec()
}

/// Draws a new order id with `ulid::Ulid::new`: a ULID made of the current
/// time and random bits, as a `u128`. Nothing is promised of its value.
#[verifier::external_body]
pub(crate) fn new_order_id() -> (id: OrderId) {
    ulid::Ulid::new().0
}

} // verus!
