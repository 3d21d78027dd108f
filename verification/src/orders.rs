//! Level-3 data with sequential 32-bit order ids: the orders, and for each
//! price a FIFO queue of order ids kept as a doubly linked list.
//!
//! The id 0 stands for "no order" throughout: a missing head or tail reads
//! as 0, and the walk along a queue stops at 0.
use std::collections::{BTreeMap, HashMap};
use vstd::prelude::*;
use crate::bytes::copy_bytes;

verus! {

broadcast use {vstd::std_specs::btree::group_btree_axioms, vstd::std_specs::hash::group_hash_axioms,
    vstd::laws_cmp::group_laws_cmp};

/// An order stored in the order book.
#[derive(Clone, Debug, PartialEq, Eq)]
pub struct Order {
    /// client order id
    pub cid: Vec<u8>,
    /// owner of the order
    pub owner: Vec<u8>,
    /// price of the order in 8 decimals
    pub price: u64,
    /// public liquidity for iceberg orders to protect position in 8 decimals
    pub pq: u64,
    /// initial liquidity of the order in 8 decimals
    pub iq: u64,
    /// current liquidity of the order in 8 decimals
    pub cq: u64,
    /// timestamp of the order in milliseconds
    pub timestamp: i64,
}

/// The mathematical value of an order.
pub struct OrderModel {
    pub cid: Seq<u8>,
    pub owner: Seq<u8>,
    pub price: u64,
    pub pq: u64,
    pub iq: u64,
    pub cq: u64,
    pub timestamp: i64,
}

impl View for Order {
    type V = OrderModel;

    open spec fn view(&self) -> OrderModel {
        OrderModel {
            cid: self.cid@,
            owner: self.owner@,
            price: self.price,
            pq: self.pq,
            iq: self.iq,
            cq: self.cq,
            timestamp: self.timestamp,
        }
    }
}

impl Order {
    pub fn new(cid: Vec<u8>, owner: Vec<u8>, price: u64, pq: u64, iq: u64, cq: u64, timestamp: i64) -> (o: Self)
        ensures
            o@ == (OrderModel { cid: cid@, owner: owner@, price, pq, iq, cq, timestamp }),
    {
        Self { cid, owner, price, pq, iq, cq, timestamp }
    }

    /// A copy of this order.
    pub fn cloned(&self) -> (o: Self)
        ensures
            o@ == self@,
    {
        Order {
            cid: copy_bytes(&self.cid),
            owner: copy_bytes(&self.owner),
            price: self.price,
            pq: self.pq,
            iq: self.iq,
            cq: self.cq,
            timestamp: self.timestamp,
        }
    }
}

impl Default for Order {
    /// An order with empty ids and all quantities zero.
    fn default() -> (o: Self)
        ensures
            o@ == (OrderModel {
                cid: Seq::empty(), owner: Seq::empty(), price: 0, pq: 0, iq: 0, cq: 0, timestamp: 0,
            }),
    {
        Order::new(Vec::new(), Vec::new(), 0, 0, 0, 0, 0)
    }
}

/// The links of an order in its price level's queue.
#[derive(Debug, Clone, Copy, PartialEq, Eq, Structural)]
pub struct Node {
    pub prev: Option<u32>,
    pub next: Option<u32>,
}

impl Default for Node {
    /// A node without links.
    fn default() -> (n: Self)
        ensures
            n == (Node { prev: None, next: None }),
    {
        Node { prev: None, next: None }
    }
}

/// Errors of the order storage.
#[derive(Debug, Clone, Copy, PartialEq, Eq, Structural)]
pub enum L3Error {
    OrderIdIsZero(u32),
    PriceIsZero,
    OrderDoesNotExist(u32),
}

/// Order storage: orders by id and a FIFO queue of ids per price.
#[derive(Debug, Clone, PartialEq, Eq)]
pub struct L3 {
    /// Mapping price -> head of the linked list in a price level.
    pub price_head: BTreeMap<u64, u32>,
    /// Mapping price -> last of the linked list in a price level.
    pub price_tail: BTreeMap<u64, u32>,
    /// Mapping order_id -> node of its price level's list.
    pub order_nodes: HashMap<u32, Node>,
    /// Mapping order_id -> Order.
    pub orders: HashMap<u32, Order>,
    /// Sequential counter for new order ids.
    pub count: u32,
    /// dust limit to determine if the order should be deleted
    pub dust: u64,
    /// Last displaced order when IDs collide.
    pub dormant_order: Option<Node>,
}

/// The mathematical value of the order storage.
#[verifier::ext_equal]
pub struct L3Model {
    pub price_head: Map<u64, u32>,
    pub price_tail: Map<u64, u32>,
    pub order_nodes: Map<u32, Node>,
    pub orders: Map<u32, OrderModel>,
    pub count: u32,
    pub dust: u64,
    pub dormant_order: Option<Node>,
}

impl View for L3 {
    type V = L3Model;

    open spec fn view(&self) -> L3Model {
        L3Model {
            price_head: self.price_head@,
            price_tail: self.price_tail@,
            order_nodes: self.order_nodes@,
            orders: self.orders@.map_values(|o: Order| o@),
            count: self.count,
            dust: self.dust,
            dormant_order: self.dormant_order,
        }
    }
}

/// `node` with its `next` link set to `next`.
pub open spec fn with_next(node: Node, next: Option<u32>) -> Node {
    Node { next, ..node }
}

/// `node` with its `prev` link set to `prev`.
pub open spec fn with_prev(node: Node, prev: Option<u32>) -> Node {
    Node { prev, ..node }
}

/// Queueing `id` at `price`: `id` is linked after the tail of the level (or
/// starts the level when it has no tail). The link of `id` is written before
/// the tail's node is looked up, so a missing tail node leaves it written.
pub open spec fn insert_id_model(m: L3Model, price: u64, id: u32) -> (L3Model, Result<(), L3Error>) {
    let tail = id_or_zero(m.price_tail, price);
    if price == 0 {
        (m, Err(L3Error::PriceIsZero))
    } else if !m.order_nodes.contains_key(id) {
        (m, Err(L3Error::OrderDoesNotExist(id)))
    } else if tail == 0 {
        let nodes = m.order_nodes.insert(id, Node { prev: None, next: None });
        (L3Model {
            order_nodes: nodes,
            price_head: m.price_head.insert(price, id),
            price_tail: m.price_tail.insert(price, id),
            ..m
        }, Ok(()))
    } else {
        let nodes = m.order_nodes.insert(id, Node { prev: Some(tail), next: None });
        if !nodes.contains_key(tail) {
            (L3Model { order_nodes: nodes, ..m }, Err(L3Error::OrderDoesNotExist(tail)))
        } else {
            (L3Model {
                order_nodes: nodes.insert(tail, with_next(nodes[tail], Some(id))),
                price_tail: m.price_tail.insert(price, id),
                ..m
            }, Ok(()))
        }
    }
}

/// Taking the first id off the level at `price`: `(Some(id), level now
/// empty)`, or `(None, true)` for a level without head. The id's order and
/// node stay stored; its `next` link is cleared when another id follows.
pub open spec fn pop_front_model(m: L3Model, price: u64) -> (L3Model, Result<(Option<u32>, bool), L3Error>) {
    let head = id_or_zero(m.price_head, price);
    if price == 0 {
        (m, Err(L3Error::PriceIsZero))
    } else if head == 0 {
        (m, Ok((None, true)))
    } else if !m.order_nodes.contains_key(head) {
        (m, Err(L3Error::OrderDoesNotExist(head)))
    } else {
        match m.order_nodes[head].next {
            Some(n) => {
                let nodes = m.order_nodes.insert(head, with_next(m.order_nodes[head], None));
                if !nodes.contains_key(n) {
                    (L3Model { order_nodes: nodes, ..m }, Err(L3Error::OrderDoesNotExist(n)))
                } else {
                    (L3Model {
                        order_nodes: nodes.insert(n, with_prev(nodes[n], None)),
                        price_head: m.price_head.insert(price, n),
                        ..m
                    }, Ok((Some(head), false)))
                }
            },
            None => (L3Model {
                price_head: m.price_head.remove(price),
                price_tail: m.price_tail.remove(price),
                ..m
            }, Ok((Some(head), true))),
        }
    }
}

/// Deleting order `id`: its neighbours are linked past it (only the `next`
/// link of the one before it, or the head or tail of the level, is
/// rewritten) and its order is removed, keeping its node; when it was alone
/// in its level, the level and its node are removed, its order stays, and
/// the price is returned.
pub open spec fn delete_model(m: L3Model, id: u32) -> (L3Model, Result<Option<u64>, L3Error>) {
    if id == 0 {
        (m, Err(L3Error::OrderIdIsZero(id)))
    } else if !m.orders.contains_key(id) || !m.order_nodes.contains_key(id) {
        (m, Err(L3Error::OrderDoesNotExist(id)))
    } else {
        let price = m.orders[id].price;
        let node = m.order_nodes[id];
        match (node.prev, node.next) {
            (Some(p), Some(n)) => if !m.order_nodes.contains_key(p) {
                (m, Err(L3Error::OrderDoesNotExist(p)))
            } else {
                (L3Model {
                    order_nodes: m.order_nodes.insert(p, with_next(m.order_nodes[p], Some(n))),
                    orders: m.orders.remove(id),
                    ..m
                }, Ok(None))
            },
            (Some(p), None) => if !m.order_nodes.contains_key(p) {
                (m, Err(L3Error::OrderDoesNotExist(p)))
            } else {
                (L3Model {
                    order_nodes: m.order_nodes.insert(p, with_next(m.order_nodes[p], None)),
                    price_tail: m.price_tail.insert(price, p),
                    orders: m.orders.remove(id),
                    ..m
                }, Ok(None))
            },
            (None, Some(n)) => if !m.order_nodes.contains_key(n) {
                (m, Err(L3Error::OrderDoesNotExist(n)))
            } else {
                (L3Model {
                    order_nodes: m.order_nodes.insert(n, with_prev(m.order_nodes[n], None)),
                    price_head: m.price_head.insert(price, n),
                    orders: m.orders.remove(id),
                    ..m
                }, Ok(None))
            },
            (None, None) => (L3Model {
                price_head: m.price_head.remove(price),
                price_tail: m.price_tail.remove(price),
                order_nodes: m.order_nodes.remove(id),
                ..m
            }, Ok(Some(price))),
        }
    }
}

/// Taking `amount` off order `id` with dust limit `dust`: the order keeps
/// what is left unless `clear` is set or no more than `dust` is left, in
/// which case the whole order is deleted. A public liquidity above what is
/// left stays; otherwise it becomes what is left. Returns the amount taken (all of
/// the order when it is deleted) and the price of a level that became empty;
/// `(0, None)` for an unknown id.
pub open spec fn decrease_model(m: L3Model, id: u32, amount: u64, dust: u64, clear: bool)
    -> (L3Model, Result<(u64, Option<u64>), L3Error>)
{
    if id == 0 {
        (m, Err(L3Error::OrderIdIsZero(id)))
    } else if !m.orders.contains_key(id) {
        (m, Ok((0, None)))
    } else {
        let original = m.orders[id].cq;
        let send = if amount < original { amount } else { original };
        let decreased = (original - send) as u64;
        if clear || decreased <= dust {
            let (d, rd) = delete_model(m, id);
            (d, match rd {
                Ok(p) => Ok((original, p)),
                Err(e) => Err(e),
            })
        } else {
            let pq = if m.orders[id].pq > decreased { m.orders[id].pq } else { decreased };
            (L3Model { orders: m.orders.insert(id, OrderModel { cq: decreased, pq, ..m.orders[id] }), ..m }, Ok((send, None)))
        }
    }
}

/// Storing `order` under the next id of the counter, with an unlinked node.
/// When that id is still in use, its node is kept as the dormant order and
/// its order deleted first; the result then reports `true`.
pub open spec fn create_model(m: L3Model, order: OrderModel) -> (L3Model, Result<(u32, bool), L3Error>) {
    let c = next_id(m.count);
    let m1 = L3Model { count: c, ..m };
    let unlinked = Node { prev: None, next: None };
    if order.price == 0 {
        (m, Err(L3Error::PriceIsZero))
    } else if m.order_nodes.contains_key(c) {
        let (d, rd) = delete_model(L3Model { dormant_order: Some(m.order_nodes[c]), ..m1 }, c);
        if rd is Err {
            (d, Err(rd->Err_0))
        } else if !d.order_nodes.contains_key(c) {
            (d, Err(L3Error::OrderDoesNotExist(c)))
        } else {
            (L3Model { order_nodes: d.order_nodes.insert(c, unlinked), orders: d.orders.insert(c, order), ..d }, Ok((c, true)))
        }
    } else {
        (L3Model { order_nodes: m1.order_nodes.insert(c, unlinked), orders: m1.orders.insert(c, order), ..m1 }, Ok((c, false)))
    }
}

/// The id stored under `price`, or 0 when there is none.
pub open spec fn id_or_zero(m: Map<u64, u32>, price: u64) -> u32 {
    if m.contains_key(price) { m[price] } else { 0 }
}

/// The id after `id` in `nodes`, or 0 when there is none.
pub open spec fn next_or_zero(nodes: Map<u32, Node>, id: u32) -> u32 {
    if nodes.contains_key(id) && nodes[id].next is Some { nodes[id].next->0 } else { 0 }
}

/// The ids met walking at most `k` steps along the `next` links from `cur`,
/// stopping at id 0.
pub open spec fn walk(nodes: Map<u32, Node>, cur: u32, k: nat) -> Seq<u32>
    decreases k,
{
    if k == 0 || cur == 0 {
        Seq::empty()
    } else {
        seq![cur] + walk(nodes, next_or_zero(nodes, cur), (k - 1) as nat)
    }
}

/// The id reached after `k` steps along the `next` links from `cur` (0 once
/// the walk has stopped).
pub open spec fn cursor(nodes: Map<u32, Node>, cur: u32, k: nat) -> u32
    decreases k,
{
    if k == 0 || cur == 0 {
        cur
    } else {
        cursor(nodes, next_or_zero(nodes, cur), (k - 1) as nat)
    }
}

/// The ids at positions `start` up to (excluding) `end` of the walk from
/// `head`.
pub open spec fn range_ids(nodes: Map<u32, Node>, head: u32, start: nat, end: nat) -> Seq<u32> {
    let w = walk(nodes, head, end);
    if start < w.len() { w.subrange(start as int, w.len() as int) } else { Seq::empty() }
}

/// The next id the counter `count` hands out: 1 after 0 or after the
/// largest id, else `count + 1`.
pub open spec fn next_id(count: u32) -> u32 {
    if count == 0 || count == u32::MAX { 1 } else { (count + 1) as u32 }
}

/// The orders stored under `ids`, in order, skipping ids without an order.
pub open spec fn orders_of(orders: Map<u32, Order>, ids: Seq<u32>) -> Seq<OrderModel>
    decreases ids.len(),
{
    if ids.len() == 0 {
        Seq::empty()
    } else if orders.contains_key(ids.last()) {
        orders_of(orders, ids.drop_last()).push(orders[ids.last()]@)
    } else {
        orders_of(orders, ids.drop_last())
    }
}

/// One more step of a walk appends the id it reaches, if any.
pub proof fn lemma_walk_step(nodes: Map<u32, Node>, cur: u32, k: nat)
    ensures
        cursor(nodes, cur, k) == 0 ==> walk(nodes, cur, k + 1) == walk(nodes, cur, k),
        cursor(nodes, cur, k) != 0 ==> walk(nodes, cur, k + 1) == walk(nodes, cur, k).push(cursor(nodes, cur, k)),
        cursor(nodes, cur, k + 1) == (if cursor(nodes, cur, k) == 0 { 0 } else {
            next_or_zero(nodes, cursor(nodes, cur, k)) }),
        walk(nodes, cur, k).len() <= k,
        walk(nodes, cur, k).len() < k ==> cursor(nodes, cur, k) == 0,
    decreases k,
{
    if k == 0 && cur != 0 {
        assert(walk(nodes, cur, 1) =~= seq![cur] + walk(nodes, next_or_zero(nodes, cur), 0));
        assert(cursor(nodes, cur, 1) == cursor(nodes, next_or_zero(nodes, cur), 0));
    }
    if k > 0 && cur != 0 {
        lemma_walk_step(nodes, next_or_zero(nodes, cur), (k - 1) as nat);
        let w = walk(nodes, next_or_zero(nodes, cur), (k - 1) as nat);
        if cursor(nodes, cur, k) != 0 {
            assert(seq![cur] + w.push(cursor(nodes, cur, k)) =~= (seq![cur] + w).push(cursor(nodes, cur, k)));
        }
    }
}

/// A walk that stopped early stays as it is.
proof fn lemma_walk_rest_empty(nodes: Map<u32, Node>, cur: u32, j: nat, k: nat)
    requires
        j <= k,
        cursor(nodes, cur, j) == 0,
    ensures
        walk(nodes, cur, k) == walk(nodes, cur, j),
        cursor(nodes, cur, k) == 0,
    decreases k - j,
{
    if j < k {
        lemma_walk_step(nodes, cur, j);
        lemma_walk_rest_empty(nodes, cur, j + 1, k);
    }
}

/// `s` is a chain of distinct, nonzero, stored ids linked by `next`, the
/// last one without a `next`.
pub open spec fn linked_seq(nodes: Map<u32, Node>, s: Seq<u32>) -> bool {
    &&& forall|i: int| 0 <= i < s.len() ==> #[trigger] s[i] != 0 && nodes.contains_key(s[i])
    &&& forall|i: int, j: int| 0 <= i < j < s.len() ==> #[trigger] s[i] != #[trigger] s[j]
    &&& forall|i: int| 0 <= i < s.len() - 1 ==> nodes[#[trigger] s[i]].next == Some(s[i + 1])
    &&& s.len() > 0 ==> nodes[s.last()].next is None
}

/// The level at `price` queues exactly `s`, from its head to its tail.
pub open spec fn level_holds(m: L3Model, price: u64, s: Seq<u32>) -> bool {
    &&& linked_seq(m.order_nodes, s)
    &&& id_or_zero(m.price_head, price) == (if s.len() == 0 { 0 } else { s[0] })
    &&& id_or_zero(m.price_tail, price) == (if s.len() == 0 { 0 } else { s.last() })
}

/// The walk from the first id of a linked chain meets the chain's ids in
/// order.
proof fn lemma_walk_linked(nodes: Map<u32, Node>, s: Seq<u32>, k: nat)
    requires
        linked_seq(nodes, s),
    ensures
        walk(nodes, if s.len() == 0 { 0 } else { s[0] }, k) == s.take(if k < s.len() { k as int } else { s.len() as int }),
    decreases s.len(),
{
    let first: u32 = if s.len() == 0 { 0 } else { s[0] };
    if s.len() == 0 || k == 0 {
        assert(s.take(0) =~= Seq::<u32>::empty());
    } else {
        let rest = s.drop_first();
        assert forall|i: int| 0 <= i < rest.len() - 1 implies nodes[#[trigger] rest[i]].next == Some(rest[i + 1]) by {
            assert(rest[i] == s[i + 1]);
        }
        assert forall|i: int, j: int| 0 <= i < j < rest.len() implies #[trigger] rest[i] != #[trigger] rest[j] by {
            assert(rest[i] == s[i + 1] && rest[j] == s[j + 1]);
        }
        assert forall|i: int| 0 <= i < rest.len() implies #[trigger] rest[i] != 0 && nodes.contains_key(rest[i]) by {
            assert(rest[i] == s[i + 1]);
        }
        if rest.len() > 0 {
            assert(rest.last() == s.last());
        }
        assert(linked_seq(nodes, rest));
        lemma_walk_linked(nodes, rest, (k - 1) as nat);
        let next = next_or_zero(nodes, s[0]);
        if s.len() == 1 {
            assert(next == 0);
        } else {
            assert(nodes[s[0]].next == Some(s[1]));
            assert(next == rest[0]);
        }
        let m: int = if k < s.len() { k as int } else { s.len() as int };
        let mr: int = if k - 1 < rest.len() { k - 1 } else { rest.len() as int };
        assert(walk(nodes, first, k) == seq![first] + walk(nodes, next, (k - 1) as nat));
        assert(seq![first] + rest.take(mr) =~= s.take(m));
    }
}

/// Walking the level at `price` gives its queued ids in order: the first
/// `k` of them.
pub proof fn law_level_walk(m: L3Model, price: u64, s: Seq<u32>, k: nat)
    requires
        level_holds(m, price, s),
    ensures
        walk(m.order_nodes, id_or_zero(m.price_head, price), k) == s.take(if k < s.len() { k as int } else { s.len() as int }),
{
    lemma_walk_linked(m.order_nodes, s, k);
}

/// Queueing a new id at a price appends it after the ids already queued
/// there (FIFO).
pub proof fn law_insert_id_appends(m: L3Model, price: u64, id: u32, s: Seq<u32>)
    requires
        level_holds(m, price, s),
        price != 0,
        id != 0,
        m.order_nodes.contains_key(id),
        !s.contains(id),
    ensures
        insert_id_model(m, price, id).1 == Ok::<(), L3Error>(()),
        level_holds(insert_id_model(m, price, id).0, price, s.push(id)),
{
    let r = insert_id_model(m, price, id).0;
    let t = s.push(id);
    if s.len() == 0 {
        assert(linked_seq(r.order_nodes, t));
    } else {
        let tail = s.last();
        assert(s.contains(tail));
        assert(tail != id);
        assert forall|i: int| 0 <= i < t.len() - 1 implies r.order_nodes[#[trigger] t[i]].next == Some(t[i + 1]) by {
            if i < s.len() - 1 {
                assert(s[i] != tail);
                assert(s.contains(s[i]));
            }
        }
        assert forall|i: int, j: int| 0 <= i < j < t.len() implies #[trigger] t[i] != #[trigger] t[j] by {
            if j == s.len() {
                assert(s.contains(t[i]));
            }
        }
        assert(linked_seq(r.order_nodes, t));
    }
}

/// Taking the first id off a level returns the id queued first and leaves
/// the others queued in order (FIFO).
pub proof fn law_pop_front_takes_first(m: L3Model, price: u64, s: Seq<u32>)
    requires
        level_holds(m, price, s),
        price != 0,
        s.len() > 0,
    ensures
        pop_front_model(m, price).1 == Ok::<(Option<u32>, bool), L3Error>((Some(s[0]), s.len() == 1)),
        level_holds(pop_front_model(m, price).0, price, s.drop_first()),
{
    let r = pop_front_model(m, price).0;
    let t = s.drop_first();
    assert(s[0] != 0 && m.order_nodes.contains_key(s[0]));
    if s.len() == 1 {
        assert(m.order_nodes[s.last()].next is None);
        assert(linked_seq(r.order_nodes, t));
    } else {
        assert(m.order_nodes[s[0]].next == Some(s[1]));
        assert(s[1] != 0 && m.order_nodes.contains_key(s[1]));
        assert forall|i: int| 0 <= i < t.len() implies #[trigger] t[i] != 0 && r.order_nodes.contains_key(t[i]) by {
            assert(t[i] == s[i + 1]);
        }
        assert forall|i: int, j: int| 0 <= i < j < t.len() implies #[trigger] t[i] != #[trigger] t[j] by {
            assert(t[i] == s[i + 1] && t[j] == s[j + 1]);
        }
        assert forall|i: int| 0 <= i < t.len() - 1 implies r.order_nodes[#[trigger] t[i]].next == Some(t[i + 1]) by {
            assert(t[i] == s[i + 1] && t[i + 1] == s[i + 2]);
            assert(s[i + 1] != s[0]);
            assert(m.order_nodes[s[i + 1]].next == Some(s[i + 2]));
        }
        assert(t.last() == s.last());
        assert(s.last() != s[0]);
        assert(linked_seq(r.order_nodes, t));
    }
}

/// Deleting the only queued id empties the level.
proof fn lemma_delete_alone(m: L3Model, price: u64, s: Seq<u32>, i: int)
    requires
        level_holds(m, price, s),
        0 <= i < s.len(),
        m.orders.contains_key(s[i]),
        m.orders[s[i]].price == price,
        m.order_nodes[s[i]].prev == (if i == 0 { None } else { Some(s[i - 1]) }),
        s.len() == 1,
    ensures
        delete_model(m, s[i]).1 == Ok::<Option<u64>, L3Error>(if s.len() == 1 { Some(price) } else { None }),
        level_holds(delete_model(m, s[i]).0, price, s.remove(i)),
{
    let r = delete_model(m, s[i]).0;
    let t = s.remove(i);
    let id = s[i];
    assert(id != 0 && m.order_nodes.contains_key(id));
    assert(m.order_nodes[s.last()].next is None);
    assert(t.len() == 0);
    assert(linked_seq(r.order_nodes, t));
}

/// Deleting the first of several queued ids.
proof fn lemma_delete_first(m: L3Model, price: u64, s: Seq<u32>, i: int)
    requires
        level_holds(m, price, s),
        0 <= i < s.len(),
        m.orders.contains_key(s[i]),
        m.orders[s[i]].price == price,
        m.order_nodes[s[i]].prev == (if i == 0 { None } else { Some(s[i - 1]) }),
        s.len() > 1 && i == 0,
    ensures
        delete_model(m, s[i]).1 == Ok::<Option<u64>, L3Error>(if s.len() == 1 { Some(price) } else { None }),
        level_holds(delete_model(m, s[i]).0, price, s.remove(i)),
{
    let r = delete_model(m, s[i]).0;
    let t = s.remove(i);
    let id = s[i];
    assert(id != 0 && m.order_nodes.contains_key(id));
    assert(m.order_nodes[s[0]].next == Some(s[1]));
    assert(s[1] != 0 && m.order_nodes.contains_key(s[1]));
    assert(t =~= s.drop_first());
    assert forall|j: int| 0 <= j < t.len() - 1 implies r.order_nodes[#[trigger] t[j]].next == Some(t[j + 1]) by {
        assert(t[j] == s[j + 1] && t[j + 1] == s[j + 2]);
        assert(m.order_nodes[s[j + 1]].next == Some(s[j + 2]));
    }
    assert forall|j: int, k: int| 0 <= j < k < t.len() implies #[trigger] t[j] != #[trigger] t[k] by {
        assert(t[j] == s[j + 1] && t[k] == s[k + 1]);
    }
    assert forall|j: int| 0 <= j < t.len() implies #[trigger] t[j] != 0 && r.order_nodes.contains_key(t[j]) by {
        assert(t[j] == s[j + 1]);
    }
    assert(t.last() == s.last());
    assert(linked_seq(r.order_nodes, t));
}

/// Deleting the last of several queued ids.
proof fn lemma_delete_last(m: L3Model, price: u64, s: Seq<u32>, i: int)
    requires
        level_holds(m, price, s),
        0 <= i < s.len(),
        m.orders.contains_key(s[i]),
        m.orders[s[i]].price == price,
        m.order_nodes[s[i]].prev == (if i == 0 { None } else { Some(s[i - 1]) }),
        s.len() > 1 && i == s.len() - 1,
    ensures
        delete_model(m, s[i]).1 == Ok::<Option<u64>, L3Error>(if s.len() == 1 { Some(price) } else { None }),
        level_holds(delete_model(m, s[i]).0, price, s.remove(i)),
{
    let r = delete_model(m, s[i]).0;
    let t = s.remove(i);
    let id = s[i];
    assert(id != 0 && m.order_nodes.contains_key(id));
    let p = s[i - 1];
    assert(m.order_nodes[s.last()].next is None);
    assert(p != 0 && m.order_nodes.contains_key(p));
    assert(t =~= s.drop_last());
    assert forall|j: int| 0 <= j < t.len() - 1 implies r.order_nodes[#[trigger] t[j]].next == Some(t[j + 1]) by {
        assert(t[j] == s[j] && t[j + 1] == s[j + 1]);
        assert(s[j] != p);
    }
    assert forall|j: int, k: int| 0 <= j < k < t.len() implies #[trigger] t[j] != #[trigger] t[k] by {
        assert(t[j] == s[j] && t[k] == s[k]);
    }
    assert forall|j: int| 0 <= j < t.len() implies #[trigger] t[j] != 0 && r.order_nodes.contains_key(t[j]) by {
        assert(t[j] == s[j]);
    }
    assert(t.last() == p);
    assert(linked_seq(r.order_nodes, t));
}

/// Deleting a queued id between two others.
proof fn lemma_delete_middle(m: L3Model, price: u64, s: Seq<u32>, i: int)
    requires
        level_holds(m, price, s),
        0 <= i < s.len(),
        m.orders.contains_key(s[i]),
        m.orders[s[i]].price == price,
        m.order_nodes[s[i]].prev == (if i == 0 { None } else { Some(s[i - 1]) }),
        0 < i < s.len() - 1,
    ensures
        delete_model(m, s[i]).1 == Ok::<Option<u64>, L3Error>(if s.len() == 1 { Some(price) } else { None }),
        level_holds(delete_model(m, s[i]).0, price, s.remove(i)),
{
    let r = delete_model(m, s[i]).0;
    let t = s.remove(i);
    let id = s[i];
    assert(id != 0 && m.order_nodes.contains_key(id));
    let p = s[i - 1];
    let n = s[i + 1];
    assert(m.order_nodes[s[i]].next == Some(s[i + 1]));
    assert(p != 0 && m.order_nodes.contains_key(p));
    assert forall|j: int| 0 <= j < t.len() - 1 implies r.order_nodes[#[trigger] t[j]].next == Some(t[j + 1]) by {
        if j < i - 1 {
            assert(t[j] == s[j] && t[j + 1] == s[j + 1]);
            assert(s[j] != p);
        } else if j == i - 1 {
            assert(t[j] == p && t[j + 1] == n);
        } else {
            assert(t[j] == s[j + 1] && t[j + 1] == s[j + 2]);
            assert(s[j + 1] != p);
            assert(m.order_nodes[s[j + 1]].next == Some(s[j + 2]));
        }
    }
    assert forall|j: int, k: int| 0 <= j < k < t.len() implies #[trigger] t[j] != #[trigger] t[k] by {
        let a = if j < i { j } else { j + 1 };
        let b = if k < i { k } else { k + 1 };
        assert(t[j] == s[a] && t[k] == s[b]);
    }
    assert forall|j: int| 0 <= j < t.len() implies #[trigger] t[j] != 0 && r.order_nodes.contains_key(t[j]) by {
        if j < i {
            assert(t[j] == s[j]);
        } else {
            assert(t[j] == s[j + 1]);
        }
    }
    assert(t.last() == s.last());
    assert(t[0] == s[0]);
    assert(s.last() != p);
    assert(linked_seq(r.order_nodes, t));
}

/// Deleting a queued order takes its id out of its level's queue and leaves
/// the other ids queued in order, provided the id's `prev` link names the id
/// before it; the price is returned when the level became empty.
pub proof fn law_delete_unqueues(m: L3Model, price: u64, s: Seq<u32>, i: int)
    requires
        level_holds(m, price, s),
        0 <= i < s.len(),
        m.orders.contains_key(s[i]),
        m.orders[s[i]].price == price,
        m.order_nodes[s[i]].prev == (if i == 0 { None } else { Some(s[i - 1]) }),
    ensures
        delete_model(m, s[i]).1 == Ok::<Option<u64>, L3Error>(if s.len() == 1 { Some(price) } else { None }),
        level_holds(delete_model(m, s[i]).0, price, s.remove(i)),
{
    if s.len() == 1 {
        lemma_delete_alone(m, price, s, i);
    } else if i == 0 {
        lemma_delete_first(m, price, s, i);
    } else if i == s.len() - 1 {
        lemma_delete_last(m, price, s, i);
    } else {
        lemma_delete_middle(m, price, s, i);
    }
}

impl L3 {
    /// Empty storage with dust limit 1.
    pub fn new() -> (l3: Self)
        ensures
            l3.price_head@ == Map::<u64, u32>::empty(),
            l3.price_tail@ == Map::<u64, u32>::empty(),
            l3.order_nodes@ == Map::<u32, Node>::empty(),
            l3.orders@ == Map::<u32, Order>::empty(),
            l3.count == 0,
            l3.dust == 1,
            l3.dormant_order is None,
    {
        Self {
            price_head: BTreeMap::new(),
            price_tail: BTreeMap::new(),
            order_nodes: HashMap::new(),
            orders: HashMap::new(),
            count: 0,
            dust: 1,
            dormant_order: None,
        }
    }

    fn ensure_price(price: u64) -> (r: Result<(), L3Error>)
        ensures
            r == (if price == 0 { Err(L3Error::PriceIsZero) } else { Ok::<(), L3Error>(()) }),
    {
        if price == 0 {
            Err(L3Error::PriceIsZero)
        } else {
            Ok(())
        }
    }

    /// Sets the dust limit to determine if the order should be deleted
    pub fn set_dust(&mut self, dust: u64)
        ensures
            *final(self) == (L3 { dust, ..*old(self) }),
    {
        self.dust = dust;
    }

    /// Inserts an order id into the linked structure for a given price level,
    /// keeping FIFO (append at tail).
    pub fn insert_id(&mut self, price: u64, id: u32, _amount: u128) -> (r: Result<(), L3Error>)
        ensures
            final(self)@ == insert_id_model(old(self)@, price, id).0,
            r == insert_id_model(old(self)@, price, id).1,
    {
        Self::ensure_price(price)?;
        let mut order_node = match self.order_nodes.get(&id) {
            Some(n) => *n,
            None => return Err(L3Error::OrderDoesNotExist(id)),
        };
        let price_tail = match self.price_tail.get(&price) {
            Some(t) => *t,
            None => 0,
        };
        if price_tail != 0 {
            // link the order after the tail of the level
            order_node.prev = Some(price_tail);
            order_node.next = None;
            self.order_nodes.insert(id, order_node);
            let mut tail_node = match self.order_nodes.get(&price_tail) {
                Some(n) => *n,
                None => return Err(L3Error::OrderDoesNotExist(price_tail)),
            };
            tail_node.next = Some(id);
            self.order_nodes.insert(price_tail, tail_node);
            self.price_tail.insert(price, id);
        } else {
            // the order starts the level
            order_node.prev = None;
            order_node.next = None;
            self.order_nodes.insert(id, order_node);
            self.price_head.insert(price, id);
            self.price_tail.insert(price, id);
        }
        Ok(())
    }

    /// Removes and returns the first order id at the given price level:
    /// `(order_id, is_empty)`, where `is_empty` is true when the price level
    /// becomes empty.
    pub fn pop_front(&mut self, price: u64) -> (r: Result<(Option<u32>, bool), L3Error>)
        ensures
            final(self)@ == pop_front_model(old(self)@, price).0,
            r == pop_front_model(old(self)@, price).1,
    {
        Self::ensure_price(price)?;
        let head_id = match self.price_head.get(&price) {
            Some(h) => *h,
            None => 0,
        };
        if head_id == 0 {
            return Ok((None, true));
        }
        let mut order_node = match self.order_nodes.get(&head_id) {
            Some(n) => *n,
            None => return Err(L3Error::OrderDoesNotExist(head_id)),
        };
        match order_node.next {
            Some(next) => {
                order_node.next = None;
                self.order_nodes.insert(head_id, order_node);
                let mut next_node = match self.order_nodes.get(&next) {
                    Some(n) => *n,
                    None => return Err(L3Error::OrderDoesNotExist(next)),
                };
                next_node.prev = None;
                self.order_nodes.insert(next, next_node);
                // the next order heads the level
                self.price_head.insert(price, next);
                Ok((Some(head_id), false))
            },
            None => {
                self.price_head.remove(&price);
                self.price_tail.remove(&price);
                Ok((Some(head_id), true))
            },
        }
    }

    /// Deletes an order from the storage, returning the price level if it
    /// becomes empty.
    pub fn delete_order(&mut self, id: u32) -> (r: Result<Option<u64>, L3Error>)
        ensures
            final(self)@ == delete_model(old(self)@, id).0,
            r == delete_model(old(self)@, id).1,
    {
        if id == 0 {
            return Err(L3Error::OrderIdIsZero(id));
        }
        let price = match self.orders.get(&id) {
            Some(o) => o.price,
            None => return Err(L3Error::OrderDoesNotExist(id)),
        };
        let order_node = match self.order_nodes.get(&id) {
            Some(n) => *n,
            None => return Err(L3Error::OrderDoesNotExist(id)),
        };
        let ghost old_orders = self.orders@;
        match (order_node.prev, order_node.next) {
            (Some(prev), Some(next)) => {
                // connect prev to next
                let mut prev_node = match self.order_nodes.get(&prev) {
                    Some(n) => *n,
                    None => return Err(L3Error::OrderDoesNotExist(prev)),
                };
                prev_node.next = Some(next);
                self.order_nodes.insert(prev, prev_node);
            },
            (Some(prev), None) => {
                // prev becomes the tail of the price level
                let mut prev_node = match self.order_nodes.get(&prev) {
                    Some(n) => *n,
                    None => return Err(L3Error::OrderDoesNotExist(prev)),
                };
                prev_node.next = None;
                self.order_nodes.insert(prev, prev_node);
                self.price_tail.insert(price, prev);
            },
            (None, Some(next)) => {
                // next becomes the head of the price level
                let mut next_node = match self.order_nodes.get(&next) {
                    Some(n) => *n,
                    None => return Err(L3Error::OrderDoesNotExist(next)),
                };
                next_node.prev = None;
                self.order_nodes.insert(next, next_node);
                self.price_head.insert(price, next);
            },
            (None, None) => {
                // the price level is empty
                self.price_head.remove(&price);
                self.price_tail.remove(&price);
                self.order_nodes.remove(&id);
                return Ok(Some(price));
            },
        }
        self.orders.remove(&id);
        assert(self.orders@.map_values(|o: Order| o@) =~= old_orders.map_values(|o: Order| o@).remove(id));
        Ok(None)
    }

    /// Creates a new order under the next id and returns `(id, found_dormant)`,
    /// where `found_dormant` is true when the id was still in use and its node
    /// was kept as the dormant order. The order's initial and current
    /// liquidity are `iq`, its public liquidity `pq`.
    pub fn create_order(
        &mut self,
        cid: Vec<u8>,
        owner: Vec<u8>,
        price: u64,
        iq: u64,
        pq: u64,
        timestamp: i64,
    ) -> (r: Result<(u32, bool), L3Error>)
        ensures
            final(self)@ == create_model(old(self)@, OrderModel { cid: cid@, owner: owner@, price, pq, iq, cq: iq, timestamp }).0,
            r == create_model(old(self)@, OrderModel { cid: cid@, owner: owner@, price, pq, iq, cq: iq, timestamp }).1,
    {
        Self::ensure_price(price)?;
        let order = Order::new(cid, owner, price, pq, iq, iq, timestamp);
        self.count = if self.count == 0 || self.count == u32::MAX { 1 } else { self.count + 1 };
        let id = self.count;
        let existing = match self.order_nodes.get(&id) {
            Some(n) => Some(*n),
            None => None,
        };
        match existing {
            Some(existing) => {
                self.dormant_order = Some(existing);
                self.delete_order(id)?;
                if !self.order_nodes.contains_key(&id) {
                    return Err(L3Error::OrderDoesNotExist(id));
                }
                // the id starts over unlinked
                self.order_nodes.insert(id, Node { prev: None, next: None });
                let ghost before = self.orders@;
                self.orders.insert(id, order);
                assert(self.orders@.map_values(|o: Order| o@) =~= before.map_values(|o: Order| o@).insert(id, order@));
                Ok((id, true))
            },
            None => {
                self.order_nodes.insert(id, Node { prev: None, next: None });
                let ghost before = self.orders@;
                self.orders.insert(id, order);
                assert(self.orders@.map_values(|o: Order| o@) =~= before.map_values(|o: Order| o@).insert(id, order@));
                Ok((id, false))
            },
        }
    }

    /// Decreases the current liquidity of order `id` by `amount`; returns the
    /// amount taken (all of it when the order is deleted) and the price of a
    /// level that became empty.
    pub fn decrease_order(&mut self, id: u32, amount: u64, dust: u64, clear: bool)
        -> (r: Result<(u64, Option<u64>), L3Error>)
        ensures
            final(self)@ == decrease_model(old(self)@, id, amount, dust, clear).0,
            r == decrease_model(old(self)@, id, amount, dust, clear).1,
    {
        if id == 0 {
            return Err(L3Error::OrderIdIsZero(id));
        }
        let original = match self.orders.get(&id) {
            Some(order) => order.cq,
            None => return Ok((0, None)),
        };
        let amount_to_send = if amount < original { amount } else { original };
        let decreased = original - amount_to_send;
        if clear || decreased <= dust {
            let delete_price = self.delete_order(id)?;
            Ok((original, delete_price))
        } else {
            let ghost before = self.orders@;
            let mut order = match self.orders.remove(&id) {
                Some(o) => o,
                None => return Ok((0, None)),
            };
            order.cq = decreased;
            // a public liquidity above the current one stays, else it follows
            order.pq = if order.pq > decreased { order.pq } else { decreased };
            let ghost pq = order.pq;
            self.orders.insert(id, order);
            assert(self.orders@.map_values(|o: Order| o@) =~= before.map_values(|o: Order| o@).insert(id,
                OrderModel { cq: decreased, pq, ..before[id]@ }));
            Ok((amount_to_send, None))
        }
    }

    /// Collects up to `n` order ids from the front of the specified price
    /// level (at least the head, if there is one).
    pub fn get_order_ids(&self, price: u64, n: u32) -> (r: Vec<u32>)
        ensures
            r@ == walk(self.order_nodes@, id_or_zero(self.price_head@, price), if n == 0 { 1 } else { n as nat }),
    {
        let ghost nodes = self.order_nodes@;
        let ghost head = id_or_zero(self.price_head@, price);
        let ghost k: nat = if n == 0 { 1 } else { n as nat };
        let mut result: Vec<u32> = Vec::new();
        let mut current: u32 = match self.price_head.get(&price) {
            Some(h) => *h,
            None => 0,
        };
        while current != 0
            invariant_except_break
                result@.len() < k,
                current == cursor(nodes, head, result@.len()),
            invariant
                nodes == self.order_nodes@,
                k == (if n == 0 { 1 } else { n as nat }),
                result@ == walk(nodes, head, result@.len()),
                result@.len() <= k,
            ensures
                result@.len() == k || cursor(nodes, head, result@.len()) == 0,
            decreases k - result@.len(),
        {
            proof { lemma_walk_step(nodes, head, result@.len()); }
            result.push(current);
            if result.len() as u32 >= n {
                proof {
                    assert(result@.len() == k);
                }
                break;
            }
            current = match self.order_nodes.get(&current) {
                Some(node) => match node.next {
                    Some(next) => next,
                    None => 0,
                },
                None => 0,
            };
        }
        proof {
            if result@.len() < k {
                lemma_walk_rest_empty(nodes, head, result@.len(), k);
            }
        }
        result
    }

    /// Collects up to `n` orders from the front of the specified price level,
    /// skipping ids without an order.
    pub fn get_orders(&self, price: u64, n: u32) -> (r: Vec<Order>)
        ensures
            r@.map_values(|o: Order| o@) == orders_of(self.orders@,
                walk(self.order_nodes@, id_or_zero(self.price_head@, price), if n == 0 { 1 } else { n as nat })),
    {
        let ids = self.get_order_ids(price, n);
        self.orders_for(&ids)
    }

    /// Collects the orders at positions `start` up to (excluding) `end` of the
    /// specified price level, skipping ids without an order.
    pub fn get_orders_in_range(&self, price: u64, start: u32, end: u32) -> (r: Vec<Order>)
        ensures
            r@.map_values(|o: Order| o@) == orders_of(self.orders@,
                range_ids(self.order_nodes@, id_or_zero(self.price_head@, price), start as nat, end as nat)),
    {
        let ghost nodes = self.order_nodes@;
        let ghost head = id_or_zero(self.price_head@, price);
        if start >= end {
            proof { lemma_walk_step(nodes, head, end as nat); }
            assert(orders_of(self.orders@, Seq::<u32>::empty()) =~= Seq::<OrderModel>::empty());
            return Vec::new();
        }
        let mut current_index: u32 = 0;
        let mut current: u32 = match self.price_head.get(&price) {
            Some(h) => *h,
            None => 0,
        };
        let mut result: Vec<Order> = Vec::new();
        assert(orders_of(self.orders@, range_ids(nodes, head, start as nat, 0)) =~= Seq::<OrderModel>::empty());
        while current != 0
            invariant_except_break
                current == cursor(nodes, head, current_index as nat),
                current_index <= end,
            invariant
                nodes == self.order_nodes@,
                start < end,
                result@.map_values(|o: Order| o@) == orders_of(self.orders@,
                    range_ids(nodes, head, start as nat, current_index as nat)),
            ensures
                current_index == end || (current_index <= end && cursor(nodes, head, current_index as nat) == 0),
            decreases end - current_index,
        {
            let ghost i = current_index as nat;
            proof { lemma_walk_step(nodes, head, i); }
            if current_index >= start && current_index < end {
                let ghost before = result@;
                assert(range_ids(nodes, head, start as nat, i + 1) =~= range_ids(nodes, head, start as nat, i).push(current));
                assert(range_ids(nodes, head, start as nat, i + 1).drop_last() =~= range_ids(nodes, head, start as nat, i));
                match self.orders.get(&current) {
                    Some(order) => {
                        result.push(order.cloned());
                        assert(result@.map_values(|o: Order| o@) =~= before.map_values(|o: Order| o@).push(order@));
                    },
                    None => {},
                }
            } else if current_index < start {
                assert(range_ids(nodes, head, start as nat, i + 1) =~= range_ids(nodes, head, start as nat, i));
            }
            if current_index >= end {
                break;
            }
            current = match self.order_nodes.get(&current) {
                Some(node) => match node.next {
                    Some(next) => next,
                    None => 0,
                },
                None => 0,
            };
            current_index = current_index + 1;
        }
        proof {
            if current_index < end {
                lemma_walk_rest_empty(nodes, head, current_index as nat, end as nat);
            }
        }
        result
    }

    /// The orders stored under `ids`, in order, skipping ids without an order.
    fn orders_for(&self, ids: &Vec<u32>) -> (r: Vec<Order>)
        ensures
            r@.map_values(|o: Order| o@) == orders_of(self.orders@, ids@),
    {
        let mut result: Vec<Order> = Vec::new();
        let mut i: usize = 0;
        while i < ids.len()
            invariant
                i <= ids@.len(),
                result@.map_values(|o: Order| o@) == orders_of(self.orders@, ids@.take(i as int)),
            decreases ids@.len() - i,
        {
            let ghost before = result@;
            assert(ids@.take(i + 1).drop_last() =~= ids@.take(i as int));
            match self.orders.get(&ids[i]) {
                Some(order) => {
                    result.push(order.cloned());
                    assert(result@.map_values(|o: Order| o@) =~= before.map_values(|o: Order| o@).push(order@));
                },
                None => {},
            }
            i = i + 1;
        }
        assert(ids@.take(ids@.len() as int) =~= ids@);
        result
    }

    /// The first id queued at `price`, if any.
    pub fn head(&self, price: u64) -> (r: Option<u32>)
        ensures
            r == (if id_or_zero(self.price_head@, price) == 0 { None } else {
                Some(id_or_zero(self.price_head@, price)) }),
    {
        match self.price_head.get(&price) {
            Some(h) => if *h == 0 { None } else { Some(*h) },
            None => None,
        }
    }

    /// The last id queued at `price`, if any.
    pub fn tail(&self, price: u64) -> (r: Option<u32>)
        ensures
            r == (if id_or_zero(self.price_tail@, price) == 0 { None } else {
                Some(id_or_zero(self.price_tail@, price)) }),
    {
        match self.price_tail.get(&price) {
            Some(t) => if *t == 0 { None } else { Some(*t) },
            None => None,
        }
    }

    /// Whether no id is queued at `price`.
    pub fn is_empty(&self, price: u64) -> (r: bool)
        ensures
            r == (id_or_zero(self.price_head@, price) == 0),
    {
        match self.price_head.get(&price) {
            Some(h) => *h == 0,
            None => true,
        }
    }

    /// The id linked after `current`, if any.
    pub fn next(&self, _price: u64, current: u32) -> (r: Option<u32>)
        ensures
            r == (if self.order_nodes@.contains_key(current) { self.order_nodes@[current].next } else { None }),
    {
        match self.order_nodes.get(&current) {
            Some(node) => node.next,
            None => None,
        }
    }

    /// The order stored under `id`.
    pub fn get_order(&self, id: u32) -> (r: Result<&Order, L3Error>)
        ensures
            match r {
                Ok(o) => self.orders@.contains_key(id) && *o == self.orders@[id],
                Err(e) => !self.orders@.contains_key(id) && e == L3Error::OrderDoesNotExist(id),
            },
    {
        match self.orders.get(&id) {
            Some(o) => Ok(o),
            None => Err(L3Error::OrderDoesNotExist(id)),
        }
    }

    /// Returns the next id that would be assigned on order creation.
    pub fn next_make_id(&self) -> (id: u32)
        ensures
            id == next_id(self.count),
    {
        if self.count == 0 || self.count == u32::MAX {
            1
        } else {
            self.count + 1
        }
    }
}

impl Default for L3 {
    /// Empty storage with dust limit 0.
    fn default() -> (l3: Self)
        ensures
            l3.price_head@ == Map::<u64, u32>::empty(),
            l3.price_tail@ == Map::<u64, u32>::empty(),
            l3.order_nodes@ == Map::<u32, Node>::empty(),
            l3.orders@ == Map::<u32, Order>::empty(),
            l3.count == 0,
            l3.dust == 0,
            l3.dormant_order is None,
    {
        let mut l3 = L3::new();
        l3.dust = 0;
        l3
    }
}

} // verus!
