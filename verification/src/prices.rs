//! Level-2 data of a market: the bid and ask price lists, linked through
//! their nodes, with the quantity resting at each price.
use std::collections::BTreeMap;
use vstd::prelude::*;

verus! {

broadcast use {vstd::std_specs::btree::group_btree_axioms, vstd::laws_cmp::group_laws_cmp};

/// A price level of a snapshot.
#[derive(Debug, Clone, Copy, PartialEq, Eq, Default, Structural)]
pub struct Level {
    pub price: u64,
    pub quantity: u128,
}

/// A node of a price list.
#[derive(Debug, Clone, Copy, PartialEq, Eq, Default, Structural)]
pub struct PriceNode {
    pub prev: Option<u64>,
    pub next: Option<u64>,
}

/// Level-2 book data.
#[derive(Debug, Clone, PartialEq, Eq)]
pub struct L2 {
    /// Head of the bid price linked list
    pub bid_price_head: Option<u64>,
    /// Head of the ask price linked list
    pub ask_price_head: Option<u64>,
    /// Tail of the bid price linked list
    pub bid_price_tail: Option<u64>,
    /// Tail of the ask price linked list
    pub ask_price_tail: Option<u64>,
    /// Mapping price -> node of the bid price linked list
    pub bid_price_nodes: BTreeMap<u64, PriceNode>,
    /// Mapping price -> node of the ask price linked list
    pub ask_price_nodes: BTreeMap<u64, PriceNode>,
    /// Bid levels sorted by price descending
    pub bid_level: BTreeMap<u64, u64>,
    /// Ask levels sorted by price ascending
    pub ask_level: BTreeMap<u64, u64>,
    /// Bid levels for snapshot display, by scale in 8 decimals
    pub bid_levels: BTreeMap<u64, Vec<Level>>,
    /// Ask levels for snapshot display, by scale in 8 decimals
    pub ask_levels: BTreeMap<u64, Vec<Level>>,
}

/// Errors of level-2 data.
#[derive(Debug, Clone, Copy, PartialEq, Eq, Structural)]
pub enum L2Error {
    PriceIsZero,
}

/// Every bid node links to a lower price.
pub open spec fn bid_ok(nodes: Map<u64, PriceNode>) -> bool {
    forall|k: u64| #[trigger] nodes.contains_key(k) && nodes[k].next is Some ==> nodes[k].next->Some_0 < k
}

/// Every ask node links to a higher price.
pub open spec fn ask_ok(nodes: Map<u64, PriceNode>) -> bool {
    forall|k: u64| #[trigger] nodes.contains_key(k) && nodes[k].next is Some ==> nodes[k].next->Some_0 > k
}

/// The next price after `p` in `nodes`, if `p` has a node with one.
pub open spec fn next_of(nodes: Map<u64, PriceNode>, p: u64) -> Option<u64> {
    if nodes.contains_key(p) { nodes[p].next } else { None }
}

/// The last bid price, from `cur` on, whose successor is still above `price`
/// and below it: where the search for the place of `price` stops.
pub open spec fn bid_walk(nodes: Map<u64, PriceNode>, cur: u64, price: u64) -> u64
    decreases cur,
{
    match next_of(nodes, cur) {
        Some(n) => if n > price && n < cur { bid_walk(nodes, n, price) } else { cur },
        None => cur,
    }
}

/// The last ask price, from `cur` on, whose successor is still below `price`.
pub open spec fn ask_walk(nodes: Map<u64, PriceNode>, cur: u64, price: u64) -> u64
    decreases price - cur,
{
    match next_of(nodes, cur) {
        Some(n) => if n < price && n > cur { ask_walk(nodes, n, price) } else { cur },
        None => cur,
    }
}

/// `m` with the next price of `k` set to `v`, when `k` has a node.
pub open spec fn with_next(m: Map<u64, PriceNode>, k: u64, v: u64) -> Map<u64, PriceNode> {
    if m.contains_key(k) { m.insert(k, PriceNode { next: Some(v), ..m[k] }) } else { m }
}

/// `m` with the previous price of `k` set to `v`, when `k` has a node.
pub open spec fn with_prev(m: Map<u64, PriceNode>, k: u64, v: u64) -> Map<u64, PriceNode> {
    if m.contains_key(k) { m.insert(k, PriceNode { prev: Some(v), ..m[k] }) } else { m }
}

/// Inserting bid `price` into a list with head `head` would search forever:
/// the search stops at a node whose successor is `price` itself.
pub open spec fn bid_insert_hangs(nodes: Map<u64, PriceNode>, head: Option<u64>, price: u64) -> bool {
    match head {
        Some(h) => price < h && next_of(nodes, bid_walk(nodes, h, price)) == Some(price),
        None => false,
    }
}

/// The bid list after inserting `price` (not 0): (head, tail, nodes).
pub open spec fn bid_inserted(head: Option<u64>, tail: Option<u64>, nodes: Map<u64, PriceNode>, price: u64)
    -> (Option<u64>, Option<u64>, Map<u64, PriceNode>) {
    match head {
        None => (Some(price), Some(price), nodes.insert(price, PriceNode { prev: None, next: None })),
        Some(h) => if price > h {
            (Some(price), tail, with_prev(nodes, h, price).insert(price, PriceNode { prev: None, next: Some(h) }))
        } else if price == h {
            (head, tail, nodes)
        } else {
            let c = bid_walk(nodes, h, price);
            match next_of(nodes, c) {
                None => (head, Some(price), with_next(nodes, c, price).insert(price, PriceNode { prev: Some(c), next: None })),
                Some(n) => (head, tail, with_prev(with_next(nodes, c, price), n, price).insert(price,
                    PriceNode { prev: Some(c), next: Some(n) })),
            }
        },
    }
}

/// The ask list after inserting `price` (not 0): (head, tail, nodes). The
/// first price gets no node; an appended price gets none either, its
/// predecessor's node being rewritten with no previous price.
pub open spec fn ask_inserted(head: Option<u64>, tail: Option<u64>, nodes: Map<u64, PriceNode>, price: u64)
    -> (Option<u64>, Option<u64>, Map<u64, PriceNode>) {
    match head {
        None => (Some(price), Some(price), nodes),
        Some(h) => if price < h {
            (Some(price), tail, nodes.insert(price, PriceNode { prev: None, next: Some(h) }))
        } else if price == h {
            (head, tail, nodes)
        } else {
            let c = ask_walk(nodes, h, price);
            match next_of(nodes, c) {
                None => (head, Some(price), nodes.insert(c, PriceNode { prev: None, next: Some(price) })),
                Some(n) => if n == price {
                    (head, tail, nodes)
                } else {
                    (head, tail, with_next(nodes, c, price).insert(price, PriceNode { prev: Some(c), next: Some(n) }))
                },
            }
        },
    }
}

/// The first `n` levels of `levels`.
pub open spec fn first_levels(levels: Seq<Level>, n: u32) -> Seq<Level> {
    if n < levels.len() { levels.take(n as int) } else { levels }
}

/// A node linking to a lower price keeps the bid list in order.
proof fn lemma_bid_ok_insert(nodes: Map<u64, PriceNode>, k: u64, node: PriceNode)
    requires
        bid_ok(nodes),
        node.next is Some ==> node.next->Some_0 < k,
    ensures
        bid_ok(nodes.insert(k, node)),
{
    let m = nodes.insert(k, node);
    assert forall|x: u64| #[trigger] m.contains_key(x) && m[x].next is Some implies m[x].next->Some_0 < x by {
        if x != k { assert(nodes.contains_key(x)); }
    }
}

/// Relinking a bid node to a lower price, or changing its previous price,
/// keeps the bid list in order.
proof fn lemma_bid_ok_relink(nodes: Map<u64, PriceNode>, k: u64, v: u64)
    requires
        bid_ok(nodes),
    ensures
        v < k ==> bid_ok(with_next(nodes, k, v)),
        bid_ok(with_prev(nodes, k, v)),
{
    if nodes.contains_key(k) {
        if v < k { lemma_bid_ok_insert(nodes, k, PriceNode { next: Some(v), ..nodes[k] }); }
        lemma_bid_ok_insert(nodes, k, PriceNode { prev: Some(v), ..nodes[k] });
    }
}

/// A node linking to a higher price keeps the ask list in order.
proof fn lemma_ask_ok_insert(nodes: Map<u64, PriceNode>, k: u64, node: PriceNode)
    requires
        ask_ok(nodes),
        node.next is Some ==> node.next->Some_0 > k,
    ensures
        ask_ok(nodes.insert(k, node)),
{
    let m = nodes.insert(k, node);
    assert forall|x: u64| #[trigger] m.contains_key(x) && m[x].next is Some implies m[x].next->Some_0 > x by {
        if x != k { assert(nodes.contains_key(x)); }
    }
}

/// Relinking an ask node to a higher price keeps the ask list in order.
proof fn lemma_ask_ok_relink(nodes: Map<u64, PriceNode>, k: u64, v: u64)
    requires
        ask_ok(nodes),
        v > k,
    ensures
        ask_ok(with_next(nodes, k, v)),
{
    if nodes.contains_key(k) {
        lemma_ask_ok_insert(nodes, k, PriceNode { next: Some(v), ..nodes[k] });
    }
}

impl L2 {
    /// Both price lists link in their order.
    pub open spec fn wf(&self) -> bool {
        &&& bid_ok(self.bid_price_nodes@)
        &&& ask_ok(self.ask_price_nodes@)
    }

    /// Empty lists and levels.
    pub fn new() -> (l2: Self)
        ensures
            l2.wf(),
            l2.bid_price_head is None,
            l2.ask_price_head is None,
            l2.bid_price_tail is None,
            l2.ask_price_tail is None,
            l2.bid_price_nodes@ == Map::<u64, PriceNode>::empty(),
            l2.ask_price_nodes@ == Map::<u64, PriceNode>::empty(),
            l2.bid_level@ == Map::<u64, u64>::empty(),
            l2.ask_level@ == Map::<u64, u64>::empty(),
            l2.bid_levels@ == Map::<u64, Vec<Level>>::empty(),
            l2.ask_levels@ == Map::<u64, Vec<Level>>::empty(),
    {
        L2 {
            bid_price_head: None,
            bid_price_tail: None,
            ask_price_head: None,
            ask_price_tail: None,
            bid_price_nodes: BTreeMap::new(),
            ask_price_nodes: BTreeMap::new(),
            bid_level: BTreeMap::new(),
            ask_level: BTreeMap::new(),
            bid_levels: BTreeMap::new(),
            ask_levels: BTreeMap::new(),
        }
    }

    fn ensure_price(price: u64) -> (r: Result<(), L2Error>)
        ensures
            r == (if price == 0 { Err(L2Error::PriceIsZero) } else { Ok::<(), L2Error>(()) }),
    {
        if price == 0 {
            Err(L2Error::PriceIsZero)
        } else {
            Ok(())
        }
    }

    pub fn bid_head(&self) -> (r: Option<u64>)
        ensures
            r == self.bid_price_head,
    {
        self.bid_price_head
    }

    pub fn ask_head(&self) -> (r: Option<u64>)
        ensures
            r == self.ask_price_head,
    {
        self.ask_price_head
    }

    /// The quantity at bid price `price`.
    pub fn bid_level(&self, price: u64) -> (r: Option<u64>)
        ensures
            r == (if self.bid_level@.contains_key(price) { Some(self.bid_level@[price]) } else { None }),
    {
        match self.bid_level.get(&price) {
            Some(q) => Some(*q),
            None => None,
        }
    }

    /// The quantity at ask price `price`.
    pub fn ask_level(&self, price: u64) -> (r: Option<u64>)
        ensures
            r == (if self.ask_level@.contains_key(price) { Some(self.ask_level@[price]) } else { None }),
    {
        match self.ask_level.get(&price) {
            Some(q) => Some(*q),
            None => None,
        }
    }

    /// The bid snapshot levels at `scale`.
    pub fn bid_levels(&self, scale: u64) -> (r: &Vec<Level>)
        requires
            self.bid_levels@.contains_key(scale),
        ensures
            *r == self.bid_levels@[scale],
    {
        self.bid_levels.get(&scale).unwrap()
    }

    /// The ask snapshot levels at `scale`.
    pub fn ask_levels(&self, scale: u64) -> (r: &Vec<Level>)
        requires
            self.ask_levels@.contains_key(scale),
        ensures
            *r == self.ask_levels@[scale],
    {
        self.ask_levels.get(&scale).unwrap()
    }

    /// The first `n` bid snapshot levels at `scale` (none when unset).
    pub fn scale_bid_levels(&self, scale: u64, n: u32) -> (r: Vec<Level>)
        ensures
            r@ == (if self.bid_levels@.contains_key(scale) { first_levels(self.bid_levels@[scale]@, n) } else { Seq::empty() }),
    {
        match self.bid_levels.get(&scale) {
            Some(levels) => take_levels(levels, n),
            None => Vec::new(),
        }
    }

    /// The first `n` ask snapshot levels at `scale` (none when unset).
    pub fn scale_ask_levels(&self, scale: u64, n: u32) -> (r: Vec<Level>)
        ensures
            r@ == (if self.ask_levels@.contains_key(scale) { first_levels(self.ask_levels@[scale]@, n) } else { Seq::empty() }),
    {
        match self.ask_levels.get(&scale) {
            Some(levels) => take_levels(levels, n),
            None => Vec::new(),
        }
    }

    /// Sets the quantity at bid price `price`.
    pub fn set_bid_level(&mut self, price: u64, level: u64)
        ensures
            *final(self) == (L2 { bid_level: final(self).bid_level, ..*old(self) }),
            final(self).bid_level@ == old(self).bid_level@.insert(price, level),
    {
        self.bid_level.insert(price, level);
    }

    /// Sets the quantity at ask price `price`.
    pub fn set_ask_level(&mut self, price: u64, level: u64)
        ensures
            *final(self) == (L2 { ask_level: final(self).ask_level, ..*old(self) }),
            final(self).ask_level@ == old(self).ask_level@.insert(price, level),
    {
        self.ask_level.insert(price, level);
    }

    /// Sets the bid snapshot levels at `scale`.
    pub fn set_bid_levels(&mut self, scale: u64, levels: Vec<Level>)
        ensures
            *final(self) == (L2 { bid_levels: final(self).bid_levels, ..*old(self) }),
            final(self).bid_levels@ == old(self).bid_levels@.insert(scale, levels),
    {
        self.bid_levels.insert(scale, levels);
    }

    /// Sets the ask snapshot levels at `scale`.
    pub fn set_ask_levels(&mut self, scale: u64, levels: Vec<Level>)
        ensures
            *final(self) == (L2 { ask_levels: final(self).ask_levels, ..*old(self) }),
            final(self).ask_levels@ == old(self).ask_levels@.insert(scale, levels),
    {
        self.ask_levels.insert(scale, levels);
    }

    /// Removes the head of one side: its successor becomes the head (the
    /// list is emptied when it has none) and its node is dropped. Returns
    /// the new head.
    pub fn clear_head(&mut self, is_bid: bool) -> (r: Result<Option<u64>, L2Error>)
        requires
            old(self).wf(),
            if is_bid { old(self).bid_price_head is Some } else { old(self).ask_price_head is Some },
        ensures
            final(self).wf(),
            is_bid ==> {
                let h = old(self).bid_price_head->Some_0;
                let nx = next_of(old(self).bid_price_nodes@, h);
                &&& *final(self) == (L2 {
                    bid_price_head: final(self).bid_price_head,
                    bid_price_tail: final(self).bid_price_tail,
                    bid_price_nodes: final(self).bid_price_nodes,
                    ..*old(self)
                })
                &&& final(self).bid_price_head == nx
                &&& final(self).bid_price_tail == (if nx is None { None } else { old(self).bid_price_tail })
                &&& final(self).bid_price_nodes@ == old(self).bid_price_nodes@.remove(h)
                &&& r == Ok::<Option<u64>, L2Error>(nx)
            },
            !is_bid ==> {
                let h = old(self).ask_price_head->Some_0;
                let nx = next_of(old(self).ask_price_nodes@, h);
                &&& *final(self) == (L2 {
                    ask_price_head: final(self).ask_price_head,
                    ask_price_tail: final(self).ask_price_tail,
                    ask_price_nodes: final(self).ask_price_nodes,
                    ..*old(self)
                })
                &&& final(self).ask_price_head == nx
                &&& final(self).ask_price_tail == (if nx is None { None } else { old(self).ask_price_tail })
                &&& final(self).ask_price_nodes@ == old(self).ask_price_nodes@.remove(h)
                &&& r == Ok::<Option<u64>, L2Error>(nx)
            },
    {
        if is_bid {
            let old_head = self.bid_price_head.unwrap();
            let nx = match self.bid_price_nodes.get(&old_head) {
                Some(node) => node.next,
                None => None,
            };
            if nx.is_none() {
                self.bid_price_head = None;
                self.bid_price_tail = None;
            } else {
                self.bid_price_head = nx;
            }
            self.bid_price_nodes.remove(&old_head);
            Ok(self.bid_price_head)
        } else {
            let old_head = self.ask_price_head.unwrap();
            let nx = match self.ask_price_nodes.get(&old_head) {
                Some(node) => node.next,
                None => None,
            };
            if nx.is_none() {
                self.ask_price_head = None;
                self.ask_price_tail = None;
            } else {
                self.ask_price_head = nx;
            }
            self.ask_price_nodes.remove(&old_head);
            Ok(self.ask_price_head)
        }
    }

    /// Inserts `price` into the bid or the ask list.
    pub fn insert_price(&mut self, is_bid: bool, price: u64) -> (r: Result<(), L2Error>)
        requires
            old(self).wf(),
            is_bid ==> !bid_insert_hangs(old(self).bid_price_nodes@, old(self).bid_price_head, price),
        ensures
            final(self).wf(),
            price == 0 ==> r == Err::<(), L2Error>(L2Error::PriceIsZero) && *final(self) == *old(self),
            price != 0 ==> r is Ok,
            price != 0 && is_bid ==> {
                &&& (final(self).bid_price_head, final(self).bid_price_tail, final(self).bid_price_nodes@)
                    == bid_inserted(old(self).bid_price_head, old(self).bid_price_tail, old(self).bid_price_nodes@, price)
                &&& *final(self) == (L2 {
                    bid_price_head: final(self).bid_price_head,
                    bid_price_tail: final(self).bid_price_tail,
                    bid_price_nodes: final(self).bid_price_nodes,
                    ..*old(self)
                })
            },
            price != 0 && !is_bid ==> {
                &&& (final(self).ask_price_head, final(self).ask_price_tail, final(self).ask_price_nodes@)
                    == ask_inserted(old(self).ask_price_head, old(self).ask_price_tail, old(self).ask_price_nodes@, price)
                &&& *final(self) == (L2 {
                    ask_price_head: final(self).ask_price_head,
                    ask_price_tail: final(self).ask_price_tail,
                    ask_price_nodes: final(self).ask_price_nodes,
                    ..*old(self)
                })
            },
    {
        if is_bid {
            self._insert_bid_price(price)
        } else {
            self._insert_ask_price(price)
        }
    }
}


impl L2 {
    /// Sets the next price of bid node `k`, when it has one.
    fn set_bid_next(&mut self, k: u64, v: u64)
        ensures
            final(self).bid_price_nodes@ == with_next(old(self).bid_price_nodes@, k, v),
            *final(self) == (L2 { bid_price_nodes: final(self).bid_price_nodes, ..*old(self) }),
    {
        if let Some(node) = self.bid_price_nodes.get(&k) {
            let n = PriceNode { next: Some(v), ..*node };
            self.bid_price_nodes.insert(k, n);
        }
    }

    /// Sets the previous price of bid node `k`, when it has one.
    fn set_bid_prev(&mut self, k: u64, v: u64)
        ensures
            final(self).bid_price_nodes@ == with_prev(old(self).bid_price_nodes@, k, v),
            *final(self) == (L2 { bid_price_nodes: final(self).bid_price_nodes, ..*old(self) }),
    {
        if let Some(node) = self.bid_price_nodes.get(&k) {
            let n = PriceNode { prev: Some(v), ..*node };
            self.bid_price_nodes.insert(k, n);
        }
    }

    /// Sets the next price of ask node `k`, when it has one.
    fn set_ask_next(&mut self, k: u64, v: u64)
        ensures
            final(self).ask_price_nodes@ == with_next(old(self).ask_price_nodes@, k, v),
            *final(self) == (L2 { ask_price_nodes: final(self).ask_price_nodes, ..*old(self) }),
    {
        if let Some(node) = self.ask_price_nodes.get(&k) {
            let n = PriceNode { next: Some(v), ..*node };
            self.ask_price_nodes.insert(k, n);
        }
    }

    /// The next price after `p` in the bid list.
    fn bid_next(&self, p: u64) -> (r: Option<u64>)
        ensures
            r == next_of(self.bid_price_nodes@, p),
    {
        match self.bid_price_nodes.get(&p) {
            Some(node) => node.next,
            None => None,
        }
    }

    /// The next price after `p` in the ask list.
    fn ask_next(&self, p: u64) -> (r: Option<u64>)
        ensures
            r == next_of(self.ask_price_nodes@, p),
    {
        match self.ask_price_nodes.get(&p) {
            Some(node) => node.next,
            None => None,
        }
    }

    /// Inserts a bid price into the bid price list, kept in descending order.
    fn _insert_bid_price(&mut self, price: u64) -> (r: Result<(), L2Error>)
        requires
            old(self).wf(),
            !bid_insert_hangs(old(self).bid_price_nodes@, old(self).bid_price_head, price),
        ensures
            final(self).wf(),
            price == 0 ==> r == Err::<(), L2Error>(L2Error::PriceIsZero) && *final(self) == *old(self),
            price != 0 ==> r is Ok,
            price != 0 ==> {
                &&& (final(self).bid_price_head, final(self).bid_price_tail, final(self).bid_price_nodes@)
                    == bid_inserted(old(self).bid_price_head, old(self).bid_price_tail, old(self).bid_price_nodes@, price)
                &&& *final(self) == (L2 {
                    bid_price_head: final(self).bid_price_head,
                    bid_price_tail: final(self).bid_price_tail,
                    bid_price_nodes: final(self).bid_price_nodes,
                    ..*old(self)
                })
            },
    {
        Self::ensure_price(price)?;
        let ghost nodes = self.bid_price_nodes@;
        match self.bid_price_head {
            None => {
                self.bid_price_head = Some(price);
                self.bid_price_tail = Some(price);
                self.bid_price_nodes.insert(price, PriceNode { prev: None, next: None });
                proof { lemma_bid_ok_insert(nodes, price, PriceNode { prev: None, next: None }); }
                Ok(())
            },
            Some(head) => {
                if price > head {
                    self.bid_price_head = Some(price);
                    // the old head points back to the new head
                    self.set_bid_prev(head, price);
                    self.bid_price_nodes.insert(price, PriceNode { prev: None, next: Some(head) });
                    proof {
                        lemma_bid_ok_relink(nodes, head, price);
                        lemma_bid_ok_insert(with_prev(nodes, head, price), price, PriceNode { prev: None, next: Some(head) });
                    }
                    Ok(())
                } else if price == head {
                    Ok(())
                } else {
                    // find the place of the price, keeping the list descending
                    let mut current = head;
                    loop
                        invariant
                            self.bid_price_nodes@ == nodes,
                            *self == *old(self),
                            old(self).wf(),
                            bid_ok(nodes),
                            old(self).bid_price_head == Some(head),
                            price < current,
                            bid_walk(nodes, current, price) == bid_walk(nodes, head, price),
                            !bid_insert_hangs(nodes, Some(head), price),
                            price != 0,
                        decreases current,
                    {
                        let next = self.bid_next(current);
                        match next {
                            None => {
                                // the price goes last
                                self.set_bid_next(current, price);
                                self.bid_price_nodes.insert(price, PriceNode { prev: Some(current), next: None });
                                self.bid_price_tail = Some(price);
                                proof {
                                    lemma_bid_ok_relink(nodes, current, price);
                                    lemma_bid_ok_insert(with_next(nodes, current, price), price, PriceNode { prev: Some(current), next: None });
                                }
                                return Ok(());
                            },
                            Some(next_val) => {
                                if next_val > price {
                                    current = next_val;
                                } else if next_val < price {
                                    // the price goes between `current` and `next_val`
                                    self.set_bid_next(current, price);
                                    self.set_bid_prev(next_val, price);
                                    self.bid_price_nodes.insert(price, PriceNode { prev: Some(current), next: Some(next_val) });
                                    proof {
                                        lemma_bid_ok_relink(nodes, current, price);
                                        lemma_bid_ok_relink(with_next(nodes, current, price), next_val, price);
                                        lemma_bid_ok_insert(with_prev(with_next(nodes, current, price), next_val, price), price,
                                            PriceNode { prev: Some(current), next: Some(next_val) });
                                    }
                                    return Ok(());
                                } else {
                                    assert(false);
                                }
                            },
                        }
                    }
                }
            },
        }
    }

    /// Inserts an ask price into the ask price list, kept in ascending order.
    fn _insert_ask_price(&mut self, price: u64) -> (r: Result<(), L2Error>)
        requires
            old(self).wf(),
        ensures
            final(self).wf(),
            price == 0 ==> r == Err::<(), L2Error>(L2Error::PriceIsZero) && *final(self) == *old(self),
            price != 0 ==> r is Ok,
            price != 0 ==> {
                &&& (final(self).ask_price_head, final(self).ask_price_tail, final(self).ask_price_nodes@)
                    == ask_inserted(old(self).ask_price_head, old(self).ask_price_tail, old(self).ask_price_nodes@, price)
                &&& *final(self) == (L2 {
                    ask_price_head: final(self).ask_price_head,
                    ask_price_tail: final(self).ask_price_tail,
                    ask_price_nodes: final(self).ask_price_nodes,
                    ..*old(self)
                })
            },
    {
        Self::ensure_price(price)?;
        let ghost nodes = self.ask_price_nodes@;
        match self.ask_price_head {
            None => {
                self.ask_price_head = Some(price);
                self.ask_price_tail = Some(price);
                Ok(())
            },
            Some(head) => {
                if price < head {
                    self.ask_price_head = Some(price);
                    self.ask_price_nodes.insert(price, PriceNode { prev: None, next: Some(head) });
                    proof { lemma_ask_ok_insert(nodes, price, PriceNode { prev: None, next: Some(head) }); }
                    Ok(())
                } else if price == head {
                    Ok(())
                } else {
                    // find the place of the price, keeping the list ascending
                    let mut current = head;
                    loop
                        invariant
                            self.ask_price_nodes@ == nodes,
                            *self == *old(self),
                            old(self).wf(),
                            ask_ok(nodes),
                            old(self).ask_price_head == Some(head),
                            current < price,
                            ask_walk(nodes, current, price) == ask_walk(nodes, head, price),
                            price != 0,
                        decreases price - current,
                    {
                        let next = self.ask_next(current);
                        match next {
                            None => {
                                // the price goes last
                                self.ask_price_nodes.insert(current, PriceNode { prev: None, next: Some(price) });
                                self.ask_price_tail = Some(price);
                                proof { lemma_ask_ok_insert(nodes, current, PriceNode { prev: None, next: Some(price) }); }
                                return Ok(());
                            },
                            Some(next_val) => {
                                if next_val < price {
                                    current = next_val;
                                } else if next_val > price {
                                    // the price goes between `current` and `next_val`
                                    self.set_ask_next(current, price);
                                    self.ask_price_nodes.insert(price, PriceNode { prev: Some(current), next: Some(next_val) });
                                    proof {
                                        lemma_ask_ok_relink(nodes, current, price);
                                        lemma_ask_ok_insert(with_next(nodes, current, price), price,
                                            PriceNode { prev: Some(current), next: Some(next_val) });
                                    }
                                    return Ok(());
                                } else {
                                    return Ok(());
                                }
                            },
                        }
                    }
                }
            },
        }
    }
}

/// A copy of the first `n` levels of `levels`.
fn take_levels(levels: &Vec<Level>, n: u32) -> (r: Vec<Level>)
    ensures
        r@ == first_levels(levels@, n),
{
    let mut out: Vec<Level> = Vec::new();
    let mut i: usize = 0;
    while i < levels.len() && (i as u64) < (n as u64)
        invariant
            i <= levels@.len(),
            i <= n,
            out@ == levels@.take(i as int),
        decreases levels@.len() - i,
    {
        out.push(levels[i]);
        proof { assert(levels@.take(i + 1) =~= levels@.take(i as int).push(levels@[i as int])); }
        i = i + 1;
    }
    proof {
        if n as int >= levels@.len() { assert(levels@.take(i as int) =~= levels@); }
    }
    out
}

} // verus!
