//! A trading pair: its order book and the exchange clients that share it.
use vstd::prelude::*;
use crate::bytes::{ByteMap, copy_bytes, bytes_eq, view_values, views_of};
use crate::spot::event::{SpotEvent, EventQueue, emit_event};
use crate::spot::orderbook::{OrderBook, OrderBookError, l2_unlisted, rest_unchanged, now_millis, empty_prefix, lemma_skip_contains,
    lemma_empty_prefix_bound, cancel_spec, removed_from_l3, placed_order, placed_spec};
use crate::spot::orders::L3Error;
use crate::spot::market::L1;
use crate::spot::prices::L2;
use crate::spot::orders::{L3, Order, OrderId, new_order_id, in_levels};
use crate::spot::time_in_force::TimeInForce;

verus! {

broadcast use {vstd::std_specs::btree::group_btree_axioms, vstd::laws_cmp::group_laws_cmp};

/// A trading pair.
#[derive(Debug, Clone, PartialEq, Eq)]
pub struct Pair {
    /// Pair ID
    pub pair_id: Vec<u8>,
    /// base asset id
    pub base_asset_id: Vec<u8>,
    /// quote asset id
    pub quote_asset_id: Vec<u8>,
    /// Orderbook
    pub orderbook: OrderBook,
    /// list of exchange clients which shares the orderbook
    pub clients: Vec<Vec<u8>>,
    /// client id -> client admin account id
    pub client_admin_account_ids: ByteMap<Vec<u8>>,
    /// client id -> client fee account id
    pub client_fee_account_ids: ByteMap<Vec<u8>>,
}

/// What `_match_at` does to book `o` (giving `n`) at `price`, matching the
/// orders of side `side` while `rem0` becomes `rem1`: it takes the oldest
/// orders of the level first, touches no other level, and unlists the price
/// when its level is used up.
pub open spec fn match_at_spec(o: OrderBook, n: OrderBook, price: u64, side: bool, rem0: u64, rem1: u64) -> bool {
    let q = o.l3.level(price);
    &&& rest_unchanged(o, n)
    &&& n.l3.dust == o.l3.dust
    &&& n.l3.dormant_order == o.l3.dormant_order
    &&& rem1 <= rem0
    &&& exists|k: int| 0 <= k <= q.len() && n.l3.level(price) == q.skip(k)
        && forall|j: int| 0 <= j < k ==> !n.l3.orders@.contains_key(#[trigger] q[j])
    &&& forall|p: u64| p != price ==> #[trigger] n.l3.level(p) == o.l3.level(p)
    &&& forall|id: OrderId| #[trigger] n.l3.orders@.contains_key(id) ==> o.l3.orders@.contains_key(id)
        && n.l3.orders@[id].price == o.l3.orders@[id].price
        && (n.l3.orders_view()[id] == o.l3.orders_view()[id] || (n.l3.level(price).len() > 0 && id == n.l3.level(price)[0]))
    &&& forall|id: OrderId| o.l3.orders@.contains_key(id) && o.l3.orders@[id].price != price ==> #[trigger] n.l3.orders@.contains_key(id)
    &&& rem0 > 0 ==> rem1 == 0 || n.l3.level(price).len() == 0
    &&& rem1 + n.l3.orders@.len() <= rem0 + o.l3.orders@.len()
    &&& rem0 > 0 && q.len() > 0 ==> rem1 + n.l3.orders@.len() < rem0 + o.l3.orders@.len()
    &&& n.l2 == o.l2 || (l2_unlisted(o.l2, n.l2, side, Some(price)) && n.l3.level(price).len() == 0)
    &&& rem0 > 0 && n.l3.level(price).len() == 0 ==> l2_unlisted(o.l2, n.l2, side, Some(price))
}

/// What remains of an amount `rem` after makers with the current quantities
/// `cs` were matched against it in turn, each giving what it has or what
/// remains, whichever is less.
pub open spec fn remaining_after(cs: Seq<u64>, rem: int) -> int
    decreases cs.len(),
{
    if cs.len() == 0 {
        rem
    } else {
        let r = remaining_after(cs.drop_last(), rem);
        r - (if r < cs.last() { r } else { cs.last() as int })
    }
}

/// The current quantities of the orders `ids` in `l3`.
pub open spec fn cqtys(l3: L3, ids: Seq<OrderId>) -> Seq<u64> {
    ids.map_values(|id: OrderId| l3.orders@[id].cqty)
}

/// `_match_at` at `price` took the first `k` makers of the level off the
/// book, each reached while the amount had some left, and the amount `rem0`
/// became `rem1` by what they gave; all but the last gave what they had, the
/// last leaving at most one unit (dust) behind; when the maker after them
/// was only partly taken, it gave all that remained.
pub open spec fn match_taken(o: L3, n: L3, price: u64, rem0: u64, rem1: u64, k: int) -> bool {
    let q = o.level(price);
    let r = remaining_after(cqtys(o, q.take(k)), rem0 as int);
    &&& 0 <= k <= q.len()
    &&& n.level(price) == q.skip(k)
    &&& forall|j: int| 0 <= j < k ==> !n.orders@.contains_key(#[trigger] q[j])
    &&& forall|j: int| 0 <= j < k ==> #[trigger] remaining_after(cqtys(o, q.take(j)), rem0 as int) > 0
    &&& k > 0 ==> o.orders@[q[k - 1]].cqty <= remaining_after(cqtys(o, q.take(k - 1)), rem0 as int) + 1
    &&& if k < q.len() && n.orders@.contains_key(q[k]) && n.orders_view()[q[k]] != o.orders_view()[q[k]] {
        &&& rem1 == 0
        &&& 0 < r < o.orders@[q[k]].cqty
        &&& n.orders@[q[k]].cqty == o.orders@[q[k]].cqty - r
    } else {
        rem1 == r
    }
}

/// The current quantity of order `id` in `l3` (0 when it holds no such order).
pub open spec fn cq(l3: L3, id: OrderId) -> int {
    if l3.orders@.contains_key(id) { l3.orders@[id].cqty as int } else { 0 }
}

/// The sum of the current quantities of the orders `ids` in `l3`.
pub open spec fn qty_of(l3: L3, ids: Seq<OrderId>) -> int
    decreases ids.len(),
{
    if ids.len() == 0 { 0 } else { qty_of(l3, ids.drop_last()) + cq(l3, ids.last()) }
}

/// What the makers `ids` lost from `o` to `n`, less what the taker lost
/// (`rem0 - rem1`), is at most one unit (the dust the last one left), and
/// nothing while the taker has some left.
pub open spec fn dust_bounded(o: L3, n: L3, ids: Seq<OrderId>, rem0: u64, rem1: u64) -> bool {
    let d = qty_of(o, ids) - qty_of(n, ids) - (rem0 - rem1);
    &&& 0 <= d <= 1
    &&& rem1 > 0 ==> d == 0
}

/// Sums agree where the quantities do.
proof fn lemma_qty_same(a: L3, b: L3, ids: Seq<OrderId>)
    requires
        forall|j: int| 0 <= j < ids.len() ==> cq(a, #[trigger] ids[j]) == cq(b, ids[j]),
    ensures
        qty_of(a, ids) == qty_of(b, ids),
    decreases ids.len(),
{
    if ids.len() > 0 {
        let t = ids.drop_last();
        assert forall|j: int| 0 <= j < t.len() implies cq(a, #[trigger] t[j]) == cq(b, t[j]) by {
            assert(t[j] == ids[j]);
        }
        lemma_qty_same(a, b, t);
        assert(cq(a, ids.last()) == cq(b, ids.last()));
    }
}

/// Changing the quantity of one order `x`, found once among `ids`, changes
/// the sum by as much.
proof fn lemma_qty_one(a: L3, b: L3, ids: Seq<OrderId>, x: OrderId)
    requires
        ids.no_duplicates(),
        ids.contains(x),
        forall|j: int| 0 <= j < ids.len() && ids[j] != x ==> cq(a, #[trigger] ids[j]) == cq(b, ids[j]),
    ensures
        qty_of(a, ids) - qty_of(b, ids) == cq(a, x) - cq(b, x),
    decreases ids.len(),
{
    let t = ids.drop_last();
    assert forall|j: int| 0 <= j < t.len() && t[j] != x implies cq(a, #[trigger] t[j]) == cq(b, t[j]) by {
        assert(t[j] == ids[j]);
    }
    if ids.last() == x {
        assert forall|j: int| 0 <= j < t.len() implies cq(a, #[trigger] t[j]) == cq(b, t[j]) by {
            assert(t[j] == ids[j]);
            assert(ids[j] != ids[ids.len() - 1]);
        }
        lemma_qty_same(a, b, t);
    } else {
        let i = choose|i: int| 0 <= i < ids.len() && ids[i] == x;
        assert(t[i] == x);
        assert(t.no_duplicates()) by {
            assert forall|i: int, j: int| 0 <= i < t.len() && 0 <= j < t.len() && i != j implies t[i] != t[j] by {
                assert(t[i] == ids[i] && t[j] == ids[j]);
            }
        }
        lemma_qty_one(a, b, t, x);
    }
}

/// The sum over two runs of orders is the sum of their sums.
proof fn lemma_qty_concat(l: L3, s: Seq<OrderId>, t: Seq<OrderId>)
    ensures
        qty_of(l, s + t) == qty_of(l, s) + qty_of(l, t),
    decreases t.len(),
{
    if t.len() == 0 {
        assert(s + t =~= s);
    } else {
        assert((s + t).drop_last() =~= s + t.drop_last());
        lemma_qty_concat(l, s, t.drop_last());
    }
}

/// What `_limit_order` took, it took from the orders `ids` of `o`: they are
/// distinct, every order that left or changed from `o` to `n` is among
/// them, and what they lost is what the taker lost (`rem0 - rem1`), but for
/// at most one unit of dust, and exactly that while the taker has some left.
pub open spec fn taken_from(o: L3, n: L3, ids: Seq<OrderId>, rem0: u64, rem1: u64) -> bool {
    &&& ids.no_duplicates()
    &&& forall|j: int| 0 <= j < ids.len() ==> o.orders@.contains_key(#[trigger] ids[j])
    &&& forall|id: OrderId| o.orders@.contains_key(id) &&
        (!n.orders@.contains_key(id) || n.orders_view()[id] != o.orders_view()[id]) ==> #[trigger] ids.contains(id)
    &&& dust_bounded(o, n, ids, rem0, rem1)
}

/// An order of a well-formed L3 sits in the level of its price.
proof fn lemma_in_own_level(l: L3, id: OrderId)
    requires
        l.wf(),
        l.orders@.contains_key(id),
    ensures
        l.level(l.orders@[id].price).contains(id),
{
    l.lemma_levels();
    let lv = l.levels();
    assert(in_levels(lv, id));
    let p = choose|p: u64| lv.contains_key(p) && #[trigger] lv[p].contains(id);
    assert(l.orders@[id].price == p);
}

/// One more level matched at `price` (book `mb` becoming `nb`, the taker
/// going from `c0` to `c1`) keeps what was taken accounted for, with the
/// orders of that level added to those taken from.
proof fn lemma_taken_step(o: L3, mb: OrderBook, nb: OrderBook, ids: Seq<OrderId>, price: u64, side: bool,
    rem0: u64, c0: u64, c1: u64)
    requires
        taken_from(o, mb.l3, ids, rem0, c0),
        c0 > 0,
        forall|j: int| 0 <= j < ids.len() ==> !mb.l3.orders@.contains_key(#[trigger] ids[j]),
        forall|id: OrderId| #[trigger] mb.l3.orders@.contains_key(id) ==> o.orders@.contains_key(id),
        mb.wf(),
        nb.wf(),
        match_at_spec(mb, nb, price, side, c0, c1),
        dust_bounded(mb.l3, nb.l3, mb.l3.level(price), c0, c1),
    ensures
        taken_from(o, nb.l3, ids + mb.l3.level(price), rem0, c1),
        forall|j: int| 0 <= j < (ids + mb.l3.level(price)).len() ==>
            !nb.l3.orders@.contains_key(#[trigger] (ids + mb.l3.level(price))[j]) || c1 == 0,
        forall|id: OrderId| #[trigger] nb.l3.orders@.contains_key(id) ==> o.orders@.contains_key(id),
{
    let m = mb.l3;
    let n = nb.l3;
    let qp = m.level(price);
    let all = ids + qp;
    m.lemma_levels();
    n.lemma_levels();
    m.lemma_orders_view();
    n.lemma_orders_view();
    o.lemma_orders_view();
    if m.levels().contains_key(price) {
        assert(m.level_ok(price, m.levels()[price]));
    }
    assert(qp.no_duplicates());
    // the level's orders are in the book, so none was taken before
    assert forall|j: int| 0 <= j < qp.len() implies m.orders@.contains_key(#[trigger] qp[j]) by {
        assert(m.levels().contains_key(price));
        assert(m.levels()[price].contains(qp[j]));
    }
    assert forall|j: int| 0 <= j < qp.len() implies cq(o, #[trigger] qp[j]) == cq(m, qp[j]) by {
        let y = qp[j];
        assert(m.orders@.contains_key(y));
        assert(o.orders@.contains_key(y));
        if ids.contains(y) {
            let i = choose|i: int| 0 <= i < ids.len() && ids[i] == y;
            assert(!m.orders@.contains_key(ids[i]));
        }
        assert(m.orders_view()[y] == o.orders_view()[y]);
    }
    lemma_qty_same(o, m, qp);
    assert forall|j: int| 0 <= j < ids.len() implies cq(m, #[trigger] ids[j]) == cq(n, ids[j]) by {
        assert(!m.orders@.contains_key(ids[j]));
    }
    lemma_qty_same(m, n, ids);
    lemma_qty_concat(o, ids, qp);
    lemma_qty_concat(n, ids, qp);
    assert(all.no_duplicates()) by {
        assert forall|i: int, j: int| 0 <= i < all.len() && 0 <= j < all.len() && i != j implies all[i] != all[j] by {
            if i < ids.len() && j >= ids.len() {
                assert(!m.orders@.contains_key(ids[i]));
                assert(m.orders@.contains_key(qp[j - ids.len()]));
            } else if j < ids.len() && i >= ids.len() {
                assert(!m.orders@.contains_key(ids[j]));
                assert(m.orders@.contains_key(qp[i - ids.len()]));
            }
        }
    }
    assert forall|j: int| 0 <= j < all.len() implies o.orders@.contains_key(#[trigger] all[j]) by {
        if j >= ids.len() {
            assert(all[j] == qp[j - ids.len()]);
        }
    }
    let k = choose|k: int| 0 <= k <= qp.len() && n.level(price) == qp.skip(k)
        && forall|j: int| 0 <= j < k ==> !n.orders@.contains_key(#[trigger] qp[j]);
    assert forall|id: OrderId| o.orders@.contains_key(id) &&
        (!n.orders@.contains_key(id) || n.orders_view()[id] != o.orders_view()[id]) implies #[trigger] all.contains(id) by {
        if ids.contains(id) {
            let i = choose|i: int| 0 <= i < ids.len() && ids[i] == id;
            assert(all[i] == id);
        } else {
            assert(m.orders@.contains_key(id) && m.orders_view()[id] == o.orders_view()[id]);
            if !n.orders@.contains_key(id) {
                assert(m.orders@[id].price == price);
                lemma_in_own_level(m, id);
            } else {
                assert(n.orders_view()[id] != m.orders_view()[id]);
                assert(n.level(price).len() > 0 && id == n.level(price)[0]);
                assert(qp[k] == id);
            }
            let i = choose|i: int| 0 <= i < qp.len() && qp[i] == id;
            assert(all[ids.len() + i] == id);
        }
    }
    assert forall|j: int| 0 <= j < all.len() implies !n.orders@.contains_key(#[trigger] all[j]) || c1 == 0 by {
        if j >= ids.len() && c1 > 0 {
            let y = qp[j - ids.len()];
            assert(all[j] == y);
            assert(n.level(price).len() == 0);
            if n.orders@.contains_key(y) {
                assert(n.orders@[y].price == m.orders@[y].price);
                assert(m.orders@[y].price == price) by {
                    assert(m.levels()[price].contains(y));
                }
                lemma_in_own_level(n, y);
            }
        } else if j < ids.len() {
            assert(all[j] == ids[j]);
        }
    }
}

/// Removing the first element of `s` (`s[0] == x`) leaves `s.skip(1)`.
proof fn lemma_remove_first<T>(s: Seq<T>, x: T)
    requires
        s.len() > 0,
        s[0] == x,
    ensures
        s.remove_value(x) == s.skip(1),
{
    s.index_of_first_ensures(x);
    assert(s.remove(0) =~= s.skip(1));
}


/// The side a taker on side `is_bid` matches against.
pub open spec fn other_side(is_bid: bool) -> bool {
    !is_bid
}

/// Price priority of a match against side `side` of book `o`, leaving the
/// orders `n`: the first `m` prices listed on that side had their levels
/// used up, and every order that left or changed sat at one of the first
/// `m + 1` prices.
pub open spec fn price_priority(o: OrderBook, n: L3, side: bool, m: int) -> bool {
    let ps = o.l2.prices(side);
    &&& 0 <= m <= ps.len()
    &&& forall|j: int, x: OrderId| 0 <= j < m && #[trigger] o.l3.level(ps[j]).contains(x) ==> !n.orders@.contains_key(x)
    &&& forall|id: OrderId| #[trigger] o.l3.orders@.contains_key(id) &&
        (!n.orders@.contains_key(id) || n.orders_view()[id] != o.l3.orders_view()[id]) ==>
        exists|j: int| 0 <= j <= m && j < ps.len() && #[trigger] ps[j] == o.l3.orders@[id].price
}

/// An order queued at `p` in a well-formed L3 is priced `p`.
proof fn lemma_level_price(l: L3, p: u64, x: OrderId)
    requires
        l.wf(),
        l.level(p).contains(x),
    ensures
        l.orders@.contains_key(x),
        l.orders@[x].price == p,
{
    l.lemma_levels();
    assert(l.levels().contains_key(p));
}

/// Before any match, the levels cleared off the front of side `side` count
/// as used up.
proof fn lemma_priority_start(o: OrderBook, side: bool)
    ensures
        price_priority(o, o.l3, side, empty_prefix(o.l2.prices(side), o.l3) as int),
{
    let ps = o.l2.prices(side);
    lemma_empty_prefix_bound(ps, o.l3);
    let k = empty_prefix(ps, o.l3) as int;
    assert forall|j: int, x: OrderId| 0 <= j < k && #[trigger] o.l3.level(ps[j]).contains(x) implies
        !o.l3.orders@.contains_key(x) by {
        assert(o.l3.level(ps[j]).len() == 0);
    }
}

/// A match at the best listed price `ps[m]`, then clearing the empty levels
/// at the front, keeps price priority, further along the list.
proof fn lemma_priority_step(o: OrderBook, mb: OrderBook, ab: OrderBook, cb: OrderBook, side: bool, m: int,
    price: u64, c0: u64, c1: u64) -> (m2: int)
    requires
        o.wf(),
        mb.wf(),
        ab.wf(),
        price_priority(o, mb.l3, side, m),
        mb.l2.prices(side) == o.l2.prices(side).skip(m),
        m < o.l2.prices(side).len(),
        o.l2.prices(side)[m] == price,
        forall|id: OrderId| #[trigger] mb.l3.orders@.contains_key(id) ==> o.l3.orders@.contains_key(id)
            && mb.l3.orders@[id].price == o.l3.orders@[id].price,
        match_at_spec(mb, ab, price, side, c0, c1),
        c0 > 0,
        cb.l3 == ab.l3,
        cb.l2.prices(side) == ab.l2.prices(side).skip(empty_prefix(ab.l2.prices(side), ab.l3) as int),
    ensures
        price_priority(o, cb.l3, side, m2),
        cb.l2.prices(side) == o.l2.prices(side).skip(m2),
        m <= m2,
{
    let ps = o.l2.prices(side);
    let cur = mb.l2.prices(side);
    o.l2.lemma_prices();
    assert(ps.no_duplicates());
    assert(cur[0] == price);
    o.l3.lemma_orders_view();
    mb.l3.lemma_orders_view();
    ab.l3.lemma_orders_view();
    lemma_empty_prefix_bound(ab.l2.prices(side), ab.l3);
    let gone = ab.l2 != mb.l2;
    let m1: int = if gone { m + 1 } else { m };
    if gone {
        lemma_remove_first(cur, price);
        assert(cur.skip(1) =~= ps.skip(m + 1));
        assert(ab.l2.prices(side) == ps.skip(m + 1));
        assert(ab.l3.level(price).len() == 0);
    } else {
        if ab.l3.level(price).len() == 0 {
            cur.index_of_first_ensures(price);
            assert(cur.remove_value(price).len() < cur.len());
        }
        assert(ab.l3.level(cur[0]).len() > 0);
        assert(empty_prefix(ab.l2.prices(side), ab.l3) == 0);
        assert(cur.skip(0) =~= cur);
    }
    let rest = ab.l2.prices(side);
    let k2 = empty_prefix(rest, ab.l3) as int;
    let m2 = m1 + k2;
    assert(rest.skip(k2) =~= ps.skip(m2));
    // a level used up now holds none of the orders that `o` queued there
    assert forall|j: int, x: OrderId| 0 <= j < m2 && #[trigger] o.l3.level(ps[j]).contains(x) implies
        !cb.l3.orders@.contains_key(x) by {
        lemma_level_price(o.l3, ps[j], x);
        if j < m {
            assert(!mb.l3.orders@.contains_key(x));
        } else if ab.l3.orders@.contains_key(x) {
            assert(mb.l3.orders@.contains_key(x));
            assert(ab.l3.orders@[x].price == ps[j]);
            lemma_in_own_level(ab.l3, x);
            if j == m {
                assert(gone);
            } else {
                assert(rest[j - m - 1] == ps[j]);
            }
        }
    }
    assert forall|id: OrderId| #[trigger] o.l3.orders@.contains_key(id) &&
        (!cb.l3.orders@.contains_key(id) || cb.l3.orders_view()[id] != o.l3.orders_view()[id]) implies
        exists|j: int| 0 <= j <= m2 && j < ps.len() && #[trigger] ps[j] == o.l3.orders@[id].price by {
        if mb.l3.orders@.contains_key(id) && mb.l3.orders_view()[id] == o.l3.orders_view()[id] {
            if !ab.l3.orders@.contains_key(id) {
                assert(mb.l3.orders@[id].price == price);
            } else {
                assert(ab.l3.orders_view()[id] != mb.l3.orders_view()[id]);
                assert(ab.l3.level(price).len() > 0 && id == ab.l3.level(price)[0]);
                lemma_level_price(ab.l3, price, id);
            }
            assert(ps[m] == o.l3.orders@[id].price);
        } else {
            assert(!mb.l3.orders@.contains_key(id) || mb.l3.orders_view()[id] != o.l3.orders_view()[id]);
            let j = choose|j: int| 0 <= j <= m && j < ps.len() && #[trigger] ps[j] == o.l3.orders@[id].price;
            assert(ps[j] == o.l3.orders@[id].price);
        }
    }
    m2
}

/// Price priority over the book `p` that an order `nid` was just placed
/// in is price priority over the book `o` it was placed in, when what
/// followed the match only took `nid` off.
proof fn lemma_priority_placed(o: OrderBook, p: OrderBook, q: L3, n: L3, side: bool, nid: OrderId, price: u64, m: int)
    requires
        o.wf(),
        price_priority(p, q, side, m),
        p.l2.prices(side) == o.l2.prices(side),
        !o.l3.orders@.contains_key(nid),
        forall|id: OrderId| #[trigger] o.l3.orders@.contains_key(id) ==>
            p.l3.orders@.contains_key(id) && p.l3.orders_view()[id] == o.l3.orders_view()[id] && p.l3.orders@[id].price == o.l3.orders@[id].price,
        p.l3.levels() == L3::queued(o.l3.levels(), price, nid),
        forall|id: OrderId| #[trigger] n.orders@.contains_key(id) ==> q.orders@.contains_key(id)
            && (id == nid || n.orders_view()[id] == q.orders_view()[id]),
        forall|id: OrderId| #[trigger] q.orders@.contains_key(id) && id != nid ==> n.orders@.contains_key(id),
    ensures
        price_priority(o, n, side, m),
{
    let ps = o.l2.prices(side);
    assert forall|x: u64, y: OrderId| #[trigger] o.l3.level(x).contains(y) implies p.l3.level(x).contains(y) by {
        let i = choose|i: int| 0 <= i < o.l3.level(x).len() && o.l3.level(x)[i] == y;
        if x == price {
            assert(o.l3.levels().contains_key(price));
            assert(p.l3.level(x) == o.l3.level(x).push(nid));
            assert(p.l3.level(x)[i] == y);
        } else {
            assert(p.l3.level(x) == o.l3.level(x));
        }
    }
    assert forall|j: int, x: OrderId| 0 <= j < m && #[trigger] o.l3.level(ps[j]).contains(x) implies
        !n.orders@.contains_key(x) by {
        assert(p.l3.level(ps[j]).contains(x));
        assert(!q.orders@.contains_key(x));
    }
    assert forall|id: OrderId| #[trigger] o.l3.orders@.contains_key(id) &&
        (!n.orders@.contains_key(id) || n.orders_view()[id] != o.l3.orders_view()[id]) implies
        exists|j: int| 0 <= j <= m && j < ps.len() && #[trigger] ps[j] == o.l3.orders@[id].price by {
        assert(p.l3.orders@.contains_key(id));
        assert(id != nid);
        if q.orders@.contains_key(id) && q.orders_view()[id] == p.l3.orders_view()[id] {
            assert(n.orders@.contains_key(id));
            assert(n.orders_view()[id] == q.orders_view()[id]);
        }
        let j = choose|j: int| 0 <= j <= m && j < ps.len() && #[trigger] ps[j] == p.l3.orders@[id].price;
        assert(ps[j] == o.l3.orders@[id].price);
    }
}

/// `p` is within limit `limit` for a buy (`is_bid`: at most) or a sell (at least).
pub open spec fn within(is_bid: bool, p: u64, limit: u64) -> bool {
    if is_bid { p <= limit } else { p >= limit }
}

/// The first price listed on side `is_bid` of `b` that has resting orders
/// (0 when there is none).
pub open spec fn live_head(b: OrderBook, is_bid: bool) -> u64 {
    let s = b.l2.prices(is_bid);
    let k = empty_prefix(s, b.l3);
    if k < s.len() { s[k as int] } else { 0 }
}

/// Removing a value leaves only values that were there.
proof fn lemma_remove_value_subset(s: Seq<u64>, x: u64)
    ensures
        forall|y: u64| #[trigger] s.remove_value(x).contains(y) ==> s.contains(y),
{
    s.index_of_first_ensures(x);
    assert forall|y: u64| #[trigger] s.remove_value(x).contains(y) implies s.contains(y) by {
        match s.index_of_first(x) {
            Some(i) => {
                let t = s.remove(i);
                let j = choose|j: int| 0 <= j < t.len() && t[j] == y;
                if j < i { assert(s[j] == y); } else { assert(s[j + 1] == y); }
            },
            None => {},
        }
    }
}

/// The best price of side `is_bid` (0 when none is listed), every listed
/// price before it having been cleared.
pub open spec fn head_or_zero(l2: L2, is_bid: bool) -> u64 {
    if l2.prices(is_bid).len() > 0 { l2.prices(is_bid)[0] } else { 0 }
}

/// The best price of side `is_bid` of `b` has resting orders.
pub open spec fn head_is_live(b: OrderBook, is_bid: bool) -> bool {
    b.l2.prices(is_bid).len() > 0 ==> b.l3.level(b.l2.prices(is_bid)[0]).len() > 0
}

/// What `_limit_order` does to book `o` (giving `n`) for a taker on side
/// `is_bid` with limit `limit`, whose remaining amount goes from `rem0` to
/// `rem1`, answering the heads `bh` and `ah`: it only takes from orders
/// within the limit, and moves the last match price only within it.
pub open spec fn limit_order_spec(o: OrderBook, n: OrderBook, is_bid: bool, limit: u64, rem0: u64, rem1: u64, bh: u64, ah: u64) -> bool {
    &&& rem1 <= rem0
    &&& n.fee_recipients == o.fee_recipients
    &&& n.dust == o.dust
    &&& n.l1 == (L1 { lmp: n.l1.lmp, ..o.l1 })
    &&& n.l1.lmp == o.l1.lmp || (n.l1.lmp is Some && n.l1.lmp->Some_0 != 0 && within(is_bid, n.l1.lmp->Some_0, limit))
    &&& forall|id: OrderId| #[trigger] n.l3.orders@.contains_key(id) ==> o.l3.orders@.contains_key(id)
    &&& forall|id: OrderId| o.l3.orders@.contains_key(id) &&
        (!n.l3.orders@.contains_key(id) || n.l3.orders_view()[id] != o.l3.orders_view()[id])
        ==> within(is_bid, #[trigger] o.l3.orders@[id].price, limit)
    &&& bh == head_or_zero(n.l2, true)
    &&& ah == head_or_zero(n.l2, false)
    &&& head_is_live(n, true)
    &&& head_is_live(n, false)
}


/// Orders of `n` are orders of `o` at the same price, and every order that
/// left or changed since `o` was priced within `limit`.
pub open spec fn taken_within(o: L3, n: L3, is_bid: bool, limit: u64) -> bool {
    &&& forall|id: OrderId| #[trigger] n.orders@.contains_key(id) ==> o.orders@.contains_key(id)
        && n.orders@[id].price == o.orders@[id].price
    &&& forall|id: OrderId| o.orders@.contains_key(id) &&
        (!n.orders@.contains_key(id) || n.orders_view()[id] != o.orders_view()[id])
        ==> within(is_bid, #[trigger] o.orders@[id].price, limit)
}

/// A match at a price within the limit keeps every taken order within it.
proof fn lemma_match_step(o: L3, m: L3, n: L3, price: u64, is_bid: bool, limit: u64, side: bool, rem0: u64, rem1: u64,
    mo: OrderBook, no: OrderBook)
    requires
        taken_within(o, m, is_bid, limit),
        mo.l3 == m,
        no.l3 == n,
        no.wf(),
        match_at_spec(mo, no, price, side, rem0, rem1),
        within(is_bid, price, limit),
    ensures
        taken_within(o, n, is_bid, limit),
{
    n.lemma_levels();
    assert forall|id: OrderId| o.orders@.contains_key(id) &&
        (!n.orders@.contains_key(id) || n.orders_view()[id] != o.orders_view()[id])
        implies within(is_bid, #[trigger] o.orders@[id].price, limit) by {
        if m.orders@.contains_key(id) && m.orders_view()[id] == o.orders_view()[id] {
            if !n.orders@.contains_key(id) {
                assert(m.orders@[id].price == price);
            } else {
                assert(n.orders_view()[id] != m.orders_view()[id]);
                let lv = n.levels();
                assert(n.level(price).len() > 0 && id == n.level(price)[0]);
                assert(lv.contains_key(price));
                assert(lv[price].contains(id));
                assert(n.orders@[id].price == price);
            }
        }
    }
}


/// The result of the cancel inside a fill-or-kill refusal, read off the
/// refusal's result `r`: `Ok` when it was refused as not fully filled.
pub open spec fn kill_cancel(r: Result<(), OrderBookError>) -> Result<(), OrderBookError> {
    if r == Err::<(), OrderBookError>(OrderBookError::OrderNotFullyFilled) { Ok(()) } else { r }
}

/// An error that cancelling an order can give.
pub open spec fn cancel_error(e: OrderBookError) -> bool {
    ||| e is L2
    ||| e == OrderBookError::OrderNotOwnedBySender
    ||| (e is L3 && e->L3_0 is OrderDoesNotExist)
}

/// What handling time in force `tif` does to book `o` (giving `n`) for the
/// taker `t` left after matching: IOC cancels what remains of it, GTC keeps
/// it resting, FOK cancels what remains of it and then fails with
/// `OrderNotFullyFilled` (or with the cancel's error).
pub open spec fn tif_spec(o: OrderBook, n: OrderBook, ev0: Seq<SpotEvent>, ev1: Seq<SpotEvent>, pair_id: Seq<u8>,
    tif: TimeInForce, t: Order, r: Result<(), OrderBookError>) -> bool {
    match tif {
        TimeInForce::ImmediateOrCancel => if t.cqty > 0 {
            cancel_spec(o, n, ev0, ev1, t.cid@, pair_id, t.is_bid, t.id, t.owner@, r)
                && rest_unchanged(o, n)
        } else {
            r is Ok && n == o && ev1 == ev0
        },
        TimeInForce::GoodTillCanceled => r is Ok && n == o && ev1 == ev0,
        TimeInForce::FillOrKill => if t.cqty > 0 {
            r is Err && cancel_spec(o, n, ev0, ev1, t.cid@, pair_id, t.is_bid, t.id, t.owner@, kill_cancel(r))
                && rest_unchanged(o, n)
        } else {
            r is Ok && n == o && ev1 == ev0
        },
    }
}

/// Every order of `o` that left or changed in `n` was priced within
/// `limit`, and `n` holds at most one order that `o` did not.
pub open spec fn changed_within(o: L3, n: L3, is_bid: bool, limit: u64) -> bool {
    &&& forall|id: OrderId| o.orders@.contains_key(id) &&
        (!n.orders@.contains_key(id) || n.orders_view()[id] != o.orders_view()[id])
        ==> within(is_bid, #[trigger] o.orders@[id].price, limit)
    &&& forall|a: OrderId, b: OrderId| #[trigger] n.orders@.contains_key(a) && #[trigger] n.orders@.contains_key(b)
        && !o.orders@.contains_key(a) && !o.orders@.contains_key(b) ==> a == b
}

/// The checks a limit order passes before it is placed, and the error of
/// the first it fails.
pub open spec fn limit_check(o: OrderBook, cid: Seq<u8>, existing_order_id: Option<OrderId>, price: u64, amnt: u64,
    iqty: u64) -> Option<OrderBookError> {
    match existing_order_id {
        Some(eid) if !o.l3.orders@.contains_key(eid) => Some(OrderBookError::L3(L3Error::OrderDoesNotExist(eid))),
        Some(eid) if o.l3.orders@[eid].cid@ != cid => Some(OrderBookError::OrderNotOwnedBySender),
        _ => if iqty > amnt {
            Some(OrderBookError::IcebergQuantityIsBiggerThanWholeAmount)
        } else if price == 0 {
            Some(OrderBookError::L3(L3Error::PriceIsZero))
        } else {
            None
        },
    }
}

/// What a limit order on side `is_bid` at `price` does to pair `o` (giving `n`).
pub open spec fn limit_spec(o: Pair, n: Pair, ev0: Seq<SpotEvent>, ev1: Seq<SpotEvent>, is_bid: bool, cid: Seq<u8>,
    existing_order_id: Option<OrderId>, price: u64, amnt: u64, iqty: u64, tif: TimeInForce,
    r: Result<OrderId, OrderBookError>) -> bool {
    let ob = o.orderbook;
    let nb = n.orderbook;
    &&& n.same_but_book(&o)
    &&& limit_check(ob, cid, existing_order_id, price, amnt, iqty) is Some ==>
        r == Err::<OrderId, OrderBookError>(limit_check(ob, cid, existing_order_id, price, amnt, iqty)->Some_0)
        && nb == ob && ev1 == ev0
    &&& r is Ok ==> limit_check(ob, cid, existing_order_id, price, amnt, iqty) is None
        && !ob.l3.orders@.contains_key(r->Ok_0)
    &&& limit_check(ob, cid, existing_order_id, price, amnt, iqty) is None && r is Err ==>
        is_duplicate_id(r)
        || (tif == TimeInForce::ImmediateOrCancel && cancel_error(r->Err_0))
        || (tif == TimeInForce::FillOrKill && (r->Err_0 == OrderBookError::OrderNotFullyFilled || cancel_error(r->Err_0)))
    &&& changed_within(ob.l3, nb.l3, is_bid, price)
    &&& nb.l1 == (L1 { lmp: nb.l1.lmp, ..ob.l1 })
    &&& nb.l1.lmp == ob.l1.lmp || (nb.l1.lmp is Some && nb.l1.lmp->Some_0 != 0 && within(is_bid, nb.l1.lmp->Some_0, price))
    &&& nb.fee_recipients == ob.fee_recipients
    &&& nb.dust == ob.dust
}


/// How a limit order placed under order id `id` ends: it answers `id` when
/// it succeeds; when it passes its checks it fails with `DuplicateOrderId`
/// exactly when `id` is taken (changing nothing); with a free id a
/// good-till-canceled order succeeds.
pub open spec fn limit_outcome(o: Pair, n: Pair, ev0: Seq<SpotEvent>, ev1: Seq<SpotEvent>, cid: Seq<u8>,
    existing_order_id: Option<OrderId>, price: u64, amnt: u64, iqty: u64, tif: TimeInForce, id: OrderId,
    r: Result<OrderId, OrderBookError>) -> bool {
    let passes = limit_check(o.orderbook, cid, existing_order_id, price, amnt, iqty) is None;
    &&& r is Ok ==> r->Ok_0 == id
    &&& passes && o.orderbook.l3.orders@.contains_key(id) ==>
        r == Err::<OrderId, OrderBookError>(OrderBookError::L3(L3Error::DuplicateOrderId(id))) && n == o && ev1 == ev0
    &&& passes && !o.orderbook.l3.orders@.contains_key(id) && tif == TimeInForce::GoodTillCanceled ==>
        r == Ok::<OrderId, OrderBookError>(id)
}

/// A limit order on side `is_bid` that passes its checks, has an amount, and
/// whose limit `price` reaches the best live price of the other side of `o`.
pub open spec fn crossing(o: Pair, is_bid: bool, cid: Seq<u8>, existing_order_id: Option<OrderId>, price: u64,
    amnt: u64, iqty: u64) -> bool {
    let h0 = live_head(o.orderbook, !is_bid);
    &&& limit_check(o.orderbook, cid, existing_order_id, price, amnt, iqty) is None
    &&& amnt > 0
    &&& h0 != 0
    &&& within(is_bid, h0, price)
}

/// The last match price of `n` is set, to a price listed on the other side
/// of `o` and within the limit `price`.
pub open spec fn lmp_moved(o: Pair, n: Pair, is_bid: bool, price: u64) -> bool {
    &&& n.orderbook.l1.lmp is Some
    &&& o.orderbook.l2.prices(!is_bid).contains(n.orderbook.l1.lmp->Some_0)
    &&& within(is_bid, n.orderbook.l1.lmp->Some_0, price)
}

/// `r` is the error of a drawn order id that was already taken.
pub open spec fn is_duplicate_id(r: Result<OrderId, OrderBookError>) -> bool {
    r is Err && r->Err_0 is L3 && r->Err_0->L3_0 is DuplicateOrderId
}

/// Queueing an order at `price` keeps the best live price of another list
/// within `price` when it was.
proof fn lemma_live_head_after_queue(o: OrderBook, p: OrderBook, side: bool, price: u64, id: OrderId, is_bid: bool)
    requires
        p.l2.prices(side) == o.l2.prices(side),
        p.l3.levels() == L3::queued(o.l3.levels(), price, id),
        price != 0,
        live_head(o, side) != 0,
        within(is_bid, live_head(o, side), price),
    ensures
        live_head(p, side) != 0,
        within(is_bid, live_head(p, side), price),
{
    let s = o.l2.prices(side);
    lemma_empty_prefix_bound(s, o.l3);
    lemma_empty_prefix_bound(s, p.l3);
    let ko = empty_prefix(s, o.l3);
    let kp = empty_prefix(s, p.l3);
    assert(ko < s.len());
    assert forall|x: u64| #[trigger] p.l3.level(x).len() >= o.l3.level(x).len()
        && (x != price ==> p.l3.level(x) == o.l3.level(x)) && p.l3.level(price).len() > 0 by {
    }
    if kp > ko {
        assert(p.l3.level(s[ko as int]).len() == 0);
    }
    if kp < ko {
        assert(o.l3.level(s[kp as int]).len() == 0);
        assert(s[kp as int] == price);
    }
}

/// A good-till-canceled limit order that passes its checks succeeds, unless
/// the order id drawn for it is already taken.
pub open spec fn limit_success_owed(o: Pair, cid: Seq<u8>, existing_order_id: Option<OrderId>, price: u64, amnt: u64,
    iqty: u64, tif: TimeInForce, r: Result<OrderId, OrderBookError>) -> bool {
    limit_check(o.orderbook, cid, existing_order_id, price, amnt, iqty) is None && tif == TimeInForce::GoodTillCanceled
        ==> r is Ok || is_duplicate_id(r)
}

/// Pair `p1` is `p0` with client `cid` added, with admin account `admin`
/// and fee account `fee`, its book's fee recipient for `cid` set to `fee`.
pub open spec fn client_added(p0: Pair, p1: Pair, cid: Seq<u8>, admin: Seq<u8>, fee: Seq<u8>) -> bool {
    &&& p1.clients@.drop_last() == p0.clients@
    &&& p1.clients@.len() == p0.clients@.len() + 1
    &&& p1.clients@.last()@ == cid
    &&& view_values(p1.client_admin_account_ids@) == view_values(p0.client_admin_account_ids@).insert(cid, admin)
    &&& view_values(p1.client_fee_account_ids@) == view_values(p0.client_fee_account_ids@).insert(cid, fee)
    &&& view_values(p1.orderbook.fee_recipients@) == view_values(p0.orderbook.fee_recipients@).insert(cid, fee)
}

/// Adding client `cid` with admin account `admin` and fee account `fee`
/// makes `admin` its admin account, and `fee` both its fee account and its
/// book's fee recipient; every other client's accounts and fee recipient
/// stay as they were, and `cid` is the last client listed.
pub proof fn law_client_accounts(p0: Pair, p1: Pair, cid: Seq<u8>, admin: Seq<u8>, fee: Seq<u8>)
    requires
        client_added(p0, p1, cid, admin, fee),
    ensures
        p1.client_admin_account_ids@.contains_key(cid),
        p1.client_admin_account_ids@[cid]@ == admin,
        p1.client_fee_account_ids@.contains_key(cid),
        p1.client_fee_account_ids@[cid]@ == fee,
        p1.orderbook.fee_recipients@.contains_key(cid),
        p1.orderbook.fee_recipients@[cid]@ == fee,
        p1.clients@[p1.clients@.len() - 1]@ == cid,
        forall|k: Seq<u8>| #![trigger p1.client_admin_account_ids@.contains_key(k)] k != cid ==>
            (p1.client_admin_account_ids@.contains_key(k) <==> p0.client_admin_account_ids@.contains_key(k))
            && (p1.client_admin_account_ids@.contains_key(k) ==>
                p1.client_admin_account_ids@[k]@ == p0.client_admin_account_ids@[k]@),
        forall|k: Seq<u8>| #![trigger p1.client_fee_account_ids@.contains_key(k)] k != cid ==>
            (p1.client_fee_account_ids@.contains_key(k) <==> p0.client_fee_account_ids@.contains_key(k))
            && (p1.client_fee_account_ids@.contains_key(k) ==>
                p1.client_fee_account_ids@[k]@ == p0.client_fee_account_ids@[k]@),
        forall|k: Seq<u8>| #![trigger p1.orderbook.fee_recipients@.contains_key(k)] k != cid ==>
            (p1.orderbook.fee_recipients@.contains_key(k) <==> p0.orderbook.fee_recipients@.contains_key(k))
            && (p1.orderbook.fee_recipients@.contains_key(k) ==>
                p1.orderbook.fee_recipients@[k]@ == p0.orderbook.fee_recipients@[k]@),
{
    let a0 = view_values(p0.client_admin_account_ids@);
    let a1 = view_values(p1.client_admin_account_ids@);
    let f0 = view_values(p0.client_fee_account_ids@);
    let f1 = view_values(p1.client_fee_account_ids@);
    let r0 = view_values(p0.orderbook.fee_recipients@);
    let r1 = view_values(p1.orderbook.fee_recipients@);
    assert(a1.contains_key(cid) && a1[cid] == admin);
    assert(f1.contains_key(cid) && f1[cid] == fee);
    assert(r1.contains_key(cid) && r1[cid] == fee);
    assert forall|k: Seq<u8>| #![trigger p1.client_admin_account_ids@.contains_key(k)] k != cid implies
        (p1.client_admin_account_ids@.contains_key(k) <==> p0.client_admin_account_ids@.contains_key(k))
        && (p1.client_admin_account_ids@.contains_key(k) ==>
            p1.client_admin_account_ids@[k]@ == p0.client_admin_account_ids@[k]@) by {
        assert(a1.contains_key(k) == a0.contains_key(k));
        if a1.contains_key(k) { assert(a1[k] == a0[k]); }
    }
    assert forall|k: Seq<u8>| #![trigger p1.client_fee_account_ids@.contains_key(k)] k != cid implies
        (p1.client_fee_account_ids@.contains_key(k) <==> p0.client_fee_account_ids@.contains_key(k))
        && (p1.client_fee_account_ids@.contains_key(k) ==>
            p1.client_fee_account_ids@[k]@ == p0.client_fee_account_ids@[k]@) by {
        assert(f1.contains_key(k) == f0.contains_key(k));
        if f1.contains_key(k) { assert(f1[k] == f0[k]); }
    }
    assert forall|k: Seq<u8>| #![trigger p1.orderbook.fee_recipients@.contains_key(k)] k != cid implies
        (p1.orderbook.fee_recipients@.contains_key(k) <==> p0.orderbook.fee_recipients@.contains_key(k))
        && (p1.orderbook.fee_recipients@.contains_key(k) ==>
            p1.orderbook.fee_recipients@[k]@ == p0.orderbook.fee_recipients@[k]@) by {
        assert(r1.contains_key(k) == r0.contains_key(k));
        if r1.contains_key(k) { assert(r1[k] == r0[k]); }
    }
}

/// Removing client `cid` from the client list `s0` (giving `s1`) leaves no
/// entry `cid`, keeps every other client that was listed, and lists no
/// client that was not.
pub proof fn law_client_removed(s0: Seq<Seq<u8>>, s1: Seq<Seq<u8>>, cid: Seq<u8>)
    requires
        s1 == s0.filter(other_client(cid)),
    ensures
        !s1.contains(cid),
        forall|c: Seq<u8>| c != cid && #[trigger] s0.contains(c) ==> s1.contains(c),
        forall|c: Seq<u8>| #[trigger] s1.contains(c) ==> s0.contains(c),
{
    if s1.contains(cid) {
        let i = choose|i: int| 0 <= i < s1.len() && s1[i] == cid;
        s0.lemma_filter_pred(other_client(cid), i);
    }
    assert forall|c: Seq<u8>| c != cid && #[trigger] s0.contains(c) implies s1.contains(c) by {
        let i = choose|i: int| 0 <= i < s0.len() && s0[i] == c;
        s0.lemma_filter_contains(other_client(cid), i);
    }
    assert forall|c: Seq<u8>| #[trigger] s1.contains(c) implies s0.contains(c) by {
        s0.lemma_filter_contains_rev(other_client(cid), c);
    }
}

/// `e` reports the accounts of client `cid` on pair `pair_id` at `timestamp`:
/// `Some` when they are set, `None` when the client was removed.
pub open spec fn is_client_changed(e: SpotEvent, pair_id: Seq<u8>, cid: Seq<u8>, admin: Option<Seq<u8>>,
    fee: Option<Seq<u8>>, timestamp: i64) -> bool {
    match e {
        SpotEvent::SpotPairClientAccountChanged { pair_id: p, cid: c, admin_account_id: a, fee_account_id: f, timestamp: t } => {
            &&& p@ == pair_id
            &&& c is Some && c->Some_0@ == cid
            &&& (match a { Some(v) => admin == Some(v@), None => admin is None })
            &&& (match f { Some(v) => fee == Some(v@), None => fee is None })
            &&& t == timestamp
        },
        _ => false,
    }
}

/// Client id `c` differs from `cid`.
pub open spec fn other_client(cid: Seq<u8>) -> spec_fn(Seq<u8>) -> bool {
    |c: Seq<u8>| c != cid
}

impl Pair {
    pub open spec fn wf(&self) -> bool {
        &&& self.orderbook.wf()
        &&& self.client_admin_account_ids.wf()
        &&& self.client_fee_account_ids.wf()
    }

    /// `self` and `other` differ at most in their order books.
    pub open spec fn same_but_book(&self, other: &Pair) -> bool {
        &&& self.pair_id@ == other.pair_id@
        &&& self.base_asset_id@ == other.base_asset_id@
        &&& self.quote_asset_id@ == other.quote_asset_id@
        &&& self.clients@ == other.clients@
        &&& self.client_admin_account_ids == other.client_admin_account_ids
        &&& self.client_fee_account_ids == other.client_fee_account_ids
    }

    /// A pair with empty ids, an empty order book and no client.
    pub fn new() -> (p: Self)
        ensures
            p.wf(),
            p.pair_id@ == Seq::<u8>::empty(),
            p.base_asset_id@ == Seq::<u8>::empty(),
            p.quote_asset_id@ == Seq::<u8>::empty(),
            p.clients@ == Seq::<Vec<u8>>::empty(),
            p.client_admin_account_ids@ == Map::<Seq<u8>, Vec<u8>>::empty(),
            p.client_fee_account_ids@ == Map::<Seq<u8>, Vec<u8>>::empty(),
            p.orderbook.l3.levels() == Map::<u64, Seq<OrderId>>::empty(),
            p.orderbook.l3.orders@ == Map::<OrderId, Order>::empty(),
            p.orderbook.l2.bid_prices() == Seq::<u64>::empty(),
            p.orderbook.l2.ask_prices() == Seq::<u64>::empty(),
            p.orderbook.l1.lmp is None,
            p.orderbook.fee_recipients@ == Map::<Seq<u8>, Vec<u8>>::empty(),
    {
        Pair {
            pair_id: Vec::new(),
            base_asset_id: Vec::new(),
            quote_asset_id: Vec::new(),
            orderbook: OrderBook::new(),
            clients: Vec::new(),
            client_admin_account_ids: ByteMap::new(),
            client_fee_account_ids: ByteMap::new(),
        }
    }

    /// Matches the orders resting at `price` (asks when `is_matching_asks`,
    /// bids otherwise) against what remains of `taker_order`, oldest first,
    /// until nothing remains or the level is used up; a used-up level is
    /// unlisted. The remaining amount is left in the taker's current quantity.
    /// A maker left with a single unit (the dust limit) leaves the book.
    pub fn _match_at(&mut self, price: u64, is_matching_asks: bool, taker_order: &mut Order) -> (r: Result<Order, OrderBookError>)
        requires
            old(self).wf(),
        ensures
            final(self).wf(),
            final(self).same_but_book(old(self)),
            *final(taker_order) == (Order { cqty: final(taker_order).cqty, ..*old(taker_order) }),
            r is Ok,
            r->Ok_0@ == final(taker_order)@,
            match_at_spec(old(self).orderbook, final(self).orderbook, price, !is_matching_asks, old(taker_order).cqty,
                final(taker_order).cqty),
            exists|k: int| #[trigger] match_taken(old(self).orderbook.l3, final(self).orderbook.l3, price,
                old(taker_order).cqty, final(taker_order).cqty, k),
            dust_bounded(old(self).orderbook.l3, final(self).orderbook.l3, old(self).orderbook.l3.level(price),
                old(taker_order).cqty, final(taker_order).cqty),
    {
        let side = !is_matching_asks;
        let ghost mut partial = false;
        let ghost o3 = self.orderbook.l3;
        let ghost q = self.orderbook.l3.level(price);
        let ghost mut k: int = 0;
        let mut current_remaining = taker_order.cqty;
        let mut done = false;
        proof {
            assert(q.skip(0) =~= q);
            o3.lemma_levels();
            if o3.levels().contains_key(price) {
                assert(o3.level_ok(price, o3.levels()[price]));
            }
        }
        while !done && current_remaining > 0
            invariant
                self.wf(),
                self.same_but_book(old(self)),
                *taker_order == *old(taker_order),
                q == old(self).orderbook.l3.level(price),
                rest_unchanged(old(self).orderbook, self.orderbook),
                self.orderbook.l3.dust == old(self).orderbook.l3.dust,
                self.orderbook.l3.dormant_order == old(self).orderbook.l3.dormant_order,
                current_remaining <= old(taker_order).cqty,
                0 <= k <= q.len(),
                self.orderbook.l3.level(price) == q.skip(k),
                forall|j: int| 0 <= j < k ==> !self.orderbook.l3.orders@.contains_key(#[trigger] q[j]),
                forall|p: u64| p != price ==> #[trigger] self.orderbook.l3.level(p) == old(self).orderbook.l3.level(p),
                forall|id: OrderId| #[trigger] self.orderbook.l3.orders@.contains_key(id) ==> old(self).orderbook.l3.orders@.contains_key(id)
                    && self.orderbook.l3.orders@[id].price == old(self).orderbook.l3.orders@[id].price
                    && (self.orderbook.l3.orders_view()[id] == old(self).orderbook.l3.orders_view()[id]
                        || (self.orderbook.l3.level(price).len() > 0 && id == self.orderbook.l3.level(price)[0])),
                !done && current_remaining > 0 ==> forall|id: OrderId| #[trigger] self.orderbook.l3.orders@.contains_key(id) ==>
                    self.orderbook.l3.orders_view()[id] == old(self).orderbook.l3.orders_view()[id],
                forall|id: OrderId| old(self).orderbook.l3.orders@.contains_key(id) && old(self).orderbook.l3.orders@[id].price != price
                    ==> #[trigger] self.orderbook.l3.orders@.contains_key(id),
                current_remaining + self.orderbook.l3.orders@.len() <= old(taker_order).cqty + old(self).orderbook.l3.orders@.len(),
                (old(taker_order).cqty > 0 && q.len() > 0 && (done || current_remaining < old(taker_order).cqty || k > 0))
                    ==> current_remaining + self.orderbook.l3.orders@.len() < old(taker_order).cqty + old(self).orderbook.l3.orders@.len(),
                !done ==> self.orderbook.l2 == old(self).orderbook.l2,
                done ==> self.orderbook.l3.level(price).len() == 0 && l2_unlisted(old(self).orderbook.l2, self.orderbook.l2, side, Some(price)),
                done ==> q.len() == 0 || current_remaining < old(taker_order).cqty || k > 0,
                !done && (k > 0 || current_remaining < old(taker_order).cqty) ==> self.orderbook.l3.level(price).len() > 0,
                o3 == old(self).orderbook.l3,
                !partial ==> current_remaining == remaining_after(cqtys(o3, q.take(k)), old(taker_order).cqty as int),
                forall|j: int| 0 <= j < k ==> #[trigger] remaining_after(cqtys(o3, q.take(j)), old(taker_order).cqty as int) > 0,
                k > 0 ==> o3.orders@[q[k - 1]].cqty <= remaining_after(cqtys(o3, q.take(k - 1)), old(taker_order).cqty as int) + 1,
                dust_bounded(o3, self.orderbook.l3, q, old(taker_order).cqty, current_remaining),
                q.no_duplicates(),
                !partial ==> forall|id: OrderId| #[trigger] self.orderbook.l3.orders@.contains_key(id) ==>
                    self.orderbook.l3.orders_view()[id] == o3.orders_view()[id],
                partial ==> {
                    let r = remaining_after(cqtys(o3, q.take(k)), old(taker_order).cqty as int);
                    &&& current_remaining == 0
                    &&& k < q.len()
                    &&& self.orderbook.l3.orders@.contains_key(q[k])
                    &&& 0 < r < o3.orders@[q[k]].cqty
                    &&& self.orderbook.l3.orders@[q[k]].cqty == o3.orders@[q[k]].cqty - r
                    &&& self.orderbook.l3.orders_view()[q[k]] != o3.orders_view()[q[k]]
                },
            decreases current_remaining + self.orderbook.l3.orders@.len(), if done { 0int } else { 1int },
        {
            proof { self.orderbook.l3.lemma_levels(); }
            // the level is used up: unlist it
            if self.orderbook.l3.is_empty(price) {
                self.orderbook.remove_price_level(side, price);
                done = true;
            } else {
                let maker_order_id = match self.orderbook.l3.head(price) {
                    Some(id) => id,
                    None => vstd::pervasive::unreached(),
                };
                let ghost l3_0 = self.orderbook.l3;
                proof {
                    assert(q.skip(k)[0] == maker_order_id);
                    assert(l3_0.level(price).contains(maker_order_id));
                    assert(l3_0.levels().contains_key(price));
                }
                let maker_cqty = match self.orderbook.l3.get_order(maker_order_id) {
                    Ok(o) => o.cqty,
                    Err(_) => vstd::pervasive::unreached(),
                };
                let match_amount = if current_remaining < maker_cqty { current_remaining } else { maker_cqty };
                // take the match off the maker only: the taker is the caller's
                let (_, delete_price) = match self.orderbook.l3.decrease_order(maker_order_id, match_amount, 1u64, false) {
                    Ok(v) => v,
                    Err(_) => vstd::pervasive::unreached(),
                };
                let ghost r_before = current_remaining as int;
                current_remaining = current_remaining - match_amount;
                proof {
                    // what the maker lost, against what the taker did
                    assert(q[k] == maker_order_id);
                    assert(q.contains(maker_order_id));
                    l3_0.lemma_orders_view();
                    self.orderbook.l3.lemma_orders_view();
                    assert forall|j: int| 0 <= j < q.len() && q[j] != maker_order_id implies
                        cq(l3_0, #[trigger] q[j]) == cq(self.orderbook.l3, q[j]) by {
                        let y = q[j];
                        if l3_0.orders@.contains_key(y) {
                            assert(self.orderbook.l3.orders@.contains_key(y));
                            assert(self.orderbook.l3.orders_view()[y] == l3_0.orders_view()[y]);
                        } else if self.orderbook.l3.orders@.contains_key(y) {
                            assert(self.orderbook.l3.orders_view().dom().contains(y));
                        }
                    }
                    lemma_qty_one(l3_0, self.orderbook.l3, q, maker_order_id);
                    if self.orderbook.l3.orders@.contains_key(maker_order_id) {
                        assert(self.orderbook.l3.orders_view()[maker_order_id].cqty == maker_cqty - match_amount);
                    }
                }
                proof {
                    let lv0 = l3_0.levels();
                    l3_0.lemma_orders_view();
                    self.orderbook.l3.lemma_orders_view();
                    assert(cqtys(o3, q.take(k + 1)).drop_last() =~= cqtys(o3, q.take(k)));
                    assert(l3_0.orders@[maker_order_id]@ == o3.orders_view()[maker_order_id]);
                    assert(maker_cqty == o3.orders@[maker_order_id].cqty);
                    assert(cqtys(o3, q.take(k + 1)).last() == maker_cqty);
                    if self.orderbook.l3.orders@.contains_key(maker_order_id) {
                        partial = true;
                        assert(self.orderbook.l3.orders_view()[maker_order_id].cqty != o3.orders_view()[maker_order_id].cqty);
                    }
                    assert(l3_0.orders@[maker_order_id].price == price);
                    if self.orderbook.l3.orders@.contains_key(maker_order_id) {
                        // partly taken: the queue is unchanged and nothing remains
                        assert(self.orderbook.l3.levels() == lv0);
                        assert(current_remaining == 0);
                        assert forall|id: OrderId| #[trigger] self.orderbook.l3.orders@.contains_key(id) implies
                            old(self).orderbook.l3.orders@.contains_key(id)
                            && self.orderbook.l3.orders@[id].price == old(self).orderbook.l3.orders@[id].price
                            && (self.orderbook.l3.orders_view()[id] == old(self).orderbook.l3.orders_view()[id]
                                || (self.orderbook.l3.level(price).len() > 0 && id == self.orderbook.l3.level(price)[0])) by {
                            assert(l3_0.orders@.contains_key(id));
                            if id != maker_order_id {
                                assert(self.orderbook.l3.orders_view()[id] == l3_0.orders_view()[id]);
                                assert(self.orderbook.l3.orders@[id]@ == l3_0.orders@[id]@);
                            } else {
                                assert(self.orderbook.l3.orders_view()[id].price == l3_0.orders_view()[id].price);
                            }
                        }
                    } else {
                        lemma_remove_first(lv0[price], maker_order_id);
                        assert(q.skip(k).skip(1) =~= q.skip(k + 1));
                        assert(q[k] == maker_order_id);
                        k = k + 1;
                        assert forall|j: int| 0 <= j < k implies !self.orderbook.l3.orders@.contains_key(#[trigger] q[j]) by {
                            if j < k - 1 {
                                assert(!l3_0.orders@.contains_key(q[j]));
                            }
                        }
                        assert(self.orderbook.l3.orders@.len() == l3_0.orders@.len() - 1);
                        assert forall|id: OrderId| #[trigger] self.orderbook.l3.orders@.contains_key(id) implies
                            self.orderbook.l3.orders_view()[id] == old(self).orderbook.l3.orders_view()[id] by {
                            assert(l3_0.orders@.contains_key(id));
                            assert(self.orderbook.l3.orders@[id] == l3_0.orders@[id]);
                        }
                    }
                    assert forall|p: u64| p != price implies #[trigger] self.orderbook.l3.level(p) == old(self).orderbook.l3.level(p) by {
                        assert(l3_0.level(p) == old(self).orderbook.l3.level(p));
                    }
                }
                // the maker was used up and its level emptied: unlist the price
                if delete_price.is_some() && self.orderbook.l3.is_empty(price) {
                    self.orderbook.remove_price_level(side, price);
                    done = true;
                }
            }
        }
        proof {
            assert(0 <= k <= q.len() && self.orderbook.l3.level(price) == q.skip(k)
                && forall|j: int| 0 <= j < k ==> !self.orderbook.l3.orders@.contains_key(#[trigger] q[j]));
        }
        taker_order.cqty = current_remaining;
        proof {
            assert(match_taken(old(self).orderbook.l3, self.orderbook.l3, price, old(taker_order).cqty, current_remaining, k));
        }
        Ok(taker_order.cloned())
    }

    /// Clears the empty levels at the front of side `is_bid` and returns its
    /// best price (0 when none is left).
    fn clear_side(&mut self, is_bid: bool) -> (h: u64)
        requires
            old(self).wf(),
        ensures
            final(self).wf(),
            final(self).same_but_book(old(self)),
            final(self).orderbook.l1 == old(self).orderbook.l1,
            final(self).orderbook.l3 == old(self).orderbook.l3,
            final(self).orderbook.fee_recipients == old(self).orderbook.fee_recipients,
            final(self).orderbook.dust == old(self).orderbook.dust,
            final(self).orderbook.l2.prices(!is_bid) == old(self).orderbook.l2.prices(!is_bid),
            h == head_or_zero(final(self).orderbook.l2, is_bid),
            head_is_live(final(self).orderbook, is_bid),
            h == live_head(old(self).orderbook, is_bid),
            final(self).orderbook.l2.prices(is_bid) == old(self).orderbook.l2.prices(is_bid).skip(
                empty_prefix(old(self).orderbook.l2.prices(is_bid), old(self).orderbook.l3) as int),
            forall|p: u64| #[trigger] final(self).orderbook.l2.prices(is_bid).contains(p) ==>
                old(self).orderbook.l2.prices(is_bid).contains(p),
    {
        let ghost s = self.orderbook.l2.prices(is_bid);
        proof { lemma_empty_prefix_bound(s, self.orderbook.l3); }
        let h = self.orderbook.clear_empty_head_or_zero(is_bid);
        proof {
            let k = empty_prefix(s, old(self).orderbook.l3);
            if k < s.len() {
                assert(s.skip(k as int)[0] == s[k as int]);
            }
            lemma_skip_contains(s, k as int);
            old(self).orderbook.l2.lemma_same_side(&self.orderbook.l2, !is_bid);
        }
        h
    }

    /// Matches `taker_order` against the other side while its best price is
    /// within `limit_price` (at most it for a buy, at least it for a sell)
    /// and something remains, level by level, then sets the last match price.
    /// Does nothing when a last match price is set and the other side is empty
    /// or out of the limit. Returns the taker with what remains of it and the
    /// best bid and ask prices (0 when a side is empty). The best prices go
    /// first; what the makers lose is what the taker loses, but for one unit
    /// of dust that a maker left with a single unit gives up.
    pub fn _limit_order(&mut self, limit_price: u64, taker_order: &mut Order) -> (r: Result<(Order, u64, u64), OrderBookError>)
        requires
            old(self).wf(),
        ensures
            final(self).wf(),
            final(self).same_but_book(old(self)),
            *final(taker_order) == (Order { cqty: final(taker_order).cqty, ..*old(taker_order) }),
            r is Ok,
            r->Ok_0.0@ == final(taker_order)@,
            limit_order_spec(old(self).orderbook, final(self).orderbook, old(taker_order).is_bid, limit_price,
                old(taker_order).cqty, final(taker_order).cqty, r->Ok_0.1, r->Ok_0.2),
            ({
                let opp = if old(taker_order).is_bid { r->Ok_0.2 } else { r->Ok_0.1 };
                final(taker_order).cqty > 0 ==> opp == 0 || !within(old(taker_order).is_bid, opp, limit_price)
            }),
            exists|ids: Seq<OrderId>| #[trigger] taken_from(old(self).orderbook.l3, final(self).orderbook.l3, ids,
                old(taker_order).cqty, final(taker_order).cqty),
            exists|m: int| #[trigger] price_priority(old(self).orderbook, final(self).orderbook.l3, other_side(old(taker_order).is_bid), m),
            ({
                let h0 = live_head(old(self).orderbook, !old(taker_order).is_bid);
                (old(taker_order).cqty > 0 && h0 != 0 && within(old(taker_order).is_bid, h0, limit_price))
                    || final(taker_order).cqty < old(taker_order).cqty ==> {
                    &&& final(self).orderbook.l1.lmp is Some
                    &&& old(self).orderbook.l2.prices(!old(taker_order).is_bid).contains(final(self).orderbook.l1.lmp->Some_0)
                    &&& within(old(taker_order).is_bid, final(self).orderbook.l1.lmp->Some_0, limit_price)
                }
            }),
    {
        // last matched price
        let mut lmp = match self.orderbook.lmp() {
            Some(p) => p,
            None => 0,
        };
        let ghost o = self.orderbook;
        let is_bid = taker_order.is_bid;
        let mut bid_head = self.clear_side(true);
        let mut ask_head = self.clear_side(false);
        let ghost mut ids: Seq<OrderId> = Seq::empty();
        let ghost mut pm: int = 0;
        proof {
            assert(taken_within(o.l3, self.orderbook.l3, is_bid, limit_price));
            assert(taken_from(o.l3, self.orderbook.l3, ids, old(taker_order).cqty, taker_order.cqty));
            lemma_priority_start(o, other_side(is_bid));
            pm = empty_prefix(o.l2.prices(!is_bid), o.l3) as int;
            assert(price_priority(o, self.orderbook.l3, other_side(is_bid), pm));
            assert(self.orderbook.l2.prices(!is_bid) == o.l2.prices(!is_bid).skip(pm));
        }
        if is_bid {
            // limit buy: match against the asks
            if lmp != 0 {
                if ask_head != 0 && limit_price < ask_head {
                    return Ok((taker_order.cloned(), bid_head, ask_head));
                } else if ask_head == 0 {
                    return Ok((taker_order.cloned(), bid_head, ask_head));
                }
            }
            let ghost h0 = ask_head;
            let ghost mut ran = false;
            while taker_order.cqty > 0 && ask_head != 0 && ask_head <= limit_price
                invariant
                    h0 == live_head(o, false),
                    !ran ==> ask_head == h0 && taker_order.cqty == old(taker_order).cqty,
                    ran ==> lmp != 0 && o.l2.prices(false).contains(lmp) && lmp <= limit_price,
                    forall|p: u64| #[trigger] self.orderbook.l2.prices(false).contains(p) ==> o.l2.prices(false).contains(p),
                    self.wf(),
                    self.same_but_book(old(self)),
                    *taker_order == (Order { cqty: taker_order.cqty, ..*old(taker_order) }),
                    taker_order.cqty <= old(taker_order).cqty,
                    is_bid == taker_order.is_bid,
                    is_bid,
                    o == old(self).orderbook,
                    self.orderbook.l1 == o.l1,
                    self.orderbook.fee_recipients == o.fee_recipients,
                    self.orderbook.dust == o.dust,
                    ask_head == head_or_zero(self.orderbook.l2, false),
                    head_is_live(self.orderbook, false),
                    lmp == (match o.l1.lmp { Some(p) => p, None => 0 }) || (lmp != 0 && within(is_bid, lmp, limit_price)),
                    taken_within(o.l3, self.orderbook.l3, is_bid, limit_price),
                    taken_from(o.l3, self.orderbook.l3, ids, old(taker_order).cqty, taker_order.cqty),
                    price_priority(o, self.orderbook.l3, false, pm),
                    o.wf(),
                    self.orderbook.l2.prices(false) == o.l2.prices(false).skip(pm),
                    forall|j: int| 0 <= j < ids.len() ==>
                        !self.orderbook.l3.orders@.contains_key(#[trigger] ids[j]) || taker_order.cqty == 0,
                decreases taker_order.cqty + self.orderbook.l3.orders@.len(),
            {
                lmp = ask_head;
                let ghost mo = self.orderbook;
                let ghost c0 = taker_order.cqty;
                proof {
                    mo.l2.lemma_prices();
                    assert(mo.l2.prices(false).contains(ask_head));
                    ran = true;
                }
                let _ = self._match_at(ask_head, true, taker_order);
                proof {
                    lemma_match_step(o.l3, mo.l3, self.orderbook.l3, ask_head, is_bid, limit_price, false, c0,
                        taker_order.cqty, mo, self.orderbook);
                    lemma_taken_step(o.l3, mo, self.orderbook, ids, ask_head, false, old(taker_order).cqty, c0,
                        taker_order.cqty);
                    ids = ids + mo.l3.level(ask_head);
                    lemma_remove_value_subset(mo.l2.prices(false), ask_head);
                    mo.l2.lemma_prices();
                    assert(o.l2.prices(false).skip(pm)[0] == o.l2.prices(false)[pm]);
                }
                let ghost ab = self.orderbook;
                ask_head = self.clear_side(false);
                proof {
                    pm = lemma_priority_step(o, mo, ab, self.orderbook, false, pm, mo.l2.prices(false)[0], c0,
                        taker_order.cqty);
                }
            }
            bid_head = self.clear_side(true);
        } else {
            // limit sell: match against the bids
            if lmp != 0 {
                if bid_head != 0 && limit_price > bid_head {
                    return Ok((taker_order.cloned(), bid_head, ask_head));
                } else if bid_head == 0 {
                    return Ok((taker_order.cloned(), bid_head, ask_head));
                }
            }
            let ghost h0 = bid_head;
            let ghost mut ran = false;
            while taker_order.cqty > 0 && bid_head != 0 && bid_head >= limit_price
                invariant
                    h0 == live_head(o, true),
                    !ran ==> bid_head == h0 && taker_order.cqty == old(taker_order).cqty,
                    ran ==> lmp != 0 && o.l2.prices(true).contains(lmp) && lmp >= limit_price,
                    forall|p: u64| #[trigger] self.orderbook.l2.prices(true).contains(p) ==> o.l2.prices(true).contains(p),
                    self.wf(),
                    self.same_but_book(old(self)),
                    *taker_order == (Order { cqty: taker_order.cqty, ..*old(taker_order) }),
                    taker_order.cqty <= old(taker_order).cqty,
                    is_bid == taker_order.is_bid,
                    !is_bid,
                    o == old(self).orderbook,
                    self.orderbook.l1 == o.l1,
                    self.orderbook.fee_recipients == o.fee_recipients,
                    self.orderbook.dust == o.dust,
                    bid_head == head_or_zero(self.orderbook.l2, true),
                    head_is_live(self.orderbook, true),
                    lmp == (match o.l1.lmp { Some(p) => p, None => 0 }) || (lmp != 0 && within(is_bid, lmp, limit_price)),
                    taken_within(o.l3, self.orderbook.l3, is_bid, limit_price),
                    taken_from(o.l3, self.orderbook.l3, ids, old(taker_order).cqty, taker_order.cqty),
                    price_priority(o, self.orderbook.l3, true, pm),
                    o.wf(),
                    self.orderbook.l2.prices(true) == o.l2.prices(true).skip(pm),
                    forall|j: int| 0 <= j < ids.len() ==>
                        !self.orderbook.l3.orders@.contains_key(#[trigger] ids[j]) || taker_order.cqty == 0,
                decreases taker_order.cqty + self.orderbook.l3.orders@.len(),
            {
                lmp = bid_head;
                let ghost mo = self.orderbook;
                let ghost c0 = taker_order.cqty;
                proof {
                    mo.l2.lemma_prices();
                    assert(mo.l2.prices(true).contains(bid_head));
                    ran = true;
                }
                let _ = self._match_at(bid_head, false, taker_order);
                proof {
                    lemma_match_step(o.l3, mo.l3, self.orderbook.l3, bid_head, is_bid, limit_price, true, c0,
                        taker_order.cqty, mo, self.orderbook);
                    lemma_taken_step(o.l3, mo, self.orderbook, ids, bid_head, true, old(taker_order).cqty, c0,
                        taker_order.cqty);
                    ids = ids + mo.l3.level(bid_head);
                    lemma_remove_value_subset(mo.l2.prices(true), bid_head);
                    mo.l2.lemma_prices();
                    assert(o.l2.prices(true).skip(pm)[0] == o.l2.prices(true)[pm]);
                }
                let ghost ab = self.orderbook;
                bid_head = self.clear_side(true);
                proof {
                    pm = lemma_priority_step(o, mo, ab, self.orderbook, true, pm, mo.l2.prices(true)[0], c0,
                        taker_order.cqty);
                }
            }
            ask_head = self.clear_side(false);
        }
        // set the new market price
        if lmp != 0 {
            self.orderbook.set_lmp(lmp);
        }
        Ok((taker_order.cloned(), bid_head, ask_head))
    }


    /// Applies time in force `time_in_force` to the taker left after
    /// matching: IOC cancels what remains of it, GTC lets it rest with
    /// `maker_fee_bps` as its fee, FOK cancels what remains of it and fails
    /// with `OrderNotFullyFilled` unless it was filled in full.
    pub fn _handle_time_in_force_post_matching(
        &mut self,
        time_in_force: TimeInForce,
        maker_order: &mut Order,
        maker_fee_bps: u16,
        events: &mut EventQueue,
    ) -> (r: Result<(), OrderBookError>)
        requires
            old(self).wf(),
        ensures
            final(self).wf(),
            final(self).same_but_book(old(self)),
            tif_spec(old(self).orderbook, final(self).orderbook, old(events).events(), final(events).events(),
                old(self).pair_id@, time_in_force, *old(maker_order), r),
            *final(maker_order) == (if time_in_force == TimeInForce::GoodTillCanceled && old(maker_order).cqty > 0 {
                Order { fee_bps: maker_fee_bps, ..*old(maker_order) }
            } else {
                *old(maker_order)
            }),
    {
        match time_in_force {
            TimeInForce::ImmediateOrCancel => {
                // fill what could be filled, cancel the rest
                if maker_order.cqty > 0 {
                    self.orderbook.cancel_order(copy_bytes(&maker_order.cid), copy_bytes(&self.pair_id), maker_order.is_bid,
                        maker_order.id, copy_bytes(&maker_order.owner), events)?;
                }
                Ok(())
            },
            TimeInForce::GoodTillCanceled => {
                // the rest stays in the book as a maker order
                if maker_order.cqty > 0 {
                    maker_order.fee_bps = maker_fee_bps;
                }
                Ok(())
            },
            TimeInForce::FillOrKill => {
                // all or nothing: what could not be filled is cancelled and the order refused
                if maker_order.cqty > 0 {
                    match self.orderbook.cancel_order(copy_bytes(&maker_order.cid), copy_bytes(&self.pair_id),
                        maker_order.is_bid, maker_order.id, copy_bytes(&maker_order.owner), events) {
                        Ok(()) => Err(OrderBookError::OrderNotFullyFilled),
                        Err(e) => Err(e),
                    }
                } else {
                    Ok(())
                }
            },
        }
    }

    /// Places a limit order on side `is_bid` under a freshly drawn order id:
    /// see `limit_with_id`.
    #[allow(clippy::too_many_arguments)]
    fn limit(
        &mut self,
        is_bid: bool,
        cid: Vec<u8>,
        existing_order_id: Option<OrderId>,
        owner: Vec<u8>,
        price: u64,
        amnt: u64,
        iqty: u64,
        timestamp: i64,
        expires_at: i64,
        maker_fee_bps: u16,
        taker_fee_bps: u16,
        time_in_force: TimeInForce,
        events: &mut EventQueue,
    ) -> (r: Result<OrderId, OrderBookError>)
        requires
            old(self).wf(),
        ensures
            final(self).wf(),
            limit_spec(*old(self), *final(self), old(events).events(), final(events).events(), is_bid, cid@,
                existing_order_id, price, amnt, iqty, time_in_force, r),
            limit_success_owed(*old(self), cid@, existing_order_id, price, amnt, iqty, time_in_force, r),
            crossing(*old(self), is_bid, cid@, existing_order_id, price, amnt, iqty) ==>
                lmp_moved(*old(self), *final(self), is_bid, price) || is_duplicate_id(r),
            exists|m: int| #[trigger] price_priority(old(self).orderbook, final(self).orderbook.l3, other_side(is_bid), m),
    {
        let id = new_order_id();
        self.limit_with_id(is_bid, id, cid, existing_order_id, owner, price, amnt, iqty, timestamp, expires_at,
            maker_fee_bps, taker_fee_bps, time_in_force, events)
    }

    /// Places a limit order on side `is_bid` under order id `id` and matches
    /// it against the other side within `price`, then applies
    /// `time_in_force` to what remains.
    #[allow(clippy::too_many_arguments)]
    pub fn limit_with_id(
        &mut self,
        is_bid: bool,
        id: OrderId,
        cid: Vec<u8>,
        existing_order_id: Option<OrderId>,
        owner: Vec<u8>,
        price: u64,
        amnt: u64,
        iqty: u64,
        timestamp: i64,
        expires_at: i64,
        maker_fee_bps: u16,
        taker_fee_bps: u16,
        time_in_force: TimeInForce,
        events: &mut EventQueue,
    ) -> (r: Result<OrderId, OrderBookError>)
        requires
            old(self).wf(),
        ensures
            final(self).wf(),
            limit_spec(*old(self), *final(self), old(events).events(), final(events).events(), is_bid, cid@,
                existing_order_id, price, amnt, iqty, time_in_force, r),
            limit_outcome(*old(self), *final(self), old(events).events(), final(events).events(), cid@,
                existing_order_id, price, amnt, iqty, time_in_force, id, r),
            crossing(*old(self), is_bid, cid@, existing_order_id, price, amnt, iqty)
                && !old(self).orderbook.l3.orders@.contains_key(id) ==> lmp_moved(*old(self), *final(self), is_bid, price),
            exists|m: int| #[trigger] price_priority(old(self).orderbook, final(self).orderbook.l3, other_side(is_bid), m),
    {
        proof {
            assert(price_priority(old(self).orderbook, self.orderbook.l3, other_side(is_bid), 0));
        }
        // an existing order must belong to the client
        if let Some(existing_order_id) = existing_order_id {
            let order = match self.orderbook.l3.get_order(existing_order_id) {
                Ok(o) => o,
                Err(e) => return Err(OrderBookError::L3(e)),
            };
            if !bytes_eq(&order.cid, &cid) {
                return Err(OrderBookError::OrderNotOwnedBySender);
            }
        }
        let ghost o = self.orderbook;
        let ghost crosses = crossing(*self, is_bid, cid@, existing_order_id, price, amnt, iqty);
        // place the taker order before matching it
        let placed = self.orderbook.place_order_with_id(id, cid, copy_bytes(&self.pair_id), copy_bytes(&self.base_asset_id),
            copy_bytes(&self.quote_asset_id), owner, is_bid, price, amnt, iqty, timestamp, expires_at, taker_fee_bps, events);
        let taker_order = match placed {
            Ok(t) => t,
            Err(e) => return Err(e),
        };
        let ghost p = self.orderbook;
        let ghost nid = taker_order.id;
        proof {
            o.l3.lemma_orders_view();
            p.l3.lemma_orders_view();
            assert forall|id: OrderId| #[trigger] o.l3.orders@.contains_key(id) implies
                p.l3.orders@.contains_key(id) && p.l3.orders_view()[id] == o.l3.orders_view()[id] by {
                assert(o.l3.orders_view().contains_key(id));
                assert(p.l3.orders_view().contains_key(id));
            }
            assert forall|id: OrderId| #[trigger] p.l3.orders@.contains_key(id) implies o.l3.orders@.contains_key(id) || id == nid by {
                assert(p.l3.orders_view().contains_key(id));
            }
            assert(!o.l3.orders@.contains_key(nid));
            if crosses {
                p.l2.lemma_same_side(&o.l2, !is_bid);
                lemma_live_head_after_queue(o, p, !is_bid, price, nid, is_bid);
            }
        }
        // match against the other side first
        let mut matching = taker_order.cloned();
        let (taker_order, _bid_head, _ask_head) = self._limit_order(price, &mut matching)?;
        let ghost q = self.orderbook;
        // then apply the time in force as a maker order
        let mut maker = taker_order.cloned();
        let tif = self._handle_time_in_force_post_matching(time_in_force, &mut maker, maker_fee_bps, events);
        proof {
            let n = self.orderbook;
            assert(maker.id == nid);
            assert forall|id: OrderId| #[trigger] n.l3.orders@.contains_key(id) implies q.l3.orders@.contains_key(id)
                && (id == nid || n.l3.orders_view()[id] == q.l3.orders_view()[id]) by {
                if n != q {
                    assert(removed_from_l3(q.l3, n.l3, nid));
                    assert(n.l3.orders@[id] == q.l3.orders@[id]);
                    q.l3.lemma_orders_view();
                    n.l3.lemma_orders_view();
                }
            }
            assert forall|id: OrderId| o.l3.orders@.contains_key(id) &&
                (!n.l3.orders@.contains_key(id) || n.l3.orders_view()[id] != o.l3.orders_view()[id])
                implies within(is_bid, #[trigger] o.l3.orders@[id].price, price) by {
                assert(p.l3.orders@.contains_key(id) && p.l3.orders_view()[id] == o.l3.orders_view()[id]);
                assert(id != nid);
                p.l3.lemma_orders_view();
                assert(p.l3.orders@[id].price == o.l3.orders@[id].price);
            }
            assert(changed_within(o.l3, n.l3, is_bid, price));
            // price priority, over the book before the order was placed
            let m = choose|m: int| #[trigger] price_priority(p, q.l3, other_side(matching.is_bid), m);
            assert(matching.is_bid == is_bid);
            p.l2.lemma_same_side(&o.l2, !is_bid);
            assert forall|id: OrderId| #[trigger] o.l3.orders@.contains_key(id) implies
                p.l3.orders@.contains_key(id) && p.l3.orders_view()[id] == o.l3.orders_view()[id]
                && p.l3.orders@[id].price == o.l3.orders@[id].price by {
                assert(p.l3.orders_view()[id].price == o.l3.orders_view()[id].price);
            }
            assert forall|id: OrderId| #[trigger] q.l3.orders@.contains_key(id) && id != nid implies n.l3.orders@.contains_key(id) by {
                if n != q {
                    assert(removed_from_l3(q.l3, n.l3, nid));
                }
            }
            lemma_priority_placed(o, p, q.l3, n.l3, other_side(is_bid), nid, price, m);
        }
        match tif {
            Ok(()) => Ok(taker_order.id),
            Err(e) => Err(e),
        }
    }


    /// Places a limit sell (ask) order: matches it against the bids first,
    /// then applies `time_in_force` to what remains. Returns its order id.
    #[allow(clippy::too_many_arguments)]
    pub fn limit_sell(
        &mut self,
        cid: Vec<u8>,
        existing_order_id: Option<OrderId>,
        owner: Vec<u8>,
        price: u64,
        amnt: u64,
        iqty: u64,
        timestamp: i64,
        expires_at: i64,
        maker_fee_bps: u16,
        taker_fee_bps: u16,
        time_in_force: TimeInForce,
        events: &mut EventQueue,
    ) -> (r: Result<OrderId, OrderBookError>)
        requires
            old(self).wf(),
        ensures
            final(self).wf(),
            limit_spec(*old(self), *final(self), old(events).events(), final(events).events(), false, cid@,
                existing_order_id, price, amnt, iqty, time_in_force, r),
            limit_success_owed(*old(self), cid@, existing_order_id, price, amnt, iqty, time_in_force, r),
            crossing(*old(self), false, cid@, existing_order_id, price, amnt, iqty) ==>
                lmp_moved(*old(self), *final(self), false, price) || is_duplicate_id(r),
            exists|m: int| #[trigger] price_priority(old(self).orderbook, final(self).orderbook.l3, other_side(false), m),
    {
        self.limit(false, cid, existing_order_id, owner, price, amnt, iqty, timestamp, expires_at, maker_fee_bps,
            taker_fee_bps, time_in_force, events)
    }

    /// Places a limit buy (bid) order: matches it against the asks first,
    /// then applies `time_in_force` to what remains. Returns its order id.
    #[allow(clippy::too_many_arguments)]
    pub fn limit_buy(
        &mut self,
        cid: Vec<u8>,
        existing_order_id: Option<OrderId>,
        owner: Vec<u8>,
        price: u64,
        amnt: u64,
        iqty: u64,
        timestamp: i64,
        expires_at: i64,
        maker_fee_bps: u16,
        taker_fee_bps: u16,
        time_in_force: TimeInForce,
        events: &mut EventQueue,
    ) -> (r: Result<OrderId, OrderBookError>)
        requires
            old(self).wf(),
        ensures
            final(self).wf(),
            limit_spec(*old(self), *final(self), old(events).events(), final(events).events(), true, cid@,
                existing_order_id, price, amnt, iqty, time_in_force, r),
            limit_success_owed(*old(self), cid@, existing_order_id, price, amnt, iqty, time_in_force, r),
            crossing(*old(self), true, cid@, existing_order_id, price, amnt, iqty) ==>
                lmp_moved(*old(self), *final(self), true, price) || is_duplicate_id(r),
            exists|m: int| #[trigger] price_priority(old(self).orderbook, final(self).orderbook.l3, other_side(true), m),
    {
        self.limit(true, cid, existing_order_id, owner, price, amnt, iqty, timestamp, expires_at, maker_fee_bps,
            taker_fee_bps, time_in_force, events)
    }

    /// Market sell orders are accepted and do nothing yet.
    #[allow(clippy::too_many_arguments)]
    pub fn market_sell(
        &mut self,
        _cid: Vec<u8>,
        _existing_order_id: Option<OrderId>,
        _owner: Vec<u8>,
        _amnt: u64,
        _iqty: u64,
        _timestamp: i64,
        _expires_at: i64,
        _maker_fee_bps: u16,
        _taker_fee_bps: u16,
        _time_in_force: TimeInForce,
    ) -> (r: Result<(), OrderBookError>)
        ensures
            r is Ok,
            *final(self) == *old(self),
    {
        Ok(())
    }

    /// Market buy orders are accepted and do nothing yet.
    #[allow(clippy::too_many_arguments)]
    pub fn market_buy(
        &mut self,
        _cid: Vec<u8>,
        _existing_order_id: Option<OrderId>,
        _owner: Vec<u8>,
        _amnt: u64,
        _iqty: u64,
        _timestamp: i64,
        _expires_at: i64,
        _maker_fee_bps: u16,
        _taker_fee_bps: u16,
        _time_in_force: TimeInForce,
    ) -> (r: Result<(), OrderBookError>)
        ensures
            r is Ok,
            *final(self) == *old(self),
    {
        Ok(())
    }

    /// Cancels order `order_id` of `owner` in the order book.
    pub fn cancel_order(
        &mut self,
        cid: Vec<u8>,
        pair_id: Vec<u8>,
        is_bid: bool,
        order_id: OrderId,
        owner: Vec<u8>,
        events: &mut EventQueue,
    ) -> (r: Result<(), OrderBookError>)
        requires
            old(self).wf(),
        ensures
            final(self).wf(),
            final(self).same_but_book(old(self)),
            rest_unchanged(old(self).orderbook, final(self).orderbook),
            cancel_spec(old(self).orderbook, final(self).orderbook, old(events).events(), final(events).events(), cid@, pair_id@,
                is_bid, order_id, owner@, r),
    {
        self.orderbook.cancel_order(cid, pair_id, is_bid, order_id, owner, events)?;
        Ok(())
    }

    /// Adds client `cid` with its admin and fee accounts at time `timestamp`:
    /// lists it, records both accounts, makes the fee account the order
    /// book's fee recipient for the client, and reports it.
    pub fn add_client_at(&mut self, cid: Vec<u8>, admin_account_id: Vec<u8>, fee_account_id: Vec<u8>, timestamp: i64,
        events: &mut EventQueue)
        requires
            old(self).wf(),
        ensures
            final(self).wf(),
            final(self).pair_id@ == old(self).pair_id@,
            final(self).base_asset_id@ == old(self).base_asset_id@,
            final(self).quote_asset_id@ == old(self).quote_asset_id@,
            final(self).clients@.len() == old(self).clients@.len() + 1,
            final(self).clients@.drop_last() == old(self).clients@,
            final(self).clients@.last()@ == cid@,
            view_values(final(self).client_admin_account_ids@) == view_values(old(self).client_admin_account_ids@).insert(cid@, admin_account_id@),
            view_values(final(self).client_fee_account_ids@) == view_values(old(self).client_fee_account_ids@).insert(cid@, fee_account_id@),
            view_values(final(self).orderbook.fee_recipients@) == view_values(old(self).orderbook.fee_recipients@).insert(cid@, fee_account_id@),
            final(self).orderbook.l1 == old(self).orderbook.l1,
            final(self).orderbook.l2 == old(self).orderbook.l2,
            final(self).orderbook.l3 == old(self).orderbook.l3,
            final(self).orderbook.dust == old(self).orderbook.dust,
            final(events).events().len() == old(events).events().len() + 1,
            final(events).events().drop_last() == old(events).events(),
            is_client_changed(final(events).events().last(), old(self).pair_id@, cid@, Some(admin_account_id@),
                Some(fee_account_id@), timestamp),
    {
        self.clients.push(copy_bytes(&cid));
        self.client_admin_account_ids.insert(copy_bytes(&cid), copy_bytes(&admin_account_id));
        self.client_fee_account_ids.insert(copy_bytes(&cid), copy_bytes(&fee_account_id));
        self.orderbook.fee_recipients.insert(copy_bytes(&cid), copy_bytes(&fee_account_id));
        proof {
            assert(view_values(self.client_admin_account_ids@) =~= view_values(old(self).client_admin_account_ids@).insert(cid@, admin_account_id@));
            assert(view_values(self.client_fee_account_ids@) =~= view_values(old(self).client_fee_account_ids@).insert(cid@, fee_account_id@));
            assert(view_values(self.orderbook.fee_recipients@) =~= view_values(old(self).orderbook.fee_recipients@).insert(cid@, fee_account_id@));
        }
        let ghost ev0 = events.events();
        emit_event(events, SpotEvent::SpotPairClientAccountChanged {
            pair_id: copy_bytes(&self.pair_id),
            cid: Some(cid),
            admin_account_id: Some(admin_account_id),
            fee_account_id: Some(fee_account_id),
            timestamp,
        });
        proof { assert(events.events().drop_last() =~= ev0); }
    }

    /// Adds client `cid` with its admin and fee accounts, stamped with the
    /// current time.
    pub fn add_client(&mut self, cid: Vec<u8>, admin_account_id: Vec<u8>, fee_account_id: Vec<u8>, events: &mut EventQueue)
        requires
            old(self).wf(),
        ensures
            final(self).wf(),
            final(self).pair_id@ == old(self).pair_id@,
            final(self).base_asset_id@ == old(self).base_asset_id@,
            final(self).quote_asset_id@ == old(self).quote_asset_id@,
            final(self).clients@.drop_last() == old(self).clients@,
            final(self).clients@.len() == old(self).clients@.len() + 1,
            final(self).clients@.last()@ == cid@,
            view_values(final(self).client_admin_account_ids@) == view_values(old(self).client_admin_account_ids@).insert(cid@, admin_account_id@),
            view_values(final(self).client_fee_account_ids@) == view_values(old(self).client_fee_account_ids@).insert(cid@, fee_account_id@),
            view_values(final(self).orderbook.fee_recipients@) == view_values(old(self).orderbook.fee_recipients@).insert(cid@, fee_account_id@),
            final(self).orderbook.l1 == old(self).orderbook.l1,
            final(self).orderbook.l2 == old(self).orderbook.l2,
            final(self).orderbook.l3 == old(self).orderbook.l3,
            final(self).orderbook.dust == old(self).orderbook.dust,
            final(events).events().drop_last() == old(events).events(),
            final(events).events().len() == old(events).events().len() + 1,
    {
        let timestamp = now_millis();
        self.add_client_at(cid, admin_account_id, fee_account_id, timestamp, events);
    }

    /// Removes client `cid` at time `timestamp`: unlists it, forgets its
    /// accounts and fee recipient, and reports it with no accounts.
    pub fn remove_client_at(&mut self, cid: Vec<u8>, timestamp: i64, events: &mut EventQueue)
        requires
            old(self).wf(),
        ensures
            final(self).wf(),
            final(self).pair_id@ == old(self).pair_id@,
            final(self).base_asset_id@ == old(self).base_asset_id@,
            final(self).quote_asset_id@ == old(self).quote_asset_id@,
            views_of(final(self).clients@) == views_of(old(self).clients@).filter(other_client(cid@)),
            view_values(final(self).client_admin_account_ids@) == view_values(old(self).client_admin_account_ids@).remove(cid@),
            view_values(final(self).client_fee_account_ids@) == view_values(old(self).client_fee_account_ids@).remove(cid@),
            view_values(final(self).orderbook.fee_recipients@) == view_values(old(self).orderbook.fee_recipients@).remove(cid@),
            final(self).orderbook.l1 == old(self).orderbook.l1,
            final(self).orderbook.l2 == old(self).orderbook.l2,
            final(self).orderbook.l3 == old(self).orderbook.l3,
            final(self).orderbook.dust == old(self).orderbook.dust,
            final(events).events().len() == old(events).events().len() + 1,
            final(events).events().drop_last() == old(events).events(),
            is_client_changed(final(events).events().last(), old(self).pair_id@, cid@, None, None, timestamp),
    {
        let mut kept: Vec<Vec<u8>> = Vec::new();
        let mut i: usize = 0;
        while i < self.clients.len()
            invariant
                i <= self.clients@.len(),
                self.clients@ == old(self).clients@,
                views_of(kept@) == views_of(self.clients@.take(i as int)).filter(other_client(cid@)),
            decreases self.clients@.len() - i,
        {
            let ghost before = kept@;
            let ghost t1 = views_of(self.clients@.take(i + 1));
            proof {
                reveal(Seq::filter);
                assert(t1.drop_last() =~= views_of(self.clients@.take(i as int)));
                assert(t1.last() == self.clients@[i as int]@);
            }
            if !bytes_eq(&self.clients[i], &cid) {
                kept.push(copy_bytes(&self.clients[i]));
                proof {
                    assert(views_of(kept@) =~= views_of(before).push(self.clients@[i as int]@));
                }
            } else {
                proof {
                    assert(views_of(kept@) =~= views_of(before));
                }
            }
            i = i + 1;
        }
        proof { assert(self.clients@.take(i as int) =~= self.clients@); }
        self.clients = kept;
        let _ = self.client_admin_account_ids.remove(&cid);
        let _ = self.client_fee_account_ids.remove(&cid);
        let _ = self.orderbook.fee_recipients.remove(&cid);
        proof {
            assert(view_values(self.client_admin_account_ids@) =~= view_values(old(self).client_admin_account_ids@).remove(cid@));
            assert(view_values(self.client_fee_account_ids@) =~= view_values(old(self).client_fee_account_ids@).remove(cid@));
            assert(view_values(self.orderbook.fee_recipients@) =~= view_values(old(self).orderbook.fee_recipients@).remove(cid@));
        }
        let ghost ev0 = events.events();
        emit_event(events, SpotEvent::SpotPairClientAccountChanged {
            pair_id: copy_bytes(&self.pair_id),
            cid: Some(cid),
            admin_account_id: None,
            fee_account_id: None,
            timestamp,
        });
        proof { assert(events.events().drop_last() =~= ev0); }
    }

    /// Removes client `cid`, stamped with the current time.
    pub fn remove_client(&mut self, cid: Vec<u8>, events: &mut EventQueue)
        requires
            old(self).wf(),
        ensures
            final(self).wf(),
            final(self).pair_id@ == old(self).pair_id@,
            views_of(final(self).clients@) == views_of(old(self).clients@).filter(other_client(cid@)),
            view_values(final(self).client_admin_account_ids@) == view_values(old(self).client_admin_account_ids@).remove(cid@),
            view_values(final(self).client_fee_account_ids@) == view_values(old(self).client_fee_account_ids@).remove(cid@),
            view_values(final(self).orderbook.fee_recipients@) == view_values(old(self).orderbook.fee_recipients@).remove(cid@),
            final(self).orderbook.l1 == old(self).orderbook.l1,
            final(self).orderbook.l2 == old(self).orderbook.l2,
            final(self).orderbook.l3 == old(self).orderbook.l3,
            final(self).orderbook.dust == old(self).orderbook.dust,
            final(events).events().drop_last() == old(events).events(),
            final(events).events().len() == old(events).events().len() + 1,
    {
        let timestamp = now_millis();
        self.remove_client_at(cid, timestamp, events);
    }

}

impl Default for Pair {
    /// A pair with empty ids, an empty order book and no client.
    fn default() -> (p: Self)
        ensures
            p.wf(),
            p.pair_id@ == Seq::<u8>::empty(),
            p.clients@ == Seq::<Vec<u8>>::empty(),
            p.orderbook.l3.orders@ == Map::<OrderId, Order>::empty(),
    {
        Pair::new()
    }
}

} // verus!
