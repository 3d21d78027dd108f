//! In-memory order book of a spot market: level-1, level-2 and level-3 data
//! kept together, with the events of every change.
use vstd::prelude::*;
use crate::bytes::{ByteMap, copy_bytes, bytes_eq};
use crate::spot::event::{SpotEvent, EventQueue, emit_event};
use crate::spot::market::L1;
use crate::spot::orders::{L3, L3Error, Order, OrderId, OrderModel, be_bytes, order_id_bytes, new_order_id, in_levels,
    law_unqueue_undoes_queue};
use crate::spot::prices::{L2, L2Error, opt_get};

verus! {

/// One unit in 8 decimals.
pub const SCALE: u64 = 1_0000_0000;

/// In-memory order book for spot markets.
#[derive(Debug, Clone, PartialEq, Eq)]
pub struct OrderBook {
    /// L1 state
    pub l1: L1,
    /// L2 state
    pub l2: L2,
    /// L3 state
    pub l3: L3,
    /// Fee recipients: client id -> fee recipient account id
    pub fee_recipients: ByteMap<Vec<u8>>,
    /// dust limit to determine if the order should be deleted
    pub dust: u64,
}

/// Errors of the order book.
#[derive(Debug, Clone, PartialEq, Eq)]
pub enum OrderBookError {
    PriceIsZero,
    AmountIsZero,
    PublicAmountIsZero,
    OrderNotOwnedBySender,
    L3(L3Error),
    L2(L2Error),
    IcebergQuantityIsBiggerThanWholeAmount,
    OrderExpired,
    UnsupportedTimeInForce,
    OrderNotSupportedByClientId,
    OrderNotFullyFilled,
    NoAskOrdersInOrderbook,
    NoBidOrdersInOrderbook,
}

impl From<L3Error> for OrderBookError {
    /// An L3 error as an order-book error.
    fn from(err: L3Error) -> (r: Self) {
        OrderBookError::L3(err)
    }
}

impl vstd::std_specs::convert::FromSpecImpl<L3Error> for OrderBookError {
    open spec fn obeys_from_spec() -> bool {
        true
    }

    open spec fn from_spec(v: L3Error) -> Self {
        OrderBookError::L3(v)
    }
}

impl From<L2Error> for OrderBookError {
    /// An L2 error as an order-book error.
    fn from(err: L2Error) -> (r: Self) {
        OrderBookError::L2(err)
    }
}

impl vstd::std_specs::convert::FromSpecImpl<L2Error> for OrderBookError {
    open spec fn obeys_from_spec() -> bool {
        true
    }

    open spec fn from_spec(v: L2Error) -> Self {
        OrderBookError::L2(v)
    }
}

/// Every order queued in `o` at the first `m` prices of `s` was expired at
/// `now` and is gone in `n`.
pub open spec fn prices_cleared(o: L3, n: L3, s: Seq<u64>, m: int, now: i64) -> bool {
    forall|j: int, x: OrderId| 0 <= j < m && #[trigger] o.level(s[j]).contains(x) ==>
        o.expired_at(x, now) && !n.orders@.contains_key(x)
}

/// `price` is listed on side `is_bid` of `o`, every order queued in `o` at a
/// better listed price was expired at `now` and is gone in `n`, and the
/// prices listed on the side in `n` are those of `o` from `price` on, without
/// `price` when its queue is now empty.
pub open spec fn best_after_expired(o: OrderBook, n: OrderBook, is_bid: bool, price: u64, now: i64) -> bool {
    exists|m: int| 0 <= m < o.l2.prices(is_bid).len() && o.l2.prices(is_bid)[m] == price
        && #[trigger] prices_cleared(o.l3, n.l3, o.l2.prices(is_bid), m, now)
        && n.l2.prices(is_bid) == o.l2.prices(is_bid).skip(if n.l3.level(price).len() == 0 { m + 1 } else { m })
}

/// Some order queued at a price listed on side `is_bid` of `o` has not
/// expired at `now`.
pub open spec fn live_order_queued(o: OrderBook, is_bid: bool, now: i64) -> bool {
    exists|j: int, x: OrderId| 0 <= j < o.l2.prices(is_bid).len()
        && #[trigger] o.l3.level(o.l2.prices(is_bid)[j]).contains(x) && !o.l3.expired_at(x, now)
}

/// The id of the order that a pop answered, if it answered one.
pub open spec fn popped_id(r: Result<Order, OrderBookError>) -> Option<OrderId> {
    match r {
        Ok(o) => Some(o.id),
        Err(_) => None,
    }
}

/// Every order of `o` that is gone in `n`, other than `kept`, is reported
/// expired at `now` by one of the events that `ev0` grew by into `ev1`.
pub open spec fn expiries_reported(o: L3, n: L3, ev0: Seq<SpotEvent>, ev1: Seq<SpotEvent>, is_bid: bool, now: i64,
    kept: Option<OrderId>) -> bool {
    forall|id: OrderId| #[trigger] o.orders@.contains_key(id) && !n.orders@.contains_key(id) && kept != Some(id) ==>
        exists|i: int| ev0.len() <= i < ev1.len() && #[trigger] is_order_closed(ev1[i], false,
            o.orders_view()[id].cid, id, o.orders_view()[id], is_bid, now)
}

/// A queue cut down to nothing lost only expired orders that are gone.
proof fn lemma_empty_level_cleared(o: L3, n: L3, p: u64, now: i64)
    requires
        levels_cut(o, n, p, now),
        n.level(p).len() == 0,
    ensures
        forall|x: OrderId| #[trigger] o.level(p).contains(x) ==> o.expired_at(x, now) && !n.orders@.contains_key(x),
{
    let k = choose|k: int| #[trigger] cut_at(o, n, p, now, k);
    assert(cut_at(o, n, p, now, k));
    assert(k == o.level(p).len());
    assert forall|x: OrderId| #[trigger] o.level(p).contains(x) implies o.expired_at(x, now) && !n.orders@.contains_key(x) by {
        let j = choose|j: int| 0 <= j < o.level(p).len() && o.level(p)[j] == x;
        assert(o.expired_at(o.level(p)[j], now) && !n.orders@.contains_key(o.level(p)[j]));
    }
}

/// Taking `hp`, the first price of a list without repeats, off the list when
/// its level is gone, and leaving the list alone otherwise.
proof fn lemma_prices_after_expire(cur: Seq<u64>, hp: u64, new_c: u64, gone: bool)
    requires
        cur.len() > 0,
        cur[0] == hp,
        cur.no_duplicates(),
    ensures
        prices_after_take(cur, hp, new_c, gone, if gone { Some(hp) } else { None }) == (if gone { cur.skip(1) } else { cur }),
{
    cur.index_of_first_ensures(hp);
    assert(cur.remove(0) =~= cur.skip(1));
    assert(cur.remove_value(hp) == cur.skip(1));
    let t = cur.skip(1);
    assert(!t.contains(hp)) by {
        if t.contains(hp) {
            let j = choose|j: int| 0 <= j < t.len() && t[j] == hp;
            assert(cur[j + 1] == cur[0]);
        }
    }
    t.index_of_first_ensures(hp);
}

/// Why taking the front order of side `is_bid` of `n` failed with `e`: no
/// price is listed on the side any more (`PriceIsZero`), or the best listed
/// price is 0, whose queue cannot be taken from (`L3(PriceIsZero)`).
pub open spec fn side_exhausted(n: OrderBook, is_bid: bool, e: OrderBookError) -> bool {
    let s = n.l2.prices(is_bid);
    ||| e == OrderBookError::PriceIsZero && s.len() == 0
    ||| e == OrderBookError::L3(L3Error::PriceIsZero) && s.len() > 0 && s[0] == 0 && n.l3.level(0).len() > 0
}

/// The queue of price `p` in `n` is that of `o` without its first `k`
/// ids, for some `k`, each of which was expired at `now` and is gone.
pub open spec fn levels_cut(o: L3, n: L3, p: u64, now: i64) -> bool {
    exists|k: int| #[trigger] cut_at(o, n, p, now, k)
}

/// The queue of price `p` in `n` is that of `o` without its first `k` ids,
/// each of which was expired at `now` and is gone.
pub open spec fn cut_at(o: L3, n: L3, p: u64, now: i64, k: int) -> bool {
    &&& 0 <= k <= o.level(p).len()
    &&& n.level(p) == o.level(p).skip(k)
    &&& forall|j: int| 0 <= j < k ==> #[trigger] o.expired_at(o.level(p)[j], now)
        && !n.orders@.contains_key(o.level(p)[j])
}

/// Order `id` sat in the queue of `price` in `o` behind only orders that
/// were expired at `now` and are gone in `n`.
pub open spec fn queued_after_expired(o: L3, n: L3, price: u64, id: OrderId, now: i64) -> bool {
    exists|k: int| 0 <= k < o.level(price).len() && o.level(price)[k] == id
        && forall|j: int| 0 <= j < k ==> #[trigger] o.expired_at(o.level(price)[j], now)
            && !n.orders@.contains_key(o.level(price)[j])
}

/// The queue of `price` after its first order `s[0]` left it.
proof fn lemma_level_after_head_left(before: L3, after: L3, price: u64)
    requires
        before.wf(),
        before.level(price).len() > 0,
        after.levels() == L3::unqueued(before.levels(), price, before.level(price)[0]),
    ensures
        after.level(price) == before.level(price).skip(1),
        forall|q: u64| q != price ==> #[trigger] after.level(q) == before.level(q),
{
    let s = before.level(price);
    s.index_of_first_ensures(s[0]);
    assert(s.remove_value(s[0]) =~= s.skip(1));
    assert(before.levels().contains_key(price));
    if s.skip(1).len() == 0 {
        assert(after.level(price) =~= s.skip(1));
    }
}

/// Expiring the first order of the queue at `price` (expired at `now`)
/// keeps every queue a cut of its original.
proof fn lemma_cut_after_head_left(o: L3, before: L3, after: L3, price: u64, now: i64)
    requires
        before.wf(),
        before.level(price).len() > 0,
        before.expired_at(before.level(price)[0], now),
        forall|id: OrderId| #[trigger] before.orders@.contains_key(id) ==>
            o.orders@.contains_key(id) && before.orders@[id] == o.orders@[id],
        after.levels() == L3::unqueued(before.levels(), price, before.level(price)[0]),
        after.orders@ == before.orders@.remove(before.level(price)[0]),
        forall|p: u64| #[trigger] levels_cut(o, before, p, now),
    ensures
        forall|p: u64| #[trigger] levels_cut(o, after, p, now),
{
    lemma_level_after_head_left(before, after, price);
    let h = before.level(price)[0];
    assert(before.orders@.contains_key(h));
    assert(o.expired_at(h, now));
    assert forall|p: u64| #[trigger] levels_cut(o, after, p, now) by {
        assert(levels_cut(o, before, p, now));
        let k = choose|k: int| #[trigger] cut_at(o, before, p, now, k);
        if p == price {
            lemma_cut_step(o, before, after, p, now, k, Some(h));
        } else {
            lemma_cut_step(o, before, after, p, now, k, None);
        }
    }
}

/// One more id gone from the front of a queue (`Some(h)`), or none
/// (`None`), keeps it a cut of its original.
proof fn lemma_cut_step(o: L3, before: L3, after: L3, p: u64, now: i64, k: int, gone: Option<OrderId>)
    requires
        cut_at(o, before, p, now, k),
        forall|id: OrderId| #[trigger] after.orders@.contains_key(id) ==> before.orders@.contains_key(id),
        gone is None ==> after.level(p) == before.level(p),
        gone is Some ==> {
            &&& before.level(p).len() > 0
            &&& before.level(p)[0] == gone->0
            &&& after.level(p) == before.level(p).skip(1)
            &&& o.expired_at(gone->0, now)
            &&& !after.orders@.contains_key(gone->0)
        },
    ensures
        levels_cut(o, after, p, now),
{
    match gone {
        Some(h) => {
            assert(o.level(p)[k] == h);
            assert(after.level(p) =~= o.level(p).skip(k + 1));
            assert(cut_at(o, after, p, now, k + 1));
        },
        None => {
            assert(after.level(p) == o.level(p).skip(k));
            assert forall|j: int| 0 <= j < k implies #[trigger] o.expired_at(o.level(p)[j], now)
                && !after.orders@.contains_key(o.level(p)[j]) by {
                assert(cut_at(o, before, p, now, k));
                assert(0 <= j < k);
                assert(o.expired_at(o.level(p)[j], now));
                assert(!before.orders@.contains_key(o.level(p)[j]));
                if after.orders@.contains_key(o.level(p)[j]) {
                    assert(before.orders@.contains_key(o.level(p)[j]));
                }
            }
            assert(cut_at(o, after, p, now, k));
        },
    }
}

/// After the queue at `price` is cut down to the order at its front, that
/// order sat behind only expired orders that are gone.
proof fn lemma_cut_front_is_next(o: L3, before: L3, after: L3, price: u64, now: i64)
    requires
        before.level(price).len() > 0,
        levels_cut(o, before, price, now),
        forall|id: OrderId| #[trigger] after.orders@.contains_key(id) ==> before.orders@.contains_key(id),
    ensures
        queued_after_expired(o, after, price, before.level(price)[0], now),
{
    let k = choose|k: int| #[trigger] cut_at(o, before, price, now, k);
    assert(cut_at(o, before, price, now, k));
    assert(o.level(price)[k] == before.level(price)[0]);
}

/// `a * b`, or `u64::MAX` when the product does not fit.
pub open spec fn sat_mul(a: u64, b: u64) -> u64 {
    if a * b > u64::MAX { u64::MAX } else { (a * b) as u64 }
}

/// `a - b`, or 0 when `b > a`.
pub open spec fn sat_sub(a: u64, b: u64) -> u64 {
    if a >= b { (a - b) as u64 } else { 0 }
}

/// `a + b`, or `u64::MAX` when the sum does not fit.
pub open spec fn sat_add(a: u64, b: u64) -> u64 {
    if a + b > u64::MAX { u64::MAX } else { (a + b) as u64 }
}

/// Saturating multiplication (`u64::saturating_mul`).
pub fn saturating_mul(a: u64, b: u64) -> (r: u64)
    ensures
        r == sat_mul(a, b),
{
    proof {
        assert(a as int * b as int <= 0xffff_ffff_ffff_ffff * 0xffff_ffff_ffff_ffffint) by (nonlinear_arith)
            requires a <= 0xffff_ffff_ffff_ffffu64, b <= 0xffff_ffff_ffff_ffffu64;
        assert(a as int * b as int >= 0) by (nonlinear_arith);
    }
    let p: u128 = a as u128 * b as u128;
    if p > u64::MAX as u128 { u64::MAX } else { p as u64 }
}

/// The amount needed to take `amount` from an order on the other side at
/// `price`: quote for a bid (`amount * price / 1e8`), base for an ask
/// (`amount * 1e8 / price`), with saturating products.
pub open spec fn required(is_bid: bool, price: u64, amount: u64) -> u64 {
    if is_bid { sat_mul(amount, price) / SCALE } else { sat_mul(amount, SCALE) / price }
}

/// How much of the maker a taker takes: the amount in the taker's terms and
/// whether the taker and the maker are used up.
pub open spec fn matching_amount(taker: OrderModel, maker: OrderModel) -> (u64, bool, bool) {
    let conv = if taker.is_bid { sat_mul(taker.cqty, SCALE) / taker.price } else { sat_mul(taker.cqty, taker.price) / SCALE };
    if conv >= maker.cqty {
        (required(maker.is_bid, taker.price, maker.cqty), false, true)
    } else {
        (required(taker.is_bid, maker.price, taker.cqty), true, false)
    }
}

/// The base and quote amounts of a match of `amount` (in the taker's terms).
pub open spec fn base_quote(taker: OrderModel, amount: u64) -> (u64, u64) {
    if taker.is_bid {
        (sat_mul(amount, SCALE) / taker.price, amount)
    } else {
        (amount, sat_mul(amount, taker.price) / SCALE)
    }
}

/// The base and quote fees of a match: the maker pays on what it receives in
/// base for a bid taker and in quote for an ask taker.
pub open spec fn fees(taker_is_bid: bool, base: u64, quote: u64, maker_fee_bps: u16, taker_fee_bps: u16) -> (u64, u64) {
    if taker_is_bid {
        ((base * maker_fee_bps / 10000) as u64, (quote * taker_fee_bps / 10000) as u64)
    } else {
        ((base * taker_fee_bps / 10000) as u64, (quote * maker_fee_bps / 10000) as u64)
    }
}

/// The fee products of a match fit in 64 bits.
pub open spec fn fees_fit(taker_is_bid: bool, base: u64, quote: u64, maker_fee_bps: u16, taker_fee_bps: u16) -> bool {
    if taker_is_bid {
        base * maker_fee_bps <= u64::MAX && quote * taker_fee_bps <= u64::MAX
    } else {
        base * taker_fee_bps <= u64::MAX && quote * maker_fee_bps <= u64::MAX
    }
}

/// `e` reports the quantities `pqty`/`cqty` resting at `price`.
pub open spec fn is_block_changed(e: SpotEvent, pair_id: Seq<u8>, is_bid: bool, price: u64, pqty: u64, cqty: u64) -> bool {
    match e {
        SpotEvent::SpotOrderBlockChanged { pair_id: p, is_bid: b, price: q, pqty: pp, cqty: cc, .. } =>
            p@ == pair_id && b == is_bid && q == price && pp == pqty && cc == cqty,
        _ => false,
    }
}

/// Reads the current time in milliseconds since the Unix epoch
/// (`std::time::SystemTime::now`), 0 for a clock set before the epoch.
/// Nothing is promised of its value.
#[verifier::external_body]
pub(crate) fn now_millis() -> (t: i64) {
    match std::time::SystemTime::now().duration_since(std::time::UNIX_EPOCH) {
        Ok(d) => d.as_millis() as i64,
        Err(_) => 0,
    }
}

fn l2_err<T>(r: Result<T, L2Error>) -> (o: Result<T, OrderBookError>)
    ensures
        match r {
            Ok(v) => o == Ok::<T, OrderBookError>(v),
            Err(e) => o == Err::<T, OrderBookError>(OrderBookError::L2(e)),
        },
{
    match r {
        Ok(v) => Ok(v),
        Err(e) => Err(OrderBookError::L2(e)),
    }
}

fn l3_err<T>(r: Result<T, L3Error>) -> (o: Result<T, OrderBookError>)
    ensures
        match r {
            Ok(v) => o == Ok::<T, OrderBookError>(v),
            Err(e) => o == Err::<T, OrderBookError>(OrderBookError::L3(e)),
        },
{
    match r {
        Ok(v) => Ok(v),
        Err(e) => Err(OrderBookError::L3(e)),
    }
}

/// How many prices at the front of `s` have no resting order in `l3`.
pub open spec fn empty_prefix(s: Seq<u64>, l3: L3) -> nat
    decreases s.len(),
{
    if s.len() == 0 {
        0
    } else if l3.level(s[0]).len() == 0 {
        1 + empty_prefix(s.drop_first(), l3)
    } else {
        0
    }
}

pub proof fn lemma_empty_prefix_bound(s: Seq<u64>, l3: L3)
    ensures
        empty_prefix(s, l3) <= s.len(),
        empty_prefix(s, l3) < s.len() ==> l3.level(s[empty_prefix(s, l3) as int]).len() > 0,
        forall|j: int| 0 <= j < empty_prefix(s, l3) ==> l3.level(#[trigger] s[j]).len() == 0,
    decreases s.len(),
{
    if s.len() > 0 && l3.level(s[0]).len() == 0 {
        lemma_empty_prefix_bound(s.drop_first(), l3);
        assert forall|j: int| 0 <= j < empty_prefix(s, l3) implies l3.level(#[trigger] s[j]).len() == 0 by {
            if j > 0 { assert(s[j] == s.drop_first()[j - 1]); }
        }
    }
}

/// Side `side` of `a` equals that of `b`: its price list and both level maps.
pub open spec fn side_unchanged(a: &L2, b: &L2, side: bool) -> bool {
    &&& a.same_list(b, side)
    &&& a.public_levels(side) == b.public_levels(side)
    &&& a.current_levels(side) == b.current_levels(side)
}

/// The snapshot level lists of `a` equal those of `b`.
pub open spec fn lists_unchanged(a: &L2, b: &L2) -> bool {
    &&& a.bid_level_list@ == b.bid_level_list@
    &&& a.ask_level_list@ == b.ask_level_list@
}

/// `m` after the quantity at `price` dropped to `new_q` (removed when the
/// level is gone, 0 when the quantity is used up), then without `delete_price`.
pub open spec fn level_after_take(m: Map<u64, u64>, price: u64, new_q: u64, new_c: u64, level_gone: bool, delete_price: Option<u64>) -> Map<u64, u64> {
    let m1 = if new_c > 0 { m.insert(price, new_q) } else if level_gone { m.remove(price) } else { m.insert(price, 0) };
    match delete_price {
        Some(d) => m1.remove(d),
        None => m1,
    }
}

/// `s` after a take at `price`: without `price` when the level is gone, then without `delete_price`.
pub open spec fn prices_after_take(s: Seq<u64>, price: u64, new_c: u64, level_gone: bool, delete_price: Option<u64>) -> Seq<u64> {
    let s1 = if new_c == 0 && level_gone { s.remove_value(price) } else { s };
    match delete_price {
        Some(d) => s1.remove_value(d),
        None => s1,
    }
}

/// The elements of `s` without its first `i`.
pub proof fn lemma_skip_contains<T>(s: Seq<T>, i: int)
    requires
        0 <= i <= s.len(),
    ensures
        forall|p: T| s.skip(i).contains(p) ==> s.contains(p),
{
    assert forall|p: T| s.skip(i).contains(p) implies s.contains(p) by {
        let j = choose|j: int| 0 <= j < s.skip(i).len() && s.skip(i)[j] == p;
        assert(s[i + j] == p);
    }
}

/// The elements of `s` without `x`.
pub proof fn lemma_remove_value_contains<T>(s: Seq<T>, x: T)
    requires
        s.no_duplicates(),
    ensures
        forall|p: T| s.remove_value(x).contains(p) <==> (s.contains(p) && p != x),
{
    s.index_of_first_ensures(x);
    assert forall|p: T| s.remove_value(x).contains(p) <==> (s.contains(p) && p != x) by {
        match s.index_of_first(x) {
            Some(k) => {
                let t = s.remove(k);
                if t.contains(p) {
                    let j = choose|j: int| 0 <= j < t.len() && t[j] == p;
                    let sj = if j < k { j } else { j + 1 };
                    assert(s[sj] == p);
                    assert(sj != k);
                }
                if s.contains(p) && p != x {
                    let j = choose|j: int| 0 <= j < s.len() && s[j] == p;
                    assert(j != k);
                    if j < k { assert(t[j] == p); } else { assert(t[j - 1] == p); }
                }
            },
            None => {},
        }
    }
}

/// The effect of `update_price_level` on the L2 data and the events.
pub open spec fn update_spec(o: L2, n: L2, l3: L3, ev0: Seq<SpotEvent>, ev1: Seq<SpotEvent>, pair_id: Seq<u8>,
    is_placed: bool, is_bid: bool, price: u64, delta_pqty: u64, delta_cqty: u64, delete_price: Option<u64>,
    r: Result<(), OrderBookError>) -> bool {
    &&& side_unchanged(&n, &o, !is_bid)
    &&& lists_unchanged(&n, &o)
    &&& ({
                let pl = o.public_levels(is_bid);
                let cl = o.current_levels(is_bid);
                let listed = o.prices(is_bid).contains(price);
                let missing = !pl.contains_key(price) || !cl.contains_key(price);
                if is_placed && !listed {
                    if price == 0 {
                        &&& r == Err::<(), OrderBookError>(OrderBookError::L2(L2Error::PriceIsZero))
                        &&& n == o
                        &&& ev1 == ev0
                    } else {
                        &&& r is Ok
                        &&& forall|p: u64| n.prices(is_bid).contains(p) <==> (o.prices(is_bid).contains(p) || p == price)
                        &&& n.public_levels(is_bid) == pl.insert(price, delta_pqty)
                        &&& n.current_levels(is_bid) == cl.insert(price, delta_cqty)
                        &&& ev1 == ev0
                    }
                } else if missing {
                    &&& r == Err::<(), OrderBookError>(OrderBookError::L2(L2Error::PriceMissing { price, is_bid, is_placed }))
                    &&& n == o
                    &&& ev1 == ev0
                } else if is_placed {
                    let new_p = sat_add(pl[price], delta_pqty);
                    let new_c = sat_add(cl[price], delta_cqty);
                    &&& r is Ok
                    &&& n.prices(is_bid) == o.prices(is_bid)
                    &&& n.public_levels(is_bid) == pl.insert(price, new_p)
                    &&& n.current_levels(is_bid) == cl.insert(price, new_c)
                    &&& ev1.len() == ev0.len() + 1
                    &&& ev1.drop_last() == ev0
                    &&& is_block_changed(ev1.last(), pair_id, is_bid, price, new_p, new_c)
                } else {
                    let new_p = sat_sub(pl[price], delta_pqty);
                    let new_c = sat_sub(cl[price], delta_cqty);
                    let gone = l3.level(price).len() == 0;
                    &&& r is Ok
                    &&& n.prices(is_bid) == prices_after_take(o.prices(is_bid), price, new_c, gone, delete_price)
                    &&& n.public_levels(is_bid) == level_after_take(pl, price, new_p, new_c, gone, delete_price)
                    &&& n.current_levels(is_bid) == level_after_take(cl, price, new_c, new_c, gone, delete_price)
                    &&& ev1.len() == ev0.len() + 1
                    &&& ev1.drop_last() == ev0
                    &&& is_block_changed(ev1.last(), pair_id, is_bid, price, new_p, new_c)
                }
            })
}


/// `e` announces order `o`, placed on pair `pair_id` trading `base` for `quote`.
pub open spec fn is_order_placed(e: SpotEvent, o: OrderModel, pair_id: Seq<u8>, base: Seq<u8>, quote: Seq<u8>) -> bool {
    match e {
        SpotEvent::SpotOrderPlaced {
            cid, pair_id: p, base_asset_id, quote_asset_id, order_id, maker_account_id,
            is_bid, price, amnt, iqty, pqty, cqty, timestamp, expires_at,
        } => {
            &&& cid@ == o.cid
            &&& p@ == pair_id
            &&& base_asset_id@ == base
            &&& quote_asset_id@ == quote
            &&& order_id@ == be_bytes(o.id)
            &&& maker_account_id@ == o.owner
            &&& is_bid == o.is_bid
            &&& price == o.price
            &&& amnt == o.amnt
            &&& iqty == o.iqty
            &&& pqty == o.pqty
            &&& cqty == o.cqty
            &&& timestamp == o.timestamp
            &&& expires_at == o.expires_at
        },
        _ => false,
    }
}

/// `e` reports order `id` (`o`) leaving the book: cancelled (`cancelled`) or expired,
/// under client id `cid`, on side `is_bid`, at time `timestamp`.
pub open spec fn is_order_closed(e: SpotEvent, cancelled: bool, cid: Seq<u8>, id: OrderId, o: OrderModel, is_bid: bool, timestamp: i64) -> bool {
    match e {
        SpotEvent::SpotOrderCancelled {
            cid: c, order_id, maker_account_id, is_bid: b, price, amnt, iqty, pqty, cqty, timestamp: t, expires_at,
        } => {
            &&& cancelled
            &&& c@ == cid
            &&& order_id@ == be_bytes(id)
            &&& maker_account_id@ == o.owner
            &&& b == is_bid
            &&& price == o.price
            &&& amnt == o.amnt
            &&& iqty == o.iqty
            &&& pqty == o.pqty
            &&& cqty == o.cqty
            &&& t == timestamp
            &&& expires_at == o.expires_at
        },
        SpotEvent::SpotOrderExpired {
            cid: c, order_id, maker_account_id, is_bid: b, price, amnt, iqty, pqty, cqty, timestamp: t, expires_at,
        } => {
            &&& !cancelled
            &&& c@ == cid
            &&& order_id@ == be_bytes(id)
            &&& maker_account_id@ == o.owner
            &&& b == is_bid
            &&& price == o.price
            &&& amnt == o.amnt
            &&& iqty == o.iqty
            &&& pqty == o.pqty
            &&& cqty == o.cqty
            &&& t == timestamp
            &&& expires_at == o.expires_at
        },
        _ => false,
    }
}

/// `e` reports a transfer of `amnt` of `asset` from `from` to `to`.
pub open spec fn is_transfer(e: SpotEvent, cid: Seq<u8>, from: Seq<u8>, to: Seq<u8>, asset: Seq<u8>, amnt: u64, timestamp: i64) -> bool {
    match e {
        SpotEvent::Transfer { cid: c, from: f, to: t, asset: a, amnt: n, timestamp: ts } =>
            c@ == cid && f@ == from && t@ == to && a@ == asset && n == amnt && ts == timestamp,
        _ => false,
    }
}

/// `e` reports the new iceberg quantity of order `id` (`o`).
pub open spec fn is_iceberg_changed(e: SpotEvent, cid: Seq<u8>, id: OrderId, o: OrderModel) -> bool {
    match e {
        SpotEvent::SpotOrderIcebergQuantityChanged { cid: c, order_id, amnt, iqty, pqty, cqty, timestamp, expires_at } => {
            &&& c@ == cid
            &&& order_id@ == be_bytes(id)
            &&& amnt == o.amnt
            &&& iqty == o.iqty
            &&& pqty == o.pqty
            &&& cqty == o.cqty
            &&& timestamp == o.timestamp
            &&& expires_at == o.expires_at
        },
        _ => false,
    }
}

/// The order a placement stores under `id`.
pub open spec fn placed_order(id: OrderId, cid: Seq<u8>, owner: Seq<u8>, is_bid: bool, price: u64, amnt: u64, iqty: u64,
    timestamp: i64, expires_at: i64, fee_bps: u16) -> OrderModel {
    OrderModel {
        cid, id, owner, is_bid, price, amnt, iqty, pqty: (amnt - iqty) as u64, cqty: amnt, timestamp, expires_at, fee_bps,
    }
}

/// Book `n` and events `ev1` are book `o` and events `ev0` after order `m`
/// (new, with a non-zero price) was placed on pair `pair_id`.
pub open spec fn placed_spec(o: OrderBook, n: OrderBook, ev0: Seq<SpotEvent>, ev1: Seq<SpotEvent>, m: OrderModel,
    pair_id: Seq<u8>, base: Seq<u8>, quote: Seq<u8>) -> bool {
    &&& n.l3.orders_view() == o.l3.orders_view().insert(m.id, m)
    &&& n.l3.levels() == L3::queued(o.l3.levels(), m.price, m.id)
    &&& n.l3.dust == o.l3.dust
    &&& n.l3.dormant_order == o.l3.dormant_order
    &&& ev1.len() > ev0.len()
    &&& ev1.take(ev0.len() as int) == ev0
    &&& is_order_placed(ev1[ev0.len() as int], m, pair_id, base, quote)
    &&& update_spec(o.l2, n.l2, n.l3, ev1.take(ev0.len() + 1int), ev1, pair_id, true, m.is_bid, m.price, m.pqty, m.cqty, None, Ok(()))
}

/// The other parts of the book are those of `o`.
pub open spec fn rest_unchanged(o: OrderBook, n: OrderBook) -> bool {
    &&& n.l1 == o.l1
    &&& n.fee_recipients == o.fee_recipients
    &&& n.dust == o.dust
}


/// L3 `n` is `o` without order `id`.
pub open spec fn removed_from_l3(o: L3, n: L3, id: OrderId) -> bool {
    &&& n.levels() == L3::unqueued(o.levels(), o.orders@[id].price, id)
    &&& n.orders@ == o.orders@.remove(id)
    &&& n.dust == o.dust
    &&& n.dormant_order == o.dormant_order
}

/// The price to unlist after an order at `price` left `l3`: `price` itself
/// when its level is now empty.
pub open spec fn emptied_price(l3: L3, price: u64) -> Option<u64> {
    if l3.level(price).len() == 0 { Some(price) } else { None }
}

/// L2 `b` is `a` with price `dp` (when given) unlisted from side `is_bid`.
pub open spec fn l2_unlisted(a: L2, b: L2, is_bid: bool, dp: Option<u64>) -> bool {
    match dp {
        None => b == a,
        Some(p) => {
            &&& b.prices(is_bid) == a.prices(is_bid).remove_value(p)
            &&& side_unchanged(&b, &a, !is_bid)
            &&& lists_unchanged(&b, &a)
            &&& b.public_levels(is_bid) == a.public_levels(is_bid).remove(p)
            &&& b.current_levels(is_bid) == a.current_levels(is_bid).remove(p)
        },
    }
}

/// The effect of expiring order `id` (side `is_bid`) at time `now`.
pub open spec fn expire_spec(o: OrderBook, n: OrderBook, ev0: Seq<SpotEvent>, ev1: Seq<SpotEvent>, id: OrderId,
    is_bid: bool, pair_id: Seq<u8>, now: i64, r: Result<(), OrderBookError>) -> bool {
    if !o.l3.orders@.contains_key(id) {
        &&& r == Err::<(), OrderBookError>(OrderBookError::L3(L3Error::OrderDoesNotExist(id)))
        &&& n == o
        &&& ev1 == ev0
    } else {
        let x = o.l3.orders_view()[id];
        let dp = emptied_price(n.l3, x.price);
        &&& removed_from_l3(o.l3, n.l3, id)
        &&& r is Ok ==> {
            &&& ev1.len() > 0
            &&& update_spec(o.l2, n.l2, n.l3, ev0, ev1.drop_last(), pair_id, false, is_bid, x.price, x.pqty, x.cqty, dp, Ok(()))
            &&& is_order_closed(ev1.last(), false, x.cid, id, x, is_bid, now)
        }
        &&& r is Err ==> update_spec(o.l2, n.l2, n.l3, ev0, ev1, pair_id, false, is_bid, x.price, x.pqty, x.cqty, dp, r)
    }
}

/// The effect of cancelling order `id` for `owner`.
pub open spec fn cancel_spec(o: OrderBook, n: OrderBook, ev0: Seq<SpotEvent>, ev1: Seq<SpotEvent>, cid: Seq<u8>,
    pair_id: Seq<u8>, is_bid: bool, id: OrderId, owner: Seq<u8>, r: Result<(), OrderBookError>) -> bool {
    if !o.l3.orders@.contains_key(id) {
        &&& r == Err::<(), OrderBookError>(OrderBookError::L3(L3Error::OrderDoesNotExist(id)))
        &&& n == o
        &&& ev1 == ev0
    } else if o.l3.orders@[id].owner@ != owner {
        &&& r == Err::<(), OrderBookError>(OrderBookError::OrderNotOwnedBySender)
        &&& n == o
        &&& ev1 == ev0
    } else {
        let x = o.l3.orders_view()[id];
        let dp = emptied_price(n.l3, x.price);
        &&& removed_from_l3(o.l3, n.l3, id)
        &&& ev1.len() > ev0.len()
        &&& ev1.take(ev0.len() as int) == ev0
        &&& is_order_closed(ev1[ev0.len() as int], true, cid, id, x, is_bid, x.timestamp)
        &&& exists|m: L2| #[trigger] l2_unlisted(o.l2, m, is_bid, dp)
            && update_spec(m, n.l2, n.l3, ev1.take(ev0.len() + 1int), ev1, pair_id, false, is_bid, x.price, x.pqty, x.cqty, dp, r)
    }
}

/// The effect of setting the iceberg quantity of order `id` to `iqty`.
pub open spec fn iceberg_spec(o: OrderBook, n: OrderBook, ev0: Seq<SpotEvent>, ev1: Seq<SpotEvent>, cid: Seq<u8>,
    pair_id: Seq<u8>, is_bid: bool, id: OrderId, iqty: u64, r: Result<(), OrderBookError>) -> bool {
    if !o.l3.orders@.contains_key(id) {
        &&& r == Err::<(), OrderBookError>(OrderBookError::L3(L3Error::OrderDoesNotExist(id)))
        &&& n == o
        &&& ev1 == ev0
    } else {
        let x = o.l3.orders_view()[id];
        &&& n.l3.levels() == o.l3.levels()
        &&& n.l3.orders@.dom() == o.l3.orders@.dom()
        &&& n.l3.dust == o.l3.dust
        &&& n.l3.dormant_order == o.l3.dormant_order
        &&& if iqty > x.amnt {
            &&& r == Err::<(), OrderBookError>(OrderBookError::L3(L3Error::IcebergQuantityIsBiggerThanWholeAmount))
            &&& n.l3.orders_view() == o.l3.orders_view().insert(id, OrderModel { iqty, ..x })
            &&& n.l2 == o.l2
            &&& ev1 == ev0
        } else {
            let pq = if x.cqty >= (x.amnt - iqty) as u64 { (x.amnt - iqty) as u64 } else { x.cqty };
            let y = OrderModel { iqty, pqty: pq, ..x };
            let placed = pq >= x.pqty;
            let delta = if placed { (pq - x.pqty) as u64 } else { (x.pqty - pq) as u64 };
            &&& n.l3.orders_view() == o.l3.orders_view().insert(id, y)
            &&& if delta == 0 {
                &&& r is Ok
                &&& n.l2 == o.l2
                &&& ev1 == ev0.push(ev1.last())
                &&& is_iceberg_changed(ev1.last(), cid, id, y)
            } else {
                &&& r is Ok ==> {
                    &&& ev1.len() > 0
                    &&& update_spec(o.l2, n.l2, n.l3, ev0, ev1.drop_last(), pair_id, placed, is_bid, x.price, delta, 0, None, Ok(()))
                    &&& is_iceberg_changed(ev1.last(), cid, id, y)
                }
                &&& r is Err ==> update_spec(o.l2, n.l2, n.l3, ev0, ev1, pair_id, placed, is_bid, x.price, delta, 0, None, r)
            }
        }
    }
}


/// Expired order `id` (`x`) handed back on side `is_bid`: reported as
/// expired, its whole amount reported as transferred from `managing` to its
/// owner, and its quantities taken off its level (L2 `a` becomes `b`).
pub open spec fn settle_step(a: L2, b: L2, l3: L3, ev0: Seq<SpotEvent>, ev1: Seq<SpotEvent>, id: OrderId, x: OrderModel,
    is_bid: bool, pair_id: Seq<u8>, base: Seq<u8>, quote: Seq<u8>, managing: Seq<u8>, now: i64,
    r: Result<(), OrderBookError>) -> bool {
    let asset = if is_bid { quote } else { base };
    &&& ev1.len() >= ev0.len() + 2
    &&& ev1.take(ev0.len() as int) == ev0
    &&& is_order_closed(ev1[ev0.len() as int], false, x.cid, id, x, is_bid, now)
    &&& is_transfer(ev1[ev0.len() + 1int], x.cid, managing, x.owner, asset, x.amnt, now)
    &&& update_spec(a, b, l3, ev1.take(ev0.len() + 2int), ev1, pair_id, false, is_bid, x.price, x.pqty, x.cqty,
        emptied_price(l3, x.price), r)
}

/// The result of step `i` of `k` steps ending with `r`.
pub open spec fn step_result(i: int, k: int, r: Result<(), OrderBookError>) -> Result<(), OrderBookError> {
    if i == k - 1 { r } else { Ok(()) }
}

/// The first orders of `list` handed back one after the other: step `i` takes
/// L2 `l2s[i]` and events `evs[i]` to `l2s[i + 1]` and `evs[i + 1]`; every step
/// but the last succeeds, and the last ends with `r`. All of `list` is handed
/// back when `r` is `Ok`.
pub open spec fn settle_run(l2s: Seq<L2>, evs: Seq<Seq<SpotEvent>>, l3: L3, list: Seq<(OrderId, OrderModel)>,
    is_bid: bool, pair_id: Seq<u8>, base: Seq<u8>, quote: Seq<u8>, managing: Seq<u8>, now: i64,
    r: Result<(), OrderBookError>) -> bool {
    let k = l2s.len() - 1;
    &&& l2s.len() >= 1
    &&& evs.len() == l2s.len()
    &&& k <= list.len()
    &&& forall|i: int| 0 <= i < k ==> #[trigger] settle_step(l2s[i], l2s[i + 1], l3, evs[i], evs[i + 1], list[i].0, list[i].1,
        is_bid, pair_id, base, quote, managing, now, step_result(i, k, r))
    &&& r is Ok ==> k == list.len()
    &&& r is Err ==> k > 0
}

/// `list` holds each order of `l3` expired at `now` once, with its value.
pub open spec fn expired_list(l3: L3, now: i64, list: Seq<(OrderId, OrderModel)>) -> bool {
    &&& forall|i: int| 0 <= i < list.len() ==> l3.expired_at((#[trigger] list[i]).0, now) && list[i].1 == l3.orders_view()[list[i].0]
    &&& forall|id: OrderId| l3.expired_at(id, now) ==> exists|i: int| 0 <= i < list.len() && (#[trigger] list[i]).0 == id
    &&& forall|i: int, j: int| 0 <= i < j < list.len() ==> (#[trigger] list[i]).0 != (#[trigger] list[j]).0
}


/// The effect of expiring, at `now`, every expired order of book `o`
/// (giving `n`), settling each one on side `is_bid` in turn.
pub open spec fn expire_orders_spec(o: OrderBook, n: OrderBook, ev0: Seq<SpotEvent>, ev1: Seq<SpotEvent>, is_bid: bool,
    pair_id: Seq<u8>, base: Seq<u8>, quote: Seq<u8>, managing: Seq<u8>, now: i64, r: Result<(), OrderBookError>) -> bool {
    &&& rest_unchanged(o, n)
    &&& forall|id: OrderId| #[trigger] n.l3.orders@.contains_key(id) <==>
        o.l3.orders@.contains_key(id) && !o.l3.expired_at(id, now)
    &&& forall|id: OrderId| #[trigger] n.l3.orders@.contains_key(id) ==> n.l3.orders@[id] == o.l3.orders@[id]
    &&& n.l3.dust == o.l3.dust
    &&& n.l3.dormant_order == o.l3.dormant_order
    &&& exists|list: Seq<(OrderId, OrderModel)>, l2s: Seq<L2>, evs: Seq<Seq<SpotEvent>>| {
        &&& #[trigger] expired_list(o.l3, now, list)
        &&& #[trigger] settle_run(l2s, evs, n.l3, list, is_bid, pair_id, base, quote, managing, now, r)
        &&& l2s[0] == o.l2
        &&& l2s.last() == n.l2
        &&& evs[0] == ev0
        &&& evs.last() == ev1
    }
}

/// The values of the fields of a fill event match the expected ones.
pub open spec fn fill_fields(
    is_taker_event: bool, taker_cid: Seq<u8>, maker_cid: Seq<u8>, taker_order_id: Seq<u8>, maker_order_id: Seq<u8>,
    taker_account_id: Seq<u8>, maker_account_id: Seq<u8>, taker_order_is_bid: bool, maker_order_is_bid: bool, price: u64,
    pair_id: Seq<u8>, base_asset_id: Seq<u8>, quote_asset_id: Seq<u8>, base_volume: u64, quote_volume: u64, base_fee: u64,
    quote_fee: u64, maker_fee_bps: u16, taker_fee_bps: u16, amnt: u64, iqty: u64, pqty: u64, cqty: u64, timestamp: i64,
    expires_at: i64,
    // expected
    for_taker: bool, taker: OrderModel, maker: OrderModel, pair: Seq<u8>, base: Seq<u8>, quote: Seq<u8>,
    bv: u64, qv: u64, bf: u64, qf: u64, rem_pqty: u64, rem_cqty: u64, ts: i64, exp: i64,
) -> bool {
    let side = if for_taker { taker } else { maker };
    &&& is_taker_event == for_taker
    &&& taker_cid == taker.cid
    &&& maker_cid == maker.cid
    &&& taker_order_id == be_bytes(taker.id)
    &&& maker_order_id == be_bytes(maker.id)
    &&& taker_account_id == taker.owner
    &&& maker_account_id == maker.owner
    &&& taker_order_is_bid == taker.is_bid
    &&& maker_order_is_bid == maker.is_bid
    &&& price == side.price
    &&& pair_id == pair
    &&& base_asset_id == base
    &&& quote_asset_id == quote
    &&& base_volume == bv
    &&& quote_volume == qv
    &&& base_fee == bf
    &&& quote_fee == qf
    &&& maker_fee_bps == maker.fee_bps
    &&& taker_fee_bps == taker.fee_bps
    &&& amnt == side.amnt
    &&& iqty == side.iqty
    &&& pqty == rem_pqty
    &&& cqty == rem_cqty
    &&& timestamp == ts
    &&& expires_at == exp
}

/// `e` reports the fill of the taker (`for_taker`) or the maker in a match
/// of `taker` with `maker`: partial when `rem_cqty` is left, full otherwise.
pub open spec fn is_fill(e: SpotEvent, for_taker: bool, taker: OrderModel, maker: OrderModel, pair: Seq<u8>, base: Seq<u8>,
    quote: Seq<u8>, bv: u64, qv: u64, bf: u64, qf: u64, rem_pqty: u64, rem_cqty: u64, ts: i64, exp: i64) -> bool {
    match e {
        SpotEvent::SpotOrderPartiallyFilled {
            is_taker_event, taker_cid, maker_cid, taker_order_id, maker_order_id, taker_account_id, maker_account_id,
            taker_order_is_bid, maker_order_is_bid, price, pair_id, base_asset_id, quote_asset_id, base_volume,
            quote_volume, base_fee, quote_fee, maker_fee_bps, taker_fee_bps, amnt, iqty, pqty, cqty, timestamp, expires_at,
        } => rem_cqty > 0 && fill_fields(is_taker_event, taker_cid@, maker_cid@, taker_order_id@, maker_order_id@,
            taker_account_id@, maker_account_id@, taker_order_is_bid, maker_order_is_bid, price, pair_id@, base_asset_id@,
            quote_asset_id@, base_volume, quote_volume, base_fee, quote_fee, maker_fee_bps, taker_fee_bps, amnt, iqty, pqty,
            cqty, timestamp, expires_at, for_taker, taker, maker, pair, base, quote, bv, qv, bf, qf, rem_pqty, rem_cqty, ts, exp),
        SpotEvent::SpotOrderFullyFilled {
            is_taker_event, taker_cid, maker_cid, taker_order_id, maker_order_id, taker_account_id, maker_account_id,
            taker_order_is_bid, maker_order_is_bid, price, pair_id, base_asset_id, quote_asset_id, base_volume,
            quote_volume, base_fee, quote_fee, maker_fee_bps, taker_fee_bps, amnt, iqty, pqty, cqty, timestamp, expires_at,
        } => rem_cqty == 0 && fill_fields(is_taker_event, taker_cid@, maker_cid@, taker_order_id@, maker_order_id@,
            taker_account_id@, maker_account_id@, taker_order_is_bid, maker_order_is_bid, price, pair_id@, base_asset_id@,
            quote_asset_id@, base_volume, quote_volume, base_fee, quote_fee, maker_fee_bps, taker_fee_bps, amnt, iqty, pqty,
            cqty, timestamp, expires_at, for_taker, taker, maker, pair, base, quote, bv, qv, bf, qf, rem_pqty, rem_cqty, ts, exp),
        _ => false,
    }
}

/// No division by zero arises in finding how much of `maker` the `taker` takes.
pub open spec fn matching_defined(taker: OrderModel, maker: OrderModel) -> bool {
    let conv = if taker.is_bid { sat_mul(taker.cqty, SCALE) / taker.price } else { sat_mul(taker.cqty, taker.price) / SCALE };
    &&& taker.is_bid ==> taker.price != 0
    &&& conv >= maker.cqty && !maker.is_bid ==> taker.price != 0
    &&& conv < maker.cqty && !taker.is_bid ==> maker.price != 0
}

/// A match of `taker` with `maker` has no division by zero and fees that fit in 64 bits.
pub open spec fn execute_defined(taker: OrderModel, maker: OrderModel) -> bool {
    let (amount, _tc, _mc) = matching_amount(taker, maker);
    let (b, q) = base_quote(taker, amount);
    &&& matching_defined(taker, maker)
    &&& fees_fit(taker.is_bid, b, q, maker.fee_bps, taker.fee_bps)
}

/// L3 `n` is `o` after `decrease_order(id, amount, dust, clear)` answered `dp`.
pub open spec fn decreased_l3(o: L3, n: L3, id: OrderId, amount: u64, dust: u64, clear: bool, dp: Option<u64>) -> bool {
    &&& n.dust == o.dust
    &&& n.dormant_order == o.dormant_order
    &&& if !o.orders@.contains_key(id) {
        n == o && dp is None
    } else {
        let x = o.orders@[id];
        let sent = if amount < x.cqty { amount } else { x.cqty };
        let decreased = x.cqty - sent;
        if clear || decreased <= dust {
            &&& n.levels() == L3::unqueued(o.levels(), x.price, id)
            &&& n.orders@ == o.orders@.remove(id)
            &&& dp == emptied_price(n, x.price)
        } else {
            &&& dp is None
            &&& n.levels() == o.levels()
            &&& n.orders@.dom() == o.orders@.dom()
            &&& n.orders_view() == o.orders_view().insert(id, OrderModel {
                cqty: decreased as u64,
                pqty: if decreased >= x.pqty { x.pqty } else { decreased as u64 },
                ..x@
            })
        }
    }
}

/// The current and public quantity left of order `id`, zeros when it is gone.
pub open spec fn remaining(l3: L3, id: OrderId) -> (u64, u64) {
    if l3.orders@.contains_key(id) { (l3.orders@[id].cqty, l3.orders@[id].pqty) } else { (0, 0) }
}

/// The book changes of a match: the taker then the maker decreased in L3,
/// then the taker's level then the maker's updated in L2 (stopping at the
/// first failure), with the events `ev2` becoming `ev1`.
pub open spec fn execute_steps(o: OrderBook, n: OrderBook, ev2: Seq<SpotEvent>, ev1: Seq<SpotEvent>, taker: OrderModel,
    maker: OrderModel, taker_amount: u64, maker_amount: u64, taker_clear: bool, maker_clear: bool, trc: u64, trp: u64,
    mrc: u64, mrp: u64, pair: Seq<u8>, r: Result<(), OrderBookError>) -> bool {
    exists|l3m: L3, tdp: Option<u64>, mdp: Option<u64>, m: L2, evm: Seq<SpotEvent>, r1: Result<(), OrderBookError>| {
        &&& #[trigger] decreased_l3(o.l3, l3m, taker.id, taker_amount, o.dust, taker_clear, tdp)
        &&& #[trigger] decreased_l3(l3m, n.l3, maker.id, maker_amount, o.dust, maker_clear, mdp)
        &&& #[trigger] update_spec(o.l2, m, n.l3, ev2, evm, pair, false, taker.is_bid, taker.price,
            sat_sub(taker.pqty, trp), sat_sub(taker.cqty, trc), tdp, r1)
        &&& r1 is Err ==> r == r1 && n.l2 == m && ev1 == evm
        &&& r1 is Ok ==> update_spec(m, n.l2, n.l3, evm, ev1, pair, false, maker.is_bid, maker.price,
            sat_sub(maker.pqty, mrp), sat_sub(maker.cqty, mrc), mdp, r)
    }
}

/// The effect of matching `taker` with `maker` at time `now`.
pub open spec fn execute_spec(o: OrderBook, n: OrderBook, ev0: Seq<SpotEvent>, ev1: Seq<SpotEvent>, taker: OrderModel,
    maker: OrderModel, pair: Seq<u8>, base: Seq<u8>, quote: Seq<u8>, now: i64, r: Result<(), OrderBookError>) -> bool {
    let (amount, taker_clear, maker_clear) = matching_amount(taker, maker);
    let (b, q) = base_quote(taker, amount);
    let taker_amount = if taker.is_bid { q } else { b };
    let maker_amount = if taker.is_bid { b } else { q };
    if maker.expires_at <= now {
        &&& r is Err
        &&& expire_spec(o, n, ev0, ev1, maker.id, !taker.is_bid, pair, now,
            if r == Err::<(), OrderBookError>(OrderBookError::OrderExpired) { Ok(()) } else { r })
    } else {
        let (bf, qf) = fees(taker.is_bid, b, q, maker.fee_bps, taker.fee_bps);
        let (trc, trp) = remaining(n.l3, taker.id);
        let (mrc, mrp) = remaining(n.l3, maker.id);
        let ev2 = ev1.take(ev0.len() + 2int);
        &&& ev1.len() >= ev0.len() + 2
        &&& ev1.take(ev0.len() as int) == ev0
        &&& is_fill(ev1[ev0.len() as int], true, taker, maker, pair, base, quote, b, q, bf, qf, trp, trc, now, taker.expires_at)
        &&& is_fill(ev1[ev0.len() + 1int], false, taker, maker, pair, base, quote, b, q, bf, qf, mrp, mrc, now, maker.expires_at)
        &&& execute_steps(o, n, ev2, ev1, taker, maker, taker_amount, maker_amount, taker_clear, maker_clear,
            trc, trp, mrc, mrp, pair, r)
    }
}

/// Cancelling, by its owner, an order just placed gives back the level-3
/// data as it was before the placement: the same orders and the same queues.
pub proof fn law_cancel_undoes_place(o: OrderBook, m: OrderBook, n: OrderBook, ev0: Seq<SpotEvent>, ev1: Seq<SpotEvent>,
    ev2: Seq<SpotEvent>, x: OrderModel, pair_id: Seq<u8>, base: Seq<u8>, quote: Seq<u8>, cid: Seq<u8>, cancel_pair_id: Seq<u8>,
    is_bid: bool, r: Result<(), OrderBookError>)
    requires
        o.wf(),
        !o.l3.orders@.contains_key(x.id),
        placed_spec(o, m, ev0, ev1, x, pair_id, base, quote),
        cancel_spec(m, n, ev1, ev2, cid, cancel_pair_id, is_bid, x.id, x.owner, r),
    ensures
        n.l3.orders_view() == o.l3.orders_view(),
        n.l3.levels() == o.l3.levels(),
{
    let id = x.id;
    o.l3.lemma_levels();
    m.l3.lemma_orders_view();
    n.l3.lemma_orders_view();
    o.l3.lemma_orders_view();
    assert(m.l3.orders_view().contains_key(id));
    assert(m.l3.orders@.contains_key(id));
    assert(m.l3.orders@[id]@ == x);
    let lv = o.l3.levels();
    assert(!in_levels(lv, id)) by {
        if in_levels(lv, id) {
            let p = choose|p: u64| lv.contains_key(p) && #[trigger] lv[p].contains(id);
            assert(o.l3.orders@.contains_key(id));
        }
    }
    assert forall|p: u64| #[trigger] lv.contains_key(p) implies lv[p].len() > 0 by {
        assert(o.l3.level_ok(p, lv[p]));
    }
    law_unqueue_undoes_queue(lv, x.price, id);
    assert(n.l3.orders_view() =~= o.l3.orders_view()) by {
        assert forall|k: OrderId| #[trigger] n.l3.orders_view().contains_key(k) <==> o.l3.orders_view().contains_key(k) by {}
        assert forall|k: OrderId| #[trigger] n.l3.orders_view().contains_key(k) implies n.l3.orders_view()[k] == o.l3.orders_view()[k] by {
            assert(n.l3.orders@[k] == m.l3.orders@[k]);
            assert(m.l3.orders_view()[k] == o.l3.orders_view()[k]);
        }
    }
}


impl OrderBook {
    pub open spec fn wf(&self) -> bool {
        &&& self.l2.wf()
        &&& self.l3.wf()
        &&& self.fee_recipients.wf()
        &&& self.levels_listed(true)
        &&& self.levels_listed(false)
    }

    /// Every listed price of a side has both its level quantities.
    pub open spec fn levels_listed(&self, is_bid: bool) -> bool {
        forall|p: u64| #[trigger] self.l2.prices(is_bid).contains(p) ==>
            self.l2.public_levels(is_bid).contains_key(p) && self.l2.current_levels(is_bid).contains_key(p)
    }

    /// Levels of `side` in L2: public and current quantity at `price`.
    pub open spec fn levels_at(&self, is_bid: bool, price: u64) -> (Option<u64>, Option<u64>) {
        (opt_get(self.l2.public_levels(is_bid), price), opt_get(self.l2.current_levels(is_bid), price))
    }

    /// A new, empty order book with a dust limit of 1000.
    pub fn new() -> (ob: Self)
        ensures
            ob.wf(),
            ob.l1 == L1::default_spec(),
            ob.l2.bid_prices() == Seq::<u64>::empty(),
            ob.l2.ask_prices() == Seq::<u64>::empty(),
            ob.l2.public_bid_level_map@ == Map::<u64, u64>::empty(),
            ob.l2.public_ask_level_map@ == Map::<u64, u64>::empty(),
            ob.l2.current_bid_level_map@ == Map::<u64, u64>::empty(),
            ob.l2.current_ask_level_map@ == Map::<u64, u64>::empty(),
            ob.l3.levels() == Map::<u64, Seq<OrderId>>::empty(),
            ob.l3.orders@ == Map::<OrderId, Order>::empty(),
            ob.fee_recipients@ == Map::<Seq<u8>, Vec<u8>>::empty(),
            ob.dust == 1000,
    {
        Self {
            l1: L1::new(),
            l2: L2::new(),
            l3: L3::new(),
            fee_recipients: ByteMap::new(),
            dust: 1000,
        }
    }

    /// Sets the dust limit to determine if the order should be deleted
    pub fn set_dust(&mut self, dust: u64)
        ensures
            *final(self) == (OrderBook { dust, ..*old(self) }),
    {
        self.dust = dust;
    }

    /// Last match price.
    pub fn lmp(&self) -> (r: Option<u64>)
        ensures
            r == self.l1.lmp,
    {
        self.l1.lmp()
    }

    /// Sets the last match price.
    pub fn set_lmp(&mut self, price: u64)
        ensures
            final(self).l1 == (L1 { lmp: Some(price), ..old(self).l1 }),
            final(self).l2 == old(self).l2,
            final(self).l3 == old(self).l3,
            final(self).fee_recipients == old(self).fee_recipients,
            final(self).dust == old(self).dust,
    {
        self.l1.set_lmp(price);
    }

    /// The amount required to take `amount` from an order at `price` for an
    /// order on the side of `taker_order`: `amount * price / 1e8` for a bid,
    /// `amount * 1e8 / price` for an ask, with saturating products.
    pub fn get_required(&self, taker_order: Order, price: u64, amount: u64) -> (r: Result<u64, OrderBookError>)
        requires
            !taker_order.is_bid ==> price != 0,
        ensures
            r == Ok::<u64, OrderBookError>(required(taker_order.is_bid, price, amount)),
    {
        if taker_order.is_bid {
            Ok(saturating_mul(amount, price) / SCALE)
        } else {
            Ok(saturating_mul(amount, SCALE) / price)
        }
    }

    /// Removes the prices at the front of one side that have no resting order,
    /// and returns the first price that has one (`PriceIsZero` when none is left).
    pub fn clear_empty_head(&mut self, is_bid: bool) -> (r: Result<u64, OrderBookError>)
        requires
            old(self).wf(),
        ensures
            final(self).wf(),
            ({
                let s = old(self).l2.prices(is_bid);
                let k = empty_prefix(s, old(self).l3);
                &&& final(self).l2.prices(is_bid) == s.skip(k as int)
                &&& r == (if k < s.len() { Ok::<u64, OrderBookError>(s[k as int]) } else { Err(OrderBookError::PriceIsZero) })
            }),
            final(self).l2.same_list(&old(self).l2, !is_bid),
            final(self).l2.public_bid_level_map@ == old(self).l2.public_bid_level_map@,
            final(self).l2.public_ask_level_map@ == old(self).l2.public_ask_level_map@,
            final(self).l2.current_bid_level_map@ == old(self).l2.current_bid_level_map@,
            final(self).l2.current_ask_level_map@ == old(self).l2.current_ask_level_map@,
            final(self).l2.bid_level_list@ == old(self).l2.bid_level_list@,
            final(self).l2.ask_level_list@ == old(self).l2.ask_level_list@,
            final(self).l1 == old(self).l1,
            final(self).l3 == old(self).l3,
            final(self).fee_recipients == old(self).fee_recipients,
            final(self).dust == old(self).dust,
    {
        let ghost s = self.l2.prices(is_bid);
        proof { self.l2.lemma_prices(); lemma_empty_prefix_bound(s, self.l3); }
        let mut head = if is_bid { self.l2.bid_head() } else { self.l2.ask_head() };
        let ghost mut i: int = 0;
        assert(s.skip(0) =~= s);
        while head.is_some()
            invariant
                self.wf(),
                old(self).wf(),
                s == old(self).l2.prices(is_bid),
                0 <= i <= s.len(),
                self.l2.prices(is_bid) == s.skip(i),
                empty_prefix(s, old(self).l3) == i + empty_prefix(s.skip(i), self.l3),
                head == (if i < s.len() { Some(s[i]) } else { None::<u64> }),
                self.l2.same_list(&old(self).l2, !is_bid),
                self.l2.public_bid_level_map@ == old(self).l2.public_bid_level_map@,
                self.l2.public_ask_level_map@ == old(self).l2.public_ask_level_map@,
                self.l2.current_bid_level_map@ == old(self).l2.current_bid_level_map@,
                self.l2.current_ask_level_map@ == old(self).l2.current_ask_level_map@,
                self.l2.bid_level_list@ == old(self).l2.bid_level_list@,
                self.l2.ask_level_list@ == old(self).l2.ask_level_list@,
                self.l1 == old(self).l1,
                self.l3 == old(self).l3,
                self.fee_recipients == old(self).fee_recipients,
                self.dust == old(self).dust,
            decreases s.len() - i,
        {
            let head_price = head.unwrap();
            let order_id = self.l3.head(head_price);
            proof { self.l2.lemma_prices(); }
            assert(s.skip(i)[0] == s[i]);
            if order_id.is_some() {
                assert(empty_prefix(s.skip(i), self.l3) == 0);
                return Ok(head_price);
            }
            assert(s.skip(i).drop_first() =~= s.skip(i + 1));
            head = match self.l2.clear_head(is_bid) {
                Ok(h) => h,
                Err(e) => {
                    assert(false);
                    None
                },
            };
            proof {
                i = i + 1;
                self.l2.lemma_prices();
                lemma_skip_contains(s, i);
                old(self).l2.lemma_same_side(&self.l2, !is_bid);
                assert forall|p: u64| #[trigger] self.l2.prices(is_bid).contains(p) implies
                    self.l2.public_levels(is_bid).contains_key(p) && self.l2.current_levels(is_bid).contains_key(p) by {
                    assert(s.skip(i).contains(p));
                    assert(s.contains(p));
                    assert(old(self).l2.prices(is_bid).contains(p));
                }
                assert(self.levels_listed(is_bid));
                assert(self.levels_listed(!is_bid));
            }
        }
        proof { self.l2.lemma_prices(); }
        assert(s.skip(i).len() == 0);
        Err(OrderBookError::PriceIsZero)
    }

    /// Like `clear_empty_head`, with 0 when no price has a resting order.
    pub fn clear_empty_head_or_zero(&mut self, is_bid: bool) -> (r: u64)
        requires
            old(self).wf(),
        ensures
            final(self).wf(),
            ({
                let s = old(self).l2.prices(is_bid);
                let k = empty_prefix(s, old(self).l3);
                &&& final(self).l2.prices(is_bid) == s.skip(k as int)
                &&& r == (if k < s.len() { s[k as int] } else { 0 })
            }),
            final(self).l2.same_list(&old(self).l2, !is_bid),
            final(self).l2.public_bid_level_map@ == old(self).l2.public_bid_level_map@,
            final(self).l2.public_ask_level_map@ == old(self).l2.public_ask_level_map@,
            final(self).l2.current_bid_level_map@ == old(self).l2.current_bid_level_map@,
            final(self).l2.current_ask_level_map@ == old(self).l2.current_ask_level_map@,
            final(self).l2.bid_level_list@ == old(self).l2.bid_level_list@,
            final(self).l2.ask_level_list@ == old(self).l2.ask_level_list@,
            final(self).l1 == old(self).l1,
            final(self).l3 == old(self).l3,
            final(self).fee_recipients == old(self).fee_recipients,
            final(self).dust == old(self).dust,
    {
        match self.clear_empty_head(is_bid) {
            Ok(p) => p,
            Err(_) => 0,
        }
    }

    /// Updates the quantities resting at `price` on one side: adds the deltas
    /// of a placed order (listing the price when new), or takes them away
    /// (unlisting the price when its quantity is used up and no order rests
    /// there, and unlisting `delete_price` when given). Reports the new
    /// quantities, except for a newly listed price.
    #[allow(clippy::too_many_arguments)]
    pub fn update_price_level(
        &mut self,
        pair_id: Vec<u8>,
        is_placed: bool,
        is_bid: bool,
        price: u64,
        delta_pqty: u64,
        delta_cqty: u64,
        delete_price: Option<u64>,
        events: &mut EventQueue,
    ) -> (r: Result<(), OrderBookError>)
        requires
            old(self).wf(),
        ensures
            final(self).wf(),
            final(self).l1 == old(self).l1,
            final(self).l3 == old(self).l3,
            final(self).fee_recipients == old(self).fee_recipients,
            final(self).dust == old(self).dust,
            update_spec(old(self).l2, final(self).l2, old(self).l3, old(events).events(), final(events).events(),
                pair_id@, is_placed, is_bid, price, delta_pqty, delta_cqty, delete_price, r),
    {
        proof { self.l2.lemma_prices(); }
        if is_placed {
            // insert price if the price does not exist
            if !self.l2.price_exists(is_bid, price) {
                l2_err(self.l2.insert_price(is_bid, price))?;
                let ghost mid = self.l2;
                if is_bid {
                    let _ = self.l2.set_public_bid_level(price, delta_pqty);
                    let _ = self.l2.set_current_bid_level(price, delta_cqty);
                } else {
                    let _ = self.l2.set_public_ask_level(price, delta_pqty);
                    let _ = self.l2.set_current_ask_level(price, delta_cqty);
                }
                proof {
                    mid.lemma_same_lists(&self.l2);
                    old(self).l2.lemma_same_side(&self.l2, !is_bid);
                    assert(self.l2.public_levels(is_bid) =~= old(self).l2.public_levels(is_bid).insert(price, delta_pqty));
                    assert(self.l2.current_levels(is_bid) =~= old(self).l2.current_levels(is_bid).insert(price, delta_cqty));
                    assert(self.levels_listed(is_bid));
                    assert(self.levels_listed(!is_bid));
                }
                return Ok(());
            }
        }
        let (public_q, current_q) = if is_bid {
            (self.l2.public_bid_level(price), self.l2.current_bid_level(price))
        } else {
            (self.l2.public_ask_level(price), self.l2.current_ask_level(price))
        };
        let public_q = match public_q {
            Some(q) => q,
            None => return Err(OrderBookError::L2(L2Error::PriceMissing { price, is_bid, is_placed })),
        };
        let current_q = match current_q {
            Some(q) => q,
            None => return Err(OrderBookError::L2(L2Error::PriceMissing { price, is_bid, is_placed })),
        };
        let ghost l2_0 = self.l2;
        if is_placed {
            let new_pqty = public_q.saturating_add(delta_pqty);
            let new_cqty = current_q.saturating_add(delta_cqty);
            if is_bid {
                let _ = self.l2.set_public_bid_level(price, new_pqty);
                let _ = self.l2.set_current_bid_level(price, new_cqty);
            } else {
                let _ = self.l2.set_public_ask_level(price, new_pqty);
                let _ = self.l2.set_current_ask_level(price, new_cqty);
            }
            proof {
                l2_0.lemma_same_lists(&self.l2);
                old(self).l2.lemma_same_side(&self.l2, !is_bid);
                assert(self.levels_listed(is_bid));
                assert(self.levels_listed(!is_bid));
            }
            emit_event(events, SpotEvent::SpotOrderBlockChanged {
                pair_id,
                is_bid,
                price,
                pqty: new_pqty,
                cqty: new_cqty,
                timestamp: now_millis(),
            });
            proof { assert(events.events().drop_last() =~= old(events).events()); }
            Ok(())
        } else {
            let new_cqty = current_q.saturating_sub(delta_cqty);
            let new_pqty = public_q.saturating_sub(delta_pqty);
            let gone = self.l3.is_empty(price);
            if new_cqty > 0 {
                if is_bid {
                    let _ = self.l2.set_public_bid_level(price, new_pqty);
                    let _ = self.l2.set_current_bid_level(price, new_cqty);
                } else {
                    let _ = self.l2.set_public_ask_level(price, new_pqty);
                    let _ = self.l2.set_current_ask_level(price, new_cqty);
                }
                proof { l2_0.lemma_same_lists(&self.l2); }
            } else {
                // the level is used up
                if is_bid {
                    let _ = self.l2.set_public_bid_level(price, 0);
                    let _ = self.l2.set_current_bid_level(price, 0);
                } else {
                    let _ = self.l2.set_public_ask_level(price, 0);
                    let _ = self.l2.set_current_ask_level(price, 0);
                }
                proof { l2_0.lemma_same_lists(&self.l2); }
                // no order rests at the price: unlist it
                if gone {
                    let ghost l2_1 = self.l2;
                    let _ = self.l2.remove_price(is_bid, price);
                    proof {
                        assert(self.l2.public_levels(is_bid) =~= l2_0.public_levels(is_bid).remove(price));
                        assert(self.l2.current_levels(is_bid) =~= l2_0.current_levels(is_bid).remove(price));
                    }
                }
            }
            let ghost l2_2 = self.l2;
            // an order was used up and its level emptied: unlist that price
            if let Some(dp) = delete_price {
                let _ = self.l2.remove_price(is_bid, dp);
            }
            proof {
                assert(self.l2.public_levels(is_bid) =~= level_after_take(l2_0.public_levels(is_bid), price, new_pqty, new_cqty, gone, delete_price));
                assert(self.l2.current_levels(is_bid) =~= level_after_take(l2_0.current_levels(is_bid), price, new_cqty, new_cqty, gone, delete_price));
                let s0 = l2_0.prices(is_bid);
                l2_0.lemma_prices();
                lemma_remove_value_contains(s0, price);
                let s1 = if new_cqty == 0 && gone { s0.remove_value(price) } else { s0 };
                assert(s1.no_duplicates()) by {
                    if new_cqty == 0 && gone {
                        self.l2.lemma_prices();
                        assert(l2_2.wf());
                        l2_2.lemma_prices();
                    }
                }
                lemma_remove_value_contains(s1, match delete_price { Some(d) => d, None => 0 });
                old(self).l2.lemma_same_side(&self.l2, !is_bid);
                assert(self.l2.prices(is_bid) == prices_after_take(s0, price, new_cqty, gone, delete_price));
                assert forall|p: u64| #[trigger] self.l2.prices(is_bid).contains(p) implies
                    self.l2.public_levels(is_bid).contains_key(p) && self.l2.current_levels(is_bid).contains_key(p) by {
                    assert(s1.contains(p));
                    assert(s0.contains(p));
                    assert(old(self).l2.prices(is_bid).contains(p));
                    if new_cqty == 0 && gone { assert(p != price); }
                    match delete_price { Some(d) => { assert(p != d); }, None => {} }
                }
                assert(self.levels_listed(is_bid));
                assert(self.levels_listed(!is_bid));
            }
            emit_event(events, SpotEvent::SpotOrderBlockChanged {
                pair_id,
                is_bid,
                price,
                pqty: new_pqty,
                cqty: new_cqty,
                timestamp: now_millis(),
            });
            proof { assert(events.events().drop_last() =~= old(events).events()); }
            Ok(())
        }
    }

    /// Places order `id` on side `is_bid`: stores it at the tail of its price
    /// level, reports it and adds its quantities to the level.
    #[allow(clippy::too_many_arguments)]
    pub fn place_order_with_id(
        &mut self,
        id: OrderId,
        cid: Vec<u8>,
        pair_id: Vec<u8>,
        base_asset_id: Vec<u8>,
        quote_asset_id: Vec<u8>,
        owner: Vec<u8>,
        is_bid: bool,
        price: u64,
        amnt: u64,
        iqty: u64,
        timestamp: i64,
        expires_at: i64,
        fee_bps: u16,
        events: &mut EventQueue,
    ) -> (r: Result<Order, OrderBookError>)
        requires
            old(self).wf(),
        ensures
            final(self).wf(),
            rest_unchanged(*old(self), *final(self)),
            iqty > amnt ==> r == Err::<Order, OrderBookError>(OrderBookError::IcebergQuantityIsBiggerThanWholeAmount),
            iqty <= amnt && price == 0 ==> r == Err::<Order, OrderBookError>(OrderBookError::L3(L3Error::PriceIsZero)),
            iqty <= amnt && price != 0 && old(self).l3.orders@.contains_key(id) ==>
                r == Err::<Order, OrderBookError>(OrderBookError::L3(L3Error::DuplicateOrderId(id))),
            r is Err ==> *final(self) == *old(self) && final(events).events() == old(events).events(),
            iqty <= amnt && price != 0 && !old(self).l3.orders@.contains_key(id) ==> {
                let m = placed_order(id, cid@, owner@, is_bid, price, amnt, iqty, timestamp, expires_at, fee_bps);
                &&& r is Ok
                &&& r->Ok_0@ == m
                &&& placed_spec(*old(self), *final(self), old(events).events(), final(events).events(), m,
                    pair_id@, base_asset_id@, quote_asset_id@)
            },
    {
        if iqty > amnt {
            return Err(OrderBookError::IcebergQuantityIsBiggerThanWholeAmount);
        }
        let pqty = amnt - iqty;
        let order = l3_err(self.l3.create_order_with_id(
            id, copy_bytes(&cid), copy_bytes(&owner), is_bid, price, amnt, iqty, timestamp, expires_at, fee_bps,
        ))?;
        proof { self.l2.lemma_prices(); }
        let ghost ev_mid = events.events();
        emit_event(events, SpotEvent::SpotOrderPlaced {
            cid,
            pair_id: copy_bytes(&pair_id),
            base_asset_id,
            quote_asset_id,
            order_id: order_id_bytes(order.id),
            maker_account_id: owner,
            is_bid,
            price,
            amnt,
            iqty,
            pqty,
            cqty: amnt,
            timestamp,
            expires_at,
        });
        let ghost ev_placed = events.events();
        let r = self.update_price_level(pair_id, true, is_bid, price, pqty, amnt, None, events);
        proof {
            assert(r is Ok);
            let m = placed_order(id, cid@, owner@, is_bid, price, amnt, iqty, timestamp, expires_at, fee_bps);
            assert(order@ == m);
            assert(self.l3.orders_view() == old(self).l3.orders_view().insert(id, m));
            assert(self.l3.levels() == L3::queued(old(self).l3.levels(), price, id));
            assert(is_order_placed(ev_placed.last(), m, pair_id@, base_asset_id@, quote_asset_id@));
            assert(ev_placed.take(ev_mid.len() as int) =~= ev_mid);
            assert(events.events().take(ev_mid.len() as int) =~= ev_mid);
            assert(events.events().take(ev_mid.len() + 1int) =~= ev_placed);
        }
        Ok(order)
    }

    /// Places a bid order under a freshly drawn order id.
    #[allow(clippy::too_many_arguments)]
    pub fn place_bid(
        &mut self,
        cid: Vec<u8>,
        pair_id: Vec<u8>,
        base_asset_id: Vec<u8>,
        quote_asset_id: Vec<u8>,
        owner: Vec<u8>,
        price: u64,
        amnt: u64,
        iqty: u64,
        timestamp: i64,
        expires_at: i64,
        maker_fee_bps: u16,
        events: &mut EventQueue,
    ) -> (r: Result<Order, OrderBookError>)
        requires
            old(self).wf(),
        ensures
            final(self).wf(),
            rest_unchanged(*old(self), *final(self)),
            iqty > amnt ==> r == Err::<Order, OrderBookError>(OrderBookError::IcebergQuantityIsBiggerThanWholeAmount),
            iqty <= amnt && price == 0 ==> r == Err::<Order, OrderBookError>(OrderBookError::L3(L3Error::PriceIsZero)),
            r is Err ==> *final(self) == *old(self) && final(events).events() == old(events).events(),
            r is Err && iqty <= amnt && price != 0 ==> r->Err_0 is L3 && r->Err_0->L3_0 is DuplicateOrderId
                && old(self).l3.orders@.contains_key(r->Err_0->L3_0->DuplicateOrderId_0),
            r is Ok ==> {
                let m = placed_order(r->Ok_0.id, cid@, owner@, true, price, amnt, iqty, timestamp, expires_at, maker_fee_bps);
                &&& iqty <= amnt && price != 0
                &&& !old(self).l3.orders@.contains_key(r->Ok_0.id)
                &&& r->Ok_0@ == m
                &&& placed_spec(*old(self), *final(self), old(events).events(), final(events).events(), m,
                    pair_id@, base_asset_id@, quote_asset_id@)
            },
    {
        let id = new_order_id();
        self.place_order_with_id(id, cid, pair_id, base_asset_id, quote_asset_id, owner, true, price, amnt, iqty,
            timestamp, expires_at, maker_fee_bps, events)
    }

    /// Places an ask order under a freshly drawn order id.
    #[allow(clippy::too_many_arguments)]
    pub fn place_ask(
        &mut self,
        cid: Vec<u8>,
        pair_id: Vec<u8>,
        base_asset_id: Vec<u8>,
        quote_asset_id: Vec<u8>,
        owner: Vec<u8>,
        price: u64,
        amnt: u64,
        iqty: u64,
        timestamp: i64,
        expires_at: i64,
        maker_fee_bps: u16,
        events: &mut EventQueue,
    ) -> (r: Result<Order, OrderBookError>)
        requires
            old(self).wf(),
        ensures
            final(self).wf(),
            rest_unchanged(*old(self), *final(self)),
            iqty > amnt ==> r == Err::<Order, OrderBookError>(OrderBookError::IcebergQuantityIsBiggerThanWholeAmount),
            iqty <= amnt && price == 0 ==> r == Err::<Order, OrderBookError>(OrderBookError::L3(L3Error::PriceIsZero)),
            r is Err ==> *final(self) == *old(self) && final(events).events() == old(events).events(),
            r is Err && iqty <= amnt && price != 0 ==> r->Err_0 is L3 && r->Err_0->L3_0 is DuplicateOrderId
                && old(self).l3.orders@.contains_key(r->Err_0->L3_0->DuplicateOrderId_0),
            r is Ok ==> {
                let m = placed_order(r->Ok_0.id, cid@, owner@, false, price, amnt, iqty, timestamp, expires_at, maker_fee_bps);
                &&& iqty <= amnt && price != 0
                &&& !old(self).l3.orders@.contains_key(r->Ok_0.id)
                &&& r->Ok_0@ == m
                &&& placed_spec(*old(self), *final(self), old(events).events(), final(events).events(), m,
                    pair_id@, base_asset_id@, quote_asset_id@)
            },
    {
        let id = new_order_id();
        self.place_order_with_id(id, cid, pair_id, base_asset_id, quote_asset_id, owner, false, price, amnt, iqty,
            timestamp, expires_at, maker_fee_bps, events)
    }


    /// Removes order `id` (side `is_bid`) from the book as expired at `now`,
    /// takes its quantities off its level and reports it.
    pub fn _expire_order(&mut self, order_id: OrderId, is_bid: bool, pair_id: Vec<u8>, now: i64, events: &mut EventQueue)
        -> (r: Result<(), OrderBookError>)
        requires
            old(self).wf(),
        ensures
            final(self).wf(),
            rest_unchanged(*old(self), *final(self)),
            expire_spec(*old(self), *final(self), old(events).events(), final(events).events(), order_id, is_bid, pair_id@, now, r),
    {
        let order = l3_err(self.l3.get_order(order_id))?.cloned();
        let deleted_price_opt = l3_err(self.l3.delete_order(order_id))?;
        proof {
            assert(order@ == old(self).l3.orders_view()[order_id]);
            assert(removed_from_l3(old(self).l3, self.l3, order_id));
            assert(deleted_price_opt == emptied_price(self.l3, order.price));
        }
        // update the price level on the orderbook
        self.update_price_level(pair_id, false, is_bid, order.price, order.pqty, order.cqty, deleted_price_opt, events)?;
        let ghost ev_mid = events.events();
        emit_event(events, SpotEvent::SpotOrderExpired {
            cid: order.cid,
            order_id: order_id_bytes(order_id),
            maker_account_id: order.owner,
            is_bid,
            price: order.price,
            amnt: order.amnt,
            iqty: order.iqty,
            pqty: order.pqty,
            cqty: order.cqty,
            timestamp: now,
            expires_at: order.expires_at,
        });
        proof { assert(events.events().drop_last() =~= ev_mid); }
        Ok(())
    }

    /// Cancels order `order_id` of `owner`: removes it, unlists its price when
    /// its level became empty, reports it and takes its quantities off its level.
    pub fn cancel_order(
        &mut self,
        cid: Vec<u8>,
        pair_id: Vec<u8>,
        is_bid: bool,
        order_id: OrderId,
        owner: Vec<u8>,
        events: &mut EventQueue,
    ) -> (r: Result<(), OrderBookError>)
        requires
            old(self).wf(),
        ensures
            final(self).wf(),
            rest_unchanged(*old(self), *final(self)),
            cancel_spec(*old(self), *final(self), old(events).events(), final(events).events(), cid@, pair_id@, is_bid, order_id, owner@, r),
    {
        // check if the order exists
        let order = l3_err(self.l3.get_order(order_id))?.cloned();
        // check if the owner is the same as the owner of the order
        if !bytes_eq(&order.owner, &owner) {
            return Err(OrderBookError::OrderNotOwnedBySender);
        }
        let deleted_price_opt = l3_err(self.l3.delete_order(order_id))?;
        let ghost l2_0 = self.l2;
        if let Some(price) = deleted_price_opt {
            let _ = self.l2.remove_price(is_bid, price);
            proof {
                l2_0.lemma_prices();
                lemma_remove_value_contains(l2_0.prices(is_bid), price);
                old(self).l2.lemma_same_side(&self.l2, !is_bid);
                assert(self.levels_listed(!is_bid));
                assert forall|p: u64| #[trigger] self.l2.prices(is_bid).contains(p) implies
                    self.l2.public_levels(is_bid).contains_key(p) && self.l2.current_levels(is_bid).contains_key(p) by {
                    assert(l2_0.prices(is_bid).contains(p));
                }
                assert(self.levels_listed(is_bid));
                assert(l2_unlisted(l2_0, self.l2, is_bid, deleted_price_opt));
            }
        }
        let ghost l2_1 = self.l2;
        let ghost ev0 = events.events();
        // emit the event for the order cancelled
        emit_event(events, SpotEvent::SpotOrderCancelled {
            cid,
            order_id: order_id_bytes(order_id),
            maker_account_id: copy_bytes(&order.owner),
            is_bid,
            price: order.price,
            amnt: order.amnt,
            iqty: order.iqty,
            pqty: order.pqty,
            cqty: order.cqty,
            timestamp: order.timestamp,
            expires_at: order.expires_at,
        });
        let ghost ev_c = events.events();
        // update the price level on the orderbook
        let r = self.update_price_level(pair_id, false, is_bid, order.price, order.pqty, order.cqty, deleted_price_opt, events);
        proof {
            assert(ev_c.take(ev0.len() as int) =~= ev0);
            assert(events.events().take(ev0.len() as int) =~= ev0);
            assert(events.events().take(ev0.len() + 1int) =~= ev_c);
            assert(l2_unlisted(old(self).l2, l2_1, is_bid, deleted_price_opt));
        }
        r
    }

    /// Sets the iceberg quantity of order `order_id`, moves the change of its
    /// public quantity onto its level and reports the new quantities.
    pub fn set_iceberg_quantity(
        &mut self,
        cid: Vec<u8>,
        pair_id: Vec<u8>,
        is_bid: bool,
        order_id: OrderId,
        iqty: u64,
        events: &mut EventQueue,
    ) -> (r: Result<(), OrderBookError>)
        requires
            old(self).wf(),
        ensures
            final(self).wf(),
            rest_unchanged(*old(self), *final(self)),
            iceberg_spec(*old(self), *final(self), old(events).events(), final(events).events(), cid@, pair_id@, is_bid, order_id, iqty, r),
    {
        let before_pqty = l3_err(self.l3.get_order(order_id))?.pqty;
        let order = l3_err(self.l3.set_iceberg_quantity(order_id, iqty))?;
        let (is_placed, delta_pqty) = if order.pqty >= before_pqty {
            (true, order.pqty - before_pqty)
        } else {
            (false, before_pqty - order.pqty)
        };
        if delta_pqty > 0 {
            self.update_price_level(pair_id, is_placed, is_bid, order.price, delta_pqty, 0, None, events)?;
        }
        let ghost ev_mid = events.events();
        // emit event for the iceberg quantity changed
        emit_event(events, SpotEvent::SpotOrderIcebergQuantityChanged {
            cid,
            order_id: order_id_bytes(order_id),
            amnt: order.amnt,
            iqty,
            pqty: order.pqty,
            cqty: order.cqty,
            timestamp: order.timestamp,
            expires_at: order.expires_at,
        });
        proof { assert(events.events().drop_last() =~= ev_mid); }
        Ok(())
    }


    /// Removes every order expired at `now`, and for each reports it, reports
    /// its whole amount as transferred back to its owner from
    /// `managing_account_id`, and takes its quantities off its level on side
    /// `is_bid`. Stops at the first level that cannot be updated.
    #[allow(clippy::too_many_arguments)]
    pub fn expire_orders(
        &mut self,
        is_bid: bool,
        pair_id: Vec<u8>,
        base_asset_id: Vec<u8>,
        quote_asset_id: Vec<u8>,
        managing_account_id: Vec<u8>,
        now: i64,
        events: &mut EventQueue,
    ) -> (r: Result<(), OrderBookError>)
        requires
            old(self).wf(),
        ensures
            final(self).wf(),
            expire_orders_spec(*old(self), *final(self), old(events).events(), final(events).events(), is_bid, pair_id@,
                base_asset_id@, quote_asset_id@, managing_account_id@, now, r),
    {
        let expired = self.l3.remove_dormant_orders(now);
        let ghost list = Seq::new(expired@.len(), |i: int| (expired@[i].0, expired@[i].1@));
        let ghost mut l2s: Seq<L2> = seq![self.l2];
        let ghost mut evs: Seq<Seq<SpotEvent>> = seq![events.events()];
        proof {
            assert forall|i: int| 0 <= i < list.len() implies old(self).l3.expired_at((#[trigger] list[i]).0, now)
                && list[i].1 == old(self).l3.orders_view()[list[i].0] by {
                assert(list[i] == (expired@[i].0, expired@[i].1@));
            }
            assert forall|id: OrderId| old(self).l3.expired_at(id, now) implies exists|i: int| 0 <= i < list.len() && (#[trigger] list[i]).0 == id by {
                let i = choose|i: int| 0 <= i < expired@.len() && (#[trigger] expired@[i]).0 == id;
                assert(list[i].0 == id);
            }
            assert forall|i: int, j: int| 0 <= i < j < list.len() implies (#[trigger] list[i]).0 != (#[trigger] list[j]).0 by {
                assert(expired@[i].0 != expired@[j].0);
            }
            assert(expired_list(old(self).l3, now, list));
        }
        let mut i: usize = 0;
        while i < expired.len()
            invariant
                self.wf(),
                rest_unchanged(*old(self), *self),
                i <= expired@.len(),
                list.len() == expired@.len(),
                forall|k: int| 0 <= k < list.len() ==> (#[trigger] list[k]) == (expired@[k].0, expired@[k].1@),
                forall|id: OrderId| #[trigger] self.l3.orders@.contains_key(id) <==>
                    old(self).l3.orders@.contains_key(id) && !old(self).l3.expired_at(id, now),
                forall|id: OrderId| #[trigger] self.l3.orders@.contains_key(id) ==> self.l3.orders@[id] == old(self).l3.orders@[id],
                self.l3.dust == old(self).l3.dust,
                self.l3.dormant_order == old(self).l3.dormant_order,
                expired_list(old(self).l3, now, list),
                l2s.len() == i + 1,
                forall|j: int| 0 <= j < i ==> #[trigger] settle_step(l2s[j], l2s[j + 1], self.l3, evs[j], evs[j + 1], list[j].0, list[j].1,
                    is_bid, pair_id@, base_asset_id@, quote_asset_id@, managing_account_id@, now, Ok(())),
                evs.len() == l2s.len(),
                l2s[0] == old(self).l2,
                l2s.last() == self.l2,
                evs[0] == old(events).events(),
                evs.last() == events.events(),
            decreases expired@.len() - i,
        {
            let ghost l2_b = self.l2;
            let ghost ev_b = events.events();
            let order_id = expired[i].0;
            let order = &expired[i].1;
            assert(list[i as int] == (order_id, order@));
            // emit event for the order expired
            emit_event(events, SpotEvent::SpotOrderExpired {
                cid: copy_bytes(&order.cid),
                order_id: order_id_bytes(order_id),
                maker_account_id: copy_bytes(&order.owner),
                is_bid,
                price: order.price,
                amnt: order.amnt,
                iqty: order.iqty,
                pqty: order.pqty,
                cqty: order.cqty,
                timestamp: now,
                expires_at: order.expires_at,
            });
            // emit event for transfer of the expired asset to order owner
            let expired_asset_id = if is_bid { copy_bytes(&quote_asset_id) } else { copy_bytes(&base_asset_id) };
            emit_event(events, SpotEvent::Transfer {
                cid: copy_bytes(&order.cid),
                from: copy_bytes(&managing_account_id),
                to: copy_bytes(&order.owner),
                asset: expired_asset_id,
                amnt: order.amnt,
                timestamp: now,
            });
            let ghost ev_t = events.events();
            // update the price level on the orderbook
            let delete_price = if self.l3.is_empty(order.price) { Some(order.price) } else { None };
            let ru = self.update_price_level(copy_bytes(&pair_id), false, is_bid, order.price, order.pqty, order.cqty,
                delete_price, events);
            proof {
                let ev1 = events.events();
                assert(ev_t.take(ev_b.len() as int) =~= ev_b);
                assert(ev1.take(ev_b.len() as int) =~= ev_b);
                assert(ev1.take(ev_b.len() + 2int) =~= ev_t);
                assert(ev1[ev_b.len() as int] == ev_t[ev_b.len() as int]);
                assert(ev1[ev_b.len() + 1int] == ev_t[ev_b.len() + 1int]);
                assert(settle_step(l2_b, self.l2, self.l3, ev_b, ev1, list[i as int].0, list[i as int].1, is_bid, pair_id@,
                    base_asset_id@, quote_asset_id@, managing_account_id@, now, ru));
                let l2s0 = l2s;
                let evs0 = evs;
                l2s = l2s.push(self.l2);
                evs = evs.push(ev1);
                assert forall|j: int| 0 <= j < i + 1 implies #[trigger] settle_step(l2s[j], l2s[j + 1], self.l3, evs[j], evs[j + 1],
                    list[j].0, list[j].1, is_bid, pair_id@, base_asset_id@, quote_asset_id@, managing_account_id@, now,
                    step_result(j, i + 1, ru)) by {
                    if j < i {
                        assert(l2s[j] == l2s0[j] && l2s[j + 1] == l2s0[j + 1] && evs[j] == evs0[j] && evs[j + 1] == evs0[j + 1]);
                    }
                }
                assert(settle_run(l2s, evs, self.l3, list, is_bid, pair_id@, base_asset_id@, quote_asset_id@,
                    managing_account_id@, now, ru) || ru is Ok);
                if ru is Err {
                    assert(settle_run(l2s, evs, self.l3, list, is_bid, pair_id@, base_asset_id@, quote_asset_id@,
                        managing_account_id@, now, ru));
                }
            }
            if ru.is_err() {
                proof {
                    assert(expired_list(old(self).l3, now, list));
                }
                return ru;
            }
            i = i + 1;
        }
        proof {
            assert forall|j: int| 0 <= j < l2s.len() - 1 implies #[trigger] settle_step(l2s[j], l2s[j + 1], self.l3, evs[j], evs[j + 1],
                list[j].0, list[j].1, is_bid, pair_id@, base_asset_id@, quote_asset_id@, managing_account_id@, now,
                step_result(j, l2s.len() - 1, Ok(()))) by {
                assert(step_result(j, l2s.len() - 1, Ok(())) == Ok::<(), OrderBookError>(()));
            }
            assert(settle_run(l2s, evs, self.l3, list, is_bid, pair_id@, base_asset_id@, quote_asset_id@,
                managing_account_id@, now, Ok(())));
        }
        Ok(())
    }


    /// How much of `maker_order` the `taker_order` takes, in the taker's
    /// terms, and whether the taker and the maker are used up.
    pub fn _get_matching_amount(&self, taker_order: &Order, maker_order: &Order) -> (r: Result<(u64, bool, bool), OrderBookError>)
        requires
            matching_defined(taker_order@, maker_order@),
        ensures
            r == Ok::<(u64, bool, bool), OrderBookError>(matching_amount(taker_order@, maker_order@)),
    {
        let taker_converted_matching_cqty = if taker_order.is_bid {
            saturating_mul(taker_order.cqty, SCALE) / taker_order.price
        } else {
            saturating_mul(taker_order.cqty, taker_order.price) / SCALE
        };
        if taker_converted_matching_cqty >= maker_order.cqty {
            // the taker takes all of the maker
            let taker_matching_amount = self.get_required(maker_order.cloned(), taker_order.price, maker_order.cqty)?;
            Ok((taker_matching_amount, false, true))
        } else {
            // the maker gives all of the taker
            let maker_matching_cqty = self.get_required(taker_order.cloned(), maker_order.price, taker_order.cqty)?;
            Ok((maker_matching_cqty, true, false))
        }
    }

    /// The base and quote fees of a match: the taker pays its rate on what it
    /// receives and the maker its own on what it receives.
    pub fn _calculate_fees(&self, is_bid: bool, matching_base_amount: u64, matching_quote_amount: u64, maker_fee_bps: u16,
        taker_fee_bps: u16) -> (r: (u64, u64))
        requires
            fees_fit(is_bid, matching_base_amount, matching_quote_amount, maker_fee_bps, taker_fee_bps),
        ensures
            r == fees(is_bid, matching_base_amount, matching_quote_amount, maker_fee_bps, taker_fee_bps),
    {
        if is_bid {
            (matching_base_amount * maker_fee_bps as u64 / 10000, matching_quote_amount * taker_fee_bps as u64 / 10000)
        } else {
            (matching_base_amount * taker_fee_bps as u64 / 10000, matching_quote_amount * maker_fee_bps as u64 / 10000)
        }
    }

    /// Reports the fill of the taker and then that of the maker.
    #[allow(clippy::too_many_arguments)]
    pub fn _emit_taker_maker_match(
        &self,
        taker_order: &Order,
        maker_order: &Order,
        taker_remaining_cqty: u64,
        taker_remaining_pqty: u64,
        maker_remaining_cqty: u64,
        maker_remaining_pqty: u64,
        pair_id: &Vec<u8>,
        base_asset_id: &Vec<u8>,
        quote_asset_id: &Vec<u8>,
        matching_base_amount: u64,
        matching_quote_amount: u64,
        base_fee: u64,
        quote_fee: u64,
        timestamp: i64,
        taker_expires_at: i64,
        maker_expires_at: i64,
        events: &mut EventQueue,
    ) -> (r: Result<(), OrderBookError>)
        ensures
            r is Ok,
            ({
                let ev0 = old(events).events();
                let ev1 = final(events).events();
                &&& ev1.len() == ev0.len() + 2
                &&& ev1.take(ev0.len() as int) == ev0
                &&& is_fill(ev1[ev0.len() as int], true, taker_order@, maker_order@, pair_id@, base_asset_id@, quote_asset_id@,
                    matching_base_amount, matching_quote_amount, base_fee, quote_fee, taker_remaining_pqty,
                    taker_remaining_cqty, timestamp, taker_expires_at)
                &&& is_fill(ev1[ev0.len() + 1int], false, taker_order@, maker_order@, pair_id@, base_asset_id@, quote_asset_id@,
                    matching_base_amount, matching_quote_amount, base_fee, quote_fee, maker_remaining_pqty,
                    maker_remaining_cqty, timestamp, maker_expires_at)
            }),
    {
        let ghost ev0 = events.events();
        // report the taker's fill
        if taker_remaining_cqty > 0 {
            emit_event(events, SpotEvent::SpotOrderPartiallyFilled {
                is_taker_event: true,
                taker_cid: copy_bytes(&taker_order.cid),
                maker_cid: copy_bytes(&maker_order.cid),
                taker_order_id: order_id_bytes(taker_order.id),
                maker_order_id: order_id_bytes(maker_order.id),
                taker_account_id: copy_bytes(&taker_order.owner),
                maker_account_id: copy_bytes(&maker_order.owner),
                taker_order_is_bid: taker_order.is_bid,
                maker_order_is_bid: maker_order.is_bid,
                price: taker_order.price,
                pair_id: copy_bytes(pair_id),
                base_asset_id: copy_bytes(base_asset_id),
                quote_asset_id: copy_bytes(quote_asset_id),
                base_volume: matching_base_amount,
                quote_volume: matching_quote_amount,
                base_fee,
                quote_fee,
                maker_fee_bps: maker_order.fee_bps,
                taker_fee_bps: taker_order.fee_bps,
                amnt: taker_order.amnt,
                iqty: taker_order.iqty,
                pqty: taker_remaining_pqty,
                cqty: taker_remaining_cqty,
                timestamp,
                expires_at: taker_expires_at,
            });
        } else {
            emit_event(events, SpotEvent::SpotOrderFullyFilled {
                is_taker_event: true,
                taker_cid: copy_bytes(&taker_order.cid),
                maker_cid: copy_bytes(&maker_order.cid),
                taker_order_id: order_id_bytes(taker_order.id),
                maker_order_id: order_id_bytes(maker_order.id),
                taker_account_id: copy_bytes(&taker_order.owner),
                maker_account_id: copy_bytes(&maker_order.owner),
                taker_order_is_bid: taker_order.is_bid,
                maker_order_is_bid: maker_order.is_bid,
                price: taker_order.price,
                pair_id: copy_bytes(pair_id),
                base_asset_id: copy_bytes(base_asset_id),
                quote_asset_id: copy_bytes(quote_asset_id),
                base_volume: matching_base_amount,
                quote_volume: matching_quote_amount,
                base_fee,
                quote_fee,
                maker_fee_bps: maker_order.fee_bps,
                taker_fee_bps: taker_order.fee_bps,
                amnt: taker_order.amnt,
                iqty: taker_order.iqty,
                pqty: taker_remaining_pqty,
                cqty: taker_remaining_cqty,
                timestamp,
                expires_at: taker_expires_at,
            });
        }
        // report the maker's fill
        if maker_remaining_cqty > 0 {
            emit_event(events, SpotEvent::SpotOrderPartiallyFilled {
                is_taker_event: false,
                taker_cid: copy_bytes(&taker_order.cid),
                maker_cid: copy_bytes(&maker_order.cid),
                taker_order_id: order_id_bytes(taker_order.id),
                maker_order_id: order_id_bytes(maker_order.id),
                taker_account_id: copy_bytes(&taker_order.owner),
                maker_account_id: copy_bytes(&maker_order.owner),
                taker_order_is_bid: taker_order.is_bid,
                maker_order_is_bid: maker_order.is_bid,
                price: maker_order.price,
                pair_id: copy_bytes(pair_id),
                base_asset_id: copy_bytes(base_asset_id),
                quote_asset_id: copy_bytes(quote_asset_id),
                base_volume: matching_base_amount,
                quote_volume: matching_quote_amount,
                base_fee,
                quote_fee,
                maker_fee_bps: maker_order.fee_bps,
                taker_fee_bps: taker_order.fee_bps,
                amnt: maker_order.amnt,
                iqty: maker_order.iqty,
                pqty: maker_remaining_pqty,
                cqty: maker_remaining_cqty,
                timestamp,
                expires_at: maker_expires_at,
            });
        } else {
            emit_event(events, SpotEvent::SpotOrderFullyFilled {
                is_taker_event: false,
                taker_cid: copy_bytes(&taker_order.cid),
                maker_cid: copy_bytes(&maker_order.cid),
                taker_order_id: order_id_bytes(taker_order.id),
                maker_order_id: order_id_bytes(maker_order.id),
                taker_account_id: copy_bytes(&taker_order.owner),
                maker_account_id: copy_bytes(&maker_order.owner),
                taker_order_is_bid: taker_order.is_bid,
                maker_order_is_bid: maker_order.is_bid,
                price: maker_order.price,
                pair_id: copy_bytes(pair_id),
                base_asset_id: copy_bytes(base_asset_id),
                quote_asset_id: copy_bytes(quote_asset_id),
                base_volume: matching_base_amount,
                quote_volume: matching_quote_amount,
                base_fee,
                quote_fee,
                maker_fee_bps: maker_order.fee_bps,
                taker_fee_bps: taker_order.fee_bps,
                amnt: maker_order.amnt,
                iqty: maker_order.iqty,
                pqty: maker_remaining_pqty,
                cqty: maker_remaining_cqty,
                timestamp,
                expires_at: maker_expires_at,
            });
        }
        proof { assert(events.events().take(ev0.len() as int) =~= ev0); }
        Ok(())
    }


    /// Matches `taker_order` with `maker_order` at time `now`: takes the
    /// matched amounts off both orders, reports both fills and updates both
    /// levels. An expired maker is expired instead (`OrderExpired`).
    pub fn execute(
        &mut self,
        taker_order: Order,
        maker_order: Order,
        pair_id: Vec<u8>,
        base_asset_id: Vec<u8>,
        quote_asset_id: Vec<u8>,
        now: i64,
        events: &mut EventQueue,
    ) -> (r: Result<(), OrderBookError>)
        requires
            old(self).wf(),
            execute_defined(taker_order@, maker_order@),
        ensures
            final(self).wf(),
            rest_unchanged(*old(self), *final(self)),
            execute_spec(*old(self), *final(self), old(events).events(), final(events).events(), taker_order@, maker_order@,
                pair_id@, base_asset_id@, quote_asset_id@, now, r),
    {
        let taker_is_bid = taker_order.is_bid;
        let (amount, taker_clear, maker_clear) = self._get_matching_amount(&taker_order, &maker_order)?;
        // matching_amount is expressed in taker terms; convert to base/quote by side
        let matching_base_amount = if taker_is_bid {
            saturating_mul(amount, SCALE) / taker_order.price
        } else {
            amount
        };
        let matching_quote_amount = if taker_is_bid {
            amount
        } else {
            saturating_mul(amount, taker_order.price) / SCALE
        };
        let taker_matching_amount = if taker_is_bid { matching_quote_amount } else { matching_base_amount };
        let maker_matching_amount = if taker_is_bid { matching_base_amount } else { matching_quote_amount };

        if maker_order.expires_at <= now {
            let re = self._expire_order(maker_order.id, !taker_is_bid, pair_id, now, events);
            if re.is_err() {
                return re;
            }
            return Err(OrderBookError::OrderExpired);
        }
        let ghost l3_0 = self.l3;
        let (_taker_sent, taker_delete_price) = l3_err(self.l3.decrease_order(taker_order.id, taker_matching_amount, self.dust, taker_clear))?;
        let ghost l3_1 = self.l3;
        let (_maker_sent, maker_delete_price) = l3_err(self.l3.decrease_order(maker_order.id, maker_matching_amount, self.dust, maker_clear))?;
        proof {
            assert(decreased_l3(l3_0, l3_1, taker_order.id, taker_matching_amount, self.dust, taker_clear, taker_delete_price));
            assert(decreased_l3(l3_1, self.l3, maker_order.id, maker_matching_amount, self.dust, maker_clear, maker_delete_price));
        }

        let (base_fee, quote_fee) = self._calculate_fees(taker_is_bid, matching_base_amount, matching_quote_amount,
            maker_order.fee_bps, taker_order.fee_bps);

        let (taker_remaining_cqty, taker_remaining_pqty) = match self.l3.get_order(taker_order.id) {
            Ok(updated) => (updated.cqty, updated.pqty),
            Err(_) => (0, 0),
        };
        let (maker_remaining_cqty, maker_remaining_pqty) = match self.l3.get_order(maker_order.id) {
            Ok(updated) => (updated.cqty, updated.pqty),
            Err(_) => (0, 0),
        };
        assert(remaining(self.l3, taker_order.id) == (taker_remaining_cqty, taker_remaining_pqty));
        assert(remaining(self.l3, maker_order.id) == (maker_remaining_cqty, maker_remaining_pqty));
        let taker_delta_cqty = taker_order.cqty.saturating_sub(taker_remaining_cqty);
        let taker_delta_pqty = taker_order.pqty.saturating_sub(taker_remaining_pqty);
        let maker_delta_cqty = maker_order.cqty.saturating_sub(maker_remaining_cqty);
        let maker_delta_pqty = maker_order.pqty.saturating_sub(maker_remaining_pqty);
        let ghost ev0 = events.events();
        // report the fills of the taker and the maker
        let _ = self._emit_taker_maker_match(
            &taker_order,
            &maker_order,
            taker_remaining_cqty,
            taker_remaining_pqty,
            maker_remaining_cqty,
            maker_remaining_pqty,
            &pair_id,
            &base_asset_id,
            &quote_asset_id,
            matching_base_amount,
            matching_quote_amount,
            base_fee,
            quote_fee,
            now,
            taker_order.expires_at,
            maker_order.expires_at,
            events,
        );
        let ghost ev2 = events.events();
        let ghost l2_0 = self.l2;
        // take the matched quantities off both levels
        let r1 = self.update_price_level(
            copy_bytes(&pair_id),
            false,
            taker_order.is_bid,
            taker_order.price,
            taker_delta_pqty,
            taker_delta_cqty,
            taker_delete_price,
            events,
        );
        let ghost l2_1 = self.l2;
        let ghost ev3 = events.events();
        if r1.is_err() {
            proof {
                assert(events.events().take(ev0.len() + 2int) =~= ev2);
                assert(events.events().take(ev0.len() as int) =~= ev0);
                let taker = taker_order@;
                let maker = maker_order@;
                let (trc, trp) = remaining(self.l3, taker.id);
                let (mrc, mrp) = remaining(self.l3, maker.id);
                assert(taker_matching_amount == (if taker.is_bid { base_quote(taker, amount).1 } else { base_quote(taker, amount).0 }));
                assert(taker_delta_pqty == sat_sub(taker.pqty, trp));
                assert(taker_delta_cqty == sat_sub(taker.cqty, trc));
                assert(update_spec(old(self).l2, l2_1, self.l3, ev2, ev3, pair_id@, false, taker.is_bid, taker.price,
                    sat_sub(taker.pqty, trp), sat_sub(taker.cqty, trc), taker_delete_price, r1));
                assert(execute_steps(*old(self), *self, ev2, ev3, taker, maker, taker_matching_amount, maker_matching_amount,
                    taker_clear, maker_clear, trc, trp, mrc, mrp, pair_id@, r1));
            }
            return r1;
        }
        let r2 = self.update_price_level(
            pair_id,
            false,
            maker_order.is_bid,
            maker_order.price,
            maker_delta_pqty,
            maker_delta_cqty,
            maker_delete_price,
            events,
        );
        proof {
            let ev1 = events.events();
            assert(ev1.take(ev0.len() + 2int) =~= ev2);
            assert(ev1.take(ev0.len() as int) =~= ev0);
            let taker = taker_order@;
            let maker = maker_order@;
            let (trc, trp) = remaining(self.l3, taker.id);
            let (mrc, mrp) = remaining(self.l3, maker.id);
            assert(taker_delta_pqty == sat_sub(taker.pqty, trp));
            assert(taker_matching_amount == (if taker.is_bid { base_quote(taker, amount).1 } else { base_quote(taker, amount).0 }));
            assert(taker_delta_cqty == sat_sub(taker.cqty, trc));
            assert(maker_delta_pqty == sat_sub(maker.pqty, mrp));
            assert(maker_delta_cqty == sat_sub(maker.cqty, mrc));
            assert(update_spec(old(self).l2, l2_1, self.l3, ev2, ev3, pair_id@, false, taker.is_bid, taker.price,
                    sat_sub(taker.pqty, trp), sat_sub(taker.cqty, trc), taker_delete_price, r1));
            assert(execute_steps(*old(self), *self, ev2, ev1, taker, maker, taker_matching_amount, maker_matching_amount,
                taker_clear, maker_clear, trc, trp, mrc, mrp, pair_id@, r2));
            assert(matching_amount(taker, maker) == (amount, taker_clear, maker_clear));
            assert(execute_spec(*old(self), *self, old(events).events(), ev1, taker, maker,
                pair_id@, base_asset_id@, quote_asset_id@, now, r2));
        }
        r2
    }


    /// Takes the oldest order at the best price of side `is_bid` off the book,
    /// first expiring (as of `now`) the orders in front of it that have
    /// expired. Fails with `PriceIsZero` when no order is left on the side.
    pub fn pop_front_at(&mut self, is_bid: bool, now: i64, events: &mut EventQueue) -> (r: Result<Order, OrderBookError>)
        requires
            old(self).wf(),
        ensures
            final(self).wf(),
            rest_unchanged(*old(self), *final(self)),
            forall|id: OrderId| #[trigger] final(self).l3.orders@.contains_key(id) ==>
                old(self).l3.orders@.contains_key(id) && final(self).l3.orders@[id] == old(self).l3.orders@[id],
            forall|id: OrderId| old(self).l3.orders@.contains_key(id) && !(#[trigger] final(self).l3.orders@.contains_key(id)) ==>
                old(self).l3.orders@[id].expires_at <= now || (r is Ok && r->Ok_0.id == id),
            r is Ok ==> {
                &&& old(self).l3.orders@.contains_key(r->Ok_0.id)
                &&& r->Ok_0@ == old(self).l3.orders_view()[r->Ok_0.id]
                &&& r->Ok_0.expires_at > now
                &&& !final(self).l3.orders@.contains_key(r->Ok_0.id)
            },
            r is Ok ==> queued_after_expired(old(self).l3, final(self).l3, r->Ok_0.price, r->Ok_0.id, now),
            r is Ok ==> best_after_expired(*old(self), *final(self), is_bid, r->Ok_0.price, now),
            r is Err ==> side_exhausted(*final(self), is_bid, r->Err_0),
            r is Err ==> prices_cleared(old(self).l3, final(self).l3, old(self).l2.prices(is_bid),
                old(self).l2.prices(is_bid).len() as int, now),
            live_order_queued(*old(self), is_bid, now) ==> r is Ok,
            final(events).events().take(old(events).events().len() as int) == old(events).events(),
            expiries_reported(old(self).l3, final(self).l3, old(events).events(), final(events).events(), is_bid, now,
                popped_id(r)),
    {
        proof {
            broadcast use vstd::std_specs::btree::group_btree_axioms;
            assert forall|p: u64| #[trigger] levels_cut(old(self).l3, self.l3, p, now) by {
                assert(old(self).l3.level(p).skip(0) =~= old(self).l3.level(p));
                assert(cut_at(old(self).l3, self.l3, p, now, 0));
            }
        }
        let ghost s0 = self.l2.prices(is_bid);
        let ghost mut m: int = 0;
        proof { assert(s0.skip(0) =~= s0); }
        loop
            invariant_except_break
                self.wf(),
                rest_unchanged(*old(self), *self),
                forall|id: OrderId| #[trigger] self.l3.orders@.contains_key(id) ==>
                    old(self).l3.orders@.contains_key(id) && self.l3.orders@[id] == old(self).l3.orders@[id],
                forall|id: OrderId| old(self).l3.orders@.contains_key(id) && !(#[trigger] self.l3.orders@.contains_key(id)) ==>
                    old(self).l3.orders@[id].expires_at <= now,
                events.events().len() >= old(events).events().len(),
                events.events().take(old(events).events().len() as int) == old(events).events(),
                forall|p: u64| #[trigger] levels_cut(old(self).l3, self.l3, p, now),
                s0 == old(self).l2.prices(is_bid),
                0 <= m <= s0.len(),
                self.l2.prices(is_bid) == s0.skip(m),
                prices_cleared(old(self).l3, self.l3, s0, m, now),
                expiries_reported(old(self).l3, self.l3, old(events).events(), events.events(), is_bid, now, None),
            decreases self.l3.orders@.len(),
        {
            let ghost before = *self;
            let ghost ev_before = events.events();
            proof {
                lemma_empty_prefix_bound(before.l2.prices(is_bid), before.l3);
            }
            let head_price = match self.clear_empty_head(is_bid) {
                Ok(p) => p,
                Err(e) => {
                    proof {
                        let sq = before.l2.prices(is_bid);
                        assert(self.l2.prices(is_bid) =~= Seq::<u64>::empty()) by {
                            assert(empty_prefix(sq, before.l3) == sq.len());
                        }
                        // every level left on the side was empty: all that was queued there expired
                        assert forall|j: int, x: OrderId| 0 <= j < s0.len() && #[trigger] old(self).l3.level(s0[j]).contains(x) implies
                            old(self).l3.expired_at(x, now) && !self.l3.orders@.contains_key(x) by {
                            if j >= m {
                                assert(sq[j - m] == s0[j]);
                                assert(before.l3.level(sq[j - m]).len() == 0);
                                assert(levels_cut(old(self).l3, self.l3, s0[j], now));
                                lemma_empty_level_cleared(old(self).l3, self.l3, s0[j], now);
                            }
                        }
                        assert(prices_cleared(old(self).l3, self.l3, s0, s0.len() as int, now));
                        if live_order_queued(*old(self), is_bid, now) {
                            let (j, x) = choose|j: int, x: OrderId| 0 <= j < s0.len()
                                && #[trigger] old(self).l3.level(s0[j]).contains(x) && !old(self).l3.expired_at(x, now);
                            assert(old(self).l3.expired_at(x, now));
                        }
                    }
                    return Err(e);
                },
            };
            proof {
                self.l2.lemma_prices();
                assert(self.l2.prices(is_bid)[0] == head_price);
                assert(self.l2.prices(is_bid).contains(head_price));
                let cur = before.l2.prices(is_bid);
                let k = empty_prefix(cur, before.l3) as int;
                assert(s0.skip(m).skip(k) =~= s0.skip(m + k));
                assert forall|j: int, x: OrderId| 0 <= j < m + k && #[trigger] old(self).l3.level(s0[j]).contains(x) implies
                    old(self).l3.expired_at(x, now) && !self.l3.orders@.contains_key(x) by {
                    if j >= m {
                        assert(cur[j - m] == s0[j]);
                        assert(before.l3.level(cur[j - m]).len() == 0);
                        assert(levels_cut(old(self).l3, self.l3, s0[j], now));
                        lemma_empty_level_cleared(old(self).l3, self.l3, s0[j], now);
                    }
                }
                m = m + k;
            }
            let head_id = self.l3.head(head_price);
            let order_id = match head_id {
                Some(id) => id,
                None => {
                    assert(false);
                    return Err(OrderBookError::PriceIsZero);
                },
            };
            proof {
                self.l3.lemma_levels();
                assert(self.l3.level(head_price).contains(order_id));
            }
            let order = l3_err(self.l3.get_order(order_id))?.cloned();
            // an expired order is expired and the search goes on
            if order.expires_at <= now {
                let ghost n0 = self.l3.orders@.len();
                let ghost l2_pre = self.l2;
                let ghost l3_pre = self.l3;
                proof {
                    self.l3.lemma_orders_view();
                    assert(self.l3.orders_view()[order_id].price == head_price);
                    assert(self.levels_listed(is_bid));
                    assert(l2_pre.public_levels(is_bid).contains_key(head_price));
                    assert(l2_pre.current_levels(is_bid).contains_key(head_price));
                }
                let expired = self._expire_order(order_id, is_bid, Vec::new(), now, events);
                if let Err(e) = expired {
                    // the head price is listed with both its levels, so the update cannot fail
                    assert(false);
                    return Err(e);
                }
                proof {
                    assert(self.l3.orders@ == before.l3.orders@.remove(order_id));
                    assert(self.l3.orders@.len() < n0);
                    before.l3.lemma_orders_view();
                    lemma_cut_after_head_left(old(self).l3, before.l3, self.l3, head_price, now);
                    let gone = self.l3.level(head_price).len() == 0;
                    let x = l3_pre.orders_view()[order_id];
                    l2_pre.lemma_prices();
                    lemma_prices_after_expire(l2_pre.prices(is_bid), head_price,
                        sat_sub(l2_pre.current_levels(is_bid)[head_price], x.cqty), gone);
                    assert(self.l2.prices(is_bid) == (if gone { l2_pre.prices(is_bid).skip(1) } else { l2_pre.prices(is_bid) }));
                    let m1: int = if gone { m + 1 } else { m };
                    if gone {
                        assert(s0.skip(m).skip(1) =~= s0.skip(m + 1));
                        assert(s0[m] == head_price);
                        lemma_empty_level_cleared(old(self).l3, self.l3, head_price, now);
                    }
                    assert forall|j: int, y: OrderId| 0 <= j < m1 && #[trigger] old(self).l3.level(s0[j]).contains(y) implies
                        old(self).l3.expired_at(y, now) && !self.l3.orders@.contains_key(y) by {
                        if j < m {
                            assert(!before.l3.orders@.contains_key(y));
                        }
                    }
                    m = m1;
                    assert(events.events().take(old(events).events().len() as int) =~= old(events).events()) by {
                        assert(events.events().take(ev_before.len() as int) =~= ev_before) by {
                            assert(events.events().drop_last().take(ev_before.len() as int) =~= ev_before);
                        }
                    }
                    let ev1 = events.events();
                    let ev0 = old(events).events();
                    assert(ev1.take(ev_before.len() as int) =~= ev_before) by {
                        assert(ev1.drop_last().take(ev_before.len() as int) =~= ev_before);
                    }
                    old(self).l3.lemma_orders_view();
                    assert forall|id: OrderId| #[trigger] old(self).l3.orders@.contains_key(id) && !self.l3.orders@.contains_key(id)
                        && None::<OrderId> != Some(id) implies exists|i: int| ev0.len() <= i < ev1.len()
                        && #[trigger] is_order_closed(ev1[i], false, old(self).l3.orders_view()[id].cid, id,
                            old(self).l3.orders_view()[id], is_bid, now) by {
                        if id == order_id {
                            assert(old(self).l3.orders_view()[id] == x);
                            assert(ev1.last() == ev1[ev1.len() - 1]);
                            assert(is_order_closed(ev1[ev1.len() - 1], false, x.cid, id, x, is_bid, now));
                        } else {
                            assert(!before.l3.orders@.contains_key(id));
                            let i = choose|i: int| ev0.len() <= i < ev_before.len() && #[trigger] is_order_closed(ev_before[i],
                                false, old(self).l3.orders_view()[id].cid, id, old(self).l3.orders_view()[id], is_bid, now);
                            assert(ev1[i] == ev_before[i]);
                        }
                    }
                }
                continue;
            }
            // the price level is empty: unlist it and go on
            if self.l3.is_empty(order.price) {
                assert(false);
                let _ = self.l2.remove_price(is_bid, order.price);
                return Err(OrderBookError::PriceIsZero);
            }
            // take the order off its level
            let ghost l3_before_pop = self.l3;
            let (popped, is_empty) = match self.l3.pop_front(head_price) {
                Ok(v) => v,
                Err(e) => {
                    proof {
                        assert(head_price == 0);
                        assert(self.l3.level(head_price).len() > 0);
                    }
                    return Err(OrderBookError::L3(e));
                },
            };
            let ghost l2_0 = self.l2;
            if is_empty {
                proof { self.l2.lemma_prices(); }
                let _ = self.l2.clear_head(is_bid);
                proof {
                    l2_0.lemma_same_side(&self.l2, !is_bid);
                    l2_0.lemma_prices();
                    lemma_skip_contains(l2_0.prices(is_bid), 1);
                    assert(self.l2.prices(is_bid) =~= l2_0.prices(is_bid).skip(1)) by {
                        assert(self.l2.prices(is_bid) == l2_0.prices(is_bid).drop_first());
                    }
                    assert forall|p: u64| #[trigger] self.l2.prices(is_bid).contains(p) implies
                        self.l2.public_levels(is_bid).contains_key(p) && self.l2.current_levels(is_bid).contains_key(p) by {
                        assert(l2_0.prices(is_bid).contains(p));
                    }
                    assert(self.levels_listed(is_bid));
                    assert(self.levels_listed(!is_bid));
                }
            }
            let popped = match popped {
                Some(o) => o,
                None => {
                    assert(false);
                    return Err(OrderBookError::PriceIsZero);
                },
            };
            proof {
                l3_before_pop.lemma_levels();
                l3_before_pop.lemma_orders_view();
                assert(popped.id == order_id);
                assert(levels_cut(old(self).l3, l3_before_pop, head_price, now));
                lemma_cut_front_is_next(old(self).l3, l3_before_pop, self.l3, head_price, now);
                assert(s0[m] == head_price);
                if is_empty {
                    assert(s0.skip(m).skip(1) =~= s0.skip(m + 1));
                }
                lemma_level_after_head_left(l3_before_pop, self.l3, head_price);
                assert(self.l3.level(head_price).len() == 0 <==> is_empty);
                assert forall|j: int, y: OrderId| 0 <= j < m && #[trigger] old(self).l3.level(s0[j]).contains(y) implies
                    old(self).l3.expired_at(y, now) && !self.l3.orders@.contains_key(y) by {
                    assert(!l3_before_pop.orders@.contains_key(y));
                }
                assert(prices_cleared(old(self).l3, self.l3, s0, m, now));
            }
            return Ok(popped);
        }
    }

    /// Takes the oldest order at the best price of side `is_bid` off the
    /// book, expiring the orders in front of it that have expired by now.
    pub fn pop_front(&mut self, is_bid: bool, events: &mut EventQueue) -> (r: Result<Order, OrderBookError>)
        requires
            old(self).wf(),
        ensures
            final(self).wf(),
            rest_unchanged(*old(self), *final(self)),
            forall|id: OrderId| #[trigger] final(self).l3.orders@.contains_key(id) ==>
                old(self).l3.orders@.contains_key(id) && final(self).l3.orders@[id] == old(self).l3.orders@[id],
            r is Ok ==> {
                &&& old(self).l3.orders@.contains_key(r->Ok_0.id)
                &&& r->Ok_0@ == old(self).l3.orders_view()[r->Ok_0.id]
                &&& !final(self).l3.orders@.contains_key(r->Ok_0.id)
            },
            exists|t: i64| #[trigger] expiries_reported(old(self).l3, final(self).l3, old(events).events(), final(events).events(),
                is_bid, t, popped_id(r))
                && (live_order_queued(*old(self), is_bid, t) ==> r is Ok)
                && (r is Err ==> prices_cleared(old(self).l3, final(self).l3, old(self).l2.prices(is_bid),
                    old(self).l2.prices(is_bid).len() as int, t))
                && (r is Ok ==> queued_after_expired(old(self).l3, final(self).l3, r->Ok_0.price, r->Ok_0.id, t)
                    && r->Ok_0.expires_at > t && best_after_expired(*old(self), *final(self), is_bid, r->Ok_0.price, t)),
            r is Err ==> side_exhausted(*final(self), is_bid, r->Err_0),
            final(events).events().take(old(events).events().len() as int) == old(events).events(),
    {
        let now = now_millis();
        let r = self.pop_front_at(is_bid, now, events);
        proof {
            assert(expiries_reported(old(self).l3, self.l3, old(events).events(), events.events(), is_bid, now,
                popped_id(r)));
        }
        r
    }


    /// Unlists `price` from side `is_bid` together with its levels.
    pub fn remove_price_level(&mut self, is_bid: bool, price: u64)
        requires
            old(self).wf(),
        ensures
            final(self).wf(),
            rest_unchanged(*old(self), *final(self)),
            final(self).l3 == old(self).l3,
            l2_unlisted(old(self).l2, final(self).l2, is_bid, Some(price)),
    {
        let ghost l2_0 = self.l2;
        let _ = self.l2.remove_price(is_bid, price);
        proof {
            l2_0.lemma_prices();
            lemma_remove_value_contains(l2_0.prices(is_bid), price);
            old(self).l2.lemma_same_side(&self.l2, !is_bid);
            assert(self.levels_listed(!is_bid));
            assert forall|p: u64| #[trigger] self.l2.prices(is_bid).contains(p) implies
                self.l2.public_levels(is_bid).contains_key(p) && self.l2.current_levels(is_bid).contains_key(p) by {
                assert(l2_0.prices(is_bid).contains(p));
            }
            assert(self.levels_listed(is_bid));
        }
    }

}

impl Default for OrderBook {
    /// A new, empty order book with a dust limit of 1000.
    fn default() -> (ob: Self)
        ensures
            ob.wf(),
            ob.l1 == L1::default_spec(),
            ob.l2.bid_prices() == Seq::<u64>::empty(),
            ob.l2.ask_prices() == Seq::<u64>::empty(),
            ob.l3.levels() == Map::<u64, Seq<OrderId>>::empty(),
            ob.l3.orders@ == Map::<OrderId, Order>::empty(),
            ob.fee_recipients@ == Map::<Seq<u8>, Vec<u8>>::empty(),
            ob.dust == 1000,
    {
        OrderBook::new()
    }
}

} // verus!
