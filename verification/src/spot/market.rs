//! Level-1 market data and the maker-price rules derived from it.
use vstd::prelude::*;

verus! {

/// Basis-point denominator (10000 = 100%).
pub const DENOM: u64 = 10000;

/// Level-1 data of a market: last match price, best prices and slippage limits.
#[derive(Debug, Clone, PartialEq, Eq, Structural)]
pub struct L1 {
    /// Last match price
    pub lmp: Option<u64>,
    /// Head of the bid list
    pub bid_head: Option<u64>,
    /// Head of the ask list
    pub ask_head: Option<u64>,
    /// Slippage limit for limit buy orders in 8 decimals
    pub limit_buy_slippage_limit: Option<u64>,
    /// Slippage limit for limit sell orders in 8 decimals
    pub limit_sell_slippage_limit: Option<u64>,
    /// Slippage limit for market buy orders in 8 decimals
    pub market_buy_slippage_limit: Option<u64>,
    /// Slippage limit for market sell orders in 8 decimals
    pub market_sell_slippage_limit: Option<u64>,
}

/// Errors of level-1 data.
#[derive(Debug, Clone, Copy, PartialEq, Eq, Structural)]
pub enum L1Error {
    PriceIsZero,
}

/// `price` lowered by `spread` basis points, rounded down.
pub open spec fn spread_down(price: u64, spread: u32) -> u64
    recommends
        spread <= DENOM,
{
    ((price as int * (DENOM - spread)) / (DENOM as int)) as u64
}

/// `price` raised by `spread` basis points, rounded down and truncated to 64 bits.
pub open spec fn spread_up(price: u64, spread: u32) -> u64 {
    ((price as int * (DENOM + spread)) / (DENOM as int)) as u64
}

pub open spec fn spec_max(a: u64, b: u64) -> u64 {
    if a >= b { a } else { b }
}

pub open spec fn spec_min(a: u64, b: u64) -> u64 {
    if a <= b { a } else { b }
}

/// Maker price of a limit sell order at limit price `lp`.
pub open spec fn limit_sell_make_price(lmp: u64, lp: u64, bid_head: u64, ask_head: u64, spread: u32) -> u64 {
    if lmp != 0 {
        let down = spec_max(spread_down(lmp, spread), lp);
        if ask_head == 0 && bid_head != 0 { spec_max(down, bid_head) } else { down }
    } else if ask_head == 0 && bid_head == 0 {
        lp
    } else if ask_head == 0 {
        spec_max(spec_max(spread_down(bid_head, spread), lp), bid_head)
    } else if bid_head == 0 {
        spec_max(spread_down(ask_head, spread), lp)
    } else {
        spec_max(lp, bid_head)
    }
}

/// Maker price of a limit buy order at limit price `lp`.
pub open spec fn limit_buy_make_price(lmp: u64, lp: u64, bid_head: u64, ask_head: u64, spread: u32) -> u64 {
    if lmp != 0 {
        let up = spec_min(spread_up(lmp, spread), lp);
        if ask_head != 0 { spec_min(up, ask_head) } else { up }
    } else if ask_head == 0 && bid_head == 0 {
        lp
    } else if ask_head == 0 {
        spec_min(spread_up(bid_head, spread), lp)
    } else if bid_head == 0 {
        spec_min(spec_min(spread_up(ask_head, spread), lp), ask_head)
    } else {
        spec_min(lp, ask_head)
    }
}

/// Maker price of a market buy order.
pub open spec fn market_buy_make_price(lmp: u64, bid_head: u64, ask_head: u64, spread: u32) -> u64 {
    if lmp != 0 {
        let up = if bid_head != 0 { spread_up(spec_max(bid_head, lmp), spread) } else { spread_up(lmp, spread) };
        if ask_head != 0 { spec_min(up, ask_head) } else { up }
    } else if ask_head == 0 && bid_head == 0 {
        0
    } else if ask_head == 0 {
        spread_up(bid_head, spread)
    } else {
        ask_head
    }
}

/// A price that is never zero: zero becomes one.
pub open spec fn at_least_one(p: u64) -> u64 {
    if p == 0 { 1 } else { p }
}

/// Maker price of a market sell order.
pub open spec fn market_sell_make_price(lmp: u64, bid_head: u64, ask_head: u64, spread: u32) -> u64 {
    if lmp != 0 {
        let down = if ask_head != 0 { spread_down(spec_min(lmp, ask_head), spread) } else { spread_down(lmp, spread) };
        at_least_one(if bid_head != 0 { spec_max(down, bid_head) } else { down })
    } else if ask_head == 0 && bid_head == 0 {
        1
    } else if ask_head == 0 {
        bid_head
    } else if bid_head == 0 {
        at_least_one(spread_down(ask_head, spread))
    } else {
        bid_head
    }
}

/// A maker price of a limit buy never exceeds its limit price.
pub proof fn law_limit_buy_price_within_limit(lmp: u64, lp: u64, bid_head: u64, ask_head: u64, spread: u32)
    ensures
        limit_buy_make_price(lmp, lp, bid_head, ask_head, spread) <= lp,
{
}

/// A maker price of a limit sell never falls below its limit price.
pub proof fn law_limit_sell_price_within_limit(lmp: u64, lp: u64, bid_head: u64, ask_head: u64, spread: u32)
    ensures
        limit_sell_make_price(lmp, lp, bid_head, ask_head, spread) >= lp,
{
}

/// Lowering a price by a spread of at most 100% never raises it.
pub proof fn law_spread_down_not_above(price: u64, spread: u32)
    requires
        spread <= DENOM,
    ensures
        spread_down(price, spread) <= price,
{
    assert((price as int * (DENOM - spread)) / (DENOM as int) <= price) by (nonlinear_arith)
        requires spread <= 10000, DENOM == 10000;
}

/// A market sell never makes a price of 0.
pub proof fn law_market_sell_price_positive(lmp: u64, bid_head: u64, ask_head: u64, spread: u32)
    ensures
        market_sell_make_price(lmp, bid_head, ask_head, spread) >= 1,
{
}

/// A market buy with no last match price and asks on the book is priced at
/// the best ask, whatever the bids are.
pub proof fn law_market_buy_takes_best_ask(bid_head: u64, ask_head: u64, spread: u32)
    requires
        ask_head != 0,
    ensures
        market_buy_make_price(0, bid_head, ask_head, spread) == ask_head,
{
}

/// A market buy is never priced above the best ask, when there are asks.
pub proof fn law_market_buy_not_above_best_ask(lmp: u64, bid_head: u64, ask_head: u64, spread: u32)
    requires
        ask_head != 0,
    ensures
        market_buy_make_price(lmp, bid_head, ask_head, spread) <= ask_head,
{
}

/// With a last match price `lmp`, a market buy is priced at the higher of
/// `lmp` and the best bid, raised by `spread` basis points (rounded down),
/// but at most the best ask when there are asks. Without one and without
/// asks, it is priced at the best bid raised by the spread, or 0 on an empty
/// book.
pub proof fn law_market_buy_price(lmp: u64, bid_head: u64, ask_head: u64, spread: u32)
    ensures
        ({
            let base: int = if lmp != 0 { if bid_head >= lmp { bid_head as int } else { lmp as int } } else { bid_head as int };
            let up: int = base * (10000 + spread as int) / 10000;
            let p = market_buy_make_price(lmp, bid_head, ask_head, spread) as int;
            &&& (lmp != 0 || ask_head == 0) && up <= u64::MAX && ask_head != 0 ==> p == (if up <= ask_head { up } else { ask_head as int })
            &&& (lmp != 0 || bid_head != 0) && up <= u64::MAX && ask_head == 0 ==> p == up
            &&& lmp == 0 && bid_head == 0 && ask_head == 0 ==> p == 0
        }),
{
    if lmp != 0 && bid_head == 0 {
        assert(spec_max(bid_head, lmp) == lmp);
    }
}

/// A market sell with no last match price and bids on the book is priced at
/// the best bid, whatever the asks are.
pub proof fn law_market_sell_takes_best_bid(bid_head: u64, ask_head: u64, spread: u32)
    requires
        bid_head != 0,
    ensures
        market_sell_make_price(0, bid_head, ask_head, spread) == bid_head,
{
}

/// A market sell is never priced below the best bid.
pub proof fn law_market_sell_not_below_best_bid(lmp: u64, bid_head: u64, ask_head: u64, spread: u32)
    ensures
        market_sell_make_price(lmp, bid_head, ask_head, spread) >= bid_head,
{
}

/// With a last match price `lmp`, a market sell is priced at the lower of
/// `lmp` and the best ask (`lmp` alone without asks), lowered by `spread`
/// basis points (rounded down), but at least the best bid and at least 1.
/// Without one, on a book with asks only, it is priced at the best ask
/// lowered by the spread, at least 1; on an empty book at 1.
pub proof fn law_market_sell_price(lmp: u64, bid_head: u64, ask_head: u64, spread: u32)
    requires
        spread <= 10000,
    ensures
        ({
            let base: int = if lmp != 0 {
                if ask_head != 0 && ask_head < lmp { ask_head as int } else { lmp as int }
            } else {
                ask_head as int
            };
            let down: int = base * (10000 - spread as int) / 10000;
            let floor: int = if down >= bid_head { down } else { bid_head as int };
            let p = market_sell_make_price(lmp, bid_head, ask_head, spread) as int;
            &&& lmp != 0 || bid_head == 0 ==> p == (if floor >= 1 { floor } else { 1 })
        }),
{
    let base: int = if lmp != 0 {
        if ask_head != 0 && ask_head < lmp { ask_head as int } else { lmp as int }
    } else {
        ask_head as int
    };
    assert(0 <= base * (10000 - spread as int) / 10000 <= base) by (nonlinear_arith)
        requires 0 <= base, 0 <= spread <= 10000;
}

/// A limit buy with no last match price, on a book with bids and asks, is
/// priced at its limit price, but at most the best ask.
pub proof fn law_limit_buy_capped_by_best_ask(lp: u64, bid_head: u64, ask_head: u64, spread: u32)
    requires
        bid_head != 0,
        ask_head != 0,
    ensures
        limit_buy_make_price(0, lp, bid_head, ask_head, spread) == (if lp <= ask_head { lp } else { ask_head }),
{
}

/// A limit buy is never priced above the best ask, when there are asks.
pub proof fn law_limit_buy_not_above_best_ask(lmp: u64, lp: u64, bid_head: u64, ask_head: u64, spread: u32)
    requires
        ask_head != 0,
    ensures
        limit_buy_make_price(lmp, lp, bid_head, ask_head, spread) <= ask_head,
{
}

/// The maker price of a limit buy at limit price `lp`: the least of `lp`, a
/// reference price raised by `spread` basis points (rounded down) and, when
/// there are asks, the best ask. The reference is the last match price when
/// there is one, else the best ask, else the best bid; on an empty book with
/// no last match price it is `lp` itself.
pub proof fn law_limit_buy_price(lmp: u64, lp: u64, bid_head: u64, ask_head: u64, spread: u32)
    ensures
        ({
            let base: int = if lmp != 0 { lmp as int } else if ask_head != 0 { ask_head as int } else { bid_head as int };
            let up: int = base * (10000 + spread as int) / 10000;
            let capped: int = if up <= lp { up } else { lp as int };
            let p = limit_buy_make_price(lmp, lp, bid_head, ask_head, spread) as int;
            &&& (lmp != 0 || (bid_head == 0 && ask_head != 0)) && up <= u64::MAX ==>
                p == (if ask_head != 0 && ask_head < capped { ask_head as int } else { capped })
            &&& lmp == 0 && ask_head == 0 && bid_head != 0 && up <= u64::MAX ==> p == capped
            &&& lmp == 0 && ask_head == 0 && bid_head == 0 ==> p == lp
        }),
{
    let base: int = if lmp != 0 { lmp as int } else if ask_head != 0 { ask_head as int } else { bid_head as int };
    assert(base * (10000 + spread as int) / 10000 >= base) by (nonlinear_arith)
        requires 0 <= base, 0 <= spread;
}

/// A limit sell with no last match price, on a book with bids and asks, is
/// priced at its limit price, but at least the best bid.
pub proof fn law_limit_sell_floored_by_best_bid(lp: u64, bid_head: u64, ask_head: u64, spread: u32)
    requires
        bid_head != 0,
        ask_head != 0,
    ensures
        limit_sell_make_price(0, lp, bid_head, ask_head, spread) == (if lp >= bid_head { lp } else { bid_head }),
{
}

/// The maker price of a limit sell at limit price `lp`: the greatest of
/// `lp`, a reference price lowered by `spread` basis points (rounded down)
/// and, when there are bids but no asks, the best bid. The reference is the
/// last match price when there is one, else the best ask; with no last
/// match price, a book with bids is priced at the greater of `lp` and the
/// best bid, an empty one at `lp`.
pub proof fn law_limit_sell_price(lmp: u64, lp: u64, bid_head: u64, ask_head: u64, spread: u32)
    requires
        spread <= 10000,
    ensures
        ({
            let base: int = if lmp != 0 { lmp as int } else { ask_head as int };
            let down: int = base * (10000 - spread as int) / 10000;
            let floored: int = if down >= lp { down } else { lp as int };
            let p = limit_sell_make_price(lmp, lp, bid_head, ask_head, spread) as int;
            &&& lmp != 0 ==> p == (if ask_head == 0 && bid_head != 0 && bid_head > floored { bid_head as int } else { floored })
            &&& lmp == 0 && bid_head == 0 && ask_head != 0 ==> p == floored
            &&& lmp == 0 && bid_head != 0 ==> p == (if lp >= bid_head { lp as int } else { bid_head as int })
            &&& lmp == 0 && bid_head == 0 && ask_head == 0 ==> p == lp
        }),
{
    let base: int = if lmp != 0 { lmp as int } else if ask_head != 0 { ask_head as int } else { bid_head as int };
    assert(0 <= base * (10000 - spread as int) / 10000 <= base) by (nonlinear_arith)
        requires 0 <= base, 0 <= spread <= 10000;
    let b: int = bid_head as int;
    assert(0 <= b * (10000 - spread as int) / 10000 <= b) by (nonlinear_arith)
        requires 0 <= b, 0 <= spread <= 10000;
}

/// Lowers `price` by `spread` basis points.
fn apply_spread_down(price: u64, spread: u32) -> (r: u64)
    requires
        spread <= DENOM,
    ensures
        r == spread_down(price, spread),
        r <= price,
{
    let factor: u64 = DENOM - spread as u64;
    proof {
        assert(price as int * factor as int <= price as int * DENOM as int) by (nonlinear_arith)
            requires factor <= DENOM;
        assert(price as int * DENOM as int <= 0xffff_ffff_ffff_ffff * 10000int) by (nonlinear_arith)
            requires price <= 0xffff_ffff_ffff_ffffu64;
        assert((price as int * factor as int) / 10000 <= price as int) by (nonlinear_arith)
            requires factor <= 10000, price >= 0;
    }
    let prod: u128 = price as u128 * factor as u128;
    (prod / DENOM as u128) as u64
}

/// Raises `price` by `spread` basis points (truncated to 64 bits).
fn apply_spread_up(price: u64, spread: u32) -> (r: u64)
    ensures
        r == spread_up(price, spread),
{
    let factor: u64 = DENOM + spread as u64;
    proof {
        assert(price as int * factor as int <= 0xffff_ffff_ffff_ffff * 0x1_0000_2710int) by (nonlinear_arith)
            requires price <= 0xffff_ffff_ffff_ffffu64, factor <= 0x1_0000_2710int;
    }
    let prod: u128 = price as u128 * factor as u128;
    (prod / DENOM as u128) as u64
}

impl L1 {
    pub open spec fn default_spec() -> L1 {
        L1 {
            lmp: None,
            bid_head: None,
            ask_head: None,
            limit_buy_slippage_limit: Some(10000u64),
            limit_sell_slippage_limit: Some(10000u64),
            market_buy_slippage_limit: Some(10000u64),
            market_sell_slippage_limit: Some(10000u64),
        }
    }

    /// A new L1 with no prices and slippage limits of 100%.
    pub fn new() -> (l1: Self)
        ensures
            l1 == Self::default_spec(),
    {
        L1 {
            lmp: None,
            bid_head: None,
            ask_head: None,
            limit_buy_slippage_limit: Some(10000u64),
            limit_sell_slippage_limit: Some(10000u64),
            market_buy_slippage_limit: Some(10000u64),
            market_sell_slippage_limit: Some(10000u64),
        }
    }

    pub fn new_with_slippage(
        lmp: Option<u64>,
        bid_head: Option<u64>,
        ask_head: Option<u64>,
        limit_buy_slippage_limit: Option<u64>,
        limit_sell_slippage_limit: Option<u64>,
        market_buy_slippage_limit: Option<u64>,
        market_sell_slippage_limit: Option<u64>,
    ) -> (l1: Self)
        ensures
            l1 == (L1 {
                lmp,
                bid_head,
                ask_head,
                limit_buy_slippage_limit,
                limit_sell_slippage_limit,
                market_buy_slippage_limit,
                market_sell_slippage_limit,
            }),
    {
        L1 {
            lmp,
            bid_head,
            ask_head,
            limit_buy_slippage_limit,
            limit_sell_slippage_limit,
            market_buy_slippage_limit,
            market_sell_slippage_limit,
        }
    }

    /// Best ask price.
    pub fn ask_head(&self) -> (r: Option<u64>)
        ensures
            r == self.ask_head,
    {
        self.ask_head
    }

    /// Best bid price.
    pub fn bid_head(&self) -> (r: Option<u64>)
        ensures
            r == self.bid_head,
    {
        self.bid_head
    }

    /// Last match price.
    pub fn lmp(&self) -> (r: Option<u64>)
        ensures
            r == self.lmp,
    {
        self.lmp
    }

    pub fn set_lmp(&mut self, price: u64)
        ensures
            *final(self) == (L1 { lmp: Some(price), ..*old(self) }),
    {
        self.lmp = Some(price);
    }

    pub fn set_ask_head(&mut self, price: u64)
        ensures
            *final(self) == (L1 { ask_head: Some(price), ..*old(self) }),
    {
        self.ask_head = Some(price);
    }

    pub fn set_bid_head(&mut self, price: u64)
        ensures
            *final(self) == (L1 { bid_head: Some(price), ..*old(self) }),
    {
        self.bid_head = Some(price);
    }

    /// Set the slippage limit for limit buy orders
    pub fn set_limit_buy_slippage_limit(&mut self, slippage_limit: Option<u64>)
        ensures
            *final(self) == (L1 { limit_buy_slippage_limit: slippage_limit, ..*old(self) }),
    {
        self.limit_buy_slippage_limit = slippage_limit;
    }

    /// Set the slippage limit for limit sell orders
    pub fn set_limit_sell_slippage_limit(&mut self, slippage_limit: Option<u64>)
        ensures
            *final(self) == (L1 { limit_sell_slippage_limit: slippage_limit, ..*old(self) }),
    {
        self.limit_sell_slippage_limit = slippage_limit;
    }

    /// Set the slippage limit for market buy orders
    pub fn set_market_buy_slippage_limit(&mut self, slippage_limit: Option<u64>)
        ensures
            *final(self) == (L1 { market_buy_slippage_limit: slippage_limit, ..*old(self) }),
    {
        self.market_buy_slippage_limit = slippage_limit;
    }

    /// Set the slippage limit for market sell orders
    pub fn set_market_sell_slippage_limit(&mut self, slippage_limit: Option<u64>)
        ensures
            *final(self) == (L1 { market_sell_slippage_limit: slippage_limit, ..*old(self) }),
    {
        self.market_sell_slippage_limit = slippage_limit;
    }

    pub open spec fn lmp_or_zero(&self) -> u64 {
        match self.lmp {
            Some(p) => p,
            None => 0,
        }
    }

    /// Determines the maker price of a limit sell order with limit price `lp`,
    /// given the best bid and ask prices (0 when a side is empty) and a spread in
    /// basis points. Returns the maker price and the last match price (0 if none).
    pub fn det_limit_sell_make_price(&self, lp: u64, bid_head: u64, ask_head: u64, spread: u32) -> (r: (u64, u64))
        requires
            spread <= DENOM,
        ensures
            r.0 == limit_sell_make_price(self.lmp_or_zero(), lp, bid_head, ask_head, spread),
            r.1 == self.lmp_or_zero(),
    {
        let lmp = self.lmp().unwrap_or(0);
        if ask_head == 0 && bid_head == 0 {
            if lmp != 0 {
                let down = apply_spread_down(lmp, spread);
                let price = if lp <= down { down } else { lp };
                return (price, lmp);
            }
            return (lp, lmp);
        } else if ask_head == 0 && bid_head != 0 {
            if lmp != 0 {
                let mut down = apply_spread_down(lmp, spread);
                down = if lp <= down { down } else { lp };
                let price = if down <= bid_head { bid_head } else { down };
                return (price, lmp);
            }
            let mut down = apply_spread_down(bid_head, spread);
            down = if lp <= down { down } else { lp };
            let price = if down <= bid_head { bid_head } else { down };
            return (price, lmp);
        } else if ask_head != 0 && bid_head == 0 {
            if lmp != 0 {
                let down = apply_spread_down(lmp, spread);
                let price = if lp <= down { down } else { lp };
                return (price, lmp);
            }
            let down = apply_spread_down(ask_head, spread);
            let price = if lp <= down { down } else { lp };
            return (price, lmp);
        } else {
            if lmp != 0 {
                let down = apply_spread_down(lmp, spread);
                let price = if lp <= down { down } else { lp };
                return (price, lmp);
            }
            let price = if lp <= bid_head { bid_head } else { lp };
            return (price, lmp);
        }
    }

    /// Determines the maker price of a limit buy order with limit price `lp`.
    /// Returns the maker price and the last match price (0 if none).
    pub fn det_limit_buy_make_price(&self, lp: u64, bid_head: u64, ask_head: u64, spread: u32) -> (r: (u64, u64))
        ensures
            r.0 == limit_buy_make_price(self.lmp_or_zero(), lp, bid_head, ask_head, spread),
            r.1 == self.lmp_or_zero(),
    {
        let lmp = self.lmp().unwrap_or(0);
        if ask_head == 0 && bid_head == 0 {
            if lmp != 0 {
                let up = apply_spread_up(lmp, spread);
                let price = if lp >= up { up } else { lp };
                return (price, lmp);
            }
            return (lp, lmp);
        } else if ask_head == 0 && bid_head != 0 {
            if lmp != 0 {
                let up = apply_spread_up(lmp, spread);
                let price = if lp >= up { up } else { lp };
                return (price, lmp);
            }
            let up = apply_spread_up(bid_head, spread);
            let price = if lp >= up { up } else { lp };
            return (price, lmp);
        } else if ask_head != 0 && bid_head == 0 {
            if lmp != 0 {
                let mut up = apply_spread_up(lmp, spread);
                up = if lp >= up { up } else { lp };
                let price = if up >= ask_head { ask_head } else { up };
                return (price, lmp);
            }
            let mut up = apply_spread_up(ask_head, spread);
            up = if lp >= up { up } else { lp };
            let price = if up >= ask_head { ask_head } else { up };
            return (price, lmp);
        } else {
            if lmp != 0 {
                let mut up = apply_spread_up(lmp, spread);
                up = if lp >= up { up } else { lp };
                let price = if up >= ask_head { ask_head } else { up };
                return (price, lmp);
            }
            let price = if lp >= ask_head { ask_head } else { lp };
            return (price, lmp);
        }
    }

    /// Determines the maker price of a market buy order.
    /// Returns the maker price and the last match price (0 if none).
    pub fn det_market_buy_make_price(&self, bid_head: u64, ask_head: u64, spread: u32) -> (r: (u64, u64))
        ensures
            r.0 == market_buy_make_price(self.lmp_or_zero(), bid_head, ask_head, spread),
            r.1 == self.lmp_or_zero(),
    {
        let lmp = self.lmp().unwrap_or(0);
        if ask_head == 0 && bid_head == 0 {
            if lmp != 0 {
                let up = apply_spread_up(lmp, spread);
                return (up, lmp);
            }
            return (0, lmp);
        } else if ask_head == 0 && bid_head != 0 {
            if lmp != 0 {
                let temp = if bid_head >= lmp { bid_head } else { lmp };
                let up = apply_spread_up(temp, spread);
                return (up, lmp);
            }
            let up = apply_spread_up(bid_head, spread);
            return (up, lmp);
        } else if ask_head != 0 && bid_head == 0 {
            if lmp != 0 {
                let up = apply_spread_up(lmp, spread);
                let price = if ask_head >= up { up } else { ask_head };
                return (price, lmp);
            }
            return (ask_head, lmp);
        } else {
            if lmp != 0 {
                let temp = if bid_head >= lmp { bid_head } else { lmp };
                let up = apply_spread_up(temp, spread);
                let price = if ask_head >= up { up } else { ask_head };
                return (price, lmp);
            }
            return (ask_head, lmp);
        }
    }

    /// Determines the maker price of a market sell order (never 0 once a
    /// price exists). Returns the maker price and the last match price (0 if none).
    pub fn det_market_sell_make_price(&self, bid_head: u64, ask_head: u64, spread: u32) -> (r: (u64, u64))
        requires
            spread <= DENOM,
        ensures
            r.0 == market_sell_make_price(self.lmp_or_zero(), bid_head, ask_head, spread),
            r.0 >= 1,
            r.1 == self.lmp_or_zero(),
    {
        let lmp = self.lmp().unwrap_or(0);
        if ask_head == 0 && bid_head == 0 {
            if lmp != 0 {
                let down = apply_spread_down(lmp, spread);
                let price = if down == 0 { 1 } else { down };
                return (price, lmp);
            }
            // no price to start from: the smallest price, never 0
            return (1, lmp);
        } else if ask_head == 0 && bid_head != 0 {
            if lmp != 0 {
                let mut down = apply_spread_down(lmp, spread);
                down = if down <= bid_head { bid_head } else { down };
                let price = if down == 0 { 1 } else { down };
                return (price, lmp);
            }
            return (bid_head, lmp);
        } else if ask_head != 0 && bid_head == 0 {
            if lmp != 0 {
                let temp = if lmp <= ask_head { lmp } else { ask_head };
                let down = apply_spread_down(temp, spread);
                let price = if down == 0 { 1 } else { down };
                return (price, lmp);
            }
            let down = apply_spread_down(ask_head, spread);
            let price = if down == 0 { 1 } else { down };
            return (price, lmp);
        } else {
            if lmp != 0 {
                let temp = if lmp <= ask_head { lmp } else { ask_head };
                let mut down = apply_spread_down(temp, spread);
                down = if down <= bid_head { bid_head } else { down };
                let price = if down == 0 { 1 } else { down };
                return (price, lmp);
            }
            return (bid_head, lmp);
        }
    }
}

impl Default for L1 {
    /// Level-1 data without prices and with the default slippage limits.
    fn default() -> (l1: Self)
        ensures
            l1 == L1::default_spec(),
    {
        L1::new()
    }
}

} // verus!
