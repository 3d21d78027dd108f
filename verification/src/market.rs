//! Level-1 data of a market: last match price, best prices and slippage limits.
use vstd::prelude::*;

verus! {

/// Level-1 market data.
#[derive(Debug, Clone, PartialEq, Eq, Structural)]
pub struct L1 {
    /// Last match price
    pub lmp: Option<u64>,
    /// Head of the bid list
    pub bid_head: Option<u64>,
    /// Head of the ask list
    pub ask_head: Option<u64>,
    /// Slippage limit for limit buy orders in 8 decimals
    pub limit_buy_slippage_limit: Option<u64>,
    /// Slippage limit for limit sell orders in 8 decimals
    pub limit_sell_slippage_limit: Option<u64>,
    /// Slippage limit for market buy orders in 8 decimals
    pub market_buy_slippage_limit: Option<u64>,
    /// Slippage limit for market sell orders in 8 decimals
    pub market_sell_slippage_limit: Option<u64>,
}

impl L1 {
    /// Level-1 data with nothing set.
    pub open spec fn empty_spec() -> L1 {
        L1 {
            lmp: None,
            bid_head: None,
            ask_head: None,
            limit_buy_slippage_limit: None,
            limit_sell_slippage_limit: None,
            market_buy_slippage_limit: None,
            market_sell_slippage_limit: None,
        }
    }

    /// Level-1 data with nothing set.
    pub fn new() -> (l1: Self)
        ensures
            l1 == L1::empty_spec(),
    {
        L1 {
            lmp: None,
            bid_head: None,
            ask_head: None,
            limit_buy_slippage_limit: None,
            limit_sell_slippage_limit: None,
            market_buy_slippage_limit: None,
            market_sell_slippage_limit: None,
        }
    }
}

impl Default for L1 {
    /// Level-1 data with nothing set.
    fn default() -> (l1: Self)
        ensures
            l1 == L1::empty_spec(),
    {
        L1::new()
    }
}

} // verus!
