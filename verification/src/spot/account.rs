//! Accounts of the spot market.
use vstd::prelude::*;
use crate::account::spot::{held, transferred};
use crate::bytes::ByteMap;
use crate::spot::orderbook::{sat_add, sat_sub};

verus! {

/// An account of the spot market.
#[derive(Debug, Clone, PartialEq, Eq)]
pub struct Account {
    /// Account ID
    pub id: Vec<u8>,
    /// Balances of the account with asset id as key and balance as value
    pub balances: ByteMap<u64>,
}

/// Errors of accounts.
#[derive(Debug, Clone, Copy, PartialEq, Eq, Structural)]
pub enum AccountError {
    AssetNotFound,
    BalanceNotEnough,
}

impl Account {
    /// A new account `id` with no balance.
    pub fn new(id: Vec<u8>) -> (a: Self)
        ensures
            a.id@ == id@,
            a.balances.wf(),
            a.balances@ == Map::<Seq<u8>, u64>::empty(),
    {
        Account { id, balances: ByteMap::new() }
    }

    /// Adds `amount` of `asset` (saturating).
    pub fn deposit(&mut self, asset: Vec<u8>, amount: u64)
        requires
            old(self).balances.wf(),
        ensures
            final(self).balances.wf(),
            final(self).balances@ == old(self).balances@.insert(asset@, sat_add(held(old(self).balances@, asset@), amount)),
            final(self).id == old(self).id,
    {
        let current = match self.balances.get(&asset) {
            Some(v) => *v,
            None => 0,
        };
        self.balances.insert(asset, current.saturating_add(amount));
    }

    /// Takes `amount` of `asset` away (saturating at 0).
    pub fn withdraw(&mut self, asset: Vec<u8>, amount: u64)
        requires
            old(self).balances.wf(),
        ensures
            final(self).balances.wf(),
            final(self).balances@ == old(self).balances@.insert(asset@, sat_sub(held(old(self).balances@, asset@), amount)),
            final(self).id == old(self).id,
    {
        let current = match self.balances.get(&asset) {
            Some(v) => *v,
            None => 0,
        };
        self.balances.insert(asset, current.saturating_sub(amount));
    }

    /// Moves `amount` from the balance of `asset` to the balance under key
    /// `to`, both saturating; an absent `asset` is recorded as 0 and an absent
    /// `to` as `amount`.
    pub fn transfer(&mut self, asset: Vec<u8>, _from: Vec<u8>, to: Vec<u8>, amount: u64) -> (r: Result<(), AccountError>)
        requires
            old(self).balances.wf(),
        ensures
            r is Ok,
            final(self).balances.wf(),
            final(self).balances@ == transferred(old(self).balances@, asset@, to@, amount),
            final(self).id == old(self).id,
    {
        let from_amount = match self.balances.get(&asset) {
            Some(v) => v.saturating_sub(amount),
            None => 0,
        };
        self.balances.insert(asset, from_amount);
        let to_amount = match self.balances.get(&to) {
            Some(v) => v.saturating_add(amount),
            None => amount,
        };
        self.balances.insert(to, to_amount);
        Ok(())
    }
}

} // verus!
