//! Spot accounts.
use vstd::prelude::*;
use crate::account::{AccountBalances, blake3_digest, hash_balances, state_bytes};
use crate::bytes::ByteMap;
use crate::spot::orderbook::{sat_add, sat_sub};

verus! {

/// The amount held of `asset`, 0 when none is recorded.
pub open spec fn held(m: Map<Seq<u8>, u64>, asset: Seq<u8>) -> u64 {
    if m.contains_key(asset) { m[asset] } else { 0 }
}

/// `m` after a transfer of `amount` of `asset` to `to`: the amount of
/// `asset` goes down (saturating; recorded as 0 when absent), then the amount
/// under key `to` goes up (recorded as `amount` when absent).
pub open spec fn transferred(m: Map<Seq<u8>, u64>, asset: Seq<u8>, to: Seq<u8>, amount: u64) -> Map<Seq<u8>, u64> {
    let m1 = if m.contains_key(asset) { m.insert(asset, sat_sub(m[asset], amount)) } else { m.insert(asset, 0) };
    if m1.contains_key(to) { m1.insert(to, sat_add(m1[to], amount)) } else { m1.insert(to, amount) }
}

/// Withdrawing an amount just deposited, when the deposit did not saturate,
/// gives back the balance held before.
pub proof fn law_withdraw_undoes_deposit(m: Map<Seq<u8>, u64>, asset: Seq<u8>, amount: u64)
    requires
        held(m, asset) + amount <= u64::MAX,
    ensures
        ({
            let d = m.insert(asset, sat_add(held(m, asset), amount));
            d.insert(asset, sat_sub(held(d, asset), amount))
        }) == m.insert(asset, held(m, asset)),
{
    let d = m.insert(asset, sat_add(held(m, asset), amount));
    assert(d.insert(asset, sat_sub(held(d, asset), amount)) =~= m.insert(asset, held(m, asset)));
}

/// A transfer between two different keys, with no saturation, keeps their
/// total.
pub proof fn law_transfer_keeps_total(m: Map<Seq<u8>, u64>, asset: Seq<u8>, to: Seq<u8>, amount: u64)
    requires
        asset != to,
        held(m, asset) >= amount,
        held(m, to) + amount <= u64::MAX,
    ensures
        held(transferred(m, asset, to, amount), asset) + held(transferred(m, asset, to, amount), to)
            == held(m, asset) + held(m, to),
{
}


/// A spot account.
#[derive(Debug, Clone, PartialEq, Eq)]
pub struct SpotAccount {
    /// Account ID
    pub id: Vec<u8>,
    /// client id
    pub cid: Vec<u8>,
    /// Balances of the account with asset id as key and balance as value
    pub balances: ByteMap<u64>,
    /// state hash of the account
    pub state_hash: Vec<u8>,
}

/// Errors of spot accounts.
#[derive(Debug, Clone, Copy, PartialEq, Eq, Structural)]
pub enum SpotAccountError {
    AssetNotFound,
    BalanceNotEnough,
}

impl AccountBalances for SpotAccount {
    fn balances(&self) -> (r: &ByteMap<u64>)
        ensures
            *r == self.balances,
    {
        &self.balances
    }
}

impl Default for SpotAccount {
    /// An account with empty ids, no balance and an empty state hash.
    fn default() -> (a: Self)
        ensures
            a.id@ == Seq::<u8>::empty(),
            a.cid@ == Seq::<u8>::empty(),
            a.balances.wf(),
            a.balances@ == Map::<Seq<u8>, u64>::empty(),
            a.state_hash@ == Seq::<u8>::empty(),
    {
        SpotAccount::new(Vec::new(), Vec::new())
    }
}

impl SpotAccount {
    /// A new account `id` of client `cid`, with no balance.
    pub fn new(id: Vec<u8>, cid: Vec<u8>) -> (a: Self)
        ensures
            a.id@ == id@,
            a.cid@ == cid@,
            a.balances.wf(),
            a.balances@ == Map::<Seq<u8>, u64>::empty(),
            a.state_hash@ == Seq::<u8>::empty(),
    {
        SpotAccount { id, cid, balances: ByteMap::new(), state_hash: Vec::new() }
    }

    /// Adds `amount` of `asset` (saturating).
    pub fn deposit(&mut self, asset: Vec<u8>, amount: u64)
        requires
            old(self).balances.wf(),
        ensures
            final(self).balances.wf(),
            final(self).balances@ == old(self).balances@.insert(asset@, sat_add(held(old(self).balances@, asset@), amount)),
            final(self).id == old(self).id,
            final(self).cid == old(self).cid,
            final(self).state_hash == old(self).state_hash,
    {
        let current = match self.balances.get(&asset) {
            Some(v) => *v,
            None => 0,
        };
        self.balances.insert(asset, current.saturating_add(amount));
    }

    /// Takes `amount` of `asset` away (saturating at 0).
    pub fn withdraw(&mut self, asset: Vec<u8>, amount: u64)
        requires
            old(self).balances.wf(),
        ensures
            final(self).balances.wf(),
            final(self).balances@ == old(self).balances@.insert(asset@, sat_sub(held(old(self).balances@, asset@), amount)),
            final(self).id == old(self).id,
            final(self).cid == old(self).cid,
            final(self).state_hash == old(self).state_hash,
    {
        let current = match self.balances.get(&asset) {
            Some(v) => *v,
            None => 0,
        };
        self.balances.insert(asset, current.saturating_sub(amount));
    }

    /// Moves `amount` from the balance of `asset` to the balance under key
    /// `to`, both saturating; an absent `asset` is recorded as 0 and an absent
    /// `to` as `amount`.
    pub fn transfer(&mut self, asset: Vec<u8>, _from: Vec<u8>, to: Vec<u8>, amount: u64) -> (r: Result<(), SpotAccountError>)
        requires
            old(self).balances.wf(),
        ensures
            r is Ok,
            final(self).balances.wf(),
            final(self).balances@ == transferred(old(self).balances@, asset@, to@, amount),
            final(self).id == old(self).id,
            final(self).cid == old(self).cid,
            final(self).state_hash == old(self).state_hash,
    {
        let from_amount = match self.balances.get(&asset) {
            Some(v) => v.saturating_sub(amount),
            None => 0,
        };
        self.balances.insert(asset, from_amount);
        let to_amount = match self.balances.get(&to) {
            Some(v) => v.saturating_add(amount),
            None => amount,
        };
        self.balances.insert(to, to_amount);
        Ok(())
    }

    /// Stores the hash of the current balances as the state hash.
    pub fn update_state_hash(&mut self)
        ensures
            final(self).state_hash@ == blake3_digest(state_bytes(old(self).balances.entries@)),
            final(self).balances == old(self).balances,
            final(self).id == old(self).id,
            final(self).cid == old(self).cid,
    {
        self.state_hash = self.hash_state();
    }

    /// The BLAKE3 hash of the balances: each asset id followed by the 8
    /// little-endian bytes of its amount, in the order of the entries.
    pub fn hash_state(&self) -> (h: Vec<u8>)
        ensures
            h@ == blake3_digest(state_bytes(self.balances.entries@)),
            h@.len() == 32,
    {
        hash_balances(&self.balances)
    }
}

} // verus!
