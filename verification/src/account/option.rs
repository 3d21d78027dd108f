//! Options accounts.
use vstd::prelude::*;
use crate::account::{AccountBalances, blake3_digest, hash_balances, state_bytes};
use crate::bytes::ByteMap;

verus! {

/// An options account.
#[derive(Debug, Clone, PartialEq, Eq)]
pub struct OptionsAccount {
    /// Account ID
    pub id: Vec<u8>,
    /// Balances of the account with asset id as key and balance as value
    pub balances: ByteMap<u64>,
    /// state hash of the account
    pub state_hash: Vec<u8>,
}

impl AccountBalances for OptionsAccount {
    fn balances(&self) -> (r: &ByteMap<u64>)
        ensures
            *r == self.balances,
    {
        &self.balances
    }
}

impl Default for OptionsAccount {
    /// An account with an empty id, no balance and an empty state hash.
    fn default() -> (a: Self)
        ensures
            a.id@ == Seq::<u8>::empty(),
            a.balances.wf(),
            a.balances@ == Map::<Seq<u8>, u64>::empty(),
            a.state_hash@ == Seq::<u8>::empty(),
    {
        OptionsAccount { id: Vec::new(), balances: ByteMap::new(), state_hash: Vec::new() }
    }
}

impl OptionsAccount {
    /// Stores the hash of the current balances as the state hash.
    pub fn update_state_hash(&mut self)
        ensures
            final(self).state_hash@ == blake3_digest(state_bytes(old(self).balances.entries@)),
            final(self).balances == old(self).balances,
            final(self).id == old(self).id,
    {
        self.state_hash = self.hash_state();
    }

    /// The BLAKE3 hash of the balances: each asset id followed by the 8
    /// little-endian bytes of its amount, in the order of the entries.
    pub fn hash_state(&self) -> (h: Vec<u8>)
        ensures
            h@ == blake3_digest(state_bytes(self.balances.entries@)),
            h@.len() == 32,
    {
        hash_balances(&self.balances)
    }
}

} // verus!
