//! Accounts and their balances.
use vstd::prelude::*;
use crate::bytes::{ByteMap, copy_bytes, views_of};

pub mod spot;
pub mod option;

verus! {

broadcast use vstd::seq_lib::group_seq_properties;

/// Read access to the balances of an account: asset id -> amount.
pub trait AccountBalances {
    fn balances(&self) -> &ByteMap<u64>;
}

/// The BLAKE3 digest of `data`.
pub uninterp spec fn blake3_digest(data: Seq<u8>) -> Seq<u8>;

/// `blake3::hash`: the BLAKE3 digest of `data`, 32 bytes that depend on
/// `data` alone. (Its documentation shows it equal to feeding the same bytes
/// to `blake3::Hasher` and finalizing.) Nothing more is stated of its value.
#[verifier::external_body]
pub(crate) fn blake3_hash(data: &Vec<u8>) -> (h: Vec<u8>)
    ensures
        h@ == blake3_digest(data@),
        h@.len() == 32,
{
    blake3::hash(data).as_bytes().to_vec()
}

/// The 8 bytes of `v`, least significant first.
pub open spec fn le_bytes(v: u64) -> Seq<u8> {
    le_digits(v as nat, 8)
}

/// The `n` lowest base-256 digits of `v`, least significant first.
pub open spec fn le_digits(v: nat, n: nat) -> Seq<u8>
    decreases n,
{
    if n == 0 { Seq::empty() } else { seq![(v % 256) as u8] + le_digits(v / 256, (n - 1) as nat) }
}

/// The bytes hashed for a state: each asset id followed by the 8 bytes of
/// its amount, in the order of `entries`.
pub open spec fn state_bytes(entries: Seq<(Vec<u8>, u64)>) -> Seq<u8>
    decreases entries.len(),
{
    if entries.len() == 0 {
        Seq::empty()
    } else {
        state_bytes(entries.drop_last()) + entries.last().0@ + le_bytes(entries.last().1)
    }
}

/// Appends the 8 bytes of `v`, least significant first.
pub fn push_le_bytes(out: &mut Vec<u8>, v: u64)
    ensures
        final(out)@ == old(out)@ + le_bytes(v),
{
    let mut x = v;
    let mut i: u64 = 0;
    while i < 8
        invariant
            i <= 8,
            out@ + le_digits(x as nat, (8 - i) as nat) == old(out)@ + le_bytes(v),
        decreases 8 - i,
    {
        let ghost before = out@;
        proof {
            assert(le_digits(x as nat, (8 - i) as nat) == seq![(x % 256) as u8] + le_digits((x / 256) as nat, (8 - i - 1) as nat));
        }
        out.push((x % 256) as u8);
        proof {
            assert(out@ + le_digits((x / 256) as nat, (8 - i - 1) as nat)
                =~= before + (seq![(x % 256) as u8] + le_digits((x / 256) as nat, (8 - i - 1) as nat)));
        }
        x = x / 256;
        i = i + 1;
    }
    proof { assert(le_digits(x as nat, 0) =~= Seq::<u8>::empty()); assert(out@ + Seq::<u8>::empty() =~= out@); }
}

/// The digest of a balance state: BLAKE3 over each asset id followed by the
/// 8 little-endian bytes of its amount, in the order of the entries.
pub fn hash_balances(balances: &ByteMap<u64>) -> (h: Vec<u8>)
    ensures
        h@ == blake3_digest(state_bytes(balances.entries@)),
        h@.len() == 32,
{
    let mut data: Vec<u8> = Vec::new();
    let mut i: usize = 0;
    while i < balances.entries.len()
        invariant
            i <= balances.entries@.len(),
            data@ == state_bytes(balances.entries@.take(i as int)),
        decreases balances.entries@.len() - i,
    {
        let ghost before = data@;
        let entry = &balances.entries[i];
        let mut j: usize = 0;
        while j < entry.0.len()
            invariant
                j <= entry.0@.len(),
                data@ == before + entry.0@.take(j as int),
            decreases entry.0@.len() - j,
        {
            data.push(entry.0[j]);
            proof { assert(entry.0@.take(j + 1) =~= entry.0@.take(j as int).push(entry.0@[j as int])); }
            j = j + 1;
        }
        push_le_bytes(&mut data, entry.1);
        proof {
            let t = balances.entries@.take(i + 1);
            assert(t.drop_last() =~= balances.entries@.take(i as int));
            assert(entry.0@.take(j as int) =~= entry.0@);
            assert(data@ =~= state_bytes(t));
        }
        i = i + 1;
    }
    proof { assert(balances.entries@.take(i as int) =~= balances.entries@); }
    blake3_hash(&data)
}

/// The index of the last of `accounts` that holds `asset`, -1 when none does.
pub open spec fn last_holder(accounts: Seq<Map<Seq<u8>, u64>>, asset: Seq<u8>) -> int
    decreases accounts.len(),
{
    if accounts.len() == 0 {
        -1
    } else if accounts.last().contains_key(asset) {
        accounts.len() - 1
    } else {
        last_holder(accounts.drop_last(), asset)
    }
}

/// The last holder is an index of `accounts` that holds `asset`.
pub proof fn lemma_last_holder(accounts: Seq<Map<Seq<u8>, u64>>, asset: Seq<u8>)
    ensures
        -1 <= last_holder(accounts, asset) < accounts.len(),
        last_holder(accounts, asset) >= 0 ==> accounts[last_holder(accounts, asset)].contains_key(asset),
    decreases accounts.len(),
{
    if accounts.len() > 0 && !accounts.last().contains_key(asset) {
        lemma_last_holder(accounts.drop_last(), asset);
    }
}

/// The balances collected from `accounts` for `asset_ids`: each asset id
/// held by an account, with the amount of the last account holding it.
pub open spec fn collected(accounts: Seq<Map<Seq<u8>, u64>>, asset_ids: Seq<Seq<u8>>) -> Map<Seq<u8>, u64> {
    Map::new(
        |a: Seq<u8>| asset_ids.contains(a) && last_holder(accounts, a) >= 0,
        |a: Seq<u8>| accounts[last_holder(accounts, a)][a],
    )
}

/// `m` with the amounts that `account` holds for the asset ids of `assets`.
pub open spec fn with_held(m: Map<Seq<u8>, u64>, account: Map<Seq<u8>, u64>, assets: Seq<Seq<u8>>) -> Map<Seq<u8>, u64> {
    Map::new(
        |a: Seq<u8>| m.contains_key(a) || (assets.contains(a) && account.contains_key(a)),
        |a: Seq<u8>| if assets.contains(a) && account.contains_key(a) { account[a] } else { m[a] },
    )
}

/// The balance maps of `accounts`.
pub open spec fn balance_maps(accounts: Seq<&ByteMap<u64>>) -> Seq<Map<Seq<u8>, u64>> {
    accounts.map_values(|a: &ByteMap<u64>| a@)
}

/// Collects the balances of `asset_ids` from `accounts`: each asset id held
/// by an account, with the amount of the last account holding it, once.
pub fn collect_balances(accounts: &[&ByteMap<u64>], asset_ids: &[Vec<u8>]) -> (r: Vec<(Vec<u8>, u64)>)
    requires
        forall|i: int| 0 <= i < accounts@.len() ==> (#[trigger] accounts@[i]).wf(),
    ensures
        (ByteMap { entries: r }).wf(),
        (ByteMap { entries: r })@ == collected(balance_maps(accounts@), views_of(asset_ids@)),
{
    let ghost accts = balance_maps(accounts@);
    let ghost assets = views_of(asset_ids@);
    let mut balances: ByteMap<u64> = ByteMap::new();
    let mut i: usize = 0;
    proof { assert(balances@ =~= collected(accts.take(0), assets)); }
    while i < accounts.len()
        invariant
            i <= accounts@.len(),
            accts == balance_maps(accounts@),
            assets == views_of(asset_ids@),
            forall|k: int| 0 <= k < accounts@.len() ==> (#[trigger] accounts@[k]).wf(),
            balances.wf(),
            balances@ == collected(accts.take(i as int), assets),
        decreases accounts@.len() - i,
    {
        let account = accounts[i];
        let ghost m0 = balances@;
        let mut j: usize = 0;
        proof { assert(with_held(m0, account@, assets.take(0)) =~= m0); }
        while j < asset_ids.len()
            invariant
                i < accounts@.len(),
                j <= asset_ids@.len(),
                account == accounts@[i as int],
                account.wf(),
                assets == views_of(asset_ids@),
                balances.wf(),
                balances@ == with_held(m0, account@, assets.take(j as int)),
            decreases asset_ids@.len() - j,
        {
            let ghost b0 = balances@;
            let asset_id = &asset_ids[j];
            match account.get(asset_id) {
                Some(amount) => {
                    balances.insert(copy_bytes(asset_id), *amount);
                    proof {
                        assert(assets.take(j + 1) =~= assets.take(j as int).push(asset_id@));
                        assert(balances@ =~= with_held(m0, account@, assets.take(j + 1)));
                    }
                },
                None => {
                    proof {
                        assert(assets.take(j + 1) =~= assets.take(j as int).push(asset_id@));
                        assert(balances@ =~= with_held(m0, account@, assets.take(j + 1)));
                    }
                },
            }
            j = j + 1;
        }
        proof {
            assert(assets.take(j as int) =~= assets);
            let t = accts.take(i + 1);
            assert(t.drop_last() =~= accts.take(i as int));
            assert(t.last() == account@);
            assert forall|a: Seq<u8>| #[trigger] balances@.contains_key(a) == collected(t, assets).contains_key(a)
                && (balances@.contains_key(a) ==> balances@[a] == collected(t, assets)[a]) by {
                let lh = last_holder(accts.take(i as int), a);
                lemma_last_holder(accts.take(i as int), a);
                assert(last_holder(t, a) == (if account@.contains_key(a) { i as int } else { lh }));
                if lh >= 0 && !account@.contains_key(a) {
                    assert(t[lh] == accts.take(i as int)[lh]);
                }
            }
            assert(balances@ =~= collected(t, assets));
        }
        i = i + 1;
    }
    proof { assert(accts.take(i as int) =~= accts); }
    balances.entries
}

} // verus!
