use offgrid_primitives::account::option::OptionsAccount;
use offgrid_primitives::account::spot::SpotAccount;
use offgrid_primitives::spot::account::Account;

fn state_bytes(entries: &[(Vec<u8>, u64)]) -> Vec<u8> {
    let mut out = Vec::new();
    for (k, v) in entries {
        out.extend_from_slice(k);
        out.extend_from_slice(&v.to_le_bytes());
    }
    out
}

#[test]
fn deposit_withdraw_saturate() {
    let mut a = SpotAccount::new(vec![1], vec![2]);
    a.deposit(vec![9], 10);
    a.deposit(vec![9], u64::MAX);
    assert_eq!(a.balances.get(&vec![9]), Some(&u64::MAX));
    a.withdraw(vec![8], 5);
    assert_eq!(a.balances.get(&vec![8]), Some(&0));
}

#[test]
fn withdraw_undoes_deposit() {
    let mut a = SpotAccount::new(vec![1], vec![2]);
    a.deposit(vec![9], 40);
    a.deposit(vec![9], 2);
    a.withdraw(vec![9], 2);
    assert_eq!(a.balances.get(&vec![9]), Some(&40));
}

#[test]
fn transfer_moves_between_keys() {
    let mut a = SpotAccount::new(vec![1], vec![2]);
    a.deposit(vec![9], 40);
    assert_eq!(a.transfer(vec![9], vec![1], vec![7], 15), Ok(()));
    assert_eq!(a.balances.get(&vec![9]), Some(&25));
    assert_eq!(a.balances.get(&vec![7]), Some(&15));
    // an absent asset is recorded as 0, the amount still credited
    assert_eq!(a.transfer(vec![5], vec![1], vec![7], 3), Ok(()));
    assert_eq!(a.balances.get(&vec![5]), Some(&0));
    assert_eq!(a.balances.get(&vec![7]), Some(&18));
}

#[test]
fn state_hash_is_blake3_of_the_balances() {
    let mut a = SpotAccount::new(vec![1], vec![2]);
    a.deposit(vec![9, 9], 40);
    a.deposit(vec![3], 7);
    let expected = blake3::hash(&state_bytes(&[(vec![9, 9], 40), (vec![3], 7)])).as_bytes().to_vec();
    assert_eq!(a.hash_state(), expected);
    a.update_state_hash();
    assert_eq!(a.state_hash, expected);
    let mut o = OptionsAccount::default();
    o.balances.insert(vec![3], 7);
    o.update_state_hash();
    assert_eq!(o.state_hash, blake3::hash(&state_bytes(&[(vec![3], 7)])).as_bytes().to_vec());
    assert_ne!(o.state_hash, state_bytes(&[(vec![3], 7)]));
}

#[test]
fn market_account_balances() {
    let mut a = Account::new(vec![1]);
    a.deposit(vec![9], 10);
    a.withdraw(vec![9], 4);
    assert_eq!(a.balances.get(&vec![9]), Some(&6));
    assert_eq!(a.transfer(vec![9], vec![1], vec![8], 6), Ok(()));
    assert_eq!(a.balances.get(&vec![9]), Some(&0));
    assert_eq!(a.balances.get(&vec![8]), Some(&6));
}
