use offgrid_primitives::orders::{L3, L3Error, Node};

fn queued_three() -> L3 {
    let mut l3 = L3::new();
    for (cid, owner, amount) in [("1", "alice", 50u64), ("2", "bob", 75), ("3", "carol", 20)] {
        let (id, found) = l3.create_order(cid.into(), owner.into(), 100, amount, amount, 0).unwrap();
        assert!(!found);
        l3.insert_id(100, id, amount as u128).unwrap();
    }
    l3
}

#[test]
fn ids_count_up_from_one_and_wrap() {
    let mut l3 = L3::new();
    assert_eq!(l3.next_make_id(), 1);
    assert_eq!(l3.create_order(vec![1], vec![2], 10, 5, 5, 0), Ok((1, false)));
    assert_eq!(l3.next_make_id(), 2);
    l3.count = u32::MAX;
    assert_eq!(l3.next_make_id(), 1);
}

#[test]
fn create_order_rejects_price_zero() {
    let mut l3 = L3::new();
    assert_eq!(l3.create_order(vec![1], vec![2], 0, 5, 5, 0), Err(L3Error::PriceIsZero));
    assert_eq!(l3.count, 0);
}

#[test]
fn reused_id_keeps_displaced_node_as_dormant() {
    let mut l3 = queued_three();
    l3.count = 1;
    assert_eq!(l3.create_order(vec![9], vec![9], 100, 7, 7, 0), Ok((2, true)));
    assert_eq!(l3.dormant_order, Some(Node { prev: Some(1), next: Some(3) }));
    assert_eq!(l3.order_nodes.get(&2), Some(&Node { prev: None, next: None }));
    assert_eq!(l3.get_order(2).unwrap().owner, vec![9]);
    assert_eq!(l3.get_order_ids(100, 5), vec![1, 3]);
}

#[test]
fn zero_id_is_refused() {
    let mut l3 = queued_three();
    assert_eq!(l3.delete_order(0), Err(L3Error::OrderIdIsZero(0)));
    assert_eq!(l3.decrease_order(0, 1, 1, false), Err(L3Error::OrderIdIsZero(0)));
}

#[test]
fn decrease_of_unknown_order_takes_nothing() {
    let mut l3 = queued_three();
    assert_eq!(l3.decrease_order(42, 10, 1, false), Ok((0, None)));
}

#[test]
fn decrease_with_clear_deletes_whole_order() {
    let mut l3 = queued_three();
    assert_eq!(l3.decrease_order(2, 10, 1, true), Ok((75, None)));
    assert!(l3.get_order(2).is_err());
    assert_eq!(l3.get_order_ids(100, 5), vec![1, 3]);
}

#[test]
fn get_order_ids_returns_at_least_the_head() {
    let l3 = queued_three();
    assert_eq!(l3.get_order_ids(100, 0), vec![1]);
    assert_eq!(l3.get_order_ids(100, 2), vec![1, 2]);
    assert_eq!(l3.get_order_ids(200, 2), Vec::<u32>::new());
}

#[test]
fn get_orders_follow_the_queue() {
    let l3 = queued_three();
    let owners: Vec<Vec<u8>> = l3.get_orders(100, 3).into_iter().map(|o| o.owner).collect();
    assert_eq!(owners, vec![b"alice".to_vec(), b"bob".to_vec(), b"carol".to_vec()]);
}

#[test]
fn get_orders_in_range_takes_a_window() {
    let l3 = queued_three();
    let window: Vec<Vec<u8>> = l3.get_orders_in_range(100, 1, 3).into_iter().map(|o| o.cid).collect();
    assert_eq!(window, vec![b"2".to_vec(), b"3".to_vec()]);
    assert!(l3.get_orders_in_range(100, 2, 2).is_empty());
    assert!(l3.get_orders_in_range(100, 5, 9).is_empty());
}

#[test]
fn next_follows_the_links() {
    let l3 = queued_three();
    assert_eq!(l3.next(100, 1), Some(2));
    assert_eq!(l3.next(100, 3), None);
    assert_eq!(l3.next(100, 7), None);
}

#[test]
fn default_storage_has_no_dust_limit() {
    let l3 = L3::default();
    assert_eq!(l3.dust, 0);
    assert_eq!(L3::new().dust, 1);
}
