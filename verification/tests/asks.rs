use orderbook_store::{
    ask_key, asks, Addr, Ask, AskKey, SaleType, StoreError, Timestamp, WriteOp,
};

fn ask(collection: &str, token_id: u32, seller: &str, price: u128) -> Ask {
    Ask {
        sale_type: SaleType::FixedPrice,
        collection: Addr::unchecked(collection),
        token_id,
        seller: Addr::unchecked(seller),
        price,
        funds_recipient: None,
        reserve_for: None,
        finders_fee_bps: Some(250),
        expires_at: Timestamp::from_seconds(1_700_000_000),
        is_active: true,
    }
}

fn tokens(found: &[(&AskKey, &Ask)]) -> Vec<u32> {
    found.iter().map(|(_, a)| a.token_id).collect()
}

fn prices(found: &[(&AskKey, &Ask)]) -> Vec<u128> {
    found.iter().map(|(_, a)| a.price).collect()
}

#[test]
fn sale_type_is_written_in_snake_case() {
    assert_eq!(SaleType::FixedPrice.to_string(), "fixed_price");
    assert_eq!(SaleType::Auction.to_string(), "auction");
}

#[test]
fn ask_key_pairs_collection_and_token() {
    let c = Addr::unchecked("collection");
    let key: AskKey = ask_key(&c, 7);
    assert_eq!(key, (Addr::unchecked("collection"), 7));
}

#[test]
fn empty_ask_store_has_nothing() {
    let book = asks();
    let c = Addr::unchecked("c");
    assert_eq!(book.len(), 0);
    assert!(book.load(&ask_key(&c, 1)).is_none());
    assert_eq!(book.get(&ask_key(&c, 1)), Err(StoreError::NotFound));
    assert!(book.list_by_collection(&c, None, None, 10).is_empty());
    assert!(book.list_by_collection_price(&c, None, None, 10).is_empty());
    assert!(book.list_by_seller(&c, None, None, 10).is_empty());
}

#[test]
fn put_then_get_returns_the_ask() {
    let mut book = asks();
    let a = ask("c", 7, "alice", 100);
    book.put(a.clone());
    let c = Addr::unchecked("c");
    assert_eq!(book.get(&ask_key(&c, 7)), Ok(&a));
    assert_eq!(book.load(&ask_key(&c, 7)), Some(&a));
    assert!(book.has(&ask_key(&c, 7)));
    assert!(!book.has(&ask_key(&c, 8)));
    assert_eq!(book.len(), 1);
}

#[test]
fn at_most_one_ask_per_token() {
    let mut book = asks();
    book.put(ask("c", 7, "alice", 100));
    book.put(ask("c", 7, "bob", 150));
    let c = Addr::unchecked("c");
    assert_eq!(book.len(), 1);
    assert_eq!(book.get(&ask_key(&c, 7)).unwrap().seller, Addr::unchecked("bob"));
    assert!(book.list_by_seller(&Addr::unchecked("alice"), None, None, 10).is_empty());
    assert_eq!(tokens(&book.list_by_seller(&Addr::unchecked("bob"), None, None, 10)), vec![7]);
    assert_eq!(prices(&book.list_by_collection_price(&c, None, None, 10)), vec![150]);
}

#[test]
fn insert_refuses_a_taken_key() {
    let mut book = asks();
    let c = Addr::unchecked("c");
    assert_eq!(book.insert(ask_key(&c, 7), ask("c", 7, "alice", 100)), Ok(()));
    assert_eq!(
        book.insert(ask_key(&c, 7), ask("c", 7, "bob", 1)),
        Err(StoreError::Duplicate)
    );
    assert_eq!(book.get(&ask_key(&c, 7)).unwrap().seller, Addr::unchecked("alice"));
    assert_eq!(prices(&book.list_by_collection_price(&c, None, None, 10)), vec![100]);
    assert!(book.list_by_seller(&Addr::unchecked("bob"), None, None, 10).is_empty());
}

#[test]
fn delete_of_absent_ask_is_not_found() {
    let mut book = asks();
    book.put(ask("c", 7, "alice", 100));
    let c = Addr::unchecked("c");
    assert_eq!(book.delete(&c, 8), Err(StoreError::NotFound));
    assert_eq!(book.delete(&Addr::unchecked("d"), 7), Err(StoreError::NotFound));
    assert_eq!(book.len(), 1);
    assert_eq!(tokens(&book.list_by_collection(&c, None, None, 10)), vec![7]);
}

#[test]
fn delete_removes_every_index_entry() {
    let mut book = asks();
    let a = ask("c", 7, "alice", 100);
    book.put(a.clone());
    book.put(ask("c", 8, "alice", 90));
    let c = Addr::unchecked("c");
    assert_eq!(book.delete(&c, 7), Ok(a));
    assert_eq!(book.len(), 1);
    assert_eq!(tokens(&book.list_by_collection(&c, None, None, 10)), vec![8]);
    assert_eq!(prices(&book.list_by_collection_price(&c, None, None, 10)), vec![90]);
    assert_eq!(tokens(&book.list_by_seller(&Addr::unchecked("alice"), None, None, 10)), vec![8]);
    assert_eq!(book.idx().collection.len(), 1);
    assert_eq!(book.idx().collection_price.len(), 1);
    assert_eq!(book.idx().seller.len(), 1);
}

#[test]
fn indices_follow_a_sequence_of_writes() {
    let mut book = asks();
    book.put(ask("c1", 1, "alice", 50));
    book.put(ask("c1", 2, "bob", 40));
    book.put(ask("c2", 1, "alice", 30));
    book.put(ask("c1", 3, "carol", 60));
    book.put(ask("c1", 2, "alice", 70));
    assert_eq!(book.delete(&Addr::unchecked("c1"), 1).map(|a| a.price), Ok(50));
    book.put(ask("c2", 9, "bob", 10));

    let c1 = Addr::unchecked("c1");
    let c2 = Addr::unchecked("c2");
    assert_eq!(tokens(&book.list_by_collection(&c1, None, None, 10)), vec![2, 3]);
    assert_eq!(tokens(&book.list_by_collection(&c2, None, None, 10)), vec![1, 9]);
    assert_eq!(prices(&book.list_by_collection_price(&c1, None, None, 10)), vec![60, 70]);
    assert_eq!(prices(&book.list_by_collection_price(&c2, None, None, 10)), vec![10, 30]);
    let of_alice = book.list_by_seller(&Addr::unchecked("alice"), None, None, 10);
    assert_eq!(
        of_alice
            .iter()
            .map(|(_, a)| (a.collection.as_str().to_string(), a.token_id))
            .collect::<Vec<_>>(),
        vec![("c1".to_string(), 2), ("c2".to_string(), 1)]
    );
    assert_eq!(tokens(&book.list_by_seller(&Addr::unchecked("bob"), None, None, 10)), vec![9]);
    assert_eq!(tokens(&book.list_by_seller(&Addr::unchecked("carol"), None, None, 10)), vec![3]);
    assert_eq!(book.len(), 4);
    assert_eq!(book.idx().collection.len(), 4);
    assert_eq!(book.idx().collection_price.len(), 4);
    assert_eq!(book.idx().seller.len(), 4);
}

#[test]
fn price_change_relocates_the_ask() {
    let mut book = asks();
    book.put(ask("c", 1, "alice", 100));
    book.put(ask("c", 2, "alice", 200));
    book.put(ask("c", 3, "alice", 300));
    let c = Addr::unchecked("c");
    assert_eq!(tokens(&book.list_by_collection_price(&c, None, None, 10)), vec![1, 2, 3]);

    let mut changed = book.get(&ask_key(&c, 1)).unwrap().clone();
    changed.price = 250;
    book.put(changed);
    let listed = book.list_by_collection_price(&c, None, None, 10);
    assert_eq!(tokens(&listed), vec![2, 1, 3]);
    assert_eq!(prices(&listed), vec![200, 250, 300]);
    assert_eq!(book.idx().collection_price.len(), 3);
    let c_price_100 = book.idx().collection_price.range(&c, None, None, 10);
    assert!(c_price_100.iter().all(|pk| book.get(pk).unwrap().price != 100));
}

#[test]
fn equal_prices_are_ordered_by_key() {
    let mut book = asks();
    book.put(ask("c", 9, "alice", 5));
    book.put(ask("c", 3, "bob", 5));
    book.put(ask("c", 6, "carol", 5));
    let c = Addr::unchecked("c");
    assert_eq!(tokens(&book.list_by_collection_price(&c, None, None, 10)), vec![3, 6, 9]);
}

#[test]
fn large_prices_order_numerically() {
    let mut book = asks();
    book.put(ask("c", 1, "alice", u128::MAX));
    book.put(ask("c", 2, "alice", 256));
    book.put(ask("c", 3, "alice", 255));
    book.put(ask("c", 4, "alice", 0));
    book.put(ask("c", 5, "alice", 1 << 64));
    let c = Addr::unchecked("c");
    assert_eq!(
        prices(&book.list_by_collection_price(&c, None, None, 10)),
        vec![0, 255, 256, 1 << 64, u128::MAX]
    );
}

#[test]
fn listing_is_paged_and_resumes() {
    let mut book = asks();
    for t in 1..=5u32 {
        book.put(ask("c", t, "alice", (10 * t) as u128));
    }
    book.put(ask("b", 1, "alice", 1));
    book.put(ask("d", 1, "alice", 1));
    let c = Addr::unchecked("c");
    let first = book.list_by_collection(&c, None, None, 2);
    assert_eq!(tokens(&first), vec![1, 2]);
    let after = ask_key(&c, 2);
    let second = book.list_by_collection(&c, Some(&after), None, 2);
    assert_eq!(tokens(&second), vec![3, 4]);
    let after = ask_key(&c, 4);
    let third = book.list_by_collection(&c, Some(&after), None, 2);
    assert_eq!(tokens(&third), vec![5]);
    let after = ask_key(&c, 5);
    assert!(book.list_by_collection(&c, Some(&after), None, 2).is_empty());
    assert!(book.list_by_collection(&c, None, None, 0).is_empty());

    let after = (30u128, ask_key(&c, 3));
    let rest = book.list_by_collection_price(&c, Some(&after), None, 10);
    assert_eq!(prices(&rest), vec![40, 50]);
    let after = (25u128, ask_key(&c, 0));
    let rest = book.list_by_collection_price(&c, Some(&after), None, 1);
    assert_eq!(prices(&rest), vec![30]);
}

#[test]
fn collections_with_a_common_prefix_stay_apart() {
    let mut book = asks();
    book.put(ask("ab", 1, "alice", 1));
    book.put(ask("a", 2, "alice", 2));
    book.put(ask("abc", 3, "alice", 3));
    book.put(ask("", 4, "alice", 4));
    assert_eq!(tokens(&book.list_by_collection(&Addr::unchecked("a"), None, None, 10)), vec![2]);
    assert_eq!(tokens(&book.list_by_collection(&Addr::unchecked("ab"), None, None, 10)), vec![1]);
    assert_eq!(tokens(&book.list_by_collection(&Addr::unchecked("abc"), None, None, 10)), vec![3]);
    assert_eq!(tokens(&book.list_by_collection(&Addr::unchecked(""), None, None, 10)), vec![4]);
    assert!(book.list_by_collection(&Addr::unchecked("b"), None, None, 10).is_empty());
}

#[test]
fn save_under_a_key_of_ones_choice_keeps_indices_exact() {
    let mut book = asks();
    let c = Addr::unchecked("c");
    book.save(ask_key(&c, 1), ask("other", 5, "alice", 10));
    assert!(book.list_by_collection(&c, None, None, 10).is_empty());
    let listed = book.list_by_collection(&Addr::unchecked("other"), None, None, 10);
    assert_eq!(tokens(&listed), vec![5]);
    assert_eq!(book.remove(&ask_key(&c, 1)).map(|a| a.token_id), Ok(5));
    assert!(book.list_by_collection(&Addr::unchecked("other"), None, None, 10).is_empty());
}

#[test]
fn resolve_reports_a_key_without_record() {
    let mut book = asks();
    book.put(ask("c", 1, "alice", 10));
    let c = Addr::unchecked("c");
    let k1 = ask_key(&c, 1);
    let k2 = ask_key(&c, 2);
    assert_eq!(book.resolve(vec![&k1]).map(|v| tokens(&v)), Ok(vec![1]));
    assert_eq!(
        book.resolve(vec![&k1, &k2]).map(|v| v.len()),
        Err(StoreError::StorageConsistency)
    );
    assert_eq!(book.resolve(vec![&k2]).map(|v| v.len()), Err(StoreError::StorageConsistency));
    assert_eq!(book.resolve(vec![]).map(|v| v.len()), Ok(0));
    let twice = book.records_of(vec![&k1, &k1]);
    assert_eq!(tokens(&twice), vec![1, 1]);
    assert!(twice.iter().all(|(k, _)| **k == k1));
}

#[test]
fn listings_give_each_record_with_its_key() {
    let mut book = asks();
    book.put(ask("c", 2, "alice", 20));
    book.put(ask("c", 1, "bob", 10));
    let c = Addr::unchecked("c");
    let listed = book.list_by_collection(&c, None, None, 10);
    assert_eq!(listed.len(), 2);
    assert_eq!(*listed[0].0, ask_key(&c, 1));
    assert_eq!(listed[0].1.seller, Addr::unchecked("bob"));
    assert_eq!(*listed[1].0, ask_key(&c, 2));
    assert_eq!(listed[1].1.seller, Addr::unchecked("alice"));
}

#[test]
fn ranges_end_before_their_upper_bound() {
    let mut book = asks();
    for t in 1..=6u32 {
        book.put(ask("c", t, "alice", (10 * t) as u128));
    }
    let c = Addr::unchecked("c");
    let lo = ask_key(&c, 2);
    let hi = ask_key(&c, 5);
    assert_eq!(tokens(&book.list_by_collection(&c, Some(&lo), Some(&hi), 10)), vec![3, 4]);
    assert_eq!(tokens(&book.list_by_collection(&c, None, Some(&hi), 10)), vec![1, 2, 3, 4]);
    assert_eq!(tokens(&book.list_by_collection(&c, None, Some(&hi), 3)), vec![1, 2, 3]);
    assert_eq!(tokens(&book.list_by_collection(&c, Some(&hi), Some(&lo), 10)), Vec::<u32>::new());
    assert_eq!(tokens(&book.list_by_collection(&c, Some(&lo), Some(&lo), 10)), Vec::<u32>::new());

    let floor = (20u128, ask_key(&c, u32::MAX));
    let ceiling = (50u128, ask_key(&Addr::unchecked(""), 0));
    let between = book.list_by_collection_price(&c, Some(&floor), Some(&ceiling), 10);
    assert_eq!(prices(&between), vec![30, 40]);
}

#[test]
fn put_returns_the_ask_it_replaces() {
    let mut book = asks();
    let first = ask("c", 7, "alice", 100);
    assert_eq!(book.put(first.clone()), None);
    assert_eq!(book.put(ask("c", 7, "alice", 120)), Some(first));
    assert_eq!(book.put(ask("c", 8, "alice", 120)), None);
}

#[test]
fn a_transaction_makes_all_its_writes() {
    let mut book = asks();
    let c = Addr::unchecked("c");
    let done = book.transact(vec![
        WriteOp::Save(ask_key(&c, 1), ask("c", 1, "alice", 10)),
        WriteOp::Insert(ask_key(&c, 2), ask("c", 2, "bob", 5)),
        WriteOp::Save(ask_key(&c, 1), ask("c", 1, "alice", 30)),
        WriteOp::Insert(ask_key(&c, 3), ask("c", 3, "bob", 20)),
        WriteOp::Remove(ask_key(&c, 2)),
    ]);
    assert_eq!(done, Ok(()));
    assert_eq!(book.len(), 2);
    assert_eq!(tokens(&book.list_by_collection_price(&c, None, None, 10)), vec![3, 1]);
    assert_eq!(tokens(&book.list_by_seller(&Addr::unchecked("bob"), None, None, 10)), vec![3]);
    assert_eq!(book.idx().collection_price.len(), 2);
    assert_eq!(book.transact(vec![]), Ok(()));
    assert_eq!(book.len(), 2);
}

#[test]
fn a_failed_transaction_leaves_no_trace() {
    let mut book = asks();
    let c = Addr::unchecked("c");
    book.put(ask("c", 1, "alice", 10));
    book.put(ask("c", 2, "bob", 20));

    let done = book.transact(vec![
        WriteOp::Save(ask_key(&c, 1), ask("c", 1, "carol", 99)),
        WriteOp::Remove(ask_key(&c, 2)),
        WriteOp::Insert(ask_key(&c, 3), ask("c", 3, "carol", 5)),
        WriteOp::Remove(ask_key(&c, 9)),
        WriteOp::Save(ask_key(&c, 4), ask("c", 4, "carol", 1)),
    ]);
    assert_eq!(done, Err(StoreError::NotFound));
    assert_eq!(book.len(), 2);
    assert_eq!(book.get(&ask_key(&c, 1)), Ok(&ask("c", 1, "alice", 10)));
    assert_eq!(book.get(&ask_key(&c, 2)), Ok(&ask("c", 2, "bob", 20)));
    assert_eq!(book.get(&ask_key(&c, 3)), Err(StoreError::NotFound));
    assert_eq!(book.get(&ask_key(&c, 4)), Err(StoreError::NotFound));
    assert_eq!(prices(&book.list_by_collection_price(&c, None, None, 10)), vec![10, 20]);
    assert!(book.list_by_seller(&Addr::unchecked("carol"), None, None, 10).is_empty());
    assert_eq!(tokens(&book.list_by_seller(&Addr::unchecked("alice"), None, None, 10)), vec![1]);
    assert_eq!(book.idx().collection.len(), 2);
    assert_eq!(book.idx().collection_price.len(), 2);
    assert_eq!(book.idx().seller.len(), 2);

    let done = book.transact(vec![
        WriteOp::Remove(ask_key(&c, 1)),
        WriteOp::Insert(ask_key(&c, 2), ask("c", 2, "dave", 1)),
    ]);
    assert_eq!(done, Err(StoreError::Duplicate));
    assert_eq!(tokens(&book.list_by_collection(&c, None, None, 10)), vec![1, 2]);
    assert_eq!(book.get(&ask_key(&c, 2)).map(|a| a.price), Ok(20));
}

#[test]
fn records_come_in_key_order() {
    let mut book = asks();
    book.put(ask("b", 2, "alice", 1));
    book.put(ask("a", 9, "alice", 1));
    book.put(ask("b", 1, "alice", 1));
    let keys: Vec<AskKey> = (0..book.len()).map(|i| book.entry(i).0.clone()).collect();
    assert_eq!(
        keys,
        vec![
            ask_key(&Addr::unchecked("a"), 9),
            ask_key(&Addr::unchecked("b"), 1),
            ask_key(&Addr::unchecked("b"), 2)
        ]
    );
}
