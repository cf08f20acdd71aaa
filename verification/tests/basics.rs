use orderbook_store::{
    Addr, Ask, Bid, BlockInfo, Key, KeyOrder, MultiIndex, Order, OrderedTable, SaleType,
    StoreError, Timestamp,
};

fn block_at_nanos(nanos: u64) -> BlockInfo {
    BlockInfo { height: 10, time: Timestamp::from_nanos(nanos), chain_id: "chain".to_string() }
}

fn ask_expiring(nanos: u64) -> Ask {
    Ask {
        sale_type: SaleType::Auction,
        collection: Addr::unchecked("c"),
        token_id: 1,
        seller: Addr::unchecked("s"),
        price: 1,
        funds_recipient: Some(Addr::unchecked("r")),
        reserve_for: None,
        finders_fee_bps: None,
        expires_at: Timestamp::from_nanos(nanos),
        is_active: false,
    }
}

#[test]
fn timestamp_seconds_drop_the_nanoseconds() {
    let t = Timestamp::from_nanos(1_000_000_202);
    assert_eq!(t.nanos(), 1_000_000_202);
    assert_eq!(t.seconds(), 1);
    assert_eq!(Timestamp::from_nanos(999_999_999).seconds(), 0);
    assert_eq!(Timestamp::from_nanos(u64::MAX).seconds(), 18_446_744_073);
    assert_eq!(Timestamp::from_seconds(42).nanos(), 42_000_000_000);
    assert_eq!(Timestamp::from_seconds(42).seconds(), 42);
}

#[test]
fn an_ask_expires_at_its_expiry_and_not_before() {
    let a = ask_expiring(1_000);
    assert_eq!(a.expires_at(), Timestamp::from_nanos(1_000));
    assert!(!a.is_expired(&block_at_nanos(999)));
    assert!(a.is_expired(&block_at_nanos(1_000)));
    assert!(a.is_expired(&block_at_nanos(1_001)));
    assert!(!a.is_expired(&block_at_nanos(0)));
    assert!(a.is_expired(&block_at_nanos(u64::MAX)));
}

#[test]
fn a_bid_expires_at_its_expiry_and_not_before() {
    let b = Bid::new(
        Addr::unchecked("c"),
        1,
        Addr::unchecked("b"),
        1,
        None,
        Timestamp::from_nanos(5_000_000_000),
    );
    assert_eq!(b.expires_at(), Timestamp::from_nanos(5_000_000_000));
    assert!(!b.is_expired(&block_at_nanos(4_999_999_999)));
    assert!(b.is_expired(&block_at_nanos(5_000_000_000)));
    assert!(b.is_expired(&block_at_nanos(5_000_000_001)));
}

#[test]
fn the_active_flag_does_not_touch_expiry() {
    let mut a = ask_expiring(1_000);
    a.is_active = true;
    assert!(!a.is_expired(&block_at_nanos(999)));
    a.is_active = false;
    assert!(!a.is_expired(&block_at_nanos(999)));
    assert!(a.is_expired(&block_at_nanos(1_000)));
}

#[test]
fn clones_are_equal() {
    let a = ask_expiring(7);
    assert_eq!(a.clone(), a);
    let addr = Addr::unchecked("wasm1xyz");
    assert_eq!(addr.clone(), addr);
    assert_eq!(addr.duplicate(), addr);
}

#[test]
fn addresses_are_ordered_by_their_bytes() {
    let order = |a: &str, b: &str| Addr::unchecked(a).compare(&Addr::unchecked(b));
    assert_eq!(order("a", "b"), KeyOrder::Less);
    assert_eq!(order("b", "a"), KeyOrder::Greater);
    assert_eq!(order("abc", "abc"), KeyOrder::Equal);
    assert_eq!(order("", ""), KeyOrder::Equal);
    assert_eq!(order("", "a"), KeyOrder::Less);
    assert_eq!(order("ab", "abc"), KeyOrder::Less);
    assert_eq!(order("abd", "abc"), KeyOrder::Greater);
    assert_eq!(order("b", "abc"), KeyOrder::Greater);
    assert_eq!(order("Z", "a"), KeyOrder::Less);
    assert_eq!(order("z", "é"), KeyOrder::Less);
    for (a, b) in [("a", "b"), ("ab", "a"), ("x", "x"), ("", "q"), ("é", "z")] {
        let expected = match a.cmp(b) {
            std::cmp::Ordering::Less => KeyOrder::Less,
            std::cmp::Ordering::Equal => KeyOrder::Equal,
            std::cmp::Ordering::Greater => KeyOrder::Greater,
        };
        assert_eq!(order(a, b), expected);
    }
}

#[test]
fn addresses_show_their_text() {
    let a = Addr::unchecked("wasm1abc");
    assert_eq!(a.as_str(), "wasm1abc");
    assert_eq!(a.as_bytes(), b"wasm1abc");
    assert!(a.same(&Addr::unchecked("wasm1abc")));
    assert!(!a.same(&Addr::unchecked("wasm1abd")));
}

#[test]
fn numbers_and_tuples_are_ordered_component_by_component() {
    assert_eq!(3u32.compare(&4), KeyOrder::Less);
    assert_eq!(4u64.compare(&4), KeyOrder::Equal);
    assert_eq!(u128::MAX.compare(&0), KeyOrder::Greater);
    assert_eq!((1u32, 9u64).compare(&(2, 0)), KeyOrder::Less);
    assert_eq!((2u32, 9u64).compare(&(2, 10)), KeyOrder::Less);
    assert_eq!((2u32, 9u64).compare(&(2, 9)), KeyOrder::Equal);
    assert_eq!((2u32, 9u64, 1u128).compare(&(2, 9, 0)), KeyOrder::Greater);
    assert_eq!((2u32, 8u64, 1u128).compare(&(2, 9, 0)), KeyOrder::Less);
    assert_eq!(
        (Addr::unchecked("a"), 300u32).compare(&(Addr::unchecked("a"), 4)),
        KeyOrder::Greater
    );
    assert_eq!((7u32, 8u64).duplicate(), (7, 8));
}

#[test]
fn ordered_table_keeps_keys_sorted() {
    let mut table: OrderedTable<u32, &str> = OrderedTable::new();
    assert_eq!(table.put(5, "five"), None);
    assert_eq!(table.put(1, "one"), None);
    assert_eq!(table.put(9, "nine"), None);
    assert_eq!(table.put(5, "FIVE"), Some("five"));
    assert_eq!(table.len(), 3);
    assert_eq!(table.get(&5), Some(&"FIVE"));
    assert_eq!(table.get(&2), None);
    let keys: Vec<u32> = (0..table.len()).map(|i| *table.entry(i).0).collect();
    assert_eq!(keys, vec![1, 5, 9]);
    assert_eq!(table.lower_bound(&0), 0);
    assert_eq!(table.lower_bound(&5), 1);
    assert_eq!(table.lower_bound(&6), 2);
    assert_eq!(table.lower_bound(&10), 3);
    assert_eq!(table.take(&1), Some("one"));
    assert_eq!(table.take(&1), None);
    assert_eq!(table.lower_bound(&5), 0);
}

#[test]
fn multi_index_lists_one_prefix() {
    let mut idx: MultiIndex<u32, u64, u64> = MultiIndex::new();
    idx.add(2, 20, 20);
    idx.add(1, 11, 11);
    idx.add(2, 21, 21);
    idx.add(3, 30, 30);
    idx.add(2, 19, 19);
    assert_eq!(idx.len(), 5);
    assert_eq!(idx.range(&2, None, None, 10), vec![&19, &20, &21]);
    assert_eq!(idx.range(&2, Some(&19), None, 10), vec![&20, &21]);
    assert_eq!(idx.range(&2, Some(&20), None, 1), vec![&21]);
    assert_eq!(idx.range(&2, Some(&21), None, 1), Vec::<&u64>::new());
    assert_eq!(idx.range(&2, Some(&0), None, 2), vec![&19, &20]);
    assert_eq!(idx.range(&0, None, None, 10), Vec::<&u64>::new());
    assert_eq!(idx.range(&4, None, None, 10), Vec::<&u64>::new());
    assert_eq!(idx.range(&2, Some(&19), Some(&21), 10), vec![&20]);
    assert_eq!(idx.range(&2, None, Some(&19), 10), Vec::<&u64>::new());
    assert_eq!(idx.range(&2, None, Some(&100), 2), vec![&19, &20]);
    idx.retract(2, 20);
    idx.retract(2, 99);
    assert_eq!(idx.range(&2, None, None, 10), vec![&19, &21]);
    assert_eq!(idx.len(), 4);
}

#[test]
fn errors_have_stable_names() {
    assert_eq!(StoreError::NotFound.kind(), "not_found");
    assert_eq!(StoreError::Duplicate.kind(), "duplicate");
    assert_eq!(StoreError::InvalidRange.kind(), "invalid_range");
    assert_eq!(StoreError::CapacityExceeded.kind(), "capacity_exceeded");
    assert_eq!(StoreError::StorageConsistency.kind(), "storage_consistency");
}

#[test]
fn multi_index_entries_come_in_key_order() {
    let mut idx: MultiIndex<u32, u64, u64> = MultiIndex::new();
    idx.add(2, 20, 1);
    idx.add(1, 30, 2);
    idx.add(2, 10, 3);
    idx.add(2, 10, 4);
    assert_eq!(idx.len(), 3);
    let all: Vec<((u32, u64), u64)> = (0..idx.len()).map(|i| (*idx.entry(i).0, *idx.entry(i).1)).collect();
    assert_eq!(all, vec![((1, 30), 2), ((2, 10), 4), ((2, 20), 1)]);
}
