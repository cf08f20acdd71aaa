use orderbook_store::params::{config, sudo_params, tokens};
use orderbook_store::{
    ask_key, asks, Addr, Ask, BlockInfo, Coin, Decimal, Duration, ExpiryRange, Item, SaleType,
    State, StoreError, SudoParams, Timestamp, TokenInfo,
};

fn block_at(seconds: u64) -> BlockInfo {
    BlockInfo { height: 1, time: Timestamp::from_seconds(seconds), chain_id: "test".to_string() }
}

fn params() -> SudoParams {
    SudoParams {
        trading_fee_percent: Decimal::percent(2),
        ask_expiry: ExpiryRange::new(3600, 2_592_000),
        bid_expiry: ExpiryRange::new(3600, 2_592_000),
        operators: vec![Addr::unchecked("operator")],
        max_finders_fee_percent: Decimal::percent(10),
        min_price: 5,
        stale_bid_duration: Duration::Time(100),
        bid_removal_reward_percent: Decimal::percent(1),
        listing_fee: 7,
    }
}

#[test]
fn expiry_ten_seconds_out_is_rejected() {
    let mut place = sudo_params();
    place.save(params());
    let now = block_at(1_000_000);
    let expires = Timestamp::from_seconds(1_000_010);
    let mut book = asks();

    let range = place.load().unwrap().ask_expiry;
    let checked = range.is_valid(&now, expires);
    assert_eq!(checked, Err(StoreError::InvalidRange));
    if checked.is_ok() {
        book.put(Ask {
            sale_type: SaleType::FixedPrice,
            collection: Addr::unchecked("c"),
            token_id: 1,
            seller: Addr::unchecked("s"),
            price: 10,
            funds_recipient: None,
            reserve_for: None,
            finders_fee_bps: None,
            expires_at: expires,
            is_active: true,
        });
    }
    assert_eq!(book.len(), 0);
    assert_eq!(book.get(&ask_key(&Addr::unchecked("c"), 1)), Err(StoreError::NotFound));
}

#[test]
fn expiry_range_bounds_are_inclusive() {
    let range = ExpiryRange::new(3600, 2_592_000);
    let now = block_at(1_000);
    assert_eq!(range.is_valid(&now, Timestamp::from_seconds(1_000 + 3600)), Ok(()));
    assert_eq!(range.is_valid(&now, Timestamp::from_seconds(1_000 + 2_592_000)), Ok(()));
    assert_eq!(range.is_valid(&now, Timestamp::from_seconds(1_000 + 86_400)), Ok(()));
    assert_eq!(
        range.is_valid(&now, Timestamp::from_nanos((1_000 + 3600) * 1_000_000_000 - 1)),
        Err(StoreError::InvalidRange)
    );
    assert_eq!(
        range.is_valid(&now, Timestamp::from_nanos((1_000 + 2_592_000) * 1_000_000_000 + 1)),
        Err(StoreError::InvalidRange)
    );
    assert_eq!(range.is_valid(&now, Timestamp::from_seconds(999)), Err(StoreError::InvalidRange));
}

#[test]
fn expiry_range_does_not_overflow() {
    let range = ExpiryRange::new(u64::MAX, u64::MAX);
    let now = BlockInfo { height: 1, time: Timestamp::from_nanos(u64::MAX), chain_id: String::new() };
    assert_eq!(
        range.is_valid(&now, Timestamp::from_nanos(u64::MAX)),
        Err(StoreError::InvalidRange)
    );
    let wide = ExpiryRange::new(0, u64::MAX);
    assert_eq!(wide.is_valid(&now, Timestamp::from_nanos(u64::MAX)), Ok(()));
    assert_eq!(wide.is_valid(&now, Timestamp::from_nanos(0)), Err(StoreError::InvalidRange));
}

#[test]
fn expiry_range_must_not_be_inverted() {
    assert_eq!(ExpiryRange::new(1, 2).validate(), Ok(()));
    assert_eq!(ExpiryRange::new(2, 2).validate(), Ok(()));
    assert_eq!(ExpiryRange::new(3, 2).validate(), Err(StoreError::InvalidRange));
}

#[test]
fn decimal_percent_counts_in_atomics() {
    assert_eq!(Decimal::percent(0).atomics, 0);
    assert_eq!(Decimal::percent(2).atomics, 20_000_000_000_000_000);
    assert_eq!(Decimal::percent(100).atomics, 1_000_000_000_000_000_000);
    assert_eq!(Decimal::percent(u64::MAX).atomics, (u64::MAX as u128) * 10_000_000_000_000_000);
}

#[test]
fn params_are_replaced_as_a_whole() {
    let mut place = sudo_params();
    assert_eq!(place.load(), Err(StoreError::NotFound));
    assert_eq!(place.may_load(), None);
    place.save(params());
    assert_eq!(place.load().map(|p| p.min_price), Ok(5));
    let mut next = params();
    next.min_price = 9;
    next.operators = vec![];
    place.save(next);
    assert_eq!(place.load().map(|p| p.min_price), Ok(9));
    assert_eq!(place.load().map(|p| p.operators.len()), Ok(0));
    assert_eq!(place.load().map(|p| p.listing_fee), Ok(7));
}

#[test]
fn item_remove_empties_the_place() {
    let mut item: Item<u32> = Item::new();
    assert_eq!(item.remove(), Err(StoreError::NotFound));
    item.save(4);
    assert_eq!(item.may_load(), Some(&4));
    assert_eq!(item.remove(), Ok(4));
    assert_eq!(item.may_load(), None);
}

#[test]
fn config_holds_the_marketplace_record() {
    let mut place = config();
    assert_eq!(place.load(), Err(StoreError::NotFound));
    place.save(State {
        name: "market".to_string(),
        symbol: "MKT".to_string(),
        minter: Addr::unchecked("minter"),
        num_tokens: 0,
    });
    let mut state = place.remove().unwrap();
    state.num_tokens += 1;
    place.save(state);
    assert_eq!(place.load().map(|s| s.num_tokens), Ok(1));
    assert_eq!(place.load().map(|s| s.symbol.clone()), Ok("MKT".to_string()));
}

#[test]
fn tokens_are_kept_by_number() {
    let mut table = tokens();
    for id in [300u64, 5, 70_000_000_000] {
        let replaced = table.put(
            id,
            TokenInfo {
                owner: Addr::unchecked("owner"),
                base_price: vec![Coin { denom: "ustars".to_string(), amount: 10 }],
                token_uri: None,
                token_id: id,
            },
        );
        assert!(replaced.is_none());
    }
    assert_eq!(table.len(), 3);
    assert_eq!(table.get(&300).map(|t| t.token_id), Some(300));
    assert!(table.get(&301).is_none());
    let ids: Vec<u64> = (0..table.len()).map(|i| *table.entry(i).0).collect();
    assert_eq!(ids, vec![5, 300, 70_000_000_000]);
    assert_eq!(table.take(&5).map(|t| t.token_id), Some(5));
    assert!(table.take(&5).is_none());
    assert_eq!(table.len(), 2);
}
