use vstd::prelude::*;
use crate::addr::Addr;
use crate::error::StoreError;
use crate::item::Item;
use crate::table::OrderedTable;
use crate::time::{BlockInfo, NANOS_PER_SECOND, Timestamp};

verus! {

/// How far ahead of the current time an ask or a bid may expire: at least
/// `min` and at most `max` seconds.
#[derive(Clone, Copy, Debug, PartialEq, Eq, Structural)]
pub struct ExpiryRange {
    pub min: u64,
    pub max: u64,
}

impl ExpiryRange {
    /// The range from `min` to `max` seconds.
    pub fn new(min: u64, max: u64) -> (range: ExpiryRange)
        ensures
            range.min == min,
            range.max == max,
    {
        ExpiryRange { min, max }
    }

    /// Whether an expiry at `expires` is allowed at time `now`: it lies at
    /// least `min` and at most `max` seconds after `now`.
    pub open spec fn admits(&self, now: nat, expires: nat) -> bool {
        now + self.min * NANOS_PER_SECOND <= expires <= now + self.max * NANOS_PER_SECOND
    }

    /// Checks the range itself: `InvalidRange` if and only if its lower
    /// bound lies above its upper bound.
    pub fn validate(&self) -> (checked: Result<(), StoreError>)
        ensures
            checked is Ok <==> self.min <= self.max,
            checked is Err ==> checked == Err::<(), StoreError>(StoreError::InvalidRange),
    {
        if self.min > self.max {
            Err(StoreError::InvalidRange)
        } else {
            Ok(())
        }
    }

    /// Checks an expiry proposed in `block`: `InvalidRange` if and only if
    /// the range does not admit it at the block's time.
    pub fn is_valid(&self, block: &BlockInfo, expires: Timestamp) -> (checked: Result<
        (),
        StoreError,
    >)
        ensures
            checked is Ok <==> self.admits(block.time@, expires@),
            checked is Err ==> checked == Err::<(), StoreError>(StoreError::InvalidRange),
    {
        let now = block.time.nanos() as u128;
        let at = expires.nanos() as u128;
        let earliest = now + (self.min as u128) * 1_000_000_000;
        let latest = now + (self.max as u128) * 1_000_000_000;
        if earliest <= at && at <= latest {
            Ok(())
        } else {
            Err(StoreError::InvalidRange)
        }
    }
}

/// A fraction with eighteen decimal places, held as a whole number of
/// units of 10^-18.
#[derive(Clone, Copy, Debug, PartialEq, Eq, Structural)]
pub struct Decimal {
    pub atomics: u128,
}

/// The units of 10^-18 in one hundredth.
pub const ATOMICS_PER_PERCENT: u128 = 10_000_000_000_000_000;

impl Decimal {
    /// The fraction of `percent` hundredths.
    pub fn percent(percent: u64) -> (d: Decimal)
        ensures
            d.atomics == percent * ATOMICS_PER_PERCENT,
    {
        Decimal { atomics: (percent as u128) * 10_000_000_000_000_000 }
    }
}

/// A span counted in blocks or in seconds.
#[derive(Clone, Copy, Debug, PartialEq, Eq, Structural)]
pub enum Duration {
    Height(u64),
    Time(u64),
}

/// The marketplace's parameters. They are read by whoever validates a
/// request and are only ever replaced as a whole.
#[derive(Debug, PartialEq, Eq)]
pub struct SudoParams {
    /// Fee on winning bids.
    pub trading_fee_percent: Decimal,
    /// The range in which an ask may expire.
    pub ask_expiry: ExpiryRange,
    /// The range in which a bid may expire.
    pub bid_expiry: ExpiryRange,
    /// The addresses that keep the active flag of asks up to date.
    pub operators: Vec<Addr>,
    /// The highest finder's fee that an ask or a bid may name.
    pub max_finders_fee_percent: Decimal,
    /// The lowest price of a bid.
    pub min_price: u128,
    /// How long after its expiry a bid becomes stale.
    pub stale_bid_duration: Duration,
    /// The reward for removing a stale bid.
    pub bid_removal_reward_percent: Decimal,
    /// The fee for listing an ask.
    pub listing_fee: u128,
}

/// An amount of one denomination.
#[derive(Debug, PartialEq, Eq)]
pub struct Coin {
    pub denom: String,
    pub amount: u128,
}

/// What is recorded of a token.
#[derive(Debug, PartialEq, Eq)]
pub struct TokenInfo {
    pub owner: Addr,
    pub base_price: Vec<Coin>,
    pub token_uri: Option<String>,
    pub token_id: u64,
}

/// The marketplace's own record.
#[derive(Debug, PartialEq, Eq)]
pub struct State {
    pub name: String,
    pub symbol: String,
    pub minter: Addr,
    pub num_tokens: u64,
}

/// The place of the marketplace's parameters, empty.
pub fn sudo_params() -> (item: Item<SudoParams>)
    ensures
        item@ == None::<SudoParams>,
{
    Item::new()
}

/// The place of the marketplace's own record, empty.
pub fn config() -> (item: Item<State>)
    ensures
        item@ == None::<State>,
{
    Item::new()
}

/// The table of tokens by their number, empty.
pub fn tokens() -> (table: OrderedTable<u64, TokenInfo>)
    ensures
        table.wf(),
        table@ == Map::<u64, TokenInfo>::empty(),
{
    OrderedTable::new()
}

} // verus!
