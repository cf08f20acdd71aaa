//! An order-book store for an NFT marketplace: sell offers (asks) and buy
//! offers (bids) kept in ordered tables, each reachable through secondary
//! indices that are proved to stay consistent with the primary records.

pub mod addr;
pub mod ask;
pub mod bid;
pub mod error;
pub mod hooks;
pub mod index;
pub mod indexed_map;
pub mod item;
pub mod key;
pub mod params;
pub mod table;
pub mod time;

pub use addr::Addr;
pub use ask::{Ask, AskIndicies, AskKey, SaleType, TokenId, ask_key, asks};
pub use bid::{Bid, BidIndicies, BidKey, bid_key, bids};
pub use error::StoreError;
pub use hooks::{Hooks, Notification};
pub use index::MultiIndex;
pub use indexed_map::{IndexList, IndexedMap, WriteOp};
pub use item::Item;
pub use key::{Key, KeyOrder};
pub use params::{Coin, Decimal, Duration, ExpiryRange, State, SudoParams, TokenInfo};
pub use table::OrderedTable;
pub use time::{BlockInfo, Order, Timestamp};
