use vstd::prelude::*;
use crate::addr::Addr;
use crate::ask::TokenId;
use crate::error::StoreError;
use crate::index::{MultiIndex, view_of};
use crate::indexed_map::{
    IndexList, IndexedMap, index_agrees, lemma_hits_exact, lemma_index_add, lemma_index_retract,
    lemma_page_resolves, primary_keys,
};
use crate::key::Key;
use crate::table::lemma_ascending_at;
use crate::time::{Order, Timestamp};

verus! {

/// A buyer's standing offer on one token, valid until it expires.
#[derive(Debug, PartialEq, Eq)]
pub struct Bid {
    pub collection: Addr,
    pub token_id: TokenId,
    pub bidder: Addr,
    pub price: u128,
    pub finders_fee_bps: Option<u64>,
    pub expires_at: Timestamp,
}

impl Bid {
    /// The bid of `bidder` on token `token_id` of `collection`.
    pub fn new(
        collection: Addr,
        token_id: TokenId,
        bidder: Addr,
        price: u128,
        finders_fee_bps: Option<u64>,
        expires: Timestamp,
    ) -> (bid: Bid)
        ensures
            bid == (Bid { collection, token_id, bidder, price, finders_fee_bps, expires_at: expires }),
    {
        Bid { collection, token_id, bidder, price, finders_fee_bps, expires_at: expires }
    }
}

impl Clone for Bid {
    fn clone(&self) -> (copy: Bid)
        ensures
            copy == *self,
    {
        Bid {
            collection: self.collection.clone(),
            token_id: self.token_id,
            bidder: self.bidder.clone(),
            price: self.price,
            finders_fee_bps: self.finders_fee_bps,
            expires_at: self.expires_at,
        }
    }
}

impl Order for Bid {
    open spec fn expiry(&self) -> Timestamp {
        self.expires_at
    }

    fn expires_at(&self) -> (t: Timestamp) {
        self.expires_at
    }
}

/// Primary key of a bid: (collection, token_id, bidder).
pub type BidKey = (Addr, TokenId, Addr);

/// The view of a bid's primary key.
pub type BidKeyView = (Seq<u8>, TokenId, Seq<u8>);

/// The primary key of the bid of `bidder` on token `token_id` of `collection`.
pub fn bid_key(collection: &Addr, token_id: TokenId, bidder: &Addr) -> (key: BidKey)
    ensures
        key@ == (collection@, token_id, bidder@),
{
    (collection.clone(), token_id, bidder.clone())
}

/// The key under which a bid stands in the index by collection.
pub open spec fn bid_collection_key() -> spec_fn(BidKeyView, Bid) -> (Seq<u8>, BidKeyView) {
    |pk: BidKeyView, bid: Bid| (bid.collection@, pk)
}

/// The key under which a bid stands in the index by collection and token.
pub open spec fn bid_collection_token_id_key() -> spec_fn(BidKeyView, Bid) -> (
    (Seq<u8>, TokenId),
    BidKeyView,
) {
    |pk: BidKeyView, bid: Bid| ((bid.collection@, bid.token_id), pk)
}

/// The key under which a bid stands in the index by collection and price.
pub open spec fn bid_collection_price_key() -> spec_fn(BidKeyView, Bid) -> (
    Seq<u8>,
    (u128, BidKeyView),
) {
    |pk: BidKeyView, bid: Bid| (bid.collection@, (bid.price, pk))
}

/// The key under which a bid stands in the index by bidder.
pub open spec fn bid_bidder_key() -> spec_fn(BidKeyView, Bid) -> (Seq<u8>, BidKeyView) {
    |pk: BidKeyView, bid: Bid| (bid.bidder@, pk)
}

/// The key under which a bid stands in the index by bidder and expiry. The
/// expiry enters in whole seconds: what lies below a second is dropped.
pub open spec fn bid_bidder_expires_at_key() -> spec_fn(BidKeyView, Bid) -> (
    Seq<u8>,
    (u64, BidKeyView),
) {
    |pk: BidKeyView, bid: Bid| (bid.bidder@, (bid.expires_at.spec_seconds(), pk))
}

/// The secondary indices of the bids.
pub struct BidIndicies {
    /// All bids on tokens of a collection.
    pub collection: MultiIndex<Addr, BidKey, BidKey>,
    /// The bids on one token: its order book.
    pub collection_token_id: MultiIndex<(Addr, TokenId), BidKey, BidKey>,
    /// All bids on tokens of a collection, by ascending price.
    pub collection_price: MultiIndex<Addr, (u128, BidKey), BidKey>,
    /// The open bids of a bidder.
    pub bidder: MultiIndex<Addr, BidKey, BidKey>,
    /// The open bids of a bidder, the soonest to expire first.
    pub bidder_expires_at: MultiIndex<Addr, (u64, BidKey), BidKey>,
}

impl BidIndicies {
    /// Five empty indices.
    pub fn new() -> (indexes: BidIndicies)
        ensures
            indexes.wf(),
            indexes.mirrors(Map::<BidKeyView, Bid>::empty()),
    {
        BidIndicies {
            collection: MultiIndex::new(),
            collection_token_id: MultiIndex::new(),
            collection_price: MultiIndex::new(),
            bidder: MultiIndex::new(),
            bidder_expires_at: MultiIndex::new(),
        }
    }
}

impl IndexList<BidKey, Bid> for BidIndicies {
    open spec fn wf(&self) -> bool {
        &&& self.collection.wf()
        &&& self.collection_token_id.wf()
        &&& self.collection_price.wf()
        &&& self.bidder.wf()
        &&& self.bidder_expires_at.wf()
    }

    open spec fn mirrors(&self, m: Map<BidKeyView, Bid>) -> bool {
        &&& index_agrees(self.collection@, m, bid_collection_key())
        &&& index_agrees(self.collection_token_id@, m, bid_collection_token_id_key())
        &&& index_agrees(self.collection_price@, m, bid_collection_price_key())
        &&& index_agrees(self.bidder@, m, bid_bidder_key())
        &&& index_agrees(self.bidder_expires_at@, m, bid_bidder_expires_at_key())
    }

    fn insert(&mut self, pk: &BidKey, record: &Bid) {
        let k1 = pk.duplicate();
        let k2 = pk.duplicate();
        let k3 = pk.duplicate();
        let k4 = pk.duplicate();
        let k5 = pk.duplicate();
        self.collection.add(record.collection.clone(), pk.duplicate(), k1);
        self.collection_token_id.add(
            (record.collection.clone(), record.token_id),
            pk.duplicate(),
            k2,
        );
        self.collection_price.add(record.collection.clone(), (record.price, pk.duplicate()), k3);
        self.bidder.add(record.bidder.clone(), pk.duplicate(), k4);
        self.bidder_expires_at.add(
            record.bidder.clone(),
            (record.expires_at.seconds(), pk.duplicate()),
            k5,
        );
        proof {
            assert forall|m: Map<BidKeyView, Bid>|
                #![trigger old(self).mirrors(m)]
                old(self).mirrors(m) && !m.contains_key(pk@) implies self.mirrors(
                m.insert(pk@, *record),
            ) by {
                lemma_index_add(old(self).collection@, m, bid_collection_key(), k1, *record);
                lemma_index_add(
                    old(self).collection_token_id@,
                    m,
                    bid_collection_token_id_key(),
                    k2,
                    *record,
                );
                lemma_index_add(
                    old(self).collection_price@,
                    m,
                    bid_collection_price_key(),
                    k3,
                    *record,
                );
                lemma_index_add(old(self).bidder@, m, bid_bidder_key(), k4, *record);
                lemma_index_add(
                    old(self).bidder_expires_at@,
                    m,
                    bid_bidder_expires_at_key(),
                    k5,
                    *record,
                );
            }
        }
    }

    fn retract(&mut self, pk: &BidKey, record: &Bid) {
        self.collection.retract(record.collection.clone(), pk.duplicate());
        self.collection_token_id.retract(
            (record.collection.clone(), record.token_id),
            pk.duplicate(),
        );
        self.collection_price.retract(record.collection.clone(), (record.price, pk.duplicate()));
        self.bidder.retract(record.bidder.clone(), pk.duplicate());
        self.bidder_expires_at.retract(
            record.bidder.clone(),
            (record.expires_at.seconds(), pk.duplicate()),
        );
        proof {
            assert forall|m: Map<BidKeyView, Bid>|
                #![trigger old(self).mirrors(m)]
                old(self).mirrors(m) && m.contains_key(pk@) && m[pk@] == *record implies self.mirrors(
                m.remove(pk@),
            ) by {
                lemma_index_retract(old(self).collection@, m, bid_collection_key(), pk@);
                lemma_index_retract(
                    old(self).collection_token_id@,
                    m,
                    bid_collection_token_id_key(),
                    pk@,
                );
                lemma_index_retract(
                    old(self).collection_price@,
                    m,
                    bid_collection_price_key(),
                    pk@,
                );
                lemma_index_retract(old(self).bidder@, m, bid_bidder_key(), pk@);
                lemma_index_retract(
                    old(self).bidder_expires_at@,
                    m,
                    bid_bidder_expires_at_key(),
                    pk@,
                );
            }
        }
    }
}

/// An empty store of bids.
pub fn bids() -> (store: IndexedMap<BidKey, Bid, BidIndicies>)
    ensures
        store.wf(),
        store@ == Map::<BidKeyView, Bid>::empty(),
{
    IndexedMap::new(BidIndicies::new())
}

impl IndexedMap<BidKey, Bid, BidIndicies> {
    /// The primary keys of the bids on tokens of `collection`, in ascending order.
    pub open spec fn by_collection(&self, collection: Seq<u8>) -> Seq<BidKeyView> {
        primary_keys(self.indexes().collection.hits(collection))
    }

    /// The primary keys of the bids on token `token_id` of `collection`, in
    /// ascending order.
    pub open spec fn by_collection_token_id(&self, collection: Seq<u8>, token_id: TokenId) -> Seq<
        BidKeyView,
    > {
        primary_keys(self.indexes().collection_token_id.hits((collection, token_id)))
    }

    /// The primary keys of the bids on tokens of `collection`, by ascending price.
    pub open spec fn by_collection_price(&self, collection: Seq<u8>) -> Seq<BidKeyView> {
        primary_keys(self.indexes().collection_price.hits(collection))
    }

    /// The primary keys of the bids of `bidder`, in ascending order.
    pub open spec fn by_bidder(&self, bidder: Seq<u8>) -> Seq<BidKeyView> {
        primary_keys(self.indexes().bidder.hits(bidder))
    }

    /// The primary keys of the bids of `bidder`, the soonest to expire first.
    pub open spec fn by_bidder_expires_at(&self, bidder: Seq<u8>) -> Seq<BidKeyView> {
        primary_keys(self.indexes().bidder_expires_at.hits(bidder))
    }

    /// Stores `bid` under the key that its collection, token and bidder
    /// make, and returns the bid that it replaces.
    pub fn put(&mut self, bid: Bid) -> (replaced: Option<Bid>)
        requires
            old(self).wf(),
        ensures
            final(self).wf(),
            final(self)@ == old(self)@.insert((bid.collection@, bid.token_id, bid.bidder@), bid),
            replaced == (if old(self)@.contains_key((bid.collection@, bid.token_id, bid.bidder@)) {
                Some(old(self)@[(bid.collection@, bid.token_id, bid.bidder@)])
            } else {
                None::<Bid>
            }),
    {
        let key = bid_key(&bid.collection, bid.token_id, &bid.bidder);
        self.save(key, bid)
    }

    /// Removes the bid of `bidder` on token `token_id` of `collection` and
    /// returns it; `NotFound` if there is none, and then nothing changes.
    pub fn delete(&mut self, collection: &Addr, token_id: TokenId, bidder: &Addr) -> (removed:
        Result<Bid, StoreError>)
        requires
            old(self).wf(),
        ensures
            final(self).wf(),
            (match removed {
                Ok(bid) => {
                    &&& old(self)@.contains_key((collection@, token_id, bidder@))
                    &&& bid == old(self)@[(collection@, token_id, bidder@)]
                    &&& final(self)@ == old(self)@.remove((collection@, token_id, bidder@))
                },
                Err(e) => {
                    &&& e == StoreError::NotFound
                    &&& !old(self)@.contains_key((collection@, token_id, bidder@))
                    &&& *final(self) == *old(self)
                },
            }),
    {
        let key = bid_key(collection, token_id, bidder);
        self.remove(&key)
    }

    /// The bids on tokens of `collection` in ascending order of their keys.
    /// Of those, the ones whose place lies after `start_after` and before
    /// `end_before`, and of these the first `limit`, each with its key. A
    /// listing is resumed by passing the place of the last entry seen as
    /// `start_after`.
    pub fn list_by_collection(
        &self,
        collection: &Addr,
        start_after: Option<&BidKey>,
        end_before: Option<&BidKey>,
        limit: usize,
    ) -> (found: Vec<(&BidKey, &Bid)>)
        requires
            self.wf(),
        ensures
            ({
                let page = self.indexes().collection.page(
                    collection@,
                    view_of(start_after),
                    view_of(end_before),
                    limit as nat,
                );
                &&& found@.len() == page.len()
                &&& forall|i: int|
                    0 <= i < page.len() ==> {
                        let hit = #[trigger] found@[i];
                        &&& *hit.0 == page[i].1
                        &&& self@.contains_key(hit.0@)
                        &&& *hit.1 == self@[hit.0@]
                        &&& hit.1.collection@ == collection@
                        &&& page[i].0 == (collection@, hit.0@)
                    }
            }),
    {
        proof {
            self.lemma_wf();
            lemma_page_resolves(
                self.indexes().collection,
                self@,
                bid_collection_key(),
                collection@,
                view_of(start_after),
                view_of(end_before),
                limit as nat,
            );
        }
        let pks = self.idx().collection.range(collection, start_after, end_before, limit);
        self.records_of(pks)
    }

    /// The bids on token `token_id` of `collection`, its order book, in
    /// ascending order of their keys.
    /// Of those, the ones whose place lies after `start_after` and before
    /// `end_before`, and of these the first `limit`, each with its key. A
    /// listing is resumed by passing the place of the last entry seen as
    /// `start_after`.
    pub fn list_by_collection_token_id(
        &self,
        collection: &Addr,
        token_id: TokenId,
        start_after: Option<&BidKey>,
        end_before: Option<&BidKey>,
        limit: usize,
    ) -> (found: Vec<(&BidKey, &Bid)>)
        requires
            self.wf(),
        ensures
            ({
                let page = self.indexes().collection_token_id.page(
                    (collection@, token_id),
                    view_of(start_after),
                    view_of(end_before),
                    limit as nat,
                );
                &&& found@.len() == page.len()
                &&& forall|i: int|
                    0 <= i < page.len() ==> {
                        let hit = #[trigger] found@[i];
                        &&& *hit.0 == page[i].1
                        &&& self@.contains_key(hit.0@)
                        &&& *hit.1 == self@[hit.0@]
                        &&& hit.1.collection@ == collection@
                        &&& hit.1.token_id == token_id
                        &&& page[i].0 == ((collection@, token_id), hit.0@)
                    }
            }),
    {
        proof {
            self.lemma_wf();
            lemma_page_resolves(
                self.indexes().collection_token_id,
                self@,
                bid_collection_token_id_key(),
                (collection@, token_id),
                view_of(start_after),
                view_of(end_before),
                limit as nat,
            );
        }
        let prefix = (collection.clone(), token_id);
        let pks = self.idx().collection_token_id.range(&prefix, start_after, end_before, limit);
        self.records_of(pks)
    }

    /// The bids on tokens of `collection` by ascending price and, at one
    /// price, in ascending order of their keys. A place is a price with a key.
    /// Of those, the ones whose place lies after `start_after` and before
    /// `end_before`, and of these the first `limit`, each with its key. A
    /// listing is resumed by passing the place of the last entry seen as
    /// `start_after`.
    pub fn list_by_collection_price(
        &self,
        collection: &Addr,
        start_after: Option<&(u128, BidKey)>,
        end_before: Option<&(u128, BidKey)>,
        limit: usize,
    ) -> (found: Vec<(&BidKey, &Bid)>)
        requires
            self.wf(),
        ensures
            ({
                let page = self.indexes().collection_price.page(
                    collection@,
                    view_of(start_after),
                    view_of(end_before),
                    limit as nat,
                );
                &&& found@.len() == page.len()
                &&& forall|i: int|
                    0 <= i < page.len() ==> {
                        let hit = #[trigger] found@[i];
                        &&& *hit.0 == page[i].1
                        &&& self@.contains_key(hit.0@)
                        &&& *hit.1 == self@[hit.0@]
                        &&& hit.1.collection@ == collection@
                        &&& page[i].0 == (collection@, (hit.1.price, hit.0@))
                    }
            }),
    {
        proof {
            self.lemma_wf();
            lemma_page_resolves(
                self.indexes().collection_price,
                self@,
                bid_collection_price_key(),
                collection@,
                view_of(start_after),
                view_of(end_before),
                limit as nat,
            );
        }
        let pks = self.idx().collection_price.range(collection, start_after, end_before, limit);
        self.records_of(pks)
    }

    /// The bids of `bidder` in ascending order of their keys.
    /// Of those, the ones whose place lies after `start_after` and before
    /// `end_before`, and of these the first `limit`, each with its key. A
    /// listing is resumed by passing the place of the last entry seen as
    /// `start_after`.
    pub fn list_by_bidder(
        &self,
        bidder: &Addr,
        start_after: Option<&BidKey>,
        end_before: Option<&BidKey>,
        limit: usize,
    ) -> (found: Vec<(&BidKey, &Bid)>)
        requires
            self.wf(),
        ensures
            ({
                let page = self.indexes().bidder.page(
                    bidder@,
                    view_of(start_after),
                    view_of(end_before),
                    limit as nat,
                );
                &&& found@.len() == page.len()
                &&& forall|i: int|
                    0 <= i < page.len() ==> {
                        let hit = #[trigger] found@[i];
                        &&& *hit.0 == page[i].1
                        &&& self@.contains_key(hit.0@)
                        &&& *hit.1 == self@[hit.0@]
                        &&& hit.1.bidder@ == bidder@
                        &&& page[i].0 == (bidder@, hit.0@)
                    }
            }),
    {
        proof {
            self.lemma_wf();
            lemma_page_resolves(
                self.indexes().bidder,
                self@,
                bid_bidder_key(),
                bidder@,
                view_of(start_after),
                view_of(end_before),
                limit as nat,
            );
        }
        let pks = self.idx().bidder.range(bidder, start_after, end_before, limit);
        self.records_of(pks)
    }

    /// The bids of `bidder`, the soonest to expire first and, at one expiry,
    /// in ascending order of their keys. A place is an expiry in whole seconds
    /// with a key.
    /// Of those, the ones whose place lies after `start_after` and before
    /// `end_before`, and of these the first `limit`, each with its key. A
    /// listing is resumed by passing the place of the last entry seen as
    /// `start_after`.
    pub fn list_by_bidder_expires_at(
        &self,
        bidder: &Addr,
        start_after: Option<&(u64, BidKey)>,
        end_before: Option<&(u64, BidKey)>,
        limit: usize,
    ) -> (found: Vec<(&BidKey, &Bid)>)
        requires
            self.wf(),
        ensures
            ({
                let page = self.indexes().bidder_expires_at.page(
                    bidder@,
                    view_of(start_after),
                    view_of(end_before),
                    limit as nat,
                );
                &&& found@.len() == page.len()
                &&& forall|i: int|
                    0 <= i < page.len() ==> {
                        let hit = #[trigger] found@[i];
                        &&& *hit.0 == page[i].1
                        &&& self@.contains_key(hit.0@)
                        &&& *hit.1 == self@[hit.0@]
                        &&& hit.1.bidder@ == bidder@
                        &&& page[i].0 == (bidder@, (hit.1.expires_at.spec_seconds(), hit.0@))
                    }
            }),
    {
        proof {
            self.lemma_wf();
            lemma_page_resolves(
                self.indexes().bidder_expires_at,
                self@,
                bid_bidder_expires_at_key(),
                bidder@,
                view_of(start_after),
                view_of(end_before),
                limit as nat,
            );
        }
        let pks = self.idx().bidder_expires_at.range(bidder, start_after, end_before, limit);
        self.records_of(pks)
    }
}

/// Every index of the bids lists exactly the bids that it is about. For an
/// address `a` and a token `token_id`: each listing names each key once, and
/// names a key exactly if the bid stored under it has `a` as its collection
/// (its collection and `token_id` as its token; its bidder).
pub proof fn law_bid_indices_exact(
    store: IndexedMap<BidKey, Bid, BidIndicies>,
    a: Seq<u8>,
    token_id: TokenId,
)
    requires
        store.wf(),
    ensures
        store.by_collection(a).no_duplicates(),
        store.by_collection_token_id(a, token_id).no_duplicates(),
        store.by_collection_price(a).no_duplicates(),
        store.by_bidder(a).no_duplicates(),
        store.by_bidder_expires_at(a).no_duplicates(),
        forall|pk: BidKeyView|
            #![trigger store.by_collection(a).contains(pk)]
            store.by_collection(a).contains(pk) <==> store@.contains_key(pk)
                && store@[pk].collection@ == a,
        forall|pk: BidKeyView|
            #![trigger store.by_collection_token_id(a, token_id).contains(pk)]
            store.by_collection_token_id(a, token_id).contains(pk) <==> store@.contains_key(pk)
                && store@[pk].collection@ == a && store@[pk].token_id == token_id,
        forall|pk: BidKeyView|
            #![trigger store.by_collection_price(a).contains(pk)]
            store.by_collection_price(a).contains(pk) <==> store@.contains_key(pk)
                && store@[pk].collection@ == a,
        forall|pk: BidKeyView|
            #![trigger store.by_bidder(a).contains(pk)]
            store.by_bidder(a).contains(pk) <==> store@.contains_key(pk) && store@[pk].bidder@
                == a,
        forall|pk: BidKeyView|
            #![trigger store.by_bidder_expires_at(a).contains(pk)]
            store.by_bidder_expires_at(a).contains(pk) <==> store@.contains_key(pk)
                && store@[pk].bidder@ == a,
{
    store.lemma_wf();
    lemma_hits_exact(store.indexes().collection, store@, bid_collection_key(), a);
    lemma_hits_exact(
        store.indexes().collection_token_id,
        store@,
        bid_collection_token_id_key(),
        (a, token_id),
    );
    lemma_hits_exact(store.indexes().collection_price, store@, bid_collection_price_key(), a);
    lemma_hits_exact(store.indexes().bidder, store@, bid_bidder_key(), a);
    lemma_hits_exact(store.indexes().bidder_expires_at, store@, bid_bidder_expires_at_key(), a);
}

/// Two bids on one token by different bidders are both found through the
/// index by collection and token, at different places.
pub proof fn law_bids_on_one_token_both_listed(
    store: IndexedMap<BidKey, Bid, BidIndicies>,
    collection: Seq<u8>,
    token_id: TokenId,
    bidder1: Seq<u8>,
    bidder2: Seq<u8>,
)
    requires
        store.wf(),
        bidder1 != bidder2,
        store@.contains_key((collection, token_id, bidder1)),
        store@.contains_key((collection, token_id, bidder2)),
        store@[(collection, token_id, bidder1)].collection@ == collection,
        store@[(collection, token_id, bidder1)].token_id == token_id,
        store@[(collection, token_id, bidder2)].collection@ == collection,
        store@[(collection, token_id, bidder2)].token_id == token_id,
    ensures
        store.by_collection_token_id(collection, token_id).contains(
            (collection, token_id, bidder1),
        ),
        store.by_collection_token_id(collection, token_id).contains(
            (collection, token_id, bidder2),
        ),
        store.by_collection_token_id(collection, token_id).len() >= 2,
{
    law_bid_indices_exact(store, collection, token_id);
    let keys = store.by_collection_token_id(collection, token_id);
    let k1 = (collection, token_id, bidder1);
    let k2 = (collection, token_id, bidder2);
    assert(keys.contains(k1));
    assert(keys.contains(k2));
    let i = choose|i: int| 0 <= i < keys.len() && keys[i] == k1;
    let j = choose|j: int| 0 <= j < keys.len() && keys[j] == k2;
    assert(i != j);
}

/// Once no bid of a bidder is left in the store, neither the index by
/// bidder nor the index by bidder and expiry lists anything for that bidder.
pub proof fn law_bidder_without_bids_unlisted(
    store: IndexedMap<BidKey, Bid, BidIndicies>,
    bidder: Seq<u8>,
)
    requires
        store.wf(),
        forall|pk: BidKeyView| #[trigger] store@.contains_key(pk) ==> store@[pk].bidder@ != bidder,
    ensures
        store.by_bidder(bidder).len() == 0,
        store.by_bidder_expires_at(bidder).len() == 0,
        store.indexes().bidder.hits(bidder).len() == 0,
        store.indexes().bidder_expires_at.hits(bidder).len() == 0,
{
    law_bid_indices_exact(store, bidder, 0);
    let a = store.by_bidder(bidder);
    let b = store.by_bidder_expires_at(bidder);
    if a.len() > 0 {
        assert(a.contains(a[0]));
    }
    if b.len() > 0 {
        assert(b.contains(b[0]));
    }
}

/// The listing of a collection's bids by price is in order: from one place
/// to a later one the price does not fall.
pub proof fn law_bids_price_sorted(store: IndexedMap<BidKey, Bid, BidIndicies>, collection: Seq<u8>)
    requires
        store.wf(),
    ensures
        forall|i: int|
            0 <= i < store.by_collection_price(collection).len() ==> store@.contains_key(
                #[trigger] store.by_collection_price(collection)[i],
            ),
        forall|i: int, j: int|
            0 <= i < j < store.by_collection_price(collection).len() ==> store@[(
                #[trigger] store.by_collection_price(collection)[i])].price <= store@[(
                #[trigger] store.by_collection_price(collection)[j])].price,
{
    store.lemma_wf();
    let hits = store.indexes().collection_price.hits(collection);
    lemma_hits_exact(store.indexes().collection_price, store@, bid_collection_price_key(), collection);
    let keys = store.by_collection_price(collection);
    assert forall|i: int| 0 <= i < keys.len() implies store@.contains_key(#[trigger] keys[i]) by {
        assert(keys.contains(keys[i]));
    }
    assert forall|i: int, j: int| 0 <= i < j < keys.len() implies store@[(#[trigger] keys[i])].price
        <= store@[(#[trigger] keys[j])].price by {
        assert(hits[i].0 == bid_collection_price_key()(keys[i], store@[keys[i]]));
        assert(hits[j].0 == bid_collection_price_key()(keys[j], store@[keys[j]]));
        lemma_ascending_at::<(Addr, (u128, BidKey)), BidKey>(hits, i, j);
        <Addr as Key>::lemma_strict_total(collection, collection, collection);
    }
}

/// The listing of a bidder's bids by expiry is in order: from one place to
/// a later one the expiry, in whole seconds, does not fall.
pub proof fn law_bids_expiry_sorted(store: IndexedMap<BidKey, Bid, BidIndicies>, bidder: Seq<u8>)
    requires
        store.wf(),
    ensures
        forall|i: int|
            0 <= i < store.by_bidder_expires_at(bidder).len() ==> store@.contains_key(
                #[trigger] store.by_bidder_expires_at(bidder)[i],
            ),
        forall|i: int, j: int|
            0 <= i < j < store.by_bidder_expires_at(bidder).len() ==> store@[(
                #[trigger] store.by_bidder_expires_at(bidder)[i])].expires_at.spec_seconds()
                <= store@[(
                #[trigger] store.by_bidder_expires_at(bidder)[j])].expires_at.spec_seconds(),
{
    store.lemma_wf();
    let hits = store.indexes().bidder_expires_at.hits(bidder);
    lemma_hits_exact(store.indexes().bidder_expires_at, store@, bid_bidder_expires_at_key(), bidder);
    let keys = store.by_bidder_expires_at(bidder);
    assert forall|i: int| 0 <= i < keys.len() implies store@.contains_key(#[trigger] keys[i]) by {
        assert(keys.contains(keys[i]));
    }
    assert forall|i: int, j: int| 0 <= i < j < keys.len() implies store@[(
        #[trigger] keys[i])].expires_at.spec_seconds() <= store@[(
        #[trigger] keys[j])].expires_at.spec_seconds() by {
        assert(hits[i].0 == bid_bidder_expires_at_key()(keys[i], store@[keys[i]]));
        assert(hits[j].0 == bid_bidder_expires_at_key()(keys[j], store@[keys[j]]));
        lemma_ascending_at::<(Addr, (u64, BidKey)), BidKey>(hits, i, j);
        <Addr as Key>::lemma_strict_total(bidder, bidder, bidder);
    }
}

} // verus!
