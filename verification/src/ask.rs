use vstd::prelude::*;
use crate::addr::Addr;
use crate::error::StoreError;
use crate::index::{MultiIndex, view_of};
use crate::indexed_map::{
    IndexList, IndexedMap, index_agrees, lemma_hits_exact, lemma_index_add, lemma_index_retract,
    lemma_page_resolves, names_primary_key, primary_keys,
};
use crate::key::Key;
use crate::table::lemma_ascending_at;
use crate::time::{Order, Timestamp};

verus! {

/// The number of a token within its collection.
pub type TokenId = u32;

/// How a token is offered for sale.
#[derive(Clone, Copy, Debug, PartialEq, Eq, Structural)]
pub enum SaleType {
    FixedPrice,
    Auction,
}

impl SaleType {
    /// The name under which the sale type is written out.
    pub open spec fn label(self) -> Seq<char> {
        match self {
            SaleType::FixedPrice => "fixed_price"@,
            SaleType::Auction => "auction"@,
        }
    }

    /// The sale type written out: `fixed_price` or `auction`.
    pub fn to_string(&self) -> (text: String)
        ensures
            text@ == self.label(),
    {
        match self {
            SaleType::FixedPrice => "fixed_price".to_owned(),
            SaleType::Auction => "auction".to_owned(),
        }
    }
}

/// A copy of an address that may be absent.
pub fn clone_optional_addr(addr: &Option<Addr>) -> (copy: Option<Addr>)
    ensures
        copy == *addr,
{
    match addr {
        Some(a) => Some(a.clone()),
        None => None,
    }
}

/// A seller's offer of one token, at a fixed price or by auction, valid
/// until it expires.
#[derive(Debug, PartialEq, Eq)]
pub struct Ask {
    pub sale_type: SaleType,
    pub collection: Addr,
    pub token_id: TokenId,
    pub seller: Addr,
    pub price: u128,
    pub funds_recipient: Option<Addr>,
    pub reserve_for: Option<Addr>,
    pub finders_fee_bps: Option<u64>,
    pub expires_at: Timestamp,
    pub is_active: bool,
}

impl Clone for Ask {
    fn clone(&self) -> (copy: Ask)
        ensures
            copy == *self,
    {
        Ask {
            sale_type: self.sale_type,
            collection: self.collection.clone(),
            token_id: self.token_id,
            seller: self.seller.clone(),
            price: self.price,
            funds_recipient: clone_optional_addr(&self.funds_recipient),
            reserve_for: clone_optional_addr(&self.reserve_for),
            finders_fee_bps: self.finders_fee_bps,
            expires_at: self.expires_at,
            is_active: self.is_active,
        }
    }
}

impl Order for Ask {
    open spec fn expiry(&self) -> Timestamp {
        self.expires_at
    }

    fn expires_at(&self) -> (t: Timestamp) {
        self.expires_at
    }
}

/// Primary key of an ask: (collection, token_id).
pub type AskKey = (Addr, TokenId);

/// The view of an ask's primary key.
pub type AskKeyView = (Seq<u8>, TokenId);

/// The primary key of the ask on token `token_id` of `collection`.
pub fn ask_key(collection: &Addr, token_id: TokenId) -> (key: AskKey)
    ensures
        key@ == (collection@, token_id),
{
    (collection.clone(), token_id)
}

/// The key under which an ask stands in the index by collection.
pub open spec fn ask_collection_key() -> spec_fn(AskKeyView, Ask) -> (Seq<u8>, AskKeyView) {
    |pk: AskKeyView, ask: Ask| (ask.collection@, pk)
}

/// The key under which an ask stands in the index by collection and price.
pub open spec fn ask_collection_price_key() -> spec_fn(AskKeyView, Ask) -> (
    Seq<u8>,
    (u128, AskKeyView),
) {
    |pk: AskKeyView, ask: Ask| (ask.collection@, (ask.price, pk))
}

/// The key under which an ask stands in the index by seller.
pub open spec fn ask_seller_key() -> spec_fn(AskKeyView, Ask) -> (Seq<u8>, AskKeyView) {
    |pk: AskKeyView, ask: Ask| (ask.seller@, pk)
}

/// The secondary indices of the asks.
pub struct AskIndicies {
    /// All asks of a collection, by token.
    pub collection: MultiIndex<Addr, AskKey, AskKey>,
    /// All asks of a collection, by ascending price, then by token.
    pub collection_price: MultiIndex<Addr, (u128, AskKey), AskKey>,
    /// All asks of a seller, by collection and token.
    pub seller: MultiIndex<Addr, AskKey, AskKey>,
}

impl AskIndicies {
    /// Three empty indices.
    pub fn new() -> (indexes: AskIndicies)
        ensures
            indexes.wf(),
            indexes.mirrors(Map::<AskKeyView, Ask>::empty()),
    {
        AskIndicies {
            collection: MultiIndex::new(),
            collection_price: MultiIndex::new(),
            seller: MultiIndex::new(),
        }
    }
}

impl IndexList<AskKey, Ask> for AskIndicies {
    open spec fn wf(&self) -> bool {
        &&& self.collection.wf()
        &&& self.collection_price.wf()
        &&& self.seller.wf()
    }

    open spec fn mirrors(&self, m: Map<AskKeyView, Ask>) -> bool {
        &&& index_agrees(self.collection@, m, ask_collection_key())
        &&& index_agrees(self.collection_price@, m, ask_collection_price_key())
        &&& index_agrees(self.seller@, m, ask_seller_key())
    }

    fn insert(&mut self, pk: &AskKey, record: &Ask) {
        let k1 = pk.duplicate();
        let k2 = pk.duplicate();
        let k3 = pk.duplicate();
        self.collection.add(record.collection.clone(), pk.duplicate(), k1);
        self.collection_price.add(record.collection.clone(), (record.price, pk.duplicate()), k2);
        self.seller.add(record.seller.clone(), pk.duplicate(), k3);
        proof {
            assert forall|m: Map<AskKeyView, Ask>|
                #![trigger old(self).mirrors(m)]
                old(self).mirrors(m) && !m.contains_key(pk@) implies self.mirrors(
                m.insert(pk@, *record),
            ) by {
                lemma_index_add(old(self).collection@, m, ask_collection_key(), k1, *record);
                lemma_index_add(
                    old(self).collection_price@,
                    m,
                    ask_collection_price_key(),
                    k2,
                    *record,
                );
                lemma_index_add(old(self).seller@, m, ask_seller_key(), k3, *record);
            }
        }
    }

    fn retract(&mut self, pk: &AskKey, record: &Ask) {
        self.collection.retract(record.collection.clone(), pk.duplicate());
        self.collection_price.retract(record.collection.clone(), (record.price, pk.duplicate()));
        self.seller.retract(record.seller.clone(), pk.duplicate());
        proof {
            assert forall|m: Map<AskKeyView, Ask>|
                #![trigger old(self).mirrors(m)]
                old(self).mirrors(m) && m.contains_key(pk@) && m[pk@] == *record implies self.mirrors(
                m.remove(pk@),
            ) by {
                lemma_index_retract(old(self).collection@, m, ask_collection_key(), pk@);
                lemma_index_retract(
                    old(self).collection_price@,
                    m,
                    ask_collection_price_key(),
                    pk@,
                );
                lemma_index_retract(old(self).seller@, m, ask_seller_key(), pk@);
            }
        }
    }
}

/// An empty store of asks.
pub fn asks() -> (store: IndexedMap<AskKey, Ask, AskIndicies>)
    ensures
        store.wf(),
        store@ == Map::<AskKeyView, Ask>::empty(),
{
    IndexedMap::new(AskIndicies::new())
}

impl IndexedMap<AskKey, Ask, AskIndicies> {
    /// The primary keys of the asks of `collection`, in ascending order.
    pub open spec fn by_collection(&self, collection: Seq<u8>) -> Seq<AskKeyView> {
        primary_keys(self.indexes().collection.hits(collection))
    }

    /// The primary keys of the asks of `collection`, by ascending price and,
    /// at one price, in ascending order of the keys.
    pub open spec fn by_collection_price(&self, collection: Seq<u8>) -> Seq<AskKeyView> {
        primary_keys(self.indexes().collection_price.hits(collection))
    }

    /// The primary keys of the asks of `seller`, in ascending order.
    pub open spec fn by_seller(&self, seller: Seq<u8>) -> Seq<AskKeyView> {
        primary_keys(self.indexes().seller.hits(seller))
    }

    /// Stores `ask` under the key that its collection and token make, and
    /// returns the ask that it replaces.
    pub fn put(&mut self, ask: Ask) -> (replaced: Option<Ask>)
        requires
            old(self).wf(),
        ensures
            final(self).wf(),
            final(self)@ == old(self)@.insert((ask.collection@, ask.token_id), ask),
            replaced == (if old(self)@.contains_key((ask.collection@, ask.token_id)) {
                Some(old(self)@[(ask.collection@, ask.token_id)])
            } else {
                None::<Ask>
            }),
    {
        let key = ask_key(&ask.collection, ask.token_id);
        self.save(key, ask)
    }

    /// Removes the ask on token `token_id` of `collection` and returns it;
    /// `NotFound` if there is none, and then nothing changes.
    pub fn delete(&mut self, collection: &Addr, token_id: TokenId) -> (removed: Result<
        Ask,
        StoreError,
    >)
        requires
            old(self).wf(),
        ensures
            final(self).wf(),
            (match removed {
                Ok(ask) => {
                    &&& old(self)@.contains_key((collection@, token_id))
                    &&& ask == old(self)@[(collection@, token_id)]
                    &&& final(self)@ == old(self)@.remove((collection@, token_id))
                },
                Err(e) => {
                    &&& e == StoreError::NotFound
                    &&& !old(self)@.contains_key((collection@, token_id))
                    &&& *final(self) == *old(self)
                },
            }),
    {
        let key = ask_key(collection, token_id);
        self.remove(&key)
    }

    /// The asks of `collection` in ascending order of their keys.
    /// Of those, the ones whose place lies after `start_after` and before
    /// `end_before`, and of these the first `limit`, each with its key. A
    /// listing is resumed by passing the place of the last entry seen as
    /// `start_after`.
    pub fn list_by_collection(
        &self,
        collection: &Addr,
        start_after: Option<&AskKey>,
        end_before: Option<&AskKey>,
        limit: usize,
    ) -> (found: Vec<(&AskKey, &Ask)>)
        requires
            self.wf(),
        ensures
            ({
                let page = self.indexes().collection.page(
                    collection@,
                    view_of(start_after),
                    view_of(end_before),
                    limit as nat,
                );
                &&& found@.len() == page.len()
                &&& forall|i: int|
                    0 <= i < page.len() ==> {
                        let hit = #[trigger] found@[i];
                        &&& *hit.0 == page[i].1
                        &&& self@.contains_key(hit.0@)
                        &&& *hit.1 == self@[hit.0@]
                        &&& hit.1.collection@ == collection@
                        &&& page[i].0 == (collection@, hit.0@)
                    }
            }),
    {
        proof {
            self.lemma_wf();
            lemma_page_resolves(
                self.indexes().collection,
                self@,
                ask_collection_key(),
                collection@,
                view_of(start_after),
                view_of(end_before),
                limit as nat,
            );
        }
        let pks = self.idx().collection.range(collection, start_after, end_before, limit);
        self.records_of(pks)
    }

    /// The asks of `collection` by ascending price and, at one price, in
    /// ascending order of their keys. A place is a price with a key.
    /// Of those, the ones whose place lies after `start_after` and before
    /// `end_before`, and of these the first `limit`, each with its key. A
    /// listing is resumed by passing the place of the last entry seen as
    /// `start_after`.
    pub fn list_by_collection_price(
        &self,
        collection: &Addr,
        start_after: Option<&(u128, AskKey)>,
        end_before: Option<&(u128, AskKey)>,
        limit: usize,
    ) -> (found: Vec<(&AskKey, &Ask)>)
        requires
            self.wf(),
        ensures
            ({
                let page = self.indexes().collection_price.page(
                    collection@,
                    view_of(start_after),
                    view_of(end_before),
                    limit as nat,
                );
                &&& found@.len() == page.len()
                &&& forall|i: int|
                    0 <= i < page.len() ==> {
                        let hit = #[trigger] found@[i];
                        &&& *hit.0 == page[i].1
                        &&& self@.contains_key(hit.0@)
                        &&& *hit.1 == self@[hit.0@]
                        &&& hit.1.collection@ == collection@
                        &&& page[i].0 == (collection@, (hit.1.price, hit.0@))
                    }
            }),
    {
        proof {
            self.lemma_wf();
            lemma_page_resolves(
                self.indexes().collection_price,
                self@,
                ask_collection_price_key(),
                collection@,
                view_of(start_after),
                view_of(end_before),
                limit as nat,
            );
        }
        let pks = self.idx().collection_price.range(collection, start_after, end_before, limit);
        self.records_of(pks)
    }

    /// The asks of `seller` in ascending order of their keys.
    /// Of those, the ones whose place lies after `start_after` and before
    /// `end_before`, and of these the first `limit`, each with its key. A
    /// listing is resumed by passing the place of the last entry seen as
    /// `start_after`.
    pub fn list_by_seller(
        &self,
        seller: &Addr,
        start_after: Option<&AskKey>,
        end_before: Option<&AskKey>,
        limit: usize,
    ) -> (found: Vec<(&AskKey, &Ask)>)
        requires
            self.wf(),
        ensures
            ({
                let page = self.indexes().seller.page(
                    seller@,
                    view_of(start_after),
                    view_of(end_before),
                    limit as nat,
                );
                &&& found@.len() == page.len()
                &&& forall|i: int|
                    0 <= i < page.len() ==> {
                        let hit = #[trigger] found@[i];
                        &&& *hit.0 == page[i].1
                        &&& self@.contains_key(hit.0@)
                        &&& *hit.1 == self@[hit.0@]
                        &&& hit.1.seller@ == seller@
                        &&& page[i].0 == (seller@, hit.0@)
                    }
            }),
    {
        proof {
            self.lemma_wf();
            lemma_page_resolves(
                self.indexes().seller,
                self@,
                ask_seller_key(),
                seller@,
                view_of(start_after),
                view_of(end_before),
                limit as nat,
            );
        }
        let pks = self.idx().seller.range(seller, start_after, end_before, limit);
        self.records_of(pks)
    }
}

/// Every index of the asks lists exactly the asks that it is about. For an
/// address `a`: the listing by collection (by collection and price, by
/// seller) names each key once, and names a key exactly if the ask stored
/// under it has `a` as its collection (its collection, its seller).
pub proof fn law_ask_indices_exact(store: IndexedMap<AskKey, Ask, AskIndicies>, a: Seq<u8>)
    requires
        store.wf(),
    ensures
        store.by_collection(a).no_duplicates(),
        store.by_collection_price(a).no_duplicates(),
        store.by_seller(a).no_duplicates(),
        forall|pk: AskKeyView|
            #![trigger store.by_collection(a).contains(pk)]
            store.by_collection(a).contains(pk) <==> store@.contains_key(pk)
                && store@[pk].collection@ == a,
        forall|pk: AskKeyView|
            #![trigger store.by_collection_price(a).contains(pk)]
            store.by_collection_price(a).contains(pk) <==> store@.contains_key(pk)
                && store@[pk].collection@ == a,
        forall|pk: AskKeyView|
            #![trigger store.by_seller(a).contains(pk)]
            store.by_seller(a).contains(pk) <==> store@.contains_key(pk) && store@[pk].seller@
                == a,
{
    store.lemma_wf();
    lemma_hits_exact(store.indexes().collection, store@, ask_collection_key(), a);
    lemma_hits_exact(store.indexes().collection_price, store@, ask_collection_price_key(), a);
    lemma_hits_exact(store.indexes().seller, store@, ask_seller_key(), a);
}

/// The listing of a collection by price is in order: from one place to a
/// later one the price does not fall, and every place shows the price of the
/// ask that it names.
pub proof fn law_asks_price_sorted(store: IndexedMap<AskKey, Ask, AskIndicies>, collection: Seq<u8>)
    requires
        store.wf(),
    ensures
        forall|i: int, j: int|
            0 <= i < j < store.by_collection_price(collection).len() ==> store@[(
                #[trigger] store.by_collection_price(collection)[i])].price <= store@[(
                #[trigger] store.by_collection_price(collection)[j])].price,
        forall|i: int|
            0 <= i < store.by_collection_price(collection).len() ==> store@.contains_key(
                #[trigger] store.by_collection_price(collection)[i],
            ),
{
    store.lemma_wf();
    let hits = store.indexes().collection_price.hits(collection);
    lemma_hits_exact(store.indexes().collection_price, store@, ask_collection_price_key(), collection);
    let keys = store.by_collection_price(collection);
    assert forall|i: int| 0 <= i < keys.len() implies store@.contains_key(#[trigger] keys[i]) by {
        assert(keys.contains(keys[i]));
    }
    assert forall|i: int, j: int| 0 <= i < j < keys.len() implies store@[(#[trigger] keys[i])].price
        <= store@[(#[trigger] keys[j])].price by {
        assert(hits[i].0 == ask_collection_price_key()(keys[i], store@[keys[i]]));
        assert(hits[j].0 == ask_collection_price_key()(keys[j], store@[keys[j]]));
        lemma_ascending_at::<(Addr, (u128, AskKey)), AskKey>(hits, i, j);
        <Addr as Key>::lemma_strict_total(collection, collection, collection);
    }
}

/// Changing the price of an ask moves it within the listing of its
/// collection by price. Where `after` is `before` with the record under
/// `key` replaced by `ask`, of the same collection: the index holds `key`
/// under the new price and no longer under the old one, the listing names
/// `key` once, and the entries of all other asks are as they were.
pub proof fn law_price_change_relocates(
    before: IndexedMap<AskKey, Ask, AskIndicies>,
    after: IndexedMap<AskKey, Ask, AskIndicies>,
    key: AskKeyView,
    ask: Ask,
)
    requires
        before.wf(),
        after.wf(),
        before@.contains_key(key),
        before@[key].collection@ == ask.collection@,
        after@ == before@.insert(key, ask),
    ensures
        after.indexes().collection_price@.contains_key((ask.collection@, (ask.price, key))),
        ask.price != before@[key].price ==> !after.indexes().collection_price@.contains_key(
            (ask.collection@, (before@[key].price, key)),
        ),
        after.by_collection_price(ask.collection@).contains(key),
        after.by_collection_price(ask.collection@).no_duplicates(),
        forall|price: u128, other: AskKeyView|
            other != key ==> (after.indexes().collection_price@.contains_key(
                (ask.collection@, (price, other)),
            ) <==> before.indexes().collection_price@.contains_key(
                (ask.collection@, (price, other)),
            )),
{
    before.lemma_wf();
    after.lemma_wf();
    let c = ask.collection@;
    let old_price = before@[key].price;
    let idx0 = before.indexes().collection_price@;
    let idx1 = after.indexes().collection_price@;
    let key_of = ask_collection_price_key();
    assert(after@.contains_key(key));
    assert(idx1.contains_key(key_of(key, after@[key])));
    if ask.price != old_price {
        if idx1.contains_key((c, (old_price, key))) {
            let k = (c, (old_price, key));
            assert(key_of(idx1[k]@, after@[idx1[k]@]) == k);
        }
    }
    lemma_hits_exact(after.indexes().collection_price, after@, key_of, c);
    assert forall|price: u128, other: AskKeyView| other != key implies (idx1.contains_key(
        (c, (price, other)),
    ) <==> idx0.contains_key((c, (price, other)))) by {
        let k = (c, (price, other));
        if idx1.contains_key(k) {
            assert(key_of(idx1[k]@, after@[idx1[k]@]) == k);
            assert(before@.contains_key(other));
            assert(idx0.contains_key(key_of(other, before@[other])));
        }
        if idx0.contains_key(k) {
            assert(key_of(idx0[k]@, before@[idx0[k]@]) == k);
            assert(after@.contains_key(other));
            assert(idx1.contains_key(key_of(other, after@[other])));
        }
    }
}

} // verus!
