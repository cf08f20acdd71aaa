use vstd::prelude::*;
use crate::error::StoreError;
use crate::index::MultiIndex;
use crate::key::Key;
use crate::table::{
    OrderedTable, entries_map, lemma_entry_membership, lemma_key_once, strictly_ascending,
};

verus! {

/// Whether an index key names the primary key it was made for: two records
/// under different primary keys never give the same index key.
pub open spec fn names_primary_key<KV, PKV, T>(key_of: spec_fn(PKV, T) -> KV) -> bool {
    forall|pk1: PKV, r1: T, pk2: PKV, r2: T|
        #[trigger] key_of(pk1, r1) == #[trigger] key_of(pk2, r2) ==> pk1 == pk2
}

/// Whether the index `idx` holds exactly the contributions of the records of
/// `m`: one entry for every record, under the key that `key_of` makes of it,
/// and no entry besides.
pub open spec fn index_agrees<KV, PK: View, T>(
    idx: Map<KV, PK>,
    m: Map<PK::V, T>,
    key_of: spec_fn(PK::V, T) -> KV,
) -> bool {
    &&& forall|pk: PK::V|
        #![trigger m.contains_key(pk)]
        m.contains_key(pk) ==> idx.contains_key(key_of(pk, m[pk])) && idx[key_of(pk, m[pk])]@
            == pk
    &&& forall|k: KV|
        #![trigger idx.contains_key(k)]
        idx.contains_key(k) ==> m.contains_key(idx[k]@) && key_of(idx[k]@, m[idx[k]@]) == k
}

/// Entering the contribution of a new record keeps an index in agreement.
pub proof fn lemma_index_add<KV, PK: View, T>(
    idx: Map<KV, PK>,
    m: Map<PK::V, T>,
    key_of: spec_fn(PK::V, T) -> KV,
    pk: PK,
    record: T,
)
    requires
        index_agrees(idx, m, key_of),
        names_primary_key(key_of),
        !m.contains_key(pk@),
    ensures
        index_agrees(idx.insert(key_of(pk@, record), pk), m.insert(pk@, record), key_of),
{
    let k = key_of(pk@, record);
    let idx2 = idx.insert(k, pk);
    let m2 = m.insert(pk@, record);
    assert forall|q: PK::V| #[trigger] m2.contains_key(q) implies idx2.contains_key(
        key_of(q, m2[q]),
    ) && idx2[key_of(q, m2[q])]@ == q by {
        if q != pk@ {
            assert(m.contains_key(q));
            assert(key_of(q, m[q]) != key_of(pk@, record));
        }
    }
    assert forall|j: KV| #[trigger] idx2.contains_key(j) implies m2.contains_key(idx2[j]@)
        && key_of(idx2[j]@, m2[idx2[j]@]) == j by {
        if j != k {
            assert(idx.contains_key(j));
        }
    }
}

/// Taking the contribution of a record out, as the record leaves, keeps an
/// index in agreement.
pub proof fn lemma_index_retract<KV, PK: View, T>(
    idx: Map<KV, PK>,
    m: Map<PK::V, T>,
    key_of: spec_fn(PK::V, T) -> KV,
    pk: PK::V,
)
    requires
        index_agrees(idx, m, key_of),
        names_primary_key(key_of),
        m.contains_key(pk),
    ensures
        index_agrees(idx.remove(key_of(pk, m[pk])), m.remove(pk), key_of),
{
    let k = key_of(pk, m[pk]);
    let idx2 = idx.remove(k);
    let m2 = m.remove(pk);
    assert forall|q: PK::V| #[trigger] m2.contains_key(q) implies idx2.contains_key(
        key_of(q, m2[q]),
    ) && idx2[key_of(q, m2[q])]@ == q by {
        assert(m.contains_key(q));
        assert(key_of(q, m[q]) != key_of(pk, m[pk]));
    }
    assert forall|j: KV| #[trigger] idx2.contains_key(j) implies m2.contains_key(idx2[j]@)
        && key_of(idx2[j]@, m2[idx2[j]@]) == j by {
        assert(idx.contains_key(j));
    }
}

/// The primary keys that a listing of index entries names, in its order.
pub open spec fn primary_keys<KV, PK: View>(hits: Seq<(KV, PK)>) -> Seq<PK::V> {
    hits.map_values(|e: (KV, PK)| e.1@)
}

/// Every entry on a page of an index that agrees with the records `m` names
/// a stored record, and stands under the key which that record gives.
pub proof fn lemma_page_resolves<P: Key, S: Key, PK: View, T>(
    idx: MultiIndex<P, S, PK>,
    m: Map<PK::V, T>,
    key_of: spec_fn(PK::V, T) -> (P::V, S::V),
    p: P::V,
    after: Option<S::V>,
    before: Option<S::V>,
    limit: nat,
)
    requires
        idx.wf(),
        index_agrees(idx@, m, key_of),
    ensures
        (forall|i: int|
            0 <= i < idx.page(p, after, before, limit).len() ==> {
                let e = #[trigger] idx.page(p, after, before, limit)[i];
                m.contains_key(e.1@) && key_of(e.1@, m[e.1@]) == e.0 && e.0.0 == p
            }),
{
    let all = idx.matching(p, after, before);
    let page = idx.page(p, after, before, limit);
    idx.lemma_matching(p, after, before);
    assert forall|i: int| 0 <= i < page.len() implies {
        let e = #[trigger] page[i];
        m.contains_key(e.1@) && key_of(e.1@, m[e.1@]) == e.0 && e.0.0 == p
    } by {
        let e = page[i];
        assert(all[i] == e);
        assert(all.contains(e));
        assert(idx.entries().contains(e));
        lemma_entry_membership::<(P, S), PK>(idx.entries(), e);
        assert(idx@.contains_key(e.0) && idx@[e.0] == e.1);
    }
}

/// The listing of one prefix of an index that agrees with the records `m`
/// names exactly the records whose index key begins with that prefix, each
/// of them once, in ascending order of the index keys.
pub proof fn lemma_hits_exact<P: Key, S: Key, PK: View, T>(
    idx: MultiIndex<P, S, PK>,
    m: Map<PK::V, T>,
    key_of: spec_fn(PK::V, T) -> (P::V, S::V),
    p: P::V,
)
    requires
        idx.wf(),
        index_agrees(idx@, m, key_of),
    ensures
        strictly_ascending::<(P, S), PK>(idx.hits(p)),
        primary_keys(idx.hits(p)).no_duplicates(),
        forall|pk: PK::V|
            #![trigger primary_keys(idx.hits(p)).contains(pk)]
            primary_keys(idx.hits(p)).contains(pk) <==> m.contains_key(pk) && key_of(pk, m[pk]).0
                == p,
        forall|i: int|
            0 <= i < idx.hits(p).len() ==> (#[trigger] idx.hits(p)[i]).0 == key_of(
                idx.hits(p)[i].1@,
                m[idx.hits(p)[i].1@],
            ),
{
    let hits = idx.hits(p);
    let keys = primary_keys(hits);
    idx.lemma_matching(p, None, None);
    assert forall|i: int| 0 <= i < hits.len() implies (#[trigger] hits[i]).0 == key_of(
        hits[i].1@,
        m[hits[i].1@],
    ) && m.contains_key(hits[i].1@) && hits[i].0.0 == p by {
        assert(hits.contains(hits[i]));
        assert(idx.entries().contains(hits[i]));
        lemma_entry_membership::<(P, S), PK>(idx.entries(), hits[i]);
        assert(idx@.contains_key(hits[i].0));
    }
    assert forall|i: int, j: int| 0 <= i < keys.len() && 0 <= j < keys.len() && i != j implies keys[i]
        != keys[j] by {
        if keys[i] == keys[j] {
            assert(hits[i].0 == hits[j].0);
            lemma_key_once::<(P, S), PK>(hits, i, j);
        }
    }
    assert forall|pk: PK::V|
        #![trigger keys.contains(pk)]
        keys.contains(pk) <==> m.contains_key(pk) && key_of(pk, m[pk]).0 == p by {
        if keys.contains(pk) {
            let i = choose|i: int| 0 <= i < keys.len() && keys[i] == pk;
            assert(hits[i].1@ == pk);
        }
        if m.contains_key(pk) && key_of(pk, m[pk]).0 == p {
            let k = key_of(pk, m[pk]);
            assert(idx@.contains_key(k));
            let e = (k, idx@[k]);
            lemma_entry_membership::<(P, S), PK>(idx.entries(), e);
            assert(idx.entries().contains(e));
            assert(hits.contains(e));
            let i = choose|i: int| 0 <= i < hits.len() && hits[i] == e;
            assert(keys[i] == pk);
        }
    }
}

/// One write to an indexed store.
pub enum WriteOp<PK, T> {
    /// Store the record under the key, in place of what is there.
    Save(PK, T),
    /// Store the record under the key, which must be free.
    Insert(PK, T),
    /// Remove the record under the key, which must hold one.
    Remove(PK),
}

/// What one write makes of the records `m`, or why it fails.
pub open spec fn spec_apply<PK: View, T>(m: Map<PK::V, T>, op: WriteOp<PK, T>) -> Result<
    Map<PK::V, T>,
    StoreError,
> {
    match op {
        WriteOp::Save(key, record) => Ok(m.insert(key@, record)),
        WriteOp::Insert(key, record) => if m.contains_key(key@) {
            Err(StoreError::Duplicate)
        } else {
            Ok(m.insert(key@, record))
        },
        WriteOp::Remove(key) => if m.contains_key(key@) {
            Ok(m.remove(key@))
        } else {
            Err(StoreError::NotFound)
        },
    }
}

/// What a series of writes, made one after the other, makes of the records
/// `m`; the first write that fails decides the error.
pub open spec fn spec_apply_all<PK: View, T>(m: Map<PK::V, T>, ops: Seq<WriteOp<PK, T>>) -> Result<
    Map<PK::V, T>,
    StoreError,
>
    decreases ops.len(),
{
    if ops.len() == 0 {
        Ok(m)
    } else {
        match spec_apply(m, ops[0]) {
            Ok(next) => spec_apply_all(next, ops.drop_first()),
            Err(e) => Err(e),
        }
    }
}

/// Whether the writes of `log`, made from the last to the first, lead from
/// the records `from` back to the records `to`.
pub open spec fn unwinds<PK: View, T>(
    log: Seq<WriteOp<PK, T>>,
    from: Map<PK::V, T>,
    to: Map<PK::V, T>,
) -> bool
    decreases log.len(),
{
    if log.len() == 0 {
        from == to
    } else {
        match spec_apply(from, log.last()) {
            Ok(earlier) => unwinds(log.drop_last(), earlier, to),
            Err(_) => false,
        }
    }
}

/// The secondary indices of one kind of record. Each is a projection of the
/// records of the primary table; `mirrors` says that all of them hold what
/// the records of a given table contribute, and nothing else.
pub trait IndexList<PK: Key, T>: Sized {
    /// The invariant of the indices themselves.
    spec fn wf(&self) -> bool;

    /// Whether every index agrees with the primary records `m`.
    spec fn mirrors(&self, m: Map<PK::V, T>) -> bool;

    /// Enters into every index what `record`, newly stored under `pk`,
    /// contributes.
    fn insert(&mut self, pk: &PK, record: &T)
        requires
            old(self).wf(),
        ensures
            final(self).wf(),
            forall|m: Map<PK::V, T>|
                #![trigger old(self).mirrors(m)]
                old(self).mirrors(m) && !m.contains_key(pk@) ==> final(self).mirrors(
                    m.insert(pk@, *record),
                ),
    ;

    /// Takes out of every index what `record`, stored under `pk`, contributed.
    fn retract(&mut self, pk: &PK, record: &T)
        requires
            old(self).wf(),
        ensures
            final(self).wf(),
            forall|m: Map<PK::V, T>|
                #![trigger old(self).mirrors(m)]
                old(self).mirrors(m) && m.contains_key(pk@) && m[pk@] == *record ==> final(self).mirrors(m.remove(pk@)),
    ;
}

/// A primary table of records together with their secondary indices. Every
/// write goes through both, so that the indices always mirror the records.
pub struct IndexedMap<PK: Key, T, I: IndexList<PK, T>> {
    primary: OrderedTable<PK, T>,
    idx: I,
}

impl<PK: Key, T, I: IndexList<PK, T>> View for IndexedMap<PK, T, I> {
    type V = Map<PK::V, T>;

    /// The record stored under each primary key.
    closed spec fn view(&self) -> Map<PK::V, T> {
        self.primary@
    }
}

impl<PK: Key, T, I: IndexList<PK, T>> IndexedMap<PK, T, I> {
    /// The secondary indices.
    pub closed spec fn indexes(&self) -> I {
        self.idx
    }

    /// The primary entries in the order of their keys.
    pub closed spec fn entries(&self) -> Seq<(PK::V, T)> {
        self.primary.entries()
    }

    /// The store's invariant: the primary keys ascend, and the indices hold
    /// exactly what the stored records contribute.
    pub closed spec fn wf(&self) -> bool {
        &&& self.primary.wf()
        &&& self.idx.wf()
        &&& self.idx.mirrors(self.primary@)
    }

    /// What the invariant says, in terms of the store's parts.
    pub proof fn lemma_wf(&self)
        requires
            self.wf(),
        ensures
            self.indexes().wf(),
            self.indexes().mirrors(self@),
            strictly_ascending::<PK, T>(self.entries()),
            self@ == entries_map(self.entries()),
    {
    }

    /// An empty store over the given, empty indices.
    pub fn new(indexes: I) -> (store: Self)
        requires
            indexes.wf(),
            indexes.mirrors(Map::<PK::V, T>::empty()),
        ensures
            store.wf(),
            store@ == Map::<PK::V, T>::empty(),
            store.indexes() == indexes,
    {
        IndexedMap { primary: OrderedTable::new(), idx: indexes }
    }

    /// The number of records.
    pub fn len(&self) -> (n: usize)
        ensures
            n == self.entries().len(),
    {
        self.primary.len()
    }

    /// The record at position `i` in the order of the primary keys, with
    /// its key.
    pub fn entry(&self, i: usize) -> (e: (&PK, &T))
        requires
            i < self.entries().len(),
        ensures
            e.0@ == self.entries()[i as int].0,
            *e.1 == self.entries()[i as int].1,
    {
        self.primary.entry(i)
    }

    /// The secondary indices, for reading.
    pub fn idx(&self) -> (indexes: &I)
        ensures
            *indexes == self.indexes(),
    {
        &self.idx
    }

    /// The record stored under `key`, if there is one.
    pub fn load(&self, key: &PK) -> (found: Option<&T>)
        requires
            self.wf(),
        ensures
            (match found {
                Some(record) => self@.contains_key(key@) && *record == self@[key@],
                None => !self@.contains_key(key@),
            }),
    {
        self.primary.get(key)
    }

    /// Whether a record is stored under `key`.
    pub fn has(&self, key: &PK) -> (present: bool)
        requires
            self.wf(),
        ensures
            present == self@.contains_key(key@),
    {
        self.primary.get(key).is_some()
    }

    /// The record stored under `key`; `NotFound` if there is none.
    pub fn get(&self, key: &PK) -> (found: Result<&T, StoreError>)
        requires
            self.wf(),
        ensures
            (match found {
                Ok(record) => self@.contains_key(key@) && *record == self@[key@],
                Err(e) => e == StoreError::NotFound && !self@.contains_key(key@),
            }),
    {
        match self.primary.get(key) {
            Some(record) => Ok(record),
            None => Err(StoreError::NotFound),
        }
    }

    /// Stores `record` under `key` and returns the record that it replaces.
    /// If a record is stored there already, what it contributed to the
    /// indices is taken out before the new record's contributions go in.
    pub fn save(&mut self, key: PK, record: T) -> (replaced: Option<T>)
        requires
            old(self).wf(),
        ensures
            final(self).wf(),
            final(self)@ == old(self)@.insert(key@, record),
            replaced == (if old(self)@.contains_key(key@) {
                Some(old(self)@[key@])
            } else {
                None::<T>
            }),
    {
        let ghost m0 = self.primary@;
        match self.primary.get(&key) {
            Some(previous) => {
                self.idx.retract(&key, previous);
            },
            None => {
                proof {
                    assert(m0.remove(key@) =~= m0);
                }
            },
        }
        assert(self.idx.mirrors(m0.remove(key@)));
        self.idx.insert(&key, &record);
        proof {
            assert(m0.remove(key@).insert(key@, record) =~= m0.insert(key@, record));
        }
        self.primary.put(key, record)
    }

    /// Stores `record` under `key` if the key is free; `Duplicate` if a
    /// record is stored there, and then nothing changes.
    pub fn insert(&mut self, key: PK, record: T) -> (done: Result<(), StoreError>)
        requires
            old(self).wf(),
        ensures
            final(self).wf(),
            (match done {
                Ok(_) => !old(self)@.contains_key(key@) && final(self)@ == old(self)@.insert(
                    key@,
                    record,
                ),
                Err(e) => e == StoreError::Duplicate && old(self)@.contains_key(key@) && *final(self) == *old(self),
            }),
    {
        if self.primary.get(&key).is_some() {
            Err(StoreError::Duplicate)
        } else {
            let _ = self.save(key, record);
            Ok(())
        }
    }

    /// Removes the record stored under `key` and what it contributed to the
    /// indices, and returns it; `NotFound` if there is none, and then nothing
    /// changes.
    pub fn remove(&mut self, key: &PK) -> (removed: Result<T, StoreError>)
        requires
            old(self).wf(),
        ensures
            final(self).wf(),
            (match removed {
                Ok(record) => old(self)@.contains_key(key@) && record == old(self)@[key@]
                    && final(self)@ == old(self)@.remove(key@),
                Err(e) => e == StoreError::NotFound && !old(self)@.contains_key(key@) && *final(self) == *old(self),
            }),
    {
        let ghost m0 = self.primary@;
        match self.primary.get(key) {
            Some(previous) => {
                self.idx.retract(key, previous);
            },
            None => {
                return Err(StoreError::NotFound);
            },
        }
        match self.primary.take(key) {
            Some(record) => Ok(record),
            None => Err(StoreError::NotFound),
        }
    }

    /// Makes one write and returns the write that undoes it.
    fn apply_logged(&mut self, op: WriteOp<PK, T>) -> (done: Result<WriteOp<PK, T>, StoreError>)
        requires
            old(self).wf(),
        ensures
            final(self).wf(),
            (match spec_apply(old(self)@, op) {
                Ok(m) => {
                    &&& done is Ok
                    &&& final(self)@ == m
                    &&& spec_apply(m, done->Ok_0) == Ok::<Map<PK::V, T>, StoreError>(old(self)@)
                },
                Err(e) => {
                    &&& done is Err
                    &&& done->Err_0 == e
                    &&& *final(self) == *old(self)
                },
            }),
    {
        let ghost m0 = self@;
        match op {
            WriteOp::Save(key, record) => {
                let again = key.duplicate();
                match self.save(key, record) {
                    Some(previous) => {
                        proof {
                            assert(self@.insert(again@, previous) =~= m0);
                        }
                        Ok(WriteOp::Save(again, previous))
                    },
                    None => {
                        proof {
                            assert(self@.remove(again@) =~= m0);
                        }
                        Ok(WriteOp::Remove(again))
                    },
                }
            },
            WriteOp::Insert(key, record) => {
                let again = key.duplicate();
                match self.insert(key, record) {
                    Ok(_) => {
                        proof {
                            assert(self@.remove(again@) =~= m0);
                        }
                        Ok(WriteOp::Remove(again))
                    },
                    Err(e) => Err(e),
                }
            },
            WriteOp::Remove(key) => {
                match self.remove(&key) {
                    Ok(record) => {
                        proof {
                            assert(self@.insert(key@, record) =~= m0);
                        }
                        Ok(WriteOp::Save(key, record))
                    },
                    Err(e) => Err(e),
                }
            },
        }
    }

    /// Makes the writes of `log` from the last to the first.
    fn rollback(&mut self, log: Vec<WriteOp<PK, T>>, Ghost(to): Ghost<Map<PK::V, T>>)
        requires
            old(self).wf(),
            unwinds(log@, old(self)@, to),
        ensures
            final(self).wf(),
            final(self)@ == to,
    {
        let mut log = log;
        while log.len() > 0
            invariant
                self.wf(),
                unwinds(log@, self@, to),
            decreases log@.len(),
        {
            let ghost before = log@;
            let op = log.pop().unwrap();
            proof {
                assert(op == before.last());
                assert(log@ =~= before.drop_last());
            }
            match self.apply_logged(op) {
                Ok(_) => {},
                Err(_) => {
                    proof {
                        assert(false);
                    }
                },
            }
        }
    }

    /// Makes the writes `ops` one after the other, all or none of them: if
    /// one fails, the writes made before it are undone, in the primary table
    /// and in every index, and the call fails with that write's error.
    pub fn transact(&mut self, ops: Vec<WriteOp<PK, T>>) -> (done: Result<(), StoreError>)
        requires
            old(self).wf(),
        ensures
            final(self).wf(),
            (match spec_apply_all(old(self)@, ops@) {
                Ok(m) => done is Ok && final(self)@ == m,
                Err(e) => done == Err::<(), StoreError>(e) && final(self)@ == old(self)@,
            }),
    {
        let ghost m0 = self@;
        let ghost all = ops@;
        let n = ops.len();
        let mut pending = ops;
        let mut stack: Vec<WriteOp<PK, T>> = Vec::new();
        while pending.len() > 0
            invariant
                pending@.len() + stack@.len() == n,
                n == all.len(),
                forall|j: int| 0 <= j < pending@.len() ==> pending@[j] == all[j],
                forall|j: int| 0 <= j < stack@.len() ==> stack@[j] == all[n - 1 - j],
            decreases pending@.len(),
        {
            let op = pending.pop().unwrap();
            stack.push(op);
        }
        let mut log: Vec<WriteOp<PK, T>> = Vec::new();
        proof {
            assert(all.skip(0) =~= all);
        }
        while stack.len() > 0
            invariant
                self.wf(),
                m0 == old(self)@,
                all == ops@,
                n == all.len(),
                stack@.len() <= n,
                forall|j: int| 0 <= j < stack@.len() ==> stack@[j] == all[n - 1 - j],
                unwinds(log@, self@, m0),
                spec_apply_all(m0, all) == spec_apply_all(self@, all.skip(n - stack@.len())),
            decreases stack@.len(),
        {
            let ghost i = n - stack@.len();
            let ghost rest = all.skip(i);
            let ghost before = self@;
            let ghost log_before = log@;
            let op = stack.pop().unwrap();
            proof {
                assert(op == all[i]);
                assert(rest[0] == all[i]);
                assert(rest.drop_first() =~= all.skip(i + 1));
            }
            match self.apply_logged(op) {
                Ok(undo) => {
                    log.push(undo);
                    proof {
                        assert(log@.last() == undo);
                        assert(log@.drop_last() =~= log_before);
                    }
                },
                Err(e) => {
                    self.rollback(log, Ghost(m0));
                    return Err(e);
                },
            }
        }
        proof {
            assert(all.skip(n as int).len() == 0);
        }
        Ok(())
    }

    /// The keys `pks`, all of which hold a record, each with its record, in
    /// the order of `pks`.
    pub fn records_of<'a>(&'a self, pks: Vec<&'a PK>) -> (found: Vec<(&'a PK, &'a T)>)
        requires
            self.wf(),
            forall|i: int| 0 <= i < pks@.len() ==> self@.contains_key((#[trigger] pks@[i])@),
        ensures
            found@.len() == pks@.len(),
            forall|i: int|
                0 <= i < pks@.len() ==> (#[trigger] found@[i]).0 == pks@[i] && *found@[i].1
                    == self@[pks@[i]@],
    {
        match self.resolve(pks) {
            Ok(found) => found,
            Err(_) => {
                proof {
                    assert(false);
                }
                vstd::pervasive::unreached()
            },
        }
    }

    /// The keys `pks`, each with the record stored under it, in the order
    /// of `pks`; `StorageConsistency` if one of the keys holds no record.
    pub fn resolve<'a>(&'a self, pks: Vec<&'a PK>) -> (found: Result<
        Vec<(&'a PK, &'a T)>,
        StoreError,
    >)
        requires
            self.wf(),
        ensures
            (match found {
                Ok(pairs) => {
                    &&& pairs@.len() == pks@.len()
                    &&& forall|i: int|
                        0 <= i < pks@.len() ==> self@.contains_key((#[trigger] pks@[i])@)
                            && pairs@[i].0 == pks@[i] && *pairs@[i].1 == self@[pks@[i]@]
                },
                Err(e) => e == StoreError::StorageConsistency && exists|i: int|
                    0 <= i < pks@.len() && !self@.contains_key((#[trigger] pks@[i])@),
            }),
    {
        let mut pairs: Vec<(&PK, &T)> = Vec::new();
        let mut i: usize = 0;
        while i < pks.len()
            invariant
                self.wf(),
                i <= pks@.len(),
                pairs@.len() == i,
                forall|j: int|
                    0 <= j < i ==> self@.contains_key((#[trigger] pks@[j])@) && pairs@[j].0
                        == pks@[j] && *pairs@[j].1 == self@[pks@[j]@],
            decreases pks@.len() - i,
        {
            let pk = pks[i];
            match self.primary.get(pk) {
                Some(record) => {
                    pairs.push((pk, record));
                },
                None => {
                    return Err(StoreError::StorageConsistency);
                },
            }
            i += 1;
        }
        Ok(pairs)
    }
}

} // verus!
