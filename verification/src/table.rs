use vstd::prelude::*;
use crate::key::{Key, KeyOrder, lemma_precedes_asymmetric};

verus! {

/// Whether the keys of `s` strictly ascend from each entry to the next.
pub open spec fn strictly_ascending<K: Key, V>(s: Seq<(K::V, V)>) -> bool {
    forall|i: int, j: int| 0 <= i < j < s.len() ==> K::precedes(#[trigger] s[i].0, #[trigger] s[j].0)
}

/// The map that a sequence of entries stands for: each key with the value
/// that an entry gives it.
pub open spec fn entries_map<KV, V>(s: Seq<(KV, V)>) -> Map<KV, V> {
    Map::new(
        |k: KV| exists|i: int| 0 <= i < s.len() && (#[trigger] s[i]).0 == k,
        |k: KV| s[choose|i: int| 0 <= i < s.len() && (#[trigger] s[i]).0 == k].1,
    )
}

/// In an ascending sequence no key occurs twice, so the map holds each entry
/// as it stands.
pub proof fn lemma_entries_map<K: Key, V>(s: Seq<(K::V, V)>)
    requires
        strictly_ascending::<K, V>(s),
    ensures
        forall|i: int|
            0 <= i < s.len() ==> entries_map(s).contains_key((#[trigger] s[i]).0) && entries_map(
                s,
            )[s[i].0] == s[i].1,
        forall|i: int, j: int|
            0 <= i < s.len() && 0 <= j < s.len() && (#[trigger] s[i]).0 == (#[trigger] s[j]).0 ==> i
                == j,
{
    assert forall|i: int, j: int|
        0 <= i < s.len() && 0 <= j < s.len() && (#[trigger] s[i]).0 == (#[trigger] s[j]).0 implies i
        == j by {
        if i < j {
            lemma_precedes_asymmetric::<K>(s[i].0, s[j].0);
        } else if j < i {
            lemma_precedes_asymmetric::<K>(s[j].0, s[i].0);
        }
    }
    assert forall|i: int| 0 <= i < s.len() implies entries_map(s).contains_key((#[trigger] s[i]).0)
        && entries_map(s)[s[i].0] == s[i].1 by {
        let k = s[i].0;
        let j = choose|j: int| 0 <= j < s.len() && (#[trigger] s[j]).0 == k;
        assert(j == i);
    }
}

/// In an ascending sequence, an entry occurs exactly if the map gives its
/// key its value.
pub proof fn lemma_entry_membership<K: Key, V>(s: Seq<(K::V, V)>, e: (K::V, V))
    requires
        strictly_ascending::<K, V>(s),
    ensures
        s.contains(e) <==> entries_map(s).contains_key(e.0) && entries_map(s)[e.0] == e.1,
{
    lemma_entries_map::<K, V>(s);
    if s.contains(e) {
        let i = choose|i: int| 0 <= i < s.len() && s[i] == e;
        assert(s[i].0 == e.0);
    }
    if entries_map(s).contains_key(e.0) && entries_map(s)[e.0] == e.1 {
        let i = choose|i: int| 0 <= i < s.len() && (#[trigger] s[i]).0 == e.0;
        assert(s[i] == e);
    }
}

/// In an ascending sequence, the key at an earlier place precedes the key at
/// a later one.
pub proof fn lemma_ascending_at<K: Key, V>(s: Seq<(K::V, V)>, i: int, j: int)
    requires
        strictly_ascending::<K, V>(s),
        0 <= i < j < s.len(),
    ensures
        K::precedes(s[i].0, s[j].0),
{
}

/// In an ascending sequence, two places that hold the same key are one place.
pub proof fn lemma_key_once<K: Key, V>(s: Seq<(K::V, V)>, i: int, j: int)
    requires
        strictly_ascending::<K, V>(s),
        0 <= i < s.len(),
        0 <= j < s.len(),
        s[i].0 == s[j].0,
    ensures
        i == j,
{
    lemma_entries_map::<K, V>(s);
}

/// Putting a new key at its place keeps the order and adds the key to the map.
pub proof fn lemma_insert_entry<K: Key, V>(s: Seq<(K::V, V)>, p: int, k: K::V, v: V)
    requires
        strictly_ascending::<K, V>(s),
        0 <= p <= s.len(),
        forall|i: int| 0 <= i < p ==> K::precedes((#[trigger] s[i]).0, k),
        forall|i: int| p <= i < s.len() ==> K::precedes(k, (#[trigger] s[i]).0),
    ensures
        strictly_ascending::<K, V>(s.insert(p, (k, v))),
        entries_map(s.insert(p, (k, v))) == entries_map(s).insert(k, v),
{
    let t = s.insert(p, (k, v));
    assert forall|i: int, j: int| 0 <= i < j < t.len() implies K::precedes(
        #[trigger] t[i].0,
        #[trigger] t[j].0,
    ) by {
        let si = if i < p { i } else { i - 1 };
        let sj = if j < p { j } else { j - 1 };
        if i != p && j != p {
            assert(t[i] == s[si] && t[j] == s[sj]);
        } else if i == p {
            assert(t[j] == s[sj]);
        } else {
            assert(t[i] == s[si]);
        }
    }
    lemma_entries_map::<K, V>(s);
    lemma_entries_map::<K, V>(t);
    K::lemma_strict_total(k, k, k);
    let m = entries_map(s).insert(k, v);
    assert forall|q: K::V| entries_map(t).contains_key(q) implies m.contains_key(q)
        && entries_map(t)[q] == m[q] by {
        let i = choose|i: int| 0 <= i < t.len() && (#[trigger] t[i]).0 == q;
        if i < p {
            assert(t[i] == s[i]);
        } else if i > p {
            assert(t[i] == s[i - 1]);
        } else {
            assert(t[p] == (k, v));
        }
    }
    assert forall|q: K::V| m.contains_key(q) implies entries_map(t).contains_key(q) by {
        if q == k {
            assert(t[p] == (k, v));
        } else {
            let i = choose|i: int| 0 <= i < s.len() && (#[trigger] s[i]).0 == q;
            let ti = if i < p { i } else { i + 1 };
            assert(t[ti] == s[i]);
        }
    }
    assert(entries_map(t) =~= m);
}

/// Giving a key that is present a new value keeps the order and updates the map.
pub proof fn lemma_update_entry<K: Key, V>(s: Seq<(K::V, V)>, p: int, v: V)
    requires
        strictly_ascending::<K, V>(s),
        0 <= p < s.len(),
    ensures
        strictly_ascending::<K, V>(s.update(p, (s[p].0, v))),
        entries_map(s.update(p, (s[p].0, v))) == entries_map(s).insert(s[p].0, v),
{
    let k = s[p].0;
    let t = s.update(p, (k, v));
    assert forall|i: int, j: int| 0 <= i < j < t.len() implies K::precedes(
        #[trigger] t[i].0,
        #[trigger] t[j].0,
    ) by {
        assert(t[i].0 == s[i].0 && t[j].0 == s[j].0);
    }
    lemma_entries_map::<K, V>(s);
    lemma_entries_map::<K, V>(t);
    let m = entries_map(s).insert(k, v);
    assert forall|q: K::V| entries_map(t).contains_key(q) implies m.contains_key(q)
        && entries_map(t)[q] == m[q] by {
        let i = choose|i: int| 0 <= i < t.len() && (#[trigger] t[i]).0 == q;
        if i == p {
            assert(t[p] == (k, v));
        } else {
            assert(t[i] == s[i]);
        }
    }
    assert forall|q: K::V| m.contains_key(q) implies entries_map(t).contains_key(q) by {
        if q == k {
            assert(t[p] == (k, v));
        } else {
            let i = choose|i: int| 0 <= i < s.len() && (#[trigger] s[i]).0 == q;
            assert(t[i] == s[i]);
        }
    }
    assert(entries_map(t) =~= m);
}

/// Taking an entry out keeps the order and removes its key from the map.
pub proof fn lemma_remove_entry<K: Key, V>(s: Seq<(K::V, V)>, p: int)
    requires
        strictly_ascending::<K, V>(s),
        0 <= p < s.len(),
    ensures
        strictly_ascending::<K, V>(s.remove(p)),
        entries_map(s.remove(p)) == entries_map(s).remove(s[p].0),
{
    let k = s[p].0;
    let t = s.remove(p);
    assert forall|i: int, j: int| 0 <= i < j < t.len() implies K::precedes(
        #[trigger] t[i].0,
        #[trigger] t[j].0,
    ) by {
        let si = if i < p { i } else { i + 1 };
        let sj = if j < p { j } else { j + 1 };
        assert(t[i] == s[si] && t[j] == s[sj]);
    }
    lemma_entries_map::<K, V>(s);
    lemma_entries_map::<K, V>(t);
    let m = entries_map(s).remove(k);
    assert forall|q: K::V| entries_map(t).contains_key(q) implies m.contains_key(q)
        && entries_map(t)[q] == m[q] by {
        let i = choose|i: int| 0 <= i < t.len() && (#[trigger] t[i]).0 == q;
        let si = if i < p { i } else { i + 1 };
        assert(t[i] == s[si]);
        assert(s[si].0 == q);
    }
    assert forall|q: K::V| m.contains_key(q) implies entries_map(t).contains_key(q) by {
        let i = choose|i: int| 0 <= i < s.len() && (#[trigger] s[i]).0 == q;
        let ti = if i < p { i } else { i - 1 };
        assert(t[ti] == s[i]);
    }
    assert(entries_map(t) =~= m);
}

/// A table of values under keys, kept in the order of the keys. No key
/// occurs twice.
pub struct OrderedTable<K: Key, V> {
    slots: Vec<(K, V)>,
}

impl<K: Key, V> View for OrderedTable<K, V> {
    type V = Map<K::V, V>;

    /// The value stored under each key.
    open spec fn view(&self) -> Map<K::V, V> {
        entries_map(self.entries())
    }
}

impl<K: Key, V> OrderedTable<K, V> {
    /// The entries in the order in which the table holds them, each key by
    /// its view.
    pub closed spec fn entries(&self) -> Seq<(K::V, V)> {
        Seq::new(self.slots@.len(), |i: int| (self.slots@[i].0@, self.slots@[i].1))
    }

    /// The table's invariant: the keys strictly ascend.
    pub open spec fn wf(&self) -> bool {
        strictly_ascending::<K, V>(self.entries())
    }

    /// A table without entries.
    pub fn new() -> (t: Self)
        ensures
            t.wf(),
            t.entries() == Seq::<(K::V, V)>::empty(),
            t@ == Map::<K::V, V>::empty(),
    {
        let t = OrderedTable { slots: Vec::new() };
        proof {
            assert(t.entries() =~= Seq::<(K::V, V)>::empty());
            assert(t@ =~= Map::<K::V, V>::empty());
        }
        t
    }

    /// The number of entries.
    pub fn len(&self) -> (n: usize)
        ensures
            n == self.entries().len(),
    {
        self.slots.len()
    }

    /// The entry at position `i` in the order of the keys.
    pub fn entry(&self, i: usize) -> (e: (&K, &V))
        requires
            i < self.entries().len(),
        ensures
            e.0@ == self.entries()[i as int].0,
            *e.1 == self.entries()[i as int].1,
    {
        let slot = &self.slots[i];
        (&slot.0, &slot.1)
    }

    /// The position of the first entry whose key does not precede `key`:
    /// where `key` stands, or where it would be put.
    pub fn lower_bound(&self, key: &K) -> (p: usize)
        requires
            self.wf(),
        ensures
            p <= self.entries().len(),
            forall|i: int| 0 <= i < p ==> K::precedes((#[trigger] self.entries()[i]).0, key@),
            forall|i: int|
                p <= i < self.entries().len() ==> !K::precedes(
                    (#[trigger] self.entries()[i]).0,
                    key@,
                ),
    {
        let mut lo: usize = 0;
        let mut hi: usize = self.slots.len();
        while lo < hi
            invariant
                self.wf(),
                lo <= hi <= self.entries().len(),
                hi <= self.slots@.len(),
                forall|i: int| 0 <= i < lo ==> K::precedes((#[trigger] self.entries()[i]).0, key@),
                forall|i: int|
                    hi <= i < self.entries().len() ==> !K::precedes(
                        (#[trigger] self.entries()[i]).0,
                        key@,
                    ),
            decreases hi - lo,
        {
            let mid = lo + (hi - lo) / 2;
            let ghost e = self.entries();
            match self.slots[mid].0.compare(key) {
                KeyOrder::Less => {
                    proof {
                        assert forall|i: int| 0 <= i < mid + 1 implies K::precedes(
                            (#[trigger] e[i]).0,
                            key@,
                        ) by {
                            if i < mid {
                                K::lemma_strict_total(e[i].0, e[mid as int].0, key@);
                            }
                        }
                    }
                    lo = mid + 1;
                },
                _ => {
                    proof {
                        assert forall|i: int| mid <= i < e.len() implies !K::precedes(
                            (#[trigger] e[i]).0,
                            key@,
                        ) by {
                            if i > mid {
                                K::lemma_strict_total(e[mid as int].0, e[i].0, key@);
                            }
                        }
                    }
                    hi = mid;
                },
            }
        }
        lo
    }

    /// Whether the entry at the lower bound `p` of `key` holds `key` itself.
    fn holds_at(&self, p: usize, key: &K) -> (found: bool)
        requires
            self.wf(),
            p <= self.entries().len(),
            forall|i: int| 0 <= i < p ==> K::precedes((#[trigger] self.entries()[i]).0, key@),
            forall|i: int|
                p <= i < self.entries().len() ==> !K::precedes(
                    (#[trigger] self.entries()[i]).0,
                    key@,
                ),
        ensures
            found <==> self@.contains_key(key@),
            found ==> p < self.entries().len() && self.entries()[p as int].0 == key@,
            !found ==> forall|i: int|
                p <= i < self.entries().len() ==> K::precedes(
                    key@,
                    (#[trigger] self.entries()[i]).0,
                ),
    {
        let found = p < self.slots.len() && matches!(self.slots[p].0.compare(key), KeyOrder::Equal);
        proof {
            let e = self.entries();
            lemma_entries_map::<K, V>(e);
            if found {
                assert(e[p as int].0 == key@);
            } else {
                assert forall|i: int| p <= i < e.len() implies K::precedes(
                    key@,
                    (#[trigger] e[i]).0,
                ) by {
                    K::lemma_strict_total(e[i].0, key@, key@);
                    if i > p {
                        K::lemma_strict_total(e[p as int].0, e[i].0, key@);
                        K::lemma_strict_total(e[p as int].0, key@, key@);
                    }
                }
                if self@.contains_key(key@) {
                    let i = choose|i: int| 0 <= i < e.len() && (#[trigger] e[i]).0 == key@;
                    K::lemma_strict_total(key@, key@, key@);
                }
            }
        }
        found
    }

    /// The value stored under `key`, if there is one.
    pub fn get(&self, key: &K) -> (found: Option<&V>)
        requires
            self.wf(),
        ensures
            (match found {
                Some(v) => self@.contains_key(key@) && *v == self@[key@],
                None => !self@.contains_key(key@),
            }),
    {
        let p = self.lower_bound(key);
        if self.holds_at(p, key) {
            proof {
                lemma_entries_map::<K, V>(self.entries());
            }
            Some(&self.slots[p].1)
        } else {
            None
        }
    }

    /// Stores `value` under `key`, in place of what was stored there. Returns
    /// the value that was replaced.
    pub fn put(&mut self, key: K, value: V) -> (replaced: Option<V>)
        requires
            old(self).wf(),
        ensures
            final(self).wf(),
            final(self)@ == old(self)@.insert(key@, value),
            replaced == (if old(self)@.contains_key(key@) {
                Some(old(self)@[key@])
            } else {
                None::<V>
            }),
    {
        let p = self.lower_bound(&key);
        let found = self.holds_at(p, &key);
        let ghost before = self.entries();
        proof {
            lemma_entries_map::<K, V>(before);
        }
        if found {
            let mut slot = (key, value);
            core::mem::swap(&mut self.slots[p], &mut slot);
            proof {
                assert(self.entries() =~= before.update(p as int, (before[p as int].0, value)));
                lemma_update_entry::<K, V>(before, p as int, value);
            }
            Some(slot.1)
        } else {
            self.slots.insert(p, (key, value));
            proof {
                assert(self.entries() =~= before.insert(p as int, (key@, value)));
                lemma_insert_entry::<K, V>(before, p as int, key@, value);
            }
            None
        }
    }

    /// Removes the entry of `key`. Returns the value that was stored there.
    pub fn take(&mut self, key: &K) -> (removed: Option<V>)
        requires
            old(self).wf(),
        ensures
            final(self).wf(),
            final(self)@ == old(self)@.remove(key@),
            removed == (if old(self)@.contains_key(key@) {
                Some(old(self)@[key@])
            } else {
                None::<V>
            }),
    {
        let p = self.lower_bound(key);
        let found = self.holds_at(p, key);
        let ghost before = self.entries();
        proof {
            lemma_entries_map::<K, V>(before);
        }
        if found {
            let prev = self.slots.remove(p);
            proof {
                assert(self.entries() =~= before.remove(p as int));
                lemma_remove_entry::<K, V>(before, p as int);
            }
            Some(prev.1)
        } else {
            proof {
                assert(self@ =~= old(self)@.remove(key@));
            }
            None
        }
    }
}

} // verus!
