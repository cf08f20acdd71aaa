use vstd::prelude::*;
use crate::key::{Key, KeyOrder, lemma_precedes_asymmetric};
use crate::table::{OrderedTable, entries_map, strictly_ascending};

verus! {

/// Filtering keeps a sequence of which every element passes.
pub proof fn lemma_filter_all_pass<A>(s: Seq<A>, pred: spec_fn(A) -> bool)
    requires
        forall|i: int| 0 <= i < s.len() ==> pred(#[trigger] s[i]),
    ensures
        s.filter(pred) == s,
    decreases s.len(),
{
    reveal(Seq::filter);
    if s.len() > 0 {
        lemma_filter_all_pass(s.drop_last(), pred);
        assert(s.drop_last().push(s.last()) =~= s);
    }
}

/// Filtering empties a sequence of which no element passes.
pub proof fn lemma_filter_none_pass<A>(s: Seq<A>, pred: spec_fn(A) -> bool)
    requires
        forall|i: int| 0 <= i < s.len() ==> !pred(#[trigger] s[i]),
    ensures
        s.filter(pred) == Seq::<A>::empty(),
    decreases s.len(),
{
    reveal(Seq::filter);
    if s.len() > 0 {
        lemma_filter_none_pass(s.drop_last(), pred);
    }
}

/// Where nothing before `a` passes and everything from `a` up to `b` does,
/// the filtered sequence begins with that block.
pub proof fn lemma_filter_block<A>(s: Seq<A>, pred: spec_fn(A) -> bool, a: int, b: int)
    requires
        0 <= a <= b <= s.len(),
        forall|i: int| 0 <= i < a ==> !pred(#[trigger] s[i]),
        forall|i: int| a <= i < b ==> pred(#[trigger] s[i]),
    ensures
        s.filter(pred) == s.subrange(a, b) + s.subrange(b, s.len() as int).filter(pred),
{
    let head = s.subrange(0, a);
    let block = s.subrange(a, b);
    let tail = s.subrange(b, s.len() as int);
    assert(s =~= head + block + tail);
    Seq::filter_distributes_over_add(head + block, tail, pred);
    Seq::filter_distributes_over_add(head, block, pred);
    lemma_filter_none_pass(head, pred);
    lemma_filter_all_pass(block, pred);
    assert(Seq::<A>::empty() + block =~= block);
}

/// Filtering an ascending sequence of entries leaves an ascending sequence
/// that holds exactly the entries that pass.
pub proof fn lemma_filter_ascending<K: Key, V>(s: Seq<(K::V, V)>, pred: spec_fn((K::V, V)) -> bool)
    requires
        strictly_ascending::<K, V>(s),
    ensures
        strictly_ascending::<K, V>(s.filter(pred)),
        forall|e: (K::V, V)|
            #![trigger s.filter(pred).contains(e)]
            s.filter(pred).contains(e) <==> s.contains(e) && pred(e),
    decreases s.len(),
{
    reveal(Seq::filter);
    let f = s.filter(pred);
    if s.len() > 0 {
        let rest = s.drop_last();
        let last = s.last();
        let g = rest.filter(pred);
        assert(strictly_ascending::<K, V>(rest)) by {
            assert forall|i: int, j: int| 0 <= i < j < rest.len() implies K::precedes(
                #[trigger] rest[i].0,
                #[trigger] rest[j].0,
            ) by {
                assert(rest[i] == s[i] && rest[j] == s[j]);
            }
        }
        lemma_filter_ascending::<K, V>(rest, pred);
        assert forall|e: (K::V, V)|
            #![trigger f.contains(e)]
            f.contains(e) <==> s.contains(e) && pred(e) by {
            if f.contains(e) {
                let i = choose|i: int| 0 <= i < f.len() && f[i] == e;
                if pred(last) && i == g.len() {
                    assert(s[s.len() - 1] == e);
                } else {
                    assert(g[i] == e);
                    assert(g.contains(e));
                    let j = choose|j: int| 0 <= j < rest.len() && rest[j] == e;
                    assert(s[j] == e);
                }
            }
            if s.contains(e) && pred(e) {
                let j = choose|j: int| 0 <= j < s.len() && s[j] == e;
                if j == s.len() - 1 {
                    assert(f[g.len() as int] == e);
                } else {
                    assert(rest[j] == e);
                    assert(rest.contains(e));
                    assert(g.contains(e));
                    let i = choose|i: int| 0 <= i < g.len() && g[i] == e;
                    assert(f[i] == e);
                }
            }
        }
        assert forall|i: int, j: int| 0 <= i < j < f.len() implies K::precedes(
            #[trigger] f[i].0,
            #[trigger] f[j].0,
        ) by {
            if j < g.len() {
                assert(f[i] == g[i] && f[j] == g[j]);
            } else {
                assert(f[i] == g[i]);
                assert(g.contains(g[i]));
                let k = choose|k: int| 0 <= k < rest.len() && rest[k] == g[i];
                assert(s[k] == f[i]);
                assert(s[s.len() - 1] == f[j]);
            }
        }
    }
}

/// Whether an index key lies in the range of prefix `p` between `after` and
/// `before`: it begins with `p`, its rest comes after `after` if one is
/// given, and before `before` if one is given.
pub open spec fn in_range<P: Key, S: Key>(
    p: P::V,
    after: Option<S::V>,
    before: Option<S::V>,
    key: (P::V, S::V),
) -> bool {
    &&& key.0 == p
    &&& match after {
        Some(s) => S::precedes(s, key.1),
        None => true,
    }
    &&& match before {
        Some(s) => S::precedes(key.1, s),
        None => true,
    }
}

/// Whether an index key lies before everything of prefix `p` that comes
/// after `after`.
pub open spec fn before_range<P: Key, S: Key>(
    p: P::V,
    after: Option<S::V>,
    key: (P::V, S::V),
) -> bool {
    P::precedes(key.0, p) || (key.0 == p && match after {
        Some(s) => !S::precedes(s, key.1),
        None => false,
    })
}

/// The view of a key that may be absent.
pub open spec fn view_of<S: View>(o: Option<&S>) -> Option<S::V> {
    match o {
        Some(s) => Some(s@),
        None => None,
    }
}

/// Keys before a range stay before it towards the front of an ascending
/// sequence, and keys not before it stay so towards the back.
proof fn lemma_before_range_monotone<P: Key, S: Key>(
    p: P::V,
    after: Option<S::V>,
    lo: (P::V, S::V),
    hi: (P::V, S::V),
)
    requires
        <(P, S) as Key>::precedes(lo, hi),
    ensures
        before_range::<P, S>(p, after, hi) ==> before_range::<P, S>(p, after, lo),
{
    P::lemma_strict_total(lo.0, hi.0, p);
    P::lemma_strict_total(p, p, p);
    match after {
        Some(s) => {
            S::lemma_strict_total(s, lo.1, hi.1);
        },
        None => {},
    }
}

/// A secondary index: an ordered table from (prefix, rest) to the primary
/// key of the record that contributed the entry. All entries of one prefix
/// stand together, ordered by the rest of their keys.
pub struct MultiIndex<P: Key, S: Key, PK> {
    table: OrderedTable<(P, S), PK>,
}

impl<P: Key, S: Key, PK> View for MultiIndex<P, S, PK> {
    type V = Map<(P::V, S::V), PK>;

    /// The primary key stored under each index key.
    open spec fn view(&self) -> Map<(P::V, S::V), PK> {
        entries_map(self.entries())
    }
}

impl<P: Key, S: Key, PK> MultiIndex<P, S, PK> {
    /// The entries in the order of their keys.
    pub closed spec fn entries(&self) -> Seq<((P::V, S::V), PK)> {
        self.table.entries()
    }

    /// The index's invariant: its keys strictly ascend.
    pub open spec fn wf(&self) -> bool {
        strictly_ascending::<(P, S), PK>(self.entries())
    }

    /// The entries of prefix `p` between `after` and `before`, in order.
    pub open spec fn matching(&self, p: P::V, after: Option<S::V>, before: Option<S::V>) -> Seq<
        ((P::V, S::V), PK),
    > {
        self.entries().filter(|e: ((P::V, S::V), PK)| in_range::<P, S>(p, after, before, e.0))
    }

    /// All entries of prefix `p`, in order.
    pub open spec fn hits(&self, p: P::V) -> Seq<((P::V, S::V), PK)> {
        self.matching(p, None, None)
    }

    /// The first `limit` entries of prefix `p` between `after` and `before`.
    pub open spec fn page(
        &self,
        p: P::V,
        after: Option<S::V>,
        before: Option<S::V>,
        limit: nat,
    ) -> Seq<((P::V, S::V), PK)> {
        let all = self.matching(p, after, before);
        if limit < all.len() {
            all.take(limit as int)
        } else {
            all
        }
    }

    /// The entries of a range ascend, and they are the entries of the index
    /// whose keys lie in the range.
    pub proof fn lemma_matching(&self, p: P::V, after: Option<S::V>, before: Option<S::V>)
        requires
            self.wf(),
        ensures
            strictly_ascending::<(P, S), PK>(self.matching(p, after, before)),
            forall|e: ((P::V, S::V), PK)|
                #![trigger self.matching(p, after, before).contains(e)]
                self.matching(p, after, before).contains(e) <==> self.entries().contains(e)
                    && in_range::<P, S>(p, after, before, e.0),
    {
        lemma_filter_ascending::<(P, S), PK>(
            self.entries(),
            |e: ((P::V, S::V), PK)| in_range::<P, S>(p, after, before, e.0),
        );
    }

    /// An index without entries.
    pub fn new() -> (idx: Self)
        ensures
            idx.wf(),
            idx.entries() == Seq::<((P::V, S::V), PK)>::empty(),
            idx@ == Map::<(P::V, S::V), PK>::empty(),
    {
        MultiIndex { table: OrderedTable::new() }
    }

    /// The number of entries.
    pub fn len(&self) -> (n: usize)
        ensures
            n == self.entries().len(),
    {
        self.table.len()
    }

    /// The entry at position `i` in the order of the index: its key and the
    /// primary key stored under it.
    pub fn entry(&self, i: usize) -> (e: (&(P, S), &PK))
        requires
            i < self.entries().len(),
        ensures
            e.0@ == self.entries()[i as int].0,
            *e.1 == self.entries()[i as int].1,
    {
        self.table.entry(i)
    }

    /// Enters `pk` under the key made of `p` and `s`.
    pub fn add(&mut self, p: P, s: S, pk: PK)
        requires
            old(self).wf(),
        ensures
            final(self).wf(),
            final(self)@ == old(self)@.insert((p@, s@), pk),
    {
        let _ = self.table.put((p, s), pk);
    }

    /// Removes the entry under the key made of `p` and `s`, if there is one.
    pub fn retract(&mut self, p: P, s: S)
        requires
            old(self).wf(),
        ensures
            final(self).wf(),
            final(self)@ == old(self)@.remove((p@, s@)),
    {
        let key = (p, s);
        let _ = self.table.take(&key);
    }

    /// Whether `key` lies before everything of prefix `p` behind `after`.
    fn lies_before(key: &(P, S), p: &P, after: Option<&S>) -> (before: bool)
        ensures
            before == before_range::<P, S>(p@, view_of(after), key@),
    {
        proof {
            P::lemma_strict_total(p@, p@, p@);
        }
        match key.0.compare(p) {
            KeyOrder::Less => true,
            KeyOrder::Greater => {
                proof {
                    lemma_precedes_asymmetric::<P>(p@, key.0@);
                }
                false
            },
            KeyOrder::Equal => match after {
                None => false,
                Some(s) => !matches!(s.compare(&key.1), KeyOrder::Less),
            },
        }
    }

    /// The position of the first entry that does not lie before what
    /// prefix `p` holds behind `after`.
    fn seek(&self, p: &P, after: Option<&S>) -> (start: usize)
        requires
            self.wf(),
        ensures
            start <= self.entries().len(),
            forall|i: int|
                0 <= i < start ==> before_range::<P, S>(
                    p@,
                    view_of(after),
                    (#[trigger] self.entries()[i]).0,
                ),
            forall|i: int|
                start <= i < self.entries().len() ==> !before_range::<P, S>(
                    p@,
                    view_of(after),
                    (#[trigger] self.entries()[i]).0,
                ),
    {
        let ghost e = self.entries();
        let ghost av = view_of(after);
        let mut lo: usize = 0;
        let mut hi: usize = self.table.len();
        while lo < hi
            invariant
                self.wf(),
                e == self.entries(),
                av == view_of(after),
                lo <= hi <= e.len(),
                forall|i: int| 0 <= i < lo ==> before_range::<P, S>(p@, av, (#[trigger] e[i]).0),
                forall|i: int|
                    hi <= i < e.len() ==> !before_range::<P, S>(p@, av, (#[trigger] e[i]).0),
            decreases hi - lo,
        {
            let mid = lo + (hi - lo) / 2;
            let slot = self.table.entry(mid);
            if Self::lies_before(slot.0, p, after) {
                proof {
                    assert forall|i: int| 0 <= i < mid + 1 implies before_range::<P, S>(
                        p@,
                        av,
                        (#[trigger] e[i]).0,
                    ) by {
                        if i < mid {
                            lemma_before_range_monotone::<P, S>(p@, av, e[i].0, e[mid as int].0);
                        }
                    }
                }
                lo = mid + 1;
            } else {
                proof {
                    assert forall|i: int| mid <= i < e.len() implies !before_range::<P, S>(
                        p@,
                        av,
                        (#[trigger] e[i]).0,
                    ) by {
                        if i > mid {
                            lemma_before_range_monotone::<P, S>(p@, av, e[mid as int].0, e[i].0);
                        }
                    }
                }
                hi = mid;
            }
        }
        lo
    }

    /// The primary keys of the first `limit` entries of prefix `p` whose
    /// rest lies after `start_after` and before `end_before`, in the order
    /// of the index. A caller resumes a listing by passing as `start_after`
    /// the rest of the last key it has seen.
    pub fn range(
        &self,
        p: &P,
        start_after: Option<&S>,
        end_before: Option<&S>,
        limit: usize,
    ) -> (out: Vec<&PK>)
        requires
            self.wf(),
        ensures
            out@.len() == self.page(
                p@,
                view_of(start_after),
                view_of(end_before),
                limit as nat,
            ).len(),
            forall|i: int|
                0 <= i < out@.len() ==> *(#[trigger] out@[i]) == self.page(
                    p@,
                    view_of(start_after),
                    view_of(end_before),
                    limit as nat,
                )[i].1,
    {
        let ghost e = self.entries();
        let ghost av = view_of(start_after);
        let ghost bv = view_of(end_before);
        let ghost pred = |x: ((P::V, S::V), PK)| in_range::<P, S>(p@, av, bv, x.0);
        let start = self.seek(p, start_after);
        let n = self.table.len();
        let mut out: Vec<&PK> = Vec::new();
        let mut i = start;
        let mut open = true;
        proof {
            P::lemma_strict_total(p@, p@, p@);
            assert forall|j: int| 0 <= j < start implies !pred(#[trigger] e[j]) by {}
        }
        while open && i < n && out.len() < limit
            invariant
                self.wf(),
                e == self.entries(),
                av == view_of(start_after),
                bv == view_of(end_before),
                pred == |x: ((P::V, S::V), PK)| in_range::<P, S>(p@, av, bv, x.0),
                n == e.len(),
                start <= i <= n,
                out@.len() == i - start,
                out@.len() <= limit,
                forall|j: int| 0 <= j < out@.len() ==> *(#[trigger] out@[j]) == e[start + j].1,
                forall|j: int| start <= j < i ==> pred(#[trigger] e[j]),
                forall|j: int|
                    start <= j < e.len() ==> !before_range::<P, S>(p@, av, (#[trigger] e[j]).0),
                !open ==> forall|j: int| i <= j < n ==> !pred(#[trigger] e[j]),
            decreases (n - i) + (if open { 1int } else { 0int }),
        {
            let slot = self.table.entry(i);
            let within = match slot.0.0.compare(p) {
                KeyOrder::Equal => match end_before {
                    Some(b) => matches!(slot.0.1.compare(b), KeyOrder::Less),
                    None => true,
                },
                _ => false,
            };
            proof {
                assert(!before_range::<P, S>(p@, av, e[i as int].0));
                assert(within == pred(e[i as int]));
            }
            if within {
                out.push(slot.1);
                i += 1;
            } else {
                proof {
                    assert forall|j: int| i <= j < n implies !pred(#[trigger] e[j]) by {
                        if j > i {
                            P::lemma_strict_total(p@, e[i as int].0.0, e[j].0.0);
                            P::lemma_strict_total(p@, p@, p@);
                            match bv {
                                Some(b) => {
                                    S::lemma_strict_total(e[i as int].0.1, e[j].0.1, b);
                                },
                                None => {},
                            }
                        }
                    }
                }
                open = false;
            }
        }
        proof {
            let all = self.matching(p@, av, bv);
            let block = e.subrange(start as int, i as int);
            let tail = e.subrange(i as int, e.len() as int);
            lemma_filter_block(e, pred, start as int, i as int);
            assert(all == block + tail.filter(pred));
            if !open || i >= n {
                lemma_filter_none_pass(tail, pred);
                assert(block + Seq::<((P::V, S::V), PK)>::empty() =~= block);
                assert(all == block);
            } else {
                assert(block.len() == limit);
                assert((block + tail.filter(pred)).take(limit as int) =~= block);
                if tail.filter(pred).len() == 0 {
                    assert(block + tail.filter(pred) =~= block);
                }
            }
            assert(self.page(p@, av, bv, limit as nat) == block);
        }
        out
    }
}

} // verus!
