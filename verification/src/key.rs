use vstd::prelude::*;

verus! {

/// How one key stands to another in the order of a table.
#[derive(Clone, Copy, Debug, PartialEq, Eq, Structural)]
pub enum KeyOrder {
    Less,
    Equal,
    Greater,
}

/// A value that can key an ordered table. Keys are told apart and ordered by
/// their views; `precedes` is a strict total order on those.
pub trait Key: View + Sized {
    /// The strict order of the keys' views.
    spec fn precedes(a: Self::V, b: Self::V) -> bool;

    /// `precedes` is irreflexive, transitive and total.
    proof fn lemma_strict_total(a: Self::V, b: Self::V, c: Self::V)
        ensures
            !Self::precedes(a, a),
            Self::precedes(a, b) && Self::precedes(b, c) ==> Self::precedes(a, c),
            a == b || Self::precedes(a, b) || Self::precedes(b, a),
    ;

    /// Three-way comparison of two keys.
    fn compare(&self, other: &Self) -> (o: KeyOrder)
        ensures
            o is Less <==> Self::precedes(self@, other@),
            o is Equal <==> self@ == other@,
            o is Greater <==> Self::precedes(other@, self@),
    ;

    /// A second key with the same view.
    fn duplicate(&self) -> (copy: Self)
        ensures
            copy@ == self@,
    ;
}

/// No key precedes one that precedes it.
pub proof fn lemma_precedes_asymmetric<K: Key>(a: K::V, b: K::V)
    requires
        K::precedes(a, b),
    ensures
        !K::precedes(b, a),
        a != b,
{
    K::lemma_strict_total(a, b, a);
    K::lemma_strict_total(a, a, a);
}

impl Key for u32 {
    open spec fn precedes(a: u32, b: u32) -> bool {
        a < b
    }

    proof fn lemma_strict_total(a: u32, b: u32, c: u32) {
    }

    fn compare(&self, other: &u32) -> (o: KeyOrder) {
        if *self < *other {
            KeyOrder::Less
        } else if *self == *other {
            KeyOrder::Equal
        } else {
            KeyOrder::Greater
        }
    }

    fn duplicate(&self) -> (copy: u32) {
        *self
    }
}

impl Key for u64 {
    open spec fn precedes(a: u64, b: u64) -> bool {
        a < b
    }

    proof fn lemma_strict_total(a: u64, b: u64, c: u64) {
    }

    fn compare(&self, other: &u64) -> (o: KeyOrder) {
        if *self < *other {
            KeyOrder::Less
        } else if *self == *other {
            KeyOrder::Equal
        } else {
            KeyOrder::Greater
        }
    }

    fn duplicate(&self) -> (copy: u64) {
        *self
    }
}

impl Key for u128 {
    open spec fn precedes(a: u128, b: u128) -> bool {
        a < b
    }

    proof fn lemma_strict_total(a: u128, b: u128, c: u128) {
    }

    fn compare(&self, other: &u128) -> (o: KeyOrder) {
        if *self < *other {
            KeyOrder::Less
        } else if *self == *other {
            KeyOrder::Equal
        } else {
            KeyOrder::Greater
        }
    }

    fn duplicate(&self) -> (copy: u128) {
        *self
    }
}

/// A pair is ordered by its first component, then by its second.
impl<A: Key, B: Key> Key for (A, B) {
    open spec fn precedes(a: (A::V, B::V), b: (A::V, B::V)) -> bool {
        A::precedes(a.0, b.0) || (a.0 == b.0 && B::precedes(a.1, b.1))
    }

    proof fn lemma_strict_total(a: (A::V, B::V), b: (A::V, B::V), c: (A::V, B::V)) {
        A::lemma_strict_total(a.0, b.0, c.0);
        A::lemma_strict_total(a.0, a.0, a.0);
        B::lemma_strict_total(a.1, b.1, c.1);
    }

    fn compare(&self, other: &(A, B)) -> (o: KeyOrder) {
        match self.0.compare(&other.0) {
            KeyOrder::Less => KeyOrder::Less,
            KeyOrder::Greater => KeyOrder::Greater,
            KeyOrder::Equal => self.1.compare(&other.1),
        }
    }

    fn duplicate(&self) -> (copy: (A, B)) {
        (self.0.duplicate(), self.1.duplicate())
    }
}

/// A triple is ordered by its components from left to right.
impl<A: Key, B: Key, C: Key> Key for (A, B, C) {
    open spec fn precedes(a: (A::V, B::V, C::V), b: (A::V, B::V, C::V)) -> bool {
        A::precedes(a.0, b.0) || (a.0 == b.0 && (B::precedes(a.1, b.1) || (a.1 == b.1
            && C::precedes(a.2, b.2))))
    }

    proof fn lemma_strict_total(
        a: (A::V, B::V, C::V),
        b: (A::V, B::V, C::V),
        c: (A::V, B::V, C::V),
    ) {
        A::lemma_strict_total(a.0, b.0, c.0);
        A::lemma_strict_total(a.0, a.0, a.0);
        B::lemma_strict_total(a.1, b.1, c.1);
        B::lemma_strict_total(a.1, a.1, a.1);
        C::lemma_strict_total(a.2, b.2, c.2);
    }

    fn compare(&self, other: &(A, B, C)) -> (o: KeyOrder) {
        match self.0.compare(&other.0) {
            KeyOrder::Less => KeyOrder::Less,
            KeyOrder::Greater => KeyOrder::Greater,
            KeyOrder::Equal => match self.1.compare(&other.1) {
                KeyOrder::Less => KeyOrder::Less,
                KeyOrder::Greater => KeyOrder::Greater,
                KeyOrder::Equal => self.2.compare(&other.2),
            },
        }
    }

    fn duplicate(&self) -> (copy: (A, B, C)) {
        (self.0.duplicate(), self.1.duplicate(), self.2.duplicate())
    }
}

} // verus!
