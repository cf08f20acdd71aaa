use vstd::prelude::*;
use vstd::string::StringSliceAdditionalSpecFns;
use crate::key::{Key, KeyOrder};

verus! {

/// Whether the byte string `a` comes before `b`: at the first place where
/// they differ `a` holds the smaller byte, or `a` ends there and `b` goes on.
pub open spec fn bytes_precede(a: Seq<u8>, b: Seq<u8>) -> bool
    decreases a.len(),
{
    if b.len() == 0 {
        false
    } else if a.len() == 0 {
        true
    } else if a[0] != b[0] {
        a[0] < b[0]
    } else {
        bytes_precede(a.drop_first(), b.drop_first())
    }
}

/// The byte-wise order is irreflexive, transitive and total.
pub proof fn lemma_bytes_order(a: Seq<u8>, b: Seq<u8>, c: Seq<u8>)
    ensures
        !bytes_precede(a, a),
        bytes_precede(a, b) && bytes_precede(b, c) ==> bytes_precede(a, c),
        a == b || bytes_precede(a, b) || bytes_precede(b, a),
    decreases a.len(),
{
    if a.len() > 0 {
        if b.len() > 0 && c.len() > 0 {
            lemma_bytes_order(a.drop_first(), b.drop_first(), c.drop_first());
        } else if b.len() > 0 {
            lemma_bytes_order(a.drop_first(), b.drop_first(), b.drop_first());
        } else {
            lemma_bytes_order(a.drop_first(), a.drop_first(), a.drop_first());
        }
        if b.len() > 0 && a[0] == b[0] && a.drop_first() == b.drop_first() {
            assert(a =~= seq![a[0]] + a.drop_first());
            assert(b =~= seq![b[0]] + b.drop_first());
        }
    } else {
        if b.len() == 0 {
            assert(a =~= b);
        }
    }
}

/// Skipping one more byte of both strings changes neither their order nor
/// whether they are equal, if the bytes skipped are the same.
proof fn lemma_skip_same_byte(a: Seq<u8>, b: Seq<u8>, i: int)
    requires
        0 <= i < a.len(),
        i < b.len(),
        a[i] == b[i],
    ensures
        bytes_precede(a.skip(i), b.skip(i)) == bytes_precede(a.skip(i + 1), b.skip(i + 1)),
        bytes_precede(b.skip(i), a.skip(i)) == bytes_precede(b.skip(i + 1), a.skip(i + 1)),
        (a.skip(i) == b.skip(i)) == (a.skip(i + 1) == b.skip(i + 1)),
{
    assert(a.skip(i).drop_first() =~= a.skip(i + 1));
    assert(b.skip(i).drop_first() =~= b.skip(i + 1));
    assert(a.skip(i)[0] == a[i]);
    assert(b.skip(i)[0] == b[i]);
    if a.skip(i + 1) == b.skip(i + 1) {
        assert(a.skip(i) =~= seq![a[i]] + a.skip(i + 1));
        assert(b.skip(i) =~= seq![b[i]] + b.skip(i + 1));
    }
}

/// An address: a piece of text that names an account, a collection or a
/// listener. Addresses are told apart and ordered by their UTF-8 bytes.
#[derive(Debug, PartialEq, Eq, PartialOrd, Ord, Hash)]
pub struct Addr {
    text: String,
}

impl Clone for Addr {
    fn clone(&self) -> (copy: Addr)
        ensures
            copy == *self,
    {
        Addr { text: self.text.clone() }
    }
}

impl View for Addr {
    type V = Seq<u8>;

    /// The UTF-8 bytes of the address.
    closed spec fn view(&self) -> Seq<u8> {
        vstd::utf8::encode_utf8(self.text@)
    }
}

impl Addr {
    /// The address written as `input`. Nothing is checked of the text.
    pub fn unchecked(input: &str) -> (a: Addr)
        ensures
            a@ == input.spec_bytes(),
    {
        Addr { text: input.to_owned() }
    }

    /// The text of the address.
    pub fn as_str(&self) -> (s: &str)
        ensures
            s.spec_bytes() == self@,
    {
        self.text.as_str()
    }

    /// The UTF-8 bytes of the address.
    pub fn as_bytes(&self) -> (b: &[u8])
        ensures
            b@ == self@,
    {
        self.text.as_str().as_bytes()
    }

    /// Whether two addresses are the same.
    pub fn same(&self, other: &Addr) -> (eq: bool)
        ensures
            eq <==> self@ == other@,
    {
        matches!(self.compare(other), KeyOrder::Equal)
    }
}

impl Key for Addr {
    open spec fn precedes(a: Seq<u8>, b: Seq<u8>) -> bool {
        bytes_precede(a, b)
    }

    proof fn lemma_strict_total(a: Seq<u8>, b: Seq<u8>, c: Seq<u8>) {
        lemma_bytes_order(a, b, c);
    }

    fn compare(&self, other: &Addr) -> (o: KeyOrder) {
        let a = self.as_bytes();
        let b = other.as_bytes();
        let mut i: usize = 0;
        proof {
            assert(a@.skip(0) =~= a@);
            assert(b@.skip(0) =~= b@);
        }
        while i < a.len() && i < b.len()
            invariant
                i <= a.len(),
                i <= b.len(),
                a@ == self@,
                b@ == other@,
                bytes_precede(a@, b@) == bytes_precede(a@.skip(i as int), b@.skip(i as int)),
                bytes_precede(b@, a@) == bytes_precede(b@.skip(i as int), a@.skip(i as int)),
                (a@ == b@) == (a@.skip(i as int) == b@.skip(i as int)),
            decreases a.len() - i,
        {
            let x = a[i];
            let y = b[i];
            if x != y {
                proof {
                    assert(a@.skip(i as int)[0] == x);
                    assert(b@.skip(i as int)[0] == y);
                }
                if x < y {
                    return KeyOrder::Less;
                } else {
                    return KeyOrder::Greater;
                }
            }
            proof {
                lemma_skip_same_byte(a@, b@, i as int);
            }
            i += 1;
        }
        proof {
            if a@.skip(i as int).len() == 0 && b@.skip(i as int).len() == 0 {
                assert(a@.skip(i as int) =~= b@.skip(i as int));
            }
        }
        if i < b.len() {
            KeyOrder::Less
        } else if i < a.len() {
            KeyOrder::Greater
        } else {
            KeyOrder::Equal
        }
    }

    fn duplicate(&self) -> (copy: Addr) {
        self.clone()
    }
}

} // verus!
