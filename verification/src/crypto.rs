//! Plain-data stand-ins for the cryptographic material that certificates carry:
//! content digests, validator public keys and signatures.
//!
//! Nothing here performs cryptography. A digest is 32 opaque bytes, a key is the
//! byte string by which a validator is ordered and found again, and a signature
//! is carried through untouched. Whether a signature is genuine is decided
//! elsewhere and handed to the quorum verifier as a verdict.

use vstd::prelude::*;
use vstd::std_specs::cmp::PartialEqSpecImpl;

verus! {

/// Lexicographic "less than or equal" on byte strings: the first differing byte
/// decides, and a proper prefix comes first.
pub open spec fn lex_le(a: Seq<u8>, b: Seq<u8>) -> bool
    decreases a.len(),
{
    if a.len() == 0 {
        true
    } else if b.len() == 0 {
        false
    } else if a[0] != b[0] {
        a[0] < b[0]
    } else {
        lex_le(a.drop_first(), b.drop_first())
    }
}

/// Every byte string is below or equal to itself.
pub proof fn lemma_lex_le_reflexive(a: Seq<u8>)
    ensures
        lex_le(a, a),
    decreases a.len(),
{
    if a.len() > 0 {
        lemma_lex_le_reflexive(a.drop_first());
    }
}

/// Any two byte strings are comparable.
pub proof fn lemma_lex_le_total(a: Seq<u8>, b: Seq<u8>)
    ensures
        lex_le(a, b) || lex_le(b, a),
    decreases a.len(),
{
    if a.len() > 0 && b.len() > 0 && a[0] == b[0] {
        lemma_lex_le_total(a.drop_first(), b.drop_first());
    }
}

/// The order is transitive.
pub proof fn lemma_lex_le_transitive(a: Seq<u8>, b: Seq<u8>, c: Seq<u8>)
    requires
        lex_le(a, b),
        lex_le(b, c),
    ensures
        lex_le(a, c),
    decreases a.len(),
{
    if a.len() > 0 && b.len() > 0 && c.len() > 0 && a[0] == b[0] && b[0] == c[0] {
        lemma_lex_le_transitive(a.drop_first(), b.drop_first(), c.drop_first());
    }
}

/// Two byte strings that are below each other are the same string.
pub proof fn lemma_lex_le_antisymmetric(a: Seq<u8>, b: Seq<u8>)
    requires
        lex_le(a, b),
        lex_le(b, a),
    ensures
        a == b,
    decreases a.len(),
{
    if a.len() == 0 || b.len() == 0 {
        assert(a =~= b);
    } else {
        lemma_lex_le_antisymmetric(a.drop_first(), b.drop_first());
        assert(a =~= seq![a[0]] + a.drop_first());
        assert(b =~= seq![b[0]] + b.drop_first());
    }
}

/// Comparing from position `i` on gives the same answer as comparing from
/// `i + 1` on when the bytes at `i` agree.
proof fn lemma_lex_le_step(a: Seq<u8>, b: Seq<u8>, i: int)
    requires
        0 <= i < a.len(),
        i < b.len(),
        a[i] == b[i],
    ensures
        lex_le(a.skip(i), b.skip(i)) == lex_le(a.skip(i + 1), b.skip(i + 1)),
{
    assert(a.skip(i).drop_first() =~= a.skip(i + 1));
    assert(b.skip(i).drop_first() =~= b.skip(i + 1));
}

/// Tells whether two byte slices hold the same bytes.
pub fn bytes_eq(a: &[u8], b: &[u8]) -> (same: bool)
    ensures
        same == (a@ == b@),
{
    if a.len() != b.len() {
        return false;
    }
    let mut i: usize = 0;
    while i < a.len()
        invariant
            a@.len() == b@.len(),
            i <= a@.len(),
            forall|j: int| 0 <= j < i ==> a@[j] == b@[j],
        decreases a@.len() - i,
    {
        if a[i] != b[i] {
            return false;
        }
        i += 1;
    }
    assert(a@ =~= b@);
    true
}

/// Tells whether `a` comes before or equals `b` in lexicographic order.
pub fn bytes_le(a: &[u8], b: &[u8]) -> (below: bool)
    ensures
        below == lex_le(a@, b@),
{
    let mut i: usize = 0;
    assert(a@.skip(0) =~= a@ && b@.skip(0) =~= b@);
    while i < a.len() && i < b.len()
        invariant
            i <= a@.len(),
            i <= b@.len(),
            lex_le(a@, b@) == lex_le(a@.skip(i as int), b@.skip(i as int)),
        decreases a@.len() - i,
    {
        if a[i] != b[i] {
            return a[i] < b[i];
        }
        proof {
            lemma_lex_le_step(a@, b@, i as int);
        }
        i += 1;
    }
    i == a.len()
}

/// The digest that identifies a value: 32 opaque bytes.
#[derive(Clone, Copy, Debug)]
pub struct CryptoHash(pub [u8; 32]);

impl PartialEq for CryptoHash {
    fn eq(&self, other: &Self) -> (same: bool) {
        let same = bytes_eq(self.0.as_slice(), other.0.as_slice());
        proof {
            if same {
                assert(self.0@ =~= other.0@);
                assert(self.0 == other.0);
            }
        }
        same
    }
}

impl Eq for CryptoHash {

}

impl PartialEqSpecImpl for CryptoHash {
    open spec fn obeys_eq_spec() -> bool {
        true
    }

    open spec fn eq_spec(&self, other: &Self) -> bool {
        *self == *other
    }
}

/// The public key that names a validator: 33 bytes, ordered lexicographically.
#[derive(Clone, Copy, Debug)]
pub struct ValidatorPublicKey(pub [u8; 33]);

impl PartialEq for ValidatorPublicKey {
    fn eq(&self, other: &Self) -> (same: bool) {
        let same = bytes_eq(self.0.as_slice(), other.0.as_slice());
        proof {
            if same {
                assert(self.0@ =~= other.0@);
                assert(self.0 == other.0);
            }
        }
        same
    }
}

impl Eq for ValidatorPublicKey {

}

impl PartialEqSpecImpl for ValidatorPublicKey {
    open spec fn obeys_eq_spec() -> bool {
        true
    }

    open spec fn eq_spec(&self, other: &Self) -> bool {
        *self == *other
    }
}

impl ValidatorPublicKey {
    /// The order on keys: lexicographic on their bytes.
    pub open spec fn spec_le(self, other: Self) -> bool {
        lex_le(self.0@, other.0@)
    }

    /// Tells whether this key comes before or equals `other`.
    pub fn le(&self, other: &Self) -> (below: bool)
        ensures
            below == self.spec_le(*other),
    {
        bytes_le(self.0.as_slice(), other.0.as_slice())
    }

    /// Keys that are below each other are one key.
    pub proof fn lemma_le_antisymmetric(self, other: Self)
        requires
            self.spec_le(other),
            other.spec_le(self),
        ensures
            self == other,
    {
        lemma_lex_le_antisymmetric(self.0@, other.0@);
        assert(self.0@ =~= other.0@);
        assert(self.0 == other.0);
    }
}

/// A validator's signature over a vote: 64 opaque bytes.
#[derive(Clone, Copy, Debug)]
pub struct ValidatorSignature(pub [u8; 64]);

impl PartialEq for ValidatorSignature {
    fn eq(&self, other: &Self) -> (same: bool) {
        let same = bytes_eq(self.0.as_slice(), other.0.as_slice());
        proof {
            if same {
                assert(self.0@ =~= other.0@);
                assert(self.0 == other.0);
            }
        }
        same
    }
}

impl Eq for ValidatorSignature {

}

impl PartialEqSpecImpl for ValidatorSignature {
    open spec fn obeys_eq_spec() -> bool {
        true
    }

    open spec fn eq_spec(&self, other: &Self) -> bool {
        *self == *other
    }
}

} // verus!
