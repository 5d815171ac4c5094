//! The canonical encoding of what containers hold: the bytes that get hashed.
//!
//! The encoding is BCS. A length is written in ULEB128, an integer in little
//! endian at its full width, a byte string as its length and its bytes, a list as
//! its length and its items. The encoder itself is an outside one; what this
//! module states of it is the format.

use vstd::bytes::spec_u64_to_le_bytes;
use vstd::prelude::*;

verus! {

/// The greatest length that a byte string or a list may have to be encoded.
pub const MAX_SEQUENCE_LENGTH: usize = 0x7fff_ffff;

/// The ULEB128 form of a number: seven bits to a byte, the low bits first, the
/// high bit of a byte set where another byte follows.
pub open spec fn uleb128(n: nat) -> Seq<u8>
    decreases n,
{
    if n < 0x80 {
        seq![n as u8]
    } else {
        seq![(n % 0x80 + 0x80) as u8] + uleb128(n / 0x80)
    }
}

/// The encoding of a length, which has one only up to `MAX_SEQUENCE_LENGTH`.
pub open spec fn encode_length(len: nat) -> Option<Seq<u8>> {
    if len <= MAX_SEQUENCE_LENGTH {
        Some(uleb128(len))
    } else {
        None
    }
}

/// The encoding of an unsigned 64-bit integer: its eight bytes, the lowest first.
pub open spec fn encode_u64(value: u64) -> Seq<u8> {
    spec_u64_to_le_bytes(value)
}

/// The encoding of a byte string: its length, then its bytes.
pub open spec fn encode_bytes(bytes: Seq<u8>) -> Option<Seq<u8>> {
    match encode_length(bytes.len()) {
        Some(prefix) => Some(prefix + bytes),
        None => None,
    }
}

/// The encodings of the byte strings of a list, one behind the other.
pub open spec fn encode_items(items: Seq<Seq<u8>>) -> Option<Seq<u8>>
    decreases items.len(),
{
    if items.len() == 0 {
        Some(Seq::<u8>::empty())
    } else {
        match (encode_items(items.drop_last()), encode_bytes(items.last())) {
            (Some(front), Some(last)) => Some(front + last),
            _ => None,
        }
    }
}

/// The encoding of a list of byte strings: its length, then its items.
pub open spec fn encode_list(items: Seq<Seq<u8>>) -> Option<Seq<u8>> {
    match (encode_length(items.len()), encode_items(items)) {
        (Some(prefix), Some(body)) => Some(prefix + body),
        _ => None,
    }
}

/// The encodings of the entries of a map, one behind the other: of each entry
/// its key, then its value.
pub open spec fn encode_entries(entries: Seq<(u64, Seq<u8>)>) -> Option<Seq<u8>>
    decreases entries.len(),
{
    if entries.len() == 0 {
        Some(Seq::<u8>::empty())
    } else {
        match (encode_entries(entries.drop_last()), encode_bytes(entries.last().1)) {
            (Some(front), Some(value)) => Some(front + encode_u64(entries.last().0) + value),
            _ => None,
        }
    }
}

/// The encoding of a map, given its entries in ascending order of their keys:
/// the number of entries as a 64-bit integer, then the entries.
pub open spec fn encode_map(entries: Seq<(u64, Seq<u8>)>) -> Option<Seq<u8>> {
    match encode_entries(entries) {
        Some(body) => Some(encode_u64(entries.len() as u64) + body),
        None => None,
    }
}

/// Where entries have an encoding, so has every run of them from the start.
pub proof fn lemma_encode_entries_prefix(entries: Seq<(u64, Seq<u8>)>, n: int)
    requires
        0 <= n <= entries.len(),
        encode_entries(entries) is Some,
    ensures
        encode_entries(entries.take(n)) is Some,
    decreases entries.len(),
{
    if n == entries.len() {
        assert(entries.take(n) =~= entries);
    } else {
        lemma_encode_entries_prefix(entries.drop_last(), n);
        assert(entries.drop_last().take(n) =~= entries.take(n));
    }
}

/// A 64-bit integer's encoding has eight bytes and tells the integer.
pub proof fn lemma_encode_u64_injective(a: u64, b: u64)
    ensures
        encode_u64(a).len() == 8,
        encode_u64(a) == encode_u64(b) ==> a == b,
{
    vstd::bytes::lemma_auto_spec_u64_to_from_le_bytes();
}

/// A number's ULEB128 form has at least one byte, and its first byte tells
/// whether it is the only one.
proof fn lemma_uleb128_first(n: nat)
    ensures
        uleb128(n).len() >= 1,
        n < 0x80 ==> uleb128(n) == seq![n as u8],
        n >= 0x80 ==> uleb128(n)[0] == (n % 0x80 + 0x80) as u8 && uleb128(n).skip(1) == uleb128(
            n / 0x80,
        ),
{
    if n >= 0x80 {
        assert(uleb128(n).skip(1) =~= uleb128(n / 0x80));
    }
}

/// No ULEB128 form is the start of another: where two of them, each followed
/// by more bytes, read the same, the numbers are the same and so is what follows.
pub proof fn lemma_uleb128_prefix_free(m: nat, n: nat, x: Seq<u8>, y: Seq<u8>)
    requires
        uleb128(m) + x == uleb128(n) + y,
    ensures
        m == n,
        x == y,
    decreases m,
{
    let a = uleb128(m) + x;
    let b = uleb128(n) + y;
    lemma_uleb128_first(m);
    lemma_uleb128_first(n);
    assert(a[0] == uleb128(m)[0]);
    assert(b[0] == uleb128(n)[0]);
    if m < 0x80 {
        assert(n < 0x80);
        assert(x =~= a.skip(1));
        assert(y =~= b.skip(1));
    } else {
        assert(n >= 0x80);
        assert(m % 0x80 == n % 0x80);
        assert(a.skip(1) =~= uleb128(m / 0x80) + x);
        assert(b.skip(1) =~= uleb128(n / 0x80) + y);
        lemma_uleb128_prefix_free(m / 0x80, n / 0x80, x, y);
    }
}

/// A byte string can be read back from its encoding, whatever follows it.
pub proof fn lemma_encode_bytes_prefix_free(a: Seq<u8>, b: Seq<u8>, x: Seq<u8>, y: Seq<u8>)
    requires
        encode_bytes(a) is Some,
        encode_bytes(b) is Some,
        encode_bytes(a).unwrap() + x == encode_bytes(b).unwrap() + y,
    ensures
        a == b,
        x == y,
{
    assert(uleb128(a.len()) + a + x =~= uleb128(a.len()) + (a + x));
    assert(uleb128(b.len()) + b + y =~= uleb128(b.len()) + (b + y));
    lemma_uleb128_prefix_free(a.len(), b.len(), a + x, b + y);
    assert(a =~= (a + x).take(a.len() as int));
    assert(b =~= (b + y).take(b.len() as int));
    assert(x =~= (a + x).skip(a.len() as int));
    assert(y =~= (b + y).skip(b.len() as int));
}

/// The encodings of the items of a list are the encoding of its first item and
/// then those of the others.
proof fn lemma_encode_items_front(items: Seq<Seq<u8>>)
    requires
        items.len() > 0,
    ensures
        encode_items(items) == match (
            encode_bytes(items.first()),
            encode_items(items.drop_first()),
        ) {
            (Some(first), Some(rest)) => Some(first + rest),
            _ => None,
        },
    decreases items.len(),
{
    if items.len() == 1 {
        assert(items.drop_last() =~= Seq::<Seq<u8>>::empty());
        assert(items.drop_first() =~= Seq::<Seq<u8>>::empty());
        if encode_bytes(items.first()) is Some {
            let first = encode_bytes(items.first()).unwrap();
            assert(Seq::<u8>::empty() + first =~= first + Seq::<u8>::empty());
        }
    } else {
        let front = items.drop_last();
        lemma_encode_items_front(front);
        assert(front.first() == items.first());
        assert(front.drop_first() =~= items.drop_first().drop_last());
        assert(items.drop_first().last() == items.last());
        match (
            encode_bytes(items.first()),
            encode_items(front.drop_first()),
            encode_bytes(items.last()),
        ) {
            (Some(first), Some(middle), Some(last)) => {
                assert((first + middle) + last =~= first + (middle + last));
            },
            _ => {},
        }
    }
}

/// Lists of equal length with the same encodings of their items are the same
/// list.
pub proof fn lemma_encode_items_injective(a: Seq<Seq<u8>>, b: Seq<Seq<u8>>)
    requires
        a.len() == b.len(),
        encode_items(a) is Some,
        encode_items(a) == encode_items(b),
    ensures
        a == b,
    decreases a.len(),
{
    if a.len() == 0 {
        assert(a =~= b);
    } else {
        lemma_encode_items_front(a);
        lemma_encode_items_front(b);
        lemma_encode_bytes_prefix_free(
            a.first(),
            b.first(),
            encode_items(a.drop_first()).unwrap(),
            encode_items(b.drop_first()).unwrap(),
        );
        lemma_encode_items_injective(a.drop_first(), b.drop_first());
        assert(a =~= seq![a.first()] + a.drop_first());
        assert(b =~= seq![b.first()] + b.drop_first());
    }
}

/// The encoding of a list tells the list: two lists with one encoding are one
/// list, items and order and length.
pub proof fn lemma_encode_list_injective(a: Seq<Seq<u8>>, b: Seq<Seq<u8>>)
    requires
        encode_list(a) is Some,
        encode_list(a) == encode_list(b),
    ensures
        a == b,
{
    lemma_uleb128_prefix_free(
        a.len(),
        b.len(),
        encode_items(a).unwrap(),
        encode_items(b).unwrap(),
    );
    lemma_encode_items_injective(a, b);
}

/// The order of a list's items shows in its encoding: two different items the
/// other way round encode differently.
pub proof fn lemma_encode_list_order_matters(a: Seq<u8>, b: Seq<u8>)
    requires
        a != b,
        encode_list(seq![a, b]) is Some,
    ensures
        encode_list(seq![a, b]) != encode_list(seq![b, a]),
{
    if encode_list(seq![a, b]) == encode_list(seq![b, a]) {
        lemma_encode_list_injective(seq![a, b], seq![b, a]);
        assert(seq![a, b][0] == seq![b, a][0]);
    }
}

/// The byte strings that a list of byte vectors holds.
pub open spec fn items_of(list: Seq<Vec<u8>>) -> Seq<Seq<u8>> {
    list.map_values(|item: Vec<u8>| item@)
}

/// `bcs::Error`, the encoder's error: a value whose inside is not looked into.
#[verifier::external_type_specification]
#[verifier::external_body]
pub struct ExBcsError(bcs::Error);

/// `bcs::to_bytes` on a `u64`: always succeeds, with the eight bytes of the
/// value in little endian.
#[verifier::external_body]
pub(crate) fn bcs_u64(value: u64) -> (r: Result<Vec<u8>, bcs::Error>)
    ensures
        r is Ok,
        r.unwrap()@ == encode_u64(value),
{
    bcs::to_bytes(&value)
}

/// `bcs::to_bytes` on a byte vector: the ULEB128 length and the bytes, or an
/// error where the vector is longer than `MAX_SEQUENCE_LENGTH`.
#[verifier::external_body]
pub(crate) fn bcs_bytes(value: &Vec<u8>) -> (r: Result<Vec<u8>, bcs::Error>)
    ensures
        match r {
            Ok(bytes) => encode_bytes(value@) == Some(bytes@),
            Err(_) => encode_bytes(value@) is None,
        },
{
    bcs::to_bytes(value)
}

/// `bcs::to_bytes` on a vector of byte vectors: the ULEB128 length of the list
/// and each item as a byte vector, or an error where the list or one of its
/// items is longer than `MAX_SEQUENCE_LENGTH`.
#[verifier::external_body]
pub(crate) fn bcs_list(value: &Vec<Vec<u8>>) -> (r: Result<Vec<u8>, bcs::Error>)
    ensures
        match r {
            Ok(bytes) => encode_list(items_of(value@)) == Some(bytes@),
            Err(_) => encode_list(items_of(value@)) is None,
        },
{
    bcs::to_bytes(value)
}

} // verus!
