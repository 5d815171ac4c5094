//! The digest algorithm behind every hash of a container: an accumulator that
//! takes bytes in any number of pieces and ends in a digest of fixed size.

use vstd::prelude::*;

verus! {

/// A streaming digest algorithm.
///
/// An accumulator starts empty, takes bytes piece by piece, and is consumed into
/// its output. The output is `digest` of all the bytes written, in order: how
/// they were cut into pieces has no part in it.
pub trait Hasher: Sized {
    /// The digest: a byte string of fixed size.
    type Output;

    /// The bytes written so far, in order.
    spec fn written(&self) -> Seq<u8>;

    /// The digest that the algorithm assigns to a byte string.
    spec fn spec_digest(bytes: Seq<u8>) -> Seq<u8>;

    /// The bytes of an output.
    spec fn output_bytes(out: &Self::Output) -> Seq<u8>;

    /// The number of bytes of every output.
    spec fn output_size() -> nat;

    /// An accumulator that nothing was written to.
    fn fresh() -> (hasher: Self)
        ensures
            hasher.written() == Seq::<u8>::empty(),
    ;

    /// Appends `buf` to what was written.
    fn write_all(&mut self, buf: &[u8])
        ensures
            final(self).written() == old(self).written() + buf@,
    ;

    /// Ends the accumulation and gives the digest of what was written.
    fn finalize(self) -> (out: Self::Output)
        ensures
            Self::output_bytes(&out) == Self::spec_digest(self.written()),
            Self::output_bytes(&out).len() == Self::output_size(),
    ;

    /// The bytes of an output.
    fn as_bytes(out: &Self::Output) -> (bytes: &[u8])
        ensures
            bytes@ == Self::output_bytes(out),
    ;
}

/// A storage context that fixes the digest algorithm of the containers in it.
pub trait HashingContext {
    /// The digest algorithm.
    type Hasher: Hasher;
}

/// `sha2::Sha512`, the accumulator of SHA-512: a value whose inside is not
/// looked into.
#[verifier::external_type_specification]
#[verifier::external_body]
pub struct ExSha512(sha2::Sha512);

/// The bytes that a `sha2::Sha512` accumulator has taken in so far, in order.
pub uninterp spec fn sha512_written(hasher: sha2::Sha512) -> Seq<u8>;

/// The SHA-512 digest of a byte string: what `sha2::Digest::finalize` hands out
/// for an accumulator that has taken in these bytes.
pub uninterp spec fn sha512_digest(bytes: Seq<u8>) -> Seq<u8>;

/// `sha2::Sha512::default`: an accumulator in the initial state of SHA-512, which
/// has taken in no byte.
#[verifier::external_body]
fn sha512_new() -> (hasher: sha2::Sha512)
    ensures
        sha512_written(hasher) == Seq::<u8>::empty(),
{
    <sha2::Sha512 as Default>::default()
}

/// `sha2::Digest::update` on a `Sha512`: the accumulator takes in `data` behind
/// what it had taken in before.
#[verifier::external_body]
fn sha512_update(hasher: &mut sha2::Sha512, data: &[u8])
    ensures
        sha512_written(*final(hasher)) == sha512_written(*old(hasher)) + data@,
{
    sha2::Digest::update(hasher, data)
}

/// `sha2::Digest::finalize` on a `Sha512`: the 64 bytes of the SHA-512 digest of
/// everything that the accumulator has taken in, copied out of the array that
/// the call returns.
#[verifier::external_body]
fn sha512_finalize(hasher: sha2::Sha512) -> (out: [u8; 64])
    ensures
        out@ == sha512_digest(sha512_written(hasher)),
{
    let digest: generic_array::GenericArray<u8, generic_array::typenum::U64> =
        sha2::Digest::finalize(hasher);
    let mut out = [0u8; 64];
    out.copy_from_slice(&digest);
    out
}

impl Hasher for sha2::Sha512 {
    type Output = [u8; 64];

    open spec fn written(&self) -> Seq<u8> {
        sha512_written(*self)
    }

    open spec fn spec_digest(bytes: Seq<u8>) -> Seq<u8> {
        sha512_digest(bytes)
    }

    open spec fn output_bytes(out: &[u8; 64]) -> Seq<u8> {
        out@
    }

    open spec fn output_size() -> nat {
        64
    }

    fn fresh() -> (hasher: Self) {
        sha512_new()
    }

    fn write_all(&mut self, buf: &[u8]) {
        sha512_update(self, buf)
    }

    fn finalize(self) -> (out: [u8; 64]) {
        sha512_finalize(self)
    }

    fn as_bytes(out: &[u8; 64]) -> (bytes: &[u8]) {
        out.as_slice()
    }
}

/// The context of containers that live in memory and hash with SHA-512.
#[derive(Clone, Copy, Debug, Default)]
pub struct MemoryContext;

impl HashingContext for MemoryContext {
    type Hasher = sha2::Sha512;
}

/// The digest of `bytes` under any algorithm, fed in one piece.
pub fn digest_of<H: Hasher>(bytes: &[u8]) -> (out: H::Output)
    ensures
        H::output_bytes(&out) == H::spec_digest(bytes@),
        H::output_bytes(&out).len() == H::output_size(),
{
    let mut hasher = H::fresh();
    hasher.write_all(bytes);
    assert(Seq::<u8>::empty() + bytes@ =~= bytes@);
    hasher.finalize()
}

/// Whether the algorithm tells two byte strings apart: they have one digest
/// only if they are one string.
pub open spec fn no_collision<H: Hasher>(first: Seq<u8>, second: Seq<u8>) -> bool {
    H::spec_digest(first) == H::spec_digest(second) ==> first == second
}

} // verus!
