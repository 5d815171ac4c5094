//! The records that votes and certificates are made of.

use crate::crypto::{CryptoHash, ValidatorPublicKey, ValidatorSignature};
use vstd::prelude::*;
use vstd::std_specs::cmp::PartialEqSpecImpl;

verus! {

/// The identifier of a chain.
#[derive(Clone, Copy, Debug)]
pub struct ChainId(pub CryptoHash);

impl PartialEq for ChainId {
    fn eq(&self, other: &Self) -> (same: bool) {
        self.0 == other.0
    }
}

impl Eq for ChainId {

}

impl PartialEqSpecImpl for ChainId {
    open spec fn obeys_eq_spec() -> bool {
        true
    }

    open spec fn eq_spec(&self, other: &Self) -> bool {
        *self == *other
    }
}

/// What kind of value a certificate is about.
#[derive(Clone, Copy, Debug, PartialEq, Eq, Structural)]
pub enum CertificateKind {
    Timeout,
    Validated,
    Confirmed,
}

/// A voting round. Rounds are totally ordered: the fast round first, then the
/// multi-leader rounds, the single-leader rounds and the validator rounds, each
/// group by its number.
#[derive(Clone, Copy, Debug, PartialEq, Eq, Structural, PartialOrd, Ord, Hash)]
pub enum Round {
    Fast,
    MultiLeader(u32),
    SingleLeader(u32),
    Validator(u32),
}

/// Identifies a value without containing it.
#[derive(Clone, Copy, Debug)]
pub struct LiteValue {
    /// The content hash of the value.
    pub value_hash: CryptoHash,
    /// The chain that the value belongs to.
    pub chain_id: ChainId,
    /// The kind of the value.
    pub kind: CertificateKind,
}

impl PartialEq for LiteValue {
    fn eq(&self, other: &Self) -> (same: bool) {
        self.value_hash == other.value_hash && self.chain_id == other.chain_id && self.kind
            == other.kind
    }
}

impl Eq for LiteValue {

}

impl PartialEqSpecImpl for LiteValue {
    open spec fn obeys_eq_spec() -> bool {
        true
    }

    open spec fn eq_spec(&self, other: &Self) -> bool {
        *self == *other
    }
}

/// One validator's signed statement that it accepts a value in a round.
#[derive(Clone, Copy, Debug)]
pub struct LiteVote {
    /// The value voted for.
    pub value: LiteValue,
    /// The round in which the vote was cast.
    pub round: Round,
    /// The voter.
    pub public_key: ValidatorPublicKey,
    /// The voter's signature over the value, the round and the kind.
    pub signature: ValidatorSignature,
}

/// Why a certificate was not accepted.
#[derive(Clone, Copy, Debug, PartialEq, Eq, Structural)]
pub enum ChainError {
    /// A signer is not a member of the committee.
    InvalidSigner,
    /// One validator signed more than once, and the policy in force rejects that.
    CertificateValidatorReuse,
    /// The signers' voting weight is below the quorum threshold.
    CertificateRequiresQuorum,
    /// A signature did not verify for its claimed signer.
    InvalidSignature,
}

/// What to make of a validator that appears more than once among the signers.
#[derive(Clone, Copy, Debug, PartialEq, Eq, Structural)]
pub enum DuplicatePolicy {
    /// A repeated signer invalidates the certificate.
    Reject,
    /// A repeated signer is tolerated and its weight counts once.
    CountOnce,
}

} // verus!
