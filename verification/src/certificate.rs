//! Certificates: a value's descriptor, the round, and the signatures of the
//! validators that voted for it.

use crate::committee::Committee;
use crate::crypto::CryptoHash;
use crate::data_types::{
    CertificateKind,
    ChainError,
    ChainId,
    DuplicatePolicy,
    LiteValue,
    LiteVote,
    Round,
};
use crate::quorum::{check_signatures, verification_outcome};
use crate::signatures::{sort_by_key, sorted_by_key, Signatures, Signed};
use vstd::prelude::*;

verus! {

/// A value that can be certified: it knows its chain, its kind and its content
/// hash.
pub trait CertificateValue: Sized {
    /// The chain that the value belongs to.
    spec fn spec_chain_id(&self) -> ChainId;

    /// The kind of every value of this type.
    spec fn spec_kind() -> CertificateKind;

    /// The content hash of the value.
    spec fn spec_hash(&self) -> CryptoHash;

    /// The chain that the value belongs to.
    fn chain_id(&self) -> (id: ChainId)
        ensures
            id == self.spec_chain_id(),
    ;

    /// The kind of every value of this type.
    fn kind() -> (kind: CertificateKind)
        ensures
            kind == Self::spec_kind(),
    ;

    /// The content hash of the value.
    fn hash(&self) -> (hash: CryptoHash)
        ensures
            hash == self.spec_hash(),
    ;
}

/// The statement that a chain made no progress at a height during an epoch,
/// together with the hash of that statement.
#[derive(Clone, Copy, Debug)]
pub struct Timeout {
    pub chain_id: ChainId,
    pub height: u64,
    pub epoch: u32,
    pub hash: CryptoHash,
}

impl CertificateValue for Timeout {
    open spec fn spec_chain_id(&self) -> ChainId {
        self.chain_id
    }

    open spec fn spec_kind() -> CertificateKind {
        CertificateKind::Timeout
    }

    open spec fn spec_hash(&self) -> CryptoHash {
        self.hash
    }

    fn chain_id(&self) -> (id: ChainId) {
        self.chain_id
    }

    fn kind() -> (kind: CertificateKind) {
        CertificateKind::Timeout
    }

    fn hash(&self) -> (hash: CryptoHash) {
        self.hash
    }
}

/// A certificate together with the value that it certifies.
#[derive(Clone, Debug)]
pub struct GenericCertificate<T> {
    /// The certified value.
    pub value: T,
    /// The round in which the value was certified.
    pub round: Round,
    /// The signatures on the value, ascending by public key.
    pub signatures: Vec<Signed>,
}

impl<T> GenericCertificate<T> {
    /// Makes a certificate of a value, a round and signatures, which it brings
    /// into the canonical order.
    pub fn new(value: T, round: Round, signatures: Vec<Signed>) -> (certificate: Self)
        ensures
            certificate.value == value,
            certificate.round == round,
            certificate.signatures@ == sorted_by_key(signatures@),
    {
        let mut signatures = signatures;
        sort_by_key(&mut signatures);
        GenericCertificate { value, round, signatures }
    }
}

/// A certified statement from the committee, without the value.
#[derive(Clone, Debug)]
pub struct LiteCertificate<'a> {
    /// Hash and chain of the certified value.
    pub value: LiteValue,
    /// The round in which the value was certified.
    pub round: Round,
    /// Signatures on the value: a list of the certificate's own, or one borrowed
    /// from the caller.
    pub signatures: Signatures<'a>,
}

/// The signer and signature that each vote contributes, in the order of the votes.
pub open spec fn signatures_of(votes: Seq<LiteVote>) -> Seq<Signed> {
    Seq::new(votes.len(), |i: int| (votes[i].public_key, votes[i].signature))
}

/// Whether all votes name the value hash and the round of the first.
pub open spec fn votes_agree(votes: Seq<LiteVote>) -> bool {
    forall|i: int|
        0 <= i < votes.len() ==> (#[trigger] votes[i]).value.value_hash
            == votes[0].value.value_hash && votes[i].round == votes[0].round
}

impl<'a> LiteCertificate<'a> {
    /// Whether a value is the one that this certificate is about: same chain,
    /// same kind, same content hash.
    pub open spec fn spec_check_value<T: CertificateValue>(&self, value: &T) -> bool {
        self.value.chain_id == value.spec_chain_id() && T::spec_kind() == self.value.kind
            && self.value.value_hash == value.spec_hash()
    }

    /// Makes a certificate that owns its signatures, which it brings into the
    /// canonical order.
    pub fn new(value: LiteValue, round: Round, signatures: Vec<Signed>) -> (certificate: Self)
        ensures
            certificate.value == value,
            certificate.round == round,
            certificate.signatures@ == sorted_by_key(signatures@),
            certificate.signatures is Owned,
    {
        let mut signatures = signatures;
        sort_by_key(&mut signatures);
        LiteCertificate { value, round, signatures: Signatures::Owned(signatures) }
    }

    /// Makes a certificate from a list of votes, without checking the
    /// signatures. There is none if the list is empty or the votes do not all
    /// name the value hash and round of the first.
    pub fn try_from_votes(votes: Vec<LiteVote>) -> (certificate: Option<Self>)
        ensures
            certificate is Some <==> votes@.len() > 0 && votes_agree(votes@),
            certificate matches Some(c) ==> c.value == votes@[0].value && c.round
                == votes@[0].round && c.signatures@ == sorted_by_key(signatures_of(votes@))
                && c.signatures is Owned,
    {
        if votes.len() == 0 {
            return None;
        }
        let value = votes[0].value;
        let round = votes[0].round;
        let mut signatures: Vec<Signed> = Vec::new();
        signatures.push((votes[0].public_key, votes[0].signature));
        let mut i: usize = 1;
        while i < votes.len()
            invariant
                1 <= i <= votes@.len(),
                value == votes@[0].value,
                round == votes@[0].round,
                signatures@ == signatures_of(votes@).take(i as int),
                forall|k: int|
                    0 <= k < i ==> (#[trigger] votes@[k]).value.value_hash
                        == votes@[0].value.value_hash && votes@[k].round == votes@[0].round,
            decreases votes@.len() - i,
        {
            let vote = votes[i];
            if !(vote.value.value_hash == value.value_hash) || !(vote.round == round) {
                return None;
            }
            signatures.push((vote.public_key, vote.signature));
            assert(signatures@ =~= signatures_of(votes@).take(i as int + 1));
            i += 1;
        }
        assert(signatures@ =~= signatures_of(votes@));
        Some(LiteCertificate::new(value, round, signatures))
    }

    /// Verifies the certificate against a committee. `verdicts[i]` tells whether
    /// signature `i` is genuine for the certificate's value hash, round and kind
    /// under the key that claims it; `policy` says what a validator that signed
    /// twice means.
    pub fn check(&self, committee: &Committee, policy: DuplicatePolicy, verdicts: &[bool]) -> (r:
        Result<&LiteValue, ChainError>)
        ensures
            match r {
                Ok(value) => *value == self.value && verification_outcome(
                    self.signatures@,
                    committee,
                    policy,
                    verdicts@,
                ) is Ok,
                Err(fault) => verification_outcome(
                    self.signatures@,
                    committee,
                    policy,
                    verdicts@,
                ) == Err::<(), ChainError>(fault),
            },
    {
        match check_signatures(self.signatures.as_slice(), committee, policy, verdicts) {
            Err(fault) => Err(fault),
            Ok(_) => Ok(&self.value),
        }
    }

    /// Checks whether the value matches this certificate.
    pub fn check_value<T: CertificateValue>(&self, value: &T) -> (matches: bool)
        ensures
            matches == self.spec_check_value(value),
    {
        self.value.chain_id == value.chain_id() && T::kind() == self.value.kind
            && self.value.value_hash == value.hash()
    }

    /// Binds the certificate to the value, if it matches.
    pub fn with_value<T: CertificateValue>(self, value: T) -> (bound: Option<
        GenericCertificate<T>,
    >)
        ensures
            bound is Some <==> self.spec_check_value(&value),
            bound matches Some(certificate) ==> certificate.value == value && certificate.round
                == self.round && certificate.signatures@ == sorted_by_key(self.signatures@),
    {
        if !self.check_value(&value) {
            return None;
        }
        Some(GenericCertificate::new(value, self.round, self.signatures.into_owned()))
    }

    /// A copy of the certificate that owns its list of signatures.
    pub fn cloned(&self) -> (copy: LiteCertificate<'static>)
        ensures
            copy.value == self.value,
            copy.round == self.round,
            copy.signatures@ == self.signatures@,
            copy.signatures is Owned,
    {
        LiteCertificate {
            value: self.value,
            round: self.round,
            signatures: self.signatures.to_owned(),
        }
    }
}

} // verus!
