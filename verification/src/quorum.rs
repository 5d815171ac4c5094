//! The quorum verifier: two gates that a certificate's signatures must pass.
//!
//! The first gate looks only at who signed: every signer must be a member of the
//! committee, and the signers' voting weight must reach the quorum threshold. The
//! second gate looks only at the verdicts of the cryptographic check, one per
//! signature, which the caller has obtained beforehand. The gates are independent
//! and the verifier runs the first, then the second.

use crate::committee::Committee;
use crate::data_types::{ChainError, DuplicatePolicy};
use crate::signatures::Signed;
use vstd::prelude::*;

verus! {

/// Whether the signer of entry `i` has signed an earlier entry too.
pub open spec fn reused_at(signatures: Seq<Signed>, i: int) -> bool {
    exists|j: int| 0 <= j < i && (#[trigger] signatures[j]).0 == signatures[i].0
}

/// What is wrong with the signer of entry `i`, if anything.
pub open spec fn signer_fault(
    signatures: Seq<Signed>,
    committee: &Committee,
    policy: DuplicatePolicy,
    i: int,
) -> Option<ChainError> {
    if policy == DuplicatePolicy::Reject && reused_at(signatures, i) {
        Some(ChainError::CertificateValidatorReuse)
    } else if !committee.spec_is_member(signatures[i].0) {
        Some(ChainError::InvalidSigner)
    } else {
        None
    }
}

/// The fault of the first faulty signer at or behind position `from`.
pub open spec fn first_fault(
    signatures: Seq<Signed>,
    committee: &Committee,
    policy: DuplicatePolicy,
    from: int,
) -> Option<ChainError>
    decreases signatures.len() - from,
{
    if from < 0 || from >= signatures.len() {
        None
    } else {
        match signer_fault(signatures, committee, policy, from) {
            Some(fault) => Some(fault),
            None => first_fault(signatures, committee, policy, from + 1),
        }
    }
}

/// The voting weight behind the first `n` entries, each signer counted once.
pub open spec fn counted_weight(signatures: Seq<Signed>, committee: &Committee, n: int) -> nat
    decreases n,
{
    if n <= 0 {
        0
    } else {
        let before = counted_weight(signatures, committee, n - 1);
        if reused_at(signatures, n - 1) {
            before
        } else {
            before + committee.spec_weight(signatures[n - 1].0) as nat
        }
    }
}

/// What the first gate says: the first signer fault in order of the entries, or
/// else whether the signers' weight reaches the threshold.
pub open spec fn quorum_outcome(
    signatures: Seq<Signed>,
    committee: &Committee,
    policy: DuplicatePolicy,
) -> Result<(), ChainError> {
    match first_fault(signatures, committee, policy, 0) {
        Some(fault) => Err(fault),
        None => if counted_weight(signatures, committee, signatures.len() as int)
            >= committee.spec_quorum_threshold() {
            Ok(())
        } else {
            Err(ChainError::CertificateRequiresQuorum)
        },
    }
}

/// Whether entry `i` has a verdict, and the verdict is that its signature is
/// genuine.
pub open spec fn verdict_at(verdicts: Seq<bool>, i: int) -> bool {
    0 <= i < verdicts.len() && verdicts[i]
}

/// What the second gate says of `n` entries: every one of them needs a
/// favourable verdict.
pub open spec fn signatures_outcome(n: nat, verdicts: Seq<bool>) -> Result<(), ChainError> {
    if forall|i: int| 0 <= i < n ==> verdict_at(verdicts, i) {
        Ok(())
    } else {
        Err(ChainError::InvalidSignature)
    }
}

/// What the verifier says: the first gate's error if it has one, else the
/// second gate's outcome.
pub open spec fn verification_outcome(
    signatures: Seq<Signed>,
    committee: &Committee,
    policy: DuplicatePolicy,
    verdicts: Seq<bool>,
) -> Result<(), ChainError> {
    match quorum_outcome(signatures, committee, policy) {
        Err(fault) => Err(fault),
        Ok(_) => signatures_outcome(signatures.len(), verdicts),
    }
}

/// A signer fault behind `from` is found by the scan from `from`: where
/// duplicates are tolerated, a signer that is no member makes the scan end in
/// the error for an invalid signer.
pub proof fn lemma_non_member_is_found(
    signatures: Seq<Signed>,
    committee: &Committee,
    from: int,
    at: int,
)
    requires
        0 <= from <= at < signatures.len(),
        !committee.spec_is_member(signatures[at].0),
    ensures
        first_fault(signatures, committee, DuplicatePolicy::CountOnce, from) == Some(
            ChainError::InvalidSigner,
        ),
    decreases at - from,
{
    if from < at {
        lemma_non_member_is_found(signatures, committee, from + 1, at);
    }
}

/// Where duplicates are tolerated, a certificate with a signer that is no member
/// of the committee fails with the error for an invalid signer, whatever else it
/// holds.
pub proof fn lemma_non_member_invalidates(
    signatures: Seq<Signed>,
    committee: &Committee,
    verdicts: Seq<bool>,
    at: int,
)
    requires
        0 <= at < signatures.len(),
        !committee.spec_is_member(signatures[at].0),
    ensures
        verification_outcome(signatures, committee, DuplicatePolicy::CountOnce, verdicts) == Err::<
            (),
            ChainError,
        >(ChainError::InvalidSigner),
{
    lemma_non_member_is_found(signatures, committee, 0, at);
}

/// Tells whether the signer of entry `i` has signed an earlier entry too.
pub fn seen_before(signatures: &[Signed], i: usize) -> (seen: bool)
    requires
        i < signatures@.len(),
    ensures
        seen == reused_at(signatures@, i as int),
{
    let mut j: usize = 0;
    while j < i
        invariant
            j <= i < signatures@.len(),
            forall|k: int| 0 <= k < j ==> (#[trigger] signatures@[k]).0 != signatures@[i as int].0,
        decreases i - j,
    {
        if signatures[j].0 == signatures[i].0 {
            return true;
        }
        j += 1;
    }
    false
}

/// The first gate: membership of every signer, then the weight of the signers
/// against the committee's quorum threshold.
pub fn check_quorum(signatures: &[Signed], committee: &Committee, policy: DuplicatePolicy) -> (r:
    Result<(), ChainError>)
    ensures
        r == quorum_outcome(signatures@, committee, policy),
{
    let mut weight: u128 = 0;
    let mut i: usize = 0;
    while i < signatures.len()
        invariant
            i <= signatures@.len(),
            first_fault(signatures@, committee, policy, 0) == first_fault(
                signatures@,
                committee,
                policy,
                i as int,
            ),
            weight == counted_weight(signatures@, committee, i as int),
            weight <= i * 0xffff_ffff_ffff_ffff,
        decreases signatures@.len() - i,
    {
        let reused = seen_before(signatures, i);
        if reused {
            match policy {
                DuplicatePolicy::Reject => {
                    return Err(ChainError::CertificateValidatorReuse);
                },
                DuplicatePolicy::CountOnce => {},
            }
        }
        match committee.lookup(&signatures[i].0) {
            None => {
                return Err(ChainError::InvalidSigner);
            },
            Some(voting_rights) => {
                if !reused {
                    weight = weight + voting_rights as u128;
                }
            },
        }
        i += 1;
    }
    if weight >= committee.quorum_threshold() as u128 {
        Ok(())
    } else {
        Err(ChainError::CertificateRequiresQuorum)
    }
}

/// The second gate: each of the first `n` verdicts must be there and favourable.
pub fn check_verdicts(n: usize, verdicts: &[bool]) -> (r: Result<(), ChainError>)
    ensures
        r == signatures_outcome(n as nat, verdicts@),
{
    let mut i: usize = 0;
    while i < n
        invariant
            i <= n,
            forall|k: int| 0 <= k < i ==> verdict_at(verdicts@, k),
        decreases n - i,
    {
        if i >= verdicts.len() || !verdicts[i] {
            assert(!verdict_at(verdicts@, i as int));
            return Err(ChainError::InvalidSignature);
        }
        i += 1;
    }
    Ok(())
}

/// Checks signatures against a committee. `verdicts[i]` tells whether the
/// signature of entry `i` is genuine for its claimed signer; an entry without a
/// verdict counts as not genuine.
pub fn check_signatures(
    signatures: &[Signed],
    committee: &Committee,
    policy: DuplicatePolicy,
    verdicts: &[bool],
) -> (r: Result<(), ChainError>)
    ensures
        r == verification_outcome(signatures@, committee, policy, verdicts@),
{
    match check_quorum(signatures, committee, policy) {
        Err(fault) => Err(fault),
        Ok(_) => check_verdicts(signatures.len(), verdicts),
    }
}

} // verus!
