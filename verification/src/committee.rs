//! The committee that certificates are checked against: who may sign, with what
//! weight, and how much weight makes a quorum.

use crate::crypto::ValidatorPublicKey;
use vstd::prelude::*;

verus! {

/// The voting weight that the first entry listed for `key` gives it, if any.
pub open spec fn listed_weight(validators: Seq<(ValidatorPublicKey, u64)>, key: ValidatorPublicKey)
    -> Option<u64>
    decreases validators.len(),
{
    if validators.len() == 0 {
        None
    } else if validators[0].0 == key {
        Some(validators[0].1)
    } else {
        listed_weight(validators.drop_first(), key)
    }
}

/// A set of validators with their voting weights, and the weight that a quorum
/// must reach.
#[derive(Clone, Debug)]
pub struct Committee {
    validators: Vec<(ValidatorPublicKey, u64)>,
    quorum_threshold: u64,
}

impl Committee {
    /// The members with their weights, as listed.
    pub closed spec fn spec_validators(&self) -> Seq<(ValidatorPublicKey, u64)> {
        self.validators@
    }

    /// The weight that a certificate's signers must reach.
    pub closed spec fn spec_quorum_threshold(&self) -> u64 {
        self.quorum_threshold
    }

    /// Whether `key` is a member.
    pub open spec fn spec_is_member(&self, key: ValidatorPublicKey) -> bool {
        listed_weight(self.spec_validators(), key) is Some
    }

    /// The voting weight of `key`: zero for a key that is no member.
    pub open spec fn spec_weight(&self, key: ValidatorPublicKey) -> u64 {
        match listed_weight(self.spec_validators(), key) {
            Some(weight) => weight,
            None => 0,
        }
    }

    /// Makes a committee of the given members. Where a key is listed more than
    /// once, its first entry counts.
    pub fn new(validators: Vec<(ValidatorPublicKey, u64)>, quorum_threshold: u64) -> (committee:
        Self)
        ensures
            committee.spec_validators() == validators@,
            committee.spec_quorum_threshold() == quorum_threshold,
    {
        Committee { validators, quorum_threshold }
    }

    /// Looks a key up: its weight if it is a member.
    pub fn lookup(&self, key: &ValidatorPublicKey) -> (found: Option<u64>)
        ensures
            found == listed_weight(self.spec_validators(), *key),
    {
        let mut i: usize = 0;
        assert(self.validators@.skip(0) =~= self.validators@);
        while i < self.validators.len()
            invariant
                i <= self.validators@.len(),
                listed_weight(self.validators@, *key) == listed_weight(
                    self.validators@.skip(i as int),
                    *key,
                ),
            decreases self.validators@.len() - i,
        {
            if self.validators[i].0 == *key {
                return Some(self.validators[i].1);
            }
            assert(self.validators@.skip(i as int).drop_first() =~= self.validators@.skip(
                i as int + 1,
            ));
            i += 1;
        }
        None
    }

    /// Whether `key` is a member.
    pub fn is_member(&self, key: &ValidatorPublicKey) -> (member: bool)
        ensures
            member == self.spec_is_member(*key),
    {
        self.lookup(key).is_some()
    }

    /// The voting weight of `key`: zero for a key that is no member.
    pub fn weight(&self, key: &ValidatorPublicKey) -> (weight: u64)
        ensures
            weight == self.spec_weight(*key),
    {
        match self.lookup(key) {
            Some(weight) => weight,
            None => 0,
        }
    }

    /// The weight that a certificate's signers must reach.
    pub fn quorum_threshold(&self) -> (threshold: u64)
        ensures
            threshold == self.spec_quorum_threshold(),
    {
        self.quorum_threshold
    }
}

} // verus!
