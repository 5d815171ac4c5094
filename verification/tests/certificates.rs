use certified_state::certificate::{CertificateValue, GenericCertificate, LiteCertificate, Timeout};
use certified_state::committee::Committee;
use certified_state::crypto::{bytes_eq, bytes_le, CryptoHash, ValidatorPublicKey, ValidatorSignature};
use certified_state::data_types::{
    CertificateKind, ChainError, ChainId, DuplicatePolicy, LiteValue, LiteVote, Round,
};
use certified_state::quorum::{check_quorum, check_signatures, check_verdicts, seen_before};
use certified_state::signatures::{sort_by_key, Signatures, Signed};

fn key(n: u8) -> ValidatorPublicKey {
    ValidatorPublicKey([n; 33])
}

fn sig(n: u8) -> ValidatorSignature {
    ValidatorSignature([n; 64])
}

fn hash(n: u8) -> CryptoHash {
    CryptoHash([n; 32])
}

fn chain(n: u8) -> ChainId {
    let mut bytes = [0u8; 32];
    bytes[31] = n;
    ChainId(CryptoHash(bytes))
}

fn value(chain_no: u8, kind: CertificateKind, hash_no: u8) -> LiteValue {
    LiteValue { value_hash: hash(hash_no), chain_id: chain(chain_no), kind }
}

fn vote(value: LiteValue, round: Round, signer: u8) -> LiteVote {
    LiteVote { value, round, public_key: key(signer), signature: sig(signer) }
}

fn signed(signer: u8) -> Signed {
    (key(signer), sig(signer))
}

fn four_validators(threshold: u64) -> Committee {
    Committee::new(vec![(key(b'A'), 1), (key(b'B'), 1), (key(b'C'), 1), (key(b'D'), 1)], threshold)
}

#[test]
fn bytes_eq_compares_length_and_content() {
    assert!(bytes_eq(&[], &[]));
    assert!(bytes_eq(&[1, 2, 3], &[1, 2, 3]));
    assert!(!bytes_eq(&[1, 2, 3], &[1, 2, 4]));
    assert!(!bytes_eq(&[1, 2], &[1, 2, 3]));
}

#[test]
fn bytes_le_is_lexicographic() {
    assert!(bytes_le(&[], &[]));
    assert!(bytes_le(&[], &[0]));
    assert!(!bytes_le(&[0], &[]));
    assert!(bytes_le(&[1, 2], &[1, 2]));
    assert!(bytes_le(&[1, 2], &[1, 3]));
    assert!(!bytes_le(&[1, 3], &[1, 2]));
    assert!(bytes_le(&[1, 255], &[2, 0]));
    assert!(bytes_le(&[1, 2], &[1, 2, 0]));
    assert!(!bytes_le(&[1, 2, 0], &[1, 2]));
}

#[test]
fn key_order_goes_by_the_first_differing_byte() {
    let mut low = [7u8; 33];
    let mut high = [7u8; 33];
    low[32] = 1;
    high[32] = 2;
    assert!(ValidatorPublicKey(low).le(&ValidatorPublicKey(high)));
    assert!(!ValidatorPublicKey(high).le(&ValidatorPublicKey(low)));
    assert!(ValidatorPublicKey(low).le(&ValidatorPublicKey(low)));
    high[0] = 6;
    assert!(ValidatorPublicKey(high).le(&ValidatorPublicKey(low)));
}

#[test]
fn equality_of_keys_hashes_and_values() {
    assert!(key(1) == key(1));
    assert!(key(1) != key(2));
    assert!(sig(1) == sig(1));
    assert!(sig(1) != sig(2));
    assert!(hash(1) == hash(1));
    assert!(hash(1) != hash(2));
    assert!(chain(1) == chain(1));
    assert!(chain(1) != chain(2));
    let v = value(1, CertificateKind::Confirmed, 9);
    assert!(v == value(1, CertificateKind::Confirmed, 9));
    assert!(v != value(2, CertificateKind::Confirmed, 9));
    assert!(v != value(1, CertificateKind::Validated, 9));
    assert!(v != value(1, CertificateKind::Confirmed, 8));
}

#[test]
fn rounds_are_totally_ordered() {
    assert!(Round::Fast < Round::MultiLeader(0));
    assert!(Round::MultiLeader(7) < Round::MultiLeader(8));
    assert!(Round::MultiLeader(u32::MAX) < Round::SingleLeader(0));
    assert!(Round::SingleLeader(3) < Round::Validator(0));
    assert_eq!(Round::Validator(2), Round::Validator(2));
}

#[test]
fn sort_by_key_orders_ascending() {
    let mut signatures = vec![signed(3), signed(1), signed(2)];
    sort_by_key(&mut signatures);
    assert_eq!(signatures, vec![signed(1), signed(2), signed(3)]);
}

#[test]
fn sort_by_key_handles_empty_and_single() {
    let mut none: Vec<Signed> = Vec::new();
    sort_by_key(&mut none);
    assert!(none.is_empty());
    let mut one = vec![signed(9)];
    sort_by_key(&mut one);
    assert_eq!(one, vec![signed(9)]);
}

#[test]
fn sort_by_key_is_stable() {
    let mut signatures = vec![(key(2), sig(20)), (key(1), sig(10)), (key(2), sig(21)), (key(1), sig(11))];
    sort_by_key(&mut signatures);
    assert_eq!(
        signatures,
        vec![(key(1), sig(10)), (key(1), sig(11)), (key(2), sig(20)), (key(2), sig(21))]
    );
}

#[test]
fn sort_by_key_agrees_with_the_standard_stable_sort() {
    let mut signatures: Vec<Signed> = Vec::new();
    let mut state: u32 = 12345;
    for _ in 0..200 {
        state = state.wrapping_mul(1103515245).wrapping_add(12345);
        let k = (state >> 16) as u8 % 16;
        state = state.wrapping_mul(1103515245).wrapping_add(12345);
        let s = (state >> 16) as u8;
        let mut bytes = [0u8; 33];
        bytes[5] = k / 4;
        bytes[20] = k % 4;
        signatures.push((ValidatorPublicKey(bytes), sig(s)));
    }
    let mut expected = signatures.clone();
    expected.sort_by_key(|&(name, _)| name.0);
    sort_by_key(&mut signatures);
    assert_eq!(signatures, expected);
}

#[test]
fn new_certificate_sorts_and_owns_its_signatures() {
    let v = value(1, CertificateKind::Confirmed, 7);
    let certificate = LiteCertificate::new(v, Round::MultiLeader(2), vec![signed(5), signed(4), signed(6)]);
    assert!(certificate.value == v);
    assert_eq!(certificate.round, Round::MultiLeader(2));
    assert_eq!(certificate.signatures.as_slice(), &[signed(4), signed(5), signed(6)][..]);
    assert!(matches!(certificate.signatures, Signatures::Owned(_)));
}

#[test]
fn every_arrangement_of_the_signatures_gives_the_same_certificate() {
    let v = value(1, CertificateKind::Validated, 7);
    let arrangements: Vec<Vec<u8>> = vec![
        vec![1, 2, 3],
        vec![1, 3, 2],
        vec![2, 1, 3],
        vec![2, 3, 1],
        vec![3, 1, 2],
        vec![3, 2, 1],
    ];
    for arrangement in arrangements {
        let signatures: Vec<Signed> = arrangement.iter().map(|n| signed(*n)).collect();
        let certificate = LiteCertificate::new(v, Round::Fast, signatures);
        assert!(certificate.value == v);
        assert_eq!(certificate.round, Round::Fast);
        assert_eq!(certificate.signatures.as_slice(), &[signed(1), signed(2), signed(3)][..]);
    }
}

#[test]
fn no_certificate_from_no_votes() {
    assert!(LiteCertificate::try_from_votes(Vec::new()).is_none());
}

#[test]
fn no_certificate_from_votes_for_two_hashes() {
    let round = Round::SingleLeader(1);
    let votes = vec![
        vote(value(1, CertificateKind::Confirmed, 7), round, 1),
        vote(value(1, CertificateKind::Confirmed, 8), round, 2),
    ];
    assert!(LiteCertificate::try_from_votes(votes).is_none());
    let votes = vec![
        vote(value(1, CertificateKind::Confirmed, 7), round, 1),
        vote(value(1, CertificateKind::Confirmed, 7), round, 2),
        vote(value(1, CertificateKind::Confirmed, 8), round, 3),
    ];
    assert!(LiteCertificate::try_from_votes(votes).is_none());
}

#[test]
fn no_certificate_from_votes_of_two_rounds() {
    let v = value(1, CertificateKind::Confirmed, 7);
    let votes = vec![vote(v, Round::SingleLeader(1), 1), vote(v, Round::SingleLeader(2), 2)];
    assert!(LiteCertificate::try_from_votes(votes).is_none());
}

#[test]
fn certificate_from_agreeing_votes() {
    let v = value(1, CertificateKind::Confirmed, 7);
    let round = Round::Validator(4);
    let votes = vec![vote(v, round, 3), vote(v, round, 1), vote(v, round, 2)];
    let certificate = LiteCertificate::try_from_votes(votes).unwrap();
    assert!(certificate.value == v);
    assert_eq!(certificate.round, round);
    assert_eq!(certificate.signatures.as_slice(), &[signed(1), signed(2), signed(3)][..]);
    assert!(matches!(certificate.signatures, Signatures::Owned(_)));
}

#[test]
fn certificate_from_one_vote() {
    let v = value(3, CertificateKind::Timeout, 1);
    let certificate = LiteCertificate::try_from_votes(vec![vote(v, Round::Fast, 9)]).unwrap();
    assert!(certificate.value == v);
    assert_eq!(certificate.signatures.as_slice(), &[signed(9)][..]);
}

#[test]
fn votes_need_agree_on_hash_and_round_only() {
    let round = Round::Fast;
    let first = value(1, CertificateKind::Confirmed, 7);
    let second = value(2, CertificateKind::Validated, 7);
    let certificate =
        LiteCertificate::try_from_votes(vec![vote(first, round, 2), vote(second, round, 1)]).unwrap();
    assert!(certificate.value == first);
    assert_eq!(certificate.signatures.as_slice(), &[signed(1), signed(2)][..]);
}

#[test]
fn committee_lookups() {
    let committee = Committee::new(vec![(key(1), 5), (key(2), 0), (key(1), 9)], 4);
    assert_eq!(committee.quorum_threshold(), 4);
    assert_eq!(committee.lookup(&key(1)), Some(5));
    assert_eq!(committee.lookup(&key(2)), Some(0));
    assert_eq!(committee.lookup(&key(3)), None);
    assert_eq!(committee.weight(&key(1)), 5);
    assert_eq!(committee.weight(&key(2)), 0);
    assert_eq!(committee.weight(&key(3)), 0);
    assert!(committee.is_member(&key(1)));
    assert!(committee.is_member(&key(2)));
    assert!(!committee.is_member(&key(3)));
}

#[test]
fn quorum_boundary() {
    let committee = four_validators(3);
    let v = value(1, CertificateKind::Confirmed, 7);
    let round = Round::MultiLeader(0);

    let three = LiteCertificate::new(v, round, vec![signed(b'A'), signed(b'B'), signed(b'C')]);
    let checked = three.check(&committee, DuplicatePolicy::Reject, &[true, true, true]);
    assert!(*checked.unwrap() == v);

    let two = LiteCertificate::new(v, round, vec![signed(b'A'), signed(b'B')]);
    assert_eq!(
        two.check(&committee, DuplicatePolicy::Reject, &[true, true]).err(),
        Some(ChainError::CertificateRequiresQuorum)
    );

    let with_stranger = LiteCertificate::new(
        v,
        round,
        vec![signed(b'A'), signed(b'B'), signed(b'C'), signed(b'D'), signed(b'E')],
    );
    assert_eq!(
        with_stranger.check(&committee, DuplicatePolicy::Reject, &[true; 5]).err(),
        Some(ChainError::InvalidSigner)
    );
    assert_eq!(
        with_stranger.check(&committee, DuplicatePolicy::CountOnce, &[true; 5]).err(),
        Some(ChainError::InvalidSigner)
    );
}

#[test]
fn check_hands_back_the_certificates_own_value() {
    let committee = four_validators(1);
    let certificate = LiteCertificate::new(value(1, CertificateKind::Confirmed, 7), Round::Fast, vec![signed(b'A')]);
    let checked = certificate.check(&committee, DuplicatePolicy::Reject, &[true]).unwrap();
    assert!(std::ptr::eq(checked, &certificate.value));
}

#[test]
fn a_signature_that_does_not_verify_is_reported() {
    let committee = four_validators(3);
    let v = value(1, CertificateKind::Confirmed, 7);
    let certificate = LiteCertificate::new(v, Round::Fast, vec![signed(b'A'), signed(b'B'), signed(b'C')]);
    assert_eq!(
        certificate.check(&committee, DuplicatePolicy::Reject, &[true, false, true]).err(),
        Some(ChainError::InvalidSignature)
    );
    assert_eq!(
        certificate.check(&committee, DuplicatePolicy::Reject, &[true, true]).err(),
        Some(ChainError::InvalidSignature)
    );
    assert_eq!(
        certificate.check(&committee, DuplicatePolicy::Reject, &[]).err(),
        Some(ChainError::InvalidSignature)
    );
    assert!(certificate.check(&committee, DuplicatePolicy::Reject, &[true, true, true, false]).is_ok());
}

#[test]
fn the_quorum_gate_speaks_before_the_signature_gate() {
    let committee = four_validators(3);
    let v = value(1, CertificateKind::Confirmed, 7);
    let two = LiteCertificate::new(v, Round::Fast, vec![signed(b'A'), signed(b'B')]);
    assert_eq!(
        two.check(&committee, DuplicatePolicy::Reject, &[false, false]).err(),
        Some(ChainError::CertificateRequiresQuorum)
    );
    let stranger = LiteCertificate::new(v, Round::Fast, vec![signed(b'E')]);
    assert_eq!(
        stranger.check(&committee, DuplicatePolicy::Reject, &[false]).err(),
        Some(ChainError::InvalidSigner)
    );
}

#[test]
fn a_repeated_signer_under_either_policy() {
    let committee = four_validators(3);
    let signatures = [(key(b'A'), sig(1)), (key(b'A'), sig(2)), (key(b'B'), sig(3))];
    assert_eq!(
        check_signatures(&signatures, &committee, DuplicatePolicy::Reject, &[true; 3]),
        Err(ChainError::CertificateValidatorReuse)
    );
    assert_eq!(
        check_signatures(&signatures, &committee, DuplicatePolicy::CountOnce, &[true; 3]),
        Err(ChainError::CertificateRequiresQuorum)
    );
    let lenient = four_validators(2);
    assert_eq!(check_signatures(&signatures, &lenient, DuplicatePolicy::CountOnce, &[true; 3]), Ok(()));
    assert_eq!(
        check_signatures(&signatures, &lenient, DuplicatePolicy::CountOnce, &[true, false, true]),
        Err(ChainError::InvalidSignature)
    );
}

#[test]
fn the_first_faulty_signer_decides_the_error() {
    let committee = four_validators(1);
    let stranger_first = [signed(b'E'), signed(b'A'), signed(b'A')];
    assert_eq!(
        check_quorum(&stranger_first, &committee, DuplicatePolicy::Reject),
        Err(ChainError::InvalidSigner)
    );
    let reuse_first = [signed(b'A'), signed(b'A'), signed(b'E')];
    assert_eq!(
        check_quorum(&reuse_first, &committee, DuplicatePolicy::Reject),
        Err(ChainError::CertificateValidatorReuse)
    );
    assert_eq!(
        check_quorum(&reuse_first, &committee, DuplicatePolicy::CountOnce),
        Err(ChainError::InvalidSigner)
    );
    let stranger_twice = [signed(b'E'), signed(b'E')];
    assert_eq!(
        check_quorum(&stranger_twice, &committee, DuplicatePolicy::Reject),
        Err(ChainError::InvalidSigner)
    );
}

#[test]
fn weights_add_up_without_overflow() {
    let committee = Committee::new(vec![(key(1), u64::MAX), (key(2), u64::MAX), (key(3), 1)], u64::MAX);
    assert_eq!(check_quorum(&[signed(1), signed(2)], &committee, DuplicatePolicy::Reject), Ok(()));
    assert_eq!(check_quorum(&[signed(1)], &committee, DuplicatePolicy::Reject), Ok(()));
    assert_eq!(
        check_quorum(&[signed(3)], &committee, DuplicatePolicy::Reject),
        Err(ChainError::CertificateRequiresQuorum)
    );
}

#[test]
fn an_empty_certificate_meets_only_a_zero_threshold() {
    assert_eq!(check_quorum(&[], &four_validators(0), DuplicatePolicy::Reject), Ok(()));
    assert_eq!(
        check_quorum(&[], &four_validators(1), DuplicatePolicy::Reject),
        Err(ChainError::CertificateRequiresQuorum)
    );
    assert_eq!(check_verdicts(0, &[]), Ok(()));
}

#[test]
fn verdicts_are_needed_for_every_signature() {
    assert_eq!(check_verdicts(2, &[true, true]), Ok(()));
    assert_eq!(check_verdicts(2, &[true, true, false]), Ok(()));
    assert_eq!(check_verdicts(2, &[true]), Err(ChainError::InvalidSignature));
    assert_eq!(check_verdicts(2, &[false, true]), Err(ChainError::InvalidSignature));
}

#[test]
fn seen_before_looks_at_earlier_entries_only() {
    let signatures = [signed(1), signed(2), (key(1), sig(9)), signed(3)];
    assert!(!seen_before(&signatures, 0));
    assert!(!seen_before(&signatures, 1));
    assert!(seen_before(&signatures, 2));
    assert!(!seen_before(&signatures, 3));
}

fn timeout(chain_no: u8, hash_no: u8) -> Timeout {
    Timeout { chain_id: chain(chain_no), height: 10, epoch: 2, hash: hash(hash_no) }
}

#[test]
fn timeout_is_a_certificate_value() {
    let t = timeout(1, 7);
    assert!(t.chain_id() == chain(1));
    assert!(CertificateValue::hash(&t) == hash(7));
    assert_eq!(<Timeout as CertificateValue>::kind(), CertificateKind::Timeout);
}

#[test]
fn check_value_compares_chain_kind_and_hash() {
    let certificate = LiteCertificate::new(value(1, CertificateKind::Timeout, 7), Round::Fast, vec![signed(1)]);
    assert!(certificate.check_value(&timeout(1, 7)));
    assert!(!certificate.check_value(&timeout(2, 7)));
    assert!(!certificate.check_value(&timeout(1, 8)));
    let other_kind = LiteCertificate::new(value(1, CertificateKind::Confirmed, 7), Round::Fast, vec![signed(1)]);
    assert!(!other_kind.check_value(&timeout(1, 7)));
}

#[test]
fn binding_a_matching_value() {
    let certificate = LiteCertificate::new(
        value(1, CertificateKind::Timeout, 7),
        Round::SingleLeader(3),
        vec![signed(2), signed(1)],
    );
    let bound: GenericCertificate<Timeout> = certificate.with_value(timeout(1, 7)).unwrap();
    assert!(bound.value.chain_id == chain(1));
    assert!(bound.value.hash == hash(7));
    assert_eq!(bound.value.height, 10);
    assert_eq!(bound.round, Round::SingleLeader(3));
    assert_eq!(bound.signatures, vec![signed(1), signed(2)]);
}

#[test]
fn binding_a_value_with_another_hash_gives_nothing() {
    let certificate = LiteCertificate::new(value(1, CertificateKind::Timeout, 7), Round::Fast, vec![signed(1)]);
    assert!(certificate.cloned().with_value(timeout(1, 8)).is_none());
    assert!(certificate.cloned().with_value(timeout(2, 7)).is_none());
    assert!(certificate.check_value(&timeout(1, 7)));
    assert!(certificate.with_value(timeout(1, 7)).is_some());
}

#[test]
fn binding_sorts_signatures_that_were_not_in_order() {
    let unsorted = [signed(3), signed(1), signed(2)];
    let certificate = LiteCertificate {
        value: value(1, CertificateKind::Timeout, 7),
        round: Round::Fast,
        signatures: Signatures::Borrowed(&unsorted),
    };
    let bound = certificate.with_value(timeout(1, 7)).unwrap();
    assert_eq!(bound.signatures, vec![signed(1), signed(2), signed(3)]);
}

#[test]
fn generic_certificate_new_sorts() {
    let certificate = GenericCertificate::new(5u8, Round::Fast, vec![signed(2), signed(1)]);
    assert_eq!(certificate.value, 5);
    assert_eq!(certificate.round, Round::Fast);
    assert_eq!(certificate.signatures, vec![signed(1), signed(2)]);
}

#[test]
fn cloned_owns_a_copy_of_borrowed_signatures() {
    let buffer = vec![signed(1), signed(2)];
    let v = value(1, CertificateKind::Confirmed, 7);
    let copy = {
        let borrowed = LiteCertificate { value: v, round: Round::Fast, signatures: Signatures::Borrowed(&buffer) };
        assert_eq!(borrowed.signatures.as_slice(), &buffer[..]);
        borrowed.cloned()
    };
    drop(buffer);
    assert!(copy.value == v);
    assert_eq!(copy.round, Round::Fast);
    assert!(matches!(copy.signatures, Signatures::Owned(_)));
    assert_eq!(copy.signatures.as_slice(), &[signed(1), signed(2)][..]);
}

#[test]
fn signatures_handle_conversions() {
    let buffer = [signed(4), signed(5)];
    let borrowed = Signatures::Borrowed(&buffer);
    assert_eq!(borrowed.as_slice(), &buffer[..]);
    let owned = borrowed.to_owned();
    assert!(matches!(owned, Signatures::Owned(_)));
    assert_eq!(owned.into_owned(), buffer.to_vec());
    assert_eq!(borrowed.into_owned(), buffer.to_vec());
}

#[test]
fn a_borrowed_certificate_is_checked_in_place() {
    let committee = four_validators(2);
    let buffer = [signed(b'C'), signed(b'A')];
    let v = value(1, CertificateKind::Confirmed, 7);
    let certificate = LiteCertificate { value: v, round: Round::Fast, signatures: Signatures::Borrowed(&buffer) };
    assert!(certificate.check(&committee, DuplicatePolicy::Reject, &[true, true]).is_ok());
}

type Record = ((Vec<u8>, Vec<u8>, u8), (u8, u32), Vec<(Vec<u8>, Vec<u8>)>);

fn to_record(certificate: &LiteCertificate<'_>) -> Record {
    let kind = match certificate.value.kind {
        CertificateKind::Timeout => 0,
        CertificateKind::Validated => 1,
        CertificateKind::Confirmed => 2,
    };
    let round = match certificate.round {
        Round::Fast => (0, 0),
        Round::MultiLeader(number) => (1, number),
        Round::SingleLeader(number) => (2, number),
        Round::Validator(number) => (3, number),
    };
    (
        (certificate.value.value_hash.0.to_vec(), certificate.value.chain_id.0 .0.to_vec(), kind),
        round,
        certificate.signatures.as_slice().iter().map(|(k, s)| (k.0.to_vec(), s.0.to_vec())).collect(),
    )
}

fn from_record(record: Record) -> LiteCertificate<'static> {
    let ((value_hash, chain_id, kind), (round_tag, round_no), signatures) = record;
    let kind = match kind {
        0 => CertificateKind::Timeout,
        1 => CertificateKind::Validated,
        _ => CertificateKind::Confirmed,
    };
    let round = match round_tag {
        0 => Round::Fast,
        1 => Round::MultiLeader(round_no),
        2 => Round::SingleLeader(round_no),
        _ => Round::Validator(round_no),
    };
    let signatures: Vec<Signed> = signatures
        .into_iter()
        .map(|(k, s)| (ValidatorPublicKey(k.try_into().unwrap()), ValidatorSignature(s.try_into().unwrap())))
        .collect();
    LiteCertificate {
        value: LiteValue {
            value_hash: CryptoHash(value_hash.try_into().unwrap()),
            chain_id: ChainId(CryptoHash(chain_id.try_into().unwrap())),
            kind,
        },
        round,
        signatures: Signatures::Owned(signatures),
    }
}

#[test]
fn a_certificate_survives_a_round_trip_through_its_record() {
    let certificates = vec![
        LiteCertificate::new(value(1, CertificateKind::Validated, 7), Round::Validator(3), vec![signed(2), signed(1)]),
        LiteCertificate::new(value(2, CertificateKind::Timeout, 0), Round::Fast, vec![]),
        LiteCertificate::new(
            value(3, CertificateKind::Confirmed, 255),
            Round::MultiLeader(u32::MAX),
            vec![signed(9), signed(8), signed(7)],
        ),
    ];
    for certificate in certificates {
        let bytes = bcs::to_bytes(&to_record(&certificate)).unwrap();
        let record: Record = bcs::from_bytes(&bytes).unwrap();
        let rebuilt = from_record(record);
        assert!(rebuilt.value == certificate.value);
        assert_eq!(rebuilt.round, certificate.round);
        assert_eq!(rebuilt.signatures.as_slice(), certificate.signatures.as_slice());
    }
}
