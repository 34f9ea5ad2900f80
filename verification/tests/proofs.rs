use allosaurus::{
    check_membership_proof, make_membership_proof, make_membership_proof_with, AccParams,
    Accumulator, Element, Error, G1Point, G2Point, MembershipProof, MembershipWitness, PublicKey,
    PublicKeys, Scalar, SecretKey,
};

struct Setting {
    params: AccParams,
    keys: PublicKeys,
    accumulator: Accumulator,
    y: Element,
    witness: MembershipWitness,
}

fn setting() -> Setting {
    let params = AccParams::default();
    let key = SecretKey::new(Some(b"1234567890"));
    let keys = PublicKeys {
        witness_key: PublicKey::from_secret(&key),
        sign_key: PublicKey(params.get_k2().mul(&key.0)),
    };
    let members = [Element::hash(b"3"), Element::hash(b"4"), Element::hash(b"5")];
    let accumulator = Accumulator::with_elements(&key, &members);
    let y = members[1];
    let witness = MembershipWitness::new(&y, &accumulator, &key).unwrap();
    Setting { params, keys, accumulator, y, witness }
}

#[test]
fn a_proof_is_accepted() {
    let s = setting();
    let challenge = [0u8; 32];
    let proof = make_membership_proof(&s.witness, &s.y, &s.params, &s.keys, &challenge).unwrap();
    assert!(check_membership_proof(&proof, &s.params, &s.keys, &s.accumulator, &challenge));
}

#[test]
fn there_is_always_a_proof() {
    let s = setting();
    let challenge = [9u8; 32];
    for _ in 0..8 {
        let proof = make_membership_proof(&s.witness, &s.y, &s.params, &s.keys, &challenge);
        let proof = proof.expect("a proof is always made");
        assert!(check_membership_proof(&proof, &s.params, &s.keys, &s.accumulator, &challenge));
    }
}

#[test]
fn a_proof_from_given_scalars_has_the_parts_it_should() {
    let s = setting();
    let challenge = [9u8; 32];
    let blind = Scalar::from_u64(5);
    let blind_nonce = Scalar::from_u64(77);
    let nonce = Scalar::from_u64(1234);
    let proof = make_membership_proof_with(
        &s.witness,
        &s.y,
        &s.params,
        &s.keys,
        &challenge,
        &blind,
        &blind_nonce,
        &nonce,
    )
    .unwrap();
    assert_eq!(proof.blinded_witness, s.witness.0.mul(&blind));
    let point = G2Point::generator().mul(&s.y.0).add(&s.keys.witness_key.0);
    assert_eq!(proof.blinded_identifier.mul(&blind), point);
    assert_eq!(proof.blind_response, blind_nonce.add(&proof.challenge.mul(&blind)));
    assert_eq!(proof.identifier_response, nonce.add(&proof.challenge.mul(&s.y.0)));
    assert!(check_membership_proof(&proof, &s.params, &s.keys, &s.accumulator, &challenge));
    let again = make_membership_proof_with(
        &s.witness,
        &s.y,
        &s.params,
        &s.keys,
        &challenge,
        &blind,
        &blind_nonce,
        &nonce,
    );
    assert_eq!(again, Some(proof));
}

#[test]
fn there_is_no_proof_with_a_blinding_of_zero() {
    let s = setting();
    let one = Scalar::one();
    let none = make_membership_proof_with(
        &s.witness,
        &s.y,
        &s.params,
        &s.keys,
        &[0u8; 32],
        &Scalar::zero(),
        &one,
        &one,
    );
    assert_eq!(none, None);
}

#[test]
fn two_proofs_of_one_holder_share_nothing() {
    let s = setting();
    let challenge = [0u8; 32];
    let p = make_membership_proof(&s.witness, &s.y, &s.params, &s.keys, &challenge).unwrap();
    let q = make_membership_proof(&s.witness, &s.y, &s.params, &s.keys, &challenge).unwrap();
    assert_ne!(p.blinded_witness, q.blinded_witness);
    assert_ne!(p.blinded_identifier, q.blinded_identifier);
    assert_ne!(p.challenge, q.challenge);
    assert_ne!(p.blind_response, q.blind_response);
    assert_ne!(p.identifier_response, q.identifier_response);
    assert_ne!(p.blinded_witness, s.witness.0);
}

#[test]
fn a_proof_is_bound_to_its_challenge_keys_and_accumulator() {
    let s = setting();
    let challenge = [0u8; 32];
    let proof = make_membership_proof(&s.witness, &s.y, &s.params, &s.keys, &challenge).unwrap();
    let mut other = challenge;
    other[31] = 1;
    assert!(!check_membership_proof(&proof, &s.params, &s.keys, &s.accumulator, &other));

    let later = Accumulator(s.accumulator.0.mul(&Scalar::from_u64(3)));
    assert!(!check_membership_proof(&proof, &s.params, &s.keys, &later, &challenge));

    let mut other_keys = s.keys;
    other_keys.sign_key = other_keys.witness_key;
    assert!(!check_membership_proof(&proof, &s.params, &other_keys, &s.accumulator, &challenge));
    let mut other_keys = s.keys;
    other_keys.witness_key = PublicKey(G2Point::generator());
    assert!(!check_membership_proof(&proof, &s.params, &other_keys, &s.accumulator, &challenge));

    let mut other_params = s.params;
    other_params.z1 = s.params.y1;
    assert!(!check_membership_proof(&proof, &other_params, &s.keys, &s.accumulator, &challenge));
}

#[test]
fn a_stale_or_foreign_witness_gives_a_proof_that_is_rejected() {
    let s = setting();
    let challenge = [0u8; 32];
    let foreign = Element::hash(b"not a member");
    let proof = make_membership_proof(&s.witness, &foreign, &s.params, &s.keys, &challenge).unwrap();
    assert!(!check_membership_proof(&proof, &s.params, &s.keys, &s.accumulator, &challenge));
    let stale = MembershipWitness(s.witness.0.add(&G1Point::generator()));
    let proof = make_membership_proof(&stale, &s.y, &s.params, &s.keys, &challenge).unwrap();
    assert!(!check_membership_proof(&proof, &s.params, &s.keys, &s.accumulator, &challenge));
}

#[test]
fn a_proof_with_a_part_changed_is_rejected() {
    let s = setting();
    let challenge = [0u8; 32];
    let proof = make_membership_proof(&s.witness, &s.y, &s.params, &s.keys, &challenge).unwrap();
    let one = Scalar::one();
    let changed = [
        MembershipProof { blinded_witness: proof.blinded_witness.add(&G1Point::generator()), ..proof },
        MembershipProof { blinded_identifier: proof.blinded_identifier.add(&G2Point::generator()), ..proof },
        MembershipProof { challenge: proof.challenge.add(&one), ..proof },
        MembershipProof { blind_response: proof.blind_response.add(&one), ..proof },
        MembershipProof { identifier_response: proof.identifier_response.add(&one), ..proof },
    ];
    for p in changed {
        assert!(!check_membership_proof(&p, &s.params, &s.keys, &s.accumulator, &challenge));
    }
}

#[test]
fn a_proof_encodes_as_its_parts_in_order() {
    let s = setting();
    let proof = make_membership_proof(&s.witness, &s.y, &s.params, &s.keys, &[0u8; 32]).unwrap();
    let bytes = proof.to_bytes();
    assert_eq!(MembershipProof::BYTES, 240);
    let mut expected = Vec::new();
    expected.extend(proof.blinded_witness.to_bytes());
    expected.extend(proof.blinded_identifier.to_bytes());
    expected.extend(proof.challenge.to_bytes());
    expected.extend(proof.blind_response.to_bytes());
    expected.extend(proof.identifier_response.to_bytes());
    assert_eq!(bytes, expected);
    assert_eq!(MembershipProof::from_bytes(&bytes), Ok(proof));
}

#[test]
fn a_proof_of_zeros_round_trips() {
    let proof = MembershipProof {
        blinded_witness: G1Point::identity(),
        blinded_identifier: G2Point::generator().mul(&Scalar::zero()),
        challenge: Scalar::zero(),
        blind_response: Scalar::zero(),
        identifier_response: Scalar::zero(),
    };
    assert_eq!(MembershipProof::from_bytes(&proof.to_bytes()), Ok(proof));
}

#[test]
fn proof_decoding_tells_a_wrong_length_from_a_wrong_part() {
    let s = setting();
    let proof = make_membership_proof(&s.witness, &s.y, &s.params, &s.keys, &[0u8; 32]).unwrap();
    let bytes = proof.to_bytes();
    assert_eq!(MembershipProof::from_bytes(&bytes[..239]), Err(Error::Length));
    assert_eq!(MembershipProof::from_bytes(&[]), Err(Error::Length));
    assert_eq!(MembershipProof::from_bytes(&[0u8; 241]), Err(Error::Length));
    assert_eq!(MembershipProof::from_bytes(&[0u8; 240]), Err(Error::Encoding));
    for start in [0usize, 48] {
        let mut broken = bytes.clone();
        broken[start] &= 0x7f;
        assert_eq!(MembershipProof::from_bytes(&broken), Err(Error::Encoding));
    }
    for start in [144usize, 176, 208] {
        let mut broken = bytes.clone();
        broken[start] = 0xff;
        assert_eq!(MembershipProof::from_bytes(&broken), Err(Error::Encoding));
    }
}
