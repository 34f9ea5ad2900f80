use allosaurus::transcript::{append_message, challenge_bytes, new_transcript};
use allosaurus::{
    AccParams, Error, G1Point, G2Point, PublicKey, PublicKeys, Scalar, SecretKey,
};

fn seed(first: u8) -> Vec<u8> {
    let mut s = vec![0xffu8; 32];
    s[0] = first;
    s
}

#[test]
fn default_parameters_are_fixed() {
    let p = AccParams::default();
    assert_eq!(p, AccParams::default());
    assert_eq!(p.get_p1(), G1Point::generator());
    assert_eq!(p.get_p2(), G2Point::generator());
    let tag1 = b"BLS12381G1_XMD:SHA-256_SSWU_RO_";
    let tag2 = b"BLS12381G2_XMD:SHA-256_SSWU_RO_";
    assert_eq!(p.get_k0(), G1Point::hash(&seed(0xff), tag1));
    assert_eq!(p.get_k1(), G1Point::hash(&seed(0xfe), tag1));
    assert_eq!(p.get_k2(), G2Point::hash(&seed(0xfd), tag2));
    assert_eq!(p.get_x1(), G1Point::hash(&seed(0xfc), tag1));
    assert_eq!(p.get_y1(), G1Point::hash(&seed(0xfb), tag1));
    assert_eq!(p.get_z1(), G1Point::hash(&seed(0xfa), tag1));
}

#[test]
fn default_generators_are_all_different() {
    let p = AccParams::default();
    let g1s = [p.get_p1(), p.get_k0(), p.get_k1(), p.get_x1(), p.get_y1(), p.get_z1()];
    for i in 0..g1s.len() {
        assert_ne!(g1s[i], G1Point::identity());
        for j in 0..i {
            assert_ne!(g1s[i], g1s[j]);
        }
    }
    assert_ne!(p.get_p2(), p.get_k2());
}

#[test]
fn parameters_encode_as_their_generators_in_order() {
    let p = AccParams::default();
    let bytes = p.to_bytes();
    assert_eq!(AccParams::BYTES, 480);
    assert_eq!(bytes.len(), 6 * 48 + 2 * 96);
    let mut expected = Vec::new();
    expected.extend(p.p1.to_bytes());
    expected.extend(p.p2.to_bytes());
    expected.extend(p.k0.to_bytes());
    expected.extend(p.k1.to_bytes());
    expected.extend(p.k2.to_bytes());
    expected.extend(p.x1.to_bytes());
    expected.extend(p.y1.to_bytes());
    expected.extend(p.z1.to_bytes());
    assert_eq!(bytes.to_vec(), expected);
}

#[test]
fn parameters_round_trip() {
    let p = AccParams::default();
    assert_eq!(AccParams::from_bytes(p.to_bytes()), Some(p));
    assert_eq!(AccParams::decode(&p.to_bytes()), Ok(p));
    let mut other = p;
    other.k0 = G1Point::identity();
    other.z1 = p.x1;
    assert_ne!(other, p);
    assert_eq!(AccParams::from_bytes(other.to_bytes()), Some(other));
}

#[test]
fn parameters_of_another_length_are_refused() {
    let bytes = AccParams::default().to_bytes();
    assert_eq!(AccParams::decode(&bytes[..479]), Err(Error::Length));
    let mut longer = bytes.to_vec();
    longer.push(0);
    assert_eq!(AccParams::decode(&longer), Err(Error::Length));
    assert_eq!(AccParams::decode(&[0u8; 576]), Err(Error::Length));
    assert_eq!(AccParams::decode(&[]), Err(Error::Length));
}

#[test]
fn parameters_with_a_part_that_is_no_point_are_refused() {
    let bytes = AccParams::default().to_bytes();
    for start in [0usize, 48, 144, 192, 240, 336, 384, 432] {
        let mut broken = bytes;
        // Without the compression flag nothing is a compressed point.
        broken[start] &= 0x7f;
        assert_eq!(AccParams::from_bytes(broken), None);
        assert_eq!(AccParams::decode(&broken), Err(Error::Encoding));
    }
    assert_eq!(AccParams::from_bytes([0u8; 480]), None);
}

#[test]
fn add_to_transcript_appends_the_four_proof_generators() {
    let p = AccParams::default();
    let mut by_method = new_transcript("test");
    p.add_to_transcript(&mut by_method);
    let mut by_hand = new_transcript("test");
    append_message(&mut by_hand, "Proof Param K", &p.k1.to_bytes());
    append_message(&mut by_hand, "Proof Param X", &p.x1.to_bytes());
    append_message(&mut by_hand, "Proof Param Y", &p.y1.to_bytes());
    append_message(&mut by_hand, "Proof Param Z", &p.z1.to_bytes());
    let expected = challenge_bytes(&mut by_hand, "challenge");
    assert_eq!(challenge_bytes(&mut by_method, "challenge"), expected);

    let mut in_another_order = new_transcript("test");
    append_message(&mut in_another_order, "Proof Param X", &p.x1.to_bytes());
    append_message(&mut in_another_order, "Proof Param K", &p.k1.to_bytes());
    append_message(&mut in_another_order, "Proof Param Y", &p.y1.to_bytes());
    append_message(&mut in_another_order, "Proof Param Z", &p.z1.to_bytes());
    assert_ne!(challenge_bytes(&mut in_another_order, "challenge"), expected);
}

#[test]
fn transcript_matches_merlin() {
    let mut ours = new_transcript("protocol");
    append_message(&mut ours, "label", b"message");
    let mut theirs = merlin::Transcript::new(b"protocol");
    theirs.append_message(b"label", b"message");
    let mut expected = [0u8; 64];
    theirs.challenge_bytes(b"challenge", &mut expected);
    assert_eq!(challenge_bytes(&mut ours, "challenge"), expected);
}

#[test]
fn transcript_challenge_depends_on_everything_appended() {
    let challenge = |protocol: &'static str, label: &'static str, message: &[u8], ask: &'static str| {
        let mut t = new_transcript(protocol);
        append_message(&mut t, label, message);
        challenge_bytes(&mut t, ask)
    };
    let base = challenge("protocol", "label", b"message", "challenge");
    assert_eq!(base, challenge("protocol", "label", b"message", "challenge"));
    assert_ne!(base, challenge("protocal", "label", b"message", "challenge"));
    assert_ne!(base, challenge("protocol", "lapel", b"message", "challenge"));
    assert_ne!(base, challenge("protocol", "label", b"massage", "challenge"));
    assert_ne!(base, challenge("protocol", "label", b"message", "challenging"));
    let mut nothing_appended = new_transcript("protocol");
    assert_ne!(base, challenge_bytes(&mut nothing_appended, "challenge"));
}

#[test]
fn public_keys_are_derived_from_the_secret_key() {
    let key = SecretKey(Scalar::from_u64(5));
    let witness_key = PublicKey::from_secret(&key);
    assert_eq!(witness_key.0, G2Point::generator().mul(&Scalar::from_u64(5)));
    let keys = PublicKeys { witness_key, sign_key: witness_key };
    assert_eq!(keys.witness_key.0, keys.sign_key.0);
    assert_eq!(allosaurus::SECURITY_BYTES, 16);
}
