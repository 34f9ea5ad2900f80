use allosaurus::{
    g1, g2, pairing_product_is_one, AccParams, Coefficient, Error, G1Point, G2Point, Scalar,
};

fn hex(s: &str) -> Vec<u8> {
    let digits: Vec<u8> = s
        .bytes()
        .map(|c| match c {
            b'0'..=b'9' => c - b'0',
            b'a'..=b'f' => c - b'a' + 10,
            _ => panic!("not a hex digit"),
        })
        .collect();
    digits.chunks(2).map(|p| p[0] * 16 + p[1]).collect()
}

const G1_GENERATOR: &str = "97f1d3a73197d7942695638c4fa9ac0fc3688c4f9774b905a14e3a3f171bac586c55e83ff97a1aeffb3af00adb22c6bb";
const G2_GENERATOR: &str = "93e02b6052719f607dacd3a088274f65596bd0d09920b61ab5da61bbdc7f5049334cf11213945d57e5ac7d055d042b7e024aa2b2f08f0a91260805272dc51051c6e47ad4fa403b02b4510b647ae3d1770bac0326a805bbefd48056c8c121bdb8";

fn g1_identity_bytes() -> Vec<u8> {
    let mut b = vec![0u8; 48];
    b[0] = 0xc0;
    b
}

#[test]
fn generators_have_their_standard_encodings() {
    assert_eq!(G1Point::generator().to_bytes(), hex(G1_GENERATOR));
    assert_eq!(G2Point::generator().to_bytes(), hex(G2_GENERATOR));
}

#[test]
fn identity_is_the_point_at_infinity() {
    assert_eq!(G1Point::identity().to_bytes(), g1_identity_bytes());
    assert_eq!(G1Point::from_bytes(&g1_identity_bytes()), Some(G1Point::identity()));
}

#[test]
fn g1_group_laws_on_small_multiples() {
    let g = G1Point::generator();
    let two = g.add(&g);
    let three = two.add(&g);
    assert_eq!(g.mul(&Scalar::from_u64(2)), two);
    assert_eq!(g.mul(&Scalar::from_u64(3)), three);
    assert_eq!(two.mul(&Scalar::from_u64(3)), three.mul(&Scalar::from_u64(2)));
    assert_eq!(g.mul(&Scalar::one()), g);
    assert_eq!(g.mul(&Scalar::zero()), G1Point::identity());
    assert_eq!(g.add(&G1Point::identity()), g);
    assert_eq!(g.add(&g.neg()), G1Point::identity());
    assert_eq!(three.add(&g.neg()), two);
    assert_ne!(two, g);
    assert!(two.eq(&g.add(&g)));
    assert!(!two.eq(&three));
}

#[test]
fn g1_multiples_wrap_around_the_order() {
    let g = G1Point::generator();
    let largest = Scalar::one().neg();
    assert_eq!(g.mul(&largest), g.neg());
    assert_eq!(g.mul(&largest).add(&g), G1Point::identity());
}

#[test]
fn g2_group_laws_on_small_multiples() {
    let g = G2Point::generator();
    let two = g.add(&g);
    assert_eq!(g.mul(&Scalar::from_u64(2)), two);
    assert_eq!(two.add(&g), g.mul(&Scalar::from_u64(3)));
    assert_eq!(g.mul(&Scalar::one()), g);
    assert!(two.eq(&g.add(&g)));
    assert!(!two.eq(&g));
    assert_eq!(g.mul(&Scalar::one().neg()).add(&g), g.mul(&Scalar::zero()));
}

#[test]
fn point_round_trips() {
    for p in [
        G1Point::generator(),
        G1Point::identity(),
        G1Point::generator().mul(&Scalar::from_u64(12345)),
        G1Point::hash(b"message", b"tag"),
    ] {
        let bytes = p.to_bytes();
        assert_eq!(bytes.len(), 48);
        assert_eq!(G1Point::from_bytes(&bytes), Some(p));
        assert_eq!(g1(&bytes), Ok(p));
        assert_eq!(Coefficient::from_bytes(&bytes), Some(Coefficient(p)));
        assert_eq!(Coefficient(p).to_bytes(), bytes);
    }
    for p in [
        G2Point::generator(),
        G2Point::generator().mul(&Scalar::zero()),
        G2Point::generator().mul(&Scalar::from_u64(12345)),
        G2Point::hash(b"message", b"tag"),
    ] {
        let bytes = p.to_bytes();
        assert_eq!(bytes.len(), 96);
        assert_eq!(G2Point::from_bytes(&bytes), Some(p));
        assert_eq!(g2(&bytes), Ok(p));
    }
}

#[test]
fn point_decoding_rejects_what_is_no_point() {
    assert_eq!(G1Point::from_bytes(&[0u8; 48]), None);
    assert_eq!(G1Point::from_bytes(&[0xffu8; 48]), None);
    assert_eq!(G2Point::from_bytes(&[0u8; 96]), None);
    assert_eq!(G2Point::from_bytes(&[0xffu8; 96]), None);
    // The point at infinity with a sign bit is no encoding.
    let mut b = g1_identity_bytes();
    b[0] = 0xe0;
    assert_eq!(G1Point::from_bytes(&b), None);
    // An abscissa with no point on the curve above it.
    let mut b = hex(G1_GENERATOR);
    b[47] ^= 0x01;
    let flipped = G1Point::from_bytes(&b);
    assert_ne!(flipped, Some(G1Point::generator()));
    assert_eq!(g1(&[0u8; 48]), Err("Proof serialization error"));
    assert_eq!(g2(&[0u8; 96]), Err("Proof serialization error"));
    assert_eq!(Coefficient::from_bytes(&[0u8; 48]), None);
}

#[test]
fn decoding_tells_a_wrong_length_from_a_wrong_encoding() {
    assert_eq!(G1Point::decode(&G1Point::generator().to_bytes()), Ok(G1Point::generator()));
    assert_eq!(G1Point::decode(&[0u8; 47]), Err(Error::Length));
    assert_eq!(G1Point::decode(&[0u8; 48]), Err(Error::Encoding));
    assert_eq!(G2Point::decode(&G2Point::generator().to_bytes()), Ok(G2Point::generator()));
    assert_eq!(G2Point::decode(&[0u8; 48]), Err(Error::Length));
    assert_eq!(G2Point::decode(&[0u8; 96]), Err(Error::Encoding));
    assert_eq!(Scalar::decode(&Scalar::from_u64(3).to_bytes()), Ok(Scalar::from_u64(3)));
    assert_eq!(Scalar::decode(&[0xffu8; 33]), Err(Error::Length));
    assert_eq!(Scalar::decode(&[0xffu8; 32]), Err(Error::Encoding));
    let params = AccParams::default();
    assert_eq!(AccParams::decode(&params.to_bytes()), Ok(params));
    assert_eq!(AccParams::decode(&[0u8; 576]), Err(Error::Length));
    assert_eq!(AccParams::decode(&[0u8; 480]), Err(Error::Encoding));
}

#[test]
fn point_decoding_rejects_other_lengths() {
    assert_eq!(G1Point::from_bytes(&hex(G1_GENERATOR)[..47]), None);
    assert_eq!(G1Point::from_bytes(&hex(G2_GENERATOR)), None);
    assert_eq!(G2Point::from_bytes(&hex(G1_GENERATOR)), None);
    assert_eq!(G2Point::from_bytes(&[]), None);
    assert_eq!(g1(&[]), Err("Proof serialization error"));
}

#[test]
fn hashing_to_points_depends_on_message_and_tag() {
    let p = G1Point::hash(b"message", b"tag");
    assert_eq!(p, G1Point::hash(b"message", b"tag"));
    assert_ne!(p, G1Point::hash(b"message", b"tug"));
    assert_ne!(p, G1Point::hash(b"massage", b"tag"));
    let q = G2Point::hash(b"message", b"tag");
    assert_eq!(q, G2Point::hash(b"message", b"tag"));
    assert_ne!(q, G2Point::hash(b"message", b"tug"));
    assert_ne!(q, G2Point::hash(b"massage", b"tag"));
}

#[test]
fn pairing_is_bilinear() {
    let g = G1Point::generator();
    let h = G2Point::generator();
    let a = Scalar::from_u64(6);
    let b = Scalar::from_u64(35);
    let ab = a.mul(&b);
    // e(a g, b h) * e(-(ab) g, h) == 1
    assert!(pairing_product_is_one(&g.mul(&a), &h.mul(&b), &g.mul(&ab).neg(), &h));
    assert!(pairing_product_is_one(&g.mul(&a), &h.mul(&b), &g.neg(), &h.mul(&ab)));
    assert!(!pairing_product_is_one(&g.mul(&a), &h.mul(&b), &g.mul(&ab), &h));
    assert!(!pairing_product_is_one(&g.mul(&a), &h.mul(&b), &g.mul(&a).neg(), &h));
}

#[test]
fn pairing_with_the_identity_is_one() {
    let g = G1Point::generator();
    let h = G2Point::generator();
    let zero = G1Point::identity();
    let zero2 = h.mul(&Scalar::zero());
    assert!(pairing_product_is_one(&zero, &h, &zero, &h));
    assert!(pairing_product_is_one(&zero, &h, &g, &zero2));
    assert!(!pairing_product_is_one(&zero, &h, &g, &h));
    assert!(!pairing_product_is_one(&g, &h, &g, &zero2));
}
