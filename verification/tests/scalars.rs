use allosaurus::encoding::{pack_pair, unpack_pair};
use allosaurus::{sc, Element, Scalar, SecretKey};

fn hex(s: &str) -> Vec<u8> {
    let digits: Vec<u8> = s
        .bytes()
        .map(|c| match c {
            b'0'..=b'9' => c - b'0',
            b'a'..=b'f' => c - b'a' + 10,
            _ => panic!("not a hex digit"),
        })
        .collect();
    digits.chunks(2).map(|p| p[0] * 16 + p[1]).collect()
}

const ORDER: &str = "73eda753299d7d483339d80809a1d80553bda402fffe5bfeffffffff00000001";
const ORDER_LESS_ONE: &str = "73eda753299d7d483339d80809a1d80553bda402fffe5bfeffffffff00000000";

#[test]
fn scalar_addition_and_multiplication() {
    let two = Scalar::from_u64(2);
    let three = Scalar::from_u64(3);
    assert_eq!(two.add(&three), Scalar::from_u64(5));
    assert_eq!(two.mul(&three), Scalar::from_u64(6));
    assert_eq!(three.sub(&two), Scalar::from_u64(1));
    assert_eq!(Scalar::zero().add(&two), two);
    assert_eq!(Scalar::one().mul(&three), three);
}

#[test]
fn scalar_subtraction_wraps_around_the_order() {
    let largest = Scalar::from_bytes(&hex(ORDER_LESS_ONE)).unwrap();
    assert_eq!(Scalar::zero().sub(&Scalar::one()), largest);
    assert_eq!(Scalar::one().neg(), largest);
    assert_eq!(largest.add(&Scalar::one()), Scalar::zero());
    assert_eq!(largest.mul(&largest), Scalar::one());
    assert_eq!(Scalar::zero().neg(), Scalar::zero());
}

#[test]
fn scalar_inverse() {
    let seven = Scalar::from_u64(7);
    let inverse = seven.invert().unwrap();
    assert_eq!(seven.mul(&inverse), Scalar::one());
    assert_ne!(inverse, seven);
    assert_eq!(Scalar::one().invert(), Some(Scalar::one()));
    assert_eq!(Scalar::zero().invert(), None);
}

#[test]
fn scalar_comparisons() {
    assert!(Scalar::zero().is_zero());
    assert!(!Scalar::one().is_zero());
    assert!(Scalar::from_u64(9).eq(&Scalar::from_u64(9)));
    assert!(!Scalar::from_u64(9).eq(&Scalar::from_u64(10)));
    assert_eq!(Scalar::from_u64(u64::MAX).to_raw(), [u64::MAX, 0, 0, 0]);
}

#[test]
fn scalar_encoding_is_big_endian() {
    let mut expected = vec![0u8; 32];
    expected[31] = 1;
    assert_eq!(Scalar::one().to_bytes(), expected);
    expected[31] = 0x02;
    expected[30] = 0x01;
    assert_eq!(Scalar::from_u64(258).to_bytes(), expected);
    assert_eq!(Scalar::zero().to_bytes(), vec![0u8; 32]);
}

#[test]
fn scalar_round_trip() {
    for s in [
        Scalar::zero(),
        Scalar::one(),
        Scalar::from_u64(0xdead_beef_0102_0304),
        Scalar::one().neg(),
        Scalar::hash(b"any message", b"any tag"),
    ] {
        let bytes = s.to_bytes();
        assert_eq!(bytes.len(), 32);
        assert_eq!(Scalar::from_bytes(&bytes), Some(s));
    }
}

#[test]
fn scalar_decoding_rejects_what_is_out_of_range() {
    assert_eq!(Scalar::from_bytes(&hex(ORDER)), None);
    assert_eq!(Scalar::from_bytes(&[0xffu8; 32]), None);
    assert!(Scalar::from_bytes(&hex(ORDER_LESS_ONE)).is_some());
}

#[test]
fn scalar_decoding_rejects_other_lengths() {
    assert_eq!(Scalar::from_bytes(&[0u8; 31]), None);
    assert_eq!(Scalar::from_bytes(&[0u8; 33]), None);
    assert_eq!(Scalar::from_bytes(&[]), None);
}

#[test]
fn scalar_from_wide_reduces_little_endian() {
    let mut bytes = [0u8; 64];
    bytes[0] = 5;
    assert_eq!(Scalar::from_wide(&bytes), Scalar::from_u64(5));
    // 2^256 is 2^256 - order modulo the order.
    let mut bytes = [0u8; 64];
    bytes[32] = 1;
    let mut order = hex(ORDER);
    order.reverse();
    let mut wide = [0u8; 64];
    wide[..32].copy_from_slice(&order);
    assert_eq!(Scalar::from_wide(&wide), Scalar::zero());
    let expected = hex("1824b159acc5056f998c4fefecbc4ff55884b7fa0003480200000001fffffffe");
    assert_eq!(Scalar::from_wide(&bytes), Scalar::from_bytes(&expected).unwrap());
}

#[test]
fn scalar_hash_depends_on_message_and_tag() {
    let a = Scalar::hash(b"message", b"tag");
    assert_eq!(a, Scalar::hash(b"message", b"tag"));
    assert_ne!(a, Scalar::hash(b"massage", b"tag"));
    assert_ne!(a, Scalar::hash(b"message", b"tug"));
}

#[test]
fn random_scalars_differ() {
    assert_ne!(Scalar::random(), Scalar::random());
}

#[test]
fn random_draws_are_canonical() {
    for _ in 0..16 {
        let s = Scalar::random();
        assert_eq!(Scalar::from_bytes(&s.to_bytes()), Some(s));
        let e = Element::random();
        assert_eq!(Element::from_bytes(&e.to_bytes()), Some(e));
        let k = SecretKey::new(None);
        assert_eq!(Scalar::from_bytes(&k.0.to_bytes()), Some(k.0));
    }
}

#[test]
fn sc_decodes_or_reports() {
    assert_eq!(sc(&Scalar::from_u64(77).to_bytes()), Ok(Scalar::from_u64(77)));
    assert_eq!(sc(&hex(ORDER)), Err("Proof serialization error"));
    assert_eq!(sc(&[1u8; 5]), Err("Proof serialization error"));
}

#[test]
fn elements_and_keys_from_seeds() {
    assert_eq!(Element::hash(b"3"), Element::hash(b"3"));
    assert_ne!(Element::hash(b"3"), Element::hash(b"4"));
    assert_eq!(SecretKey::new(Some(b"1234567890")), SecretKey::new(Some(b"1234567890")));
    assert_ne!(SecretKey::new(Some(b"1234567890")), SecretKey::new(Some(b"1234567891")));
    assert_ne!(SecretKey::new(None), SecretKey::new(None));
    assert_ne!(Element::random(), Element::random());
    assert_ne!(Element::hash(b"3").0, SecretKey::new(Some(b"3")).0);
}

#[test]
fn element_round_trip() {
    let e = Element::hash(b"an identifier");
    assert_eq!(Element::from_bytes(&e.to_bytes()), Some(e));
    assert_eq!(Element::from_bytes(&[0xffu8; 32]), None);
    assert_eq!(Element(Scalar::zero()).to_bytes(), vec![0u8; 32]);
}

#[test]
fn two_strings_are_packed_behind_their_lengths() {
    let packed = pack_pair(b"abc", b"de").unwrap();
    assert_eq!(packed, vec![0, 0, 0, 3, 0, 0, 0, 2, b'a', b'b', b'c', b'd', b'e']);
    assert_eq!(unpack_pair(&packed), Some((b"abc".to_vec(), b"de".to_vec())));
    assert_eq!(pack_pair(b"", b""), Some(vec![0u8; 8]));
    assert_eq!(unpack_pair(&[0u8; 8]), Some((vec![], vec![])));
    let long = vec![7u8; 0x1_02_03];
    let packed = pack_pair(&long, b"x").unwrap();
    assert_eq!(packed[..8], [0, 1, 2, 3, 0, 0, 0, 1]);
    assert_eq!(unpack_pair(&packed), Some((long, b"x".to_vec())));
}

#[test]
fn what_is_not_two_packed_strings_is_refused() {
    let packed = pack_pair(b"abc", b"de").unwrap();
    assert_eq!(unpack_pair(&packed[..12]), None);
    assert_eq!(unpack_pair(&packed[..7]), None);
    assert_eq!(unpack_pair(&[]), None);
    let mut longer = packed.clone();
    longer.push(0);
    assert_eq!(unpack_pair(&longer), None);
    let mut lying = packed.clone();
    lying[3] = 4;
    assert_eq!(unpack_pair(&lying), None);
    assert_eq!(unpack_pair(&[0xff, 0xff, 0xff, 0xff, 0xff, 0xff, 0xff, 0xff]), None);
}
