use allosaurus::{
    check_membership_proof, AccParams, Accumulator, CustomStructForMembershipProof,
    CustomStructForServerUpdate, Element, Error, G1Point, G2Point, MembershipProof,
    MembershipWitness, PublicKey, Scalar, SecretKey, Server, User, UserID,
};

fn fold_all(witness: MembershipWitness, server: &Server, from: usize, y: &Element) -> MembershipWitness {
    let shares = server.update(from, &[y.0]).unwrap();
    let mut witness = witness;
    for share in &shares {
        witness = witness.fold(share).unwrap();
    }
    witness
}

#[test]
fn temp_test() {
    let params = AccParams::default();
    let mut server = Server::new(&params);
    let mut user = User::new(&server, UserID::random());
    server.add(user.get_id()).unwrap();
    user.create_witness(&server).unwrap();
    let result = User::check_witness(&user, &server.get_accumulator());
    assert_eq!(result, Ok(true));
}

#[test]
fn a_new_authority_is_at_epoch_zero() {
    let params = AccParams::default();
    let server = Server::new(&params);
    assert_eq!(server.get_epoch(), 0);
    assert_eq!(server.get_accumulator().0, G1Point::generator());
    assert_eq!(server.update(0, &[]), Ok(vec![]));
    let other = Server::new(&params);
    assert_ne!(server.get_witness_public_key(), other.get_witness_public_key());
}

#[test]
fn public_keys_of_a_given_key() {
    let params = AccParams::default();
    let key = SecretKey(Scalar::from_u64(11));
    let server = Server::with_key(&params, key);
    let keys = server.get_public_keys();
    assert_eq!(keys.witness_key, PublicKey::from_secret(&key));
    assert_eq!(keys.witness_key.0, G2Point::generator().mul(&Scalar::from_u64(11)));
    assert_eq!(keys.sign_key.0, params.get_k2().mul(&Scalar::from_u64(11)));
    assert_eq!(server.get_witness_public_key(), keys.witness_key);
    assert_eq!(server.get_sign_public_key(), keys.sign_key);
}

#[test]
fn adding_advances_the_epoch_and_multiplies_the_accumulator() {
    let params = AccParams::default();
    let key = SecretKey(Scalar::from_u64(10));
    let mut server = Server::with_key(&params, key);
    let g = G1Point::generator();
    let witness = server.add(Element(Scalar::from_u64(1))).unwrap();
    assert_eq!(witness.0, g);
    assert_eq!(server.get_epoch(), 1);
    assert_eq!(server.get_accumulator().0, g.mul(&Scalar::from_u64(11)));
    let witness = server.add(Element(Scalar::from_u64(2))).unwrap();
    assert_eq!(witness.0, g.mul(&Scalar::from_u64(11)));
    assert_eq!(server.get_epoch(), 2);
    assert_eq!(server.get_accumulator().0, g.mul(&Scalar::from_u64(132)));
    let after = server.delete(Element(Scalar::from_u64(1))).unwrap();
    assert_eq!(after.0, g.mul(&Scalar::from_u64(12)));
    assert_eq!(server.get_accumulator(), after);
    assert_eq!(server.get_epoch(), 3);
}

#[test]
fn the_accumulator_is_that_of_the_members() {
    let params = AccParams::default();
    let key = SecretKey::new(Some(b"a key"));
    let mut server = Server::with_key(&params, key);
    let ids: Vec<Element> = (0..5u8).map(|i| Element::hash(&[i])).collect();
    for id in &ids {
        server.add(*id).unwrap();
    }
    assert_eq!(server.get_accumulator(), Accumulator::with_elements(&key, &ids));
    server.delete(ids[1]).unwrap();
    server.delete(ids[3]).unwrap();
    let rest = [ids[0], ids[2], ids[4]];
    assert_eq!(server.get_accumulator(), Accumulator::with_elements(&key, &rest));
    assert_eq!(server.get_epoch(), 7);
    assert_eq!(
        server.witness(&ids[2]),
        Ok(MembershipWitness::new(&ids[2], &server.get_accumulator(), &key).unwrap())
    );
    assert_eq!(server.witness(&ids[1]), Err(Error::NotMember));
}

#[test]
fn a_refused_change_changes_nothing() {
    let params = AccParams::default();
    let key = SecretKey::new(Some(b"a key"));
    let mut server = Server::with_key(&params, key);
    let a = Element::hash(b"a");
    let b = Element::hash(b"b");
    server.add(a).unwrap();
    let accumulator = server.get_accumulator();
    let shares = server.update(0, &[a.0]).unwrap();

    assert_eq!(server.add(a), Err(Error::AlreadyMember));
    assert_eq!(server.delete(b), Err(Error::NotMember));
    assert_eq!(server.add(Element(key.0.neg())), Err(Error::Degenerate));

    assert_eq!(server.get_epoch(), 1);
    assert_eq!(server.get_accumulator(), accumulator);
    assert_eq!(server.update(0, &[a.0]), Ok(shares));
    assert_eq!(server.witness(&b), Err(Error::NotMember));

    server.delete(a).unwrap();
    assert_eq!(server.delete(a), Err(Error::NotMember));
    server.add(a).unwrap();
    assert_eq!(server.get_epoch(), 3);
    assert_eq!(server.get_accumulator(), accumulator);
}

#[test]
fn update_answers_for_the_epochs_asked_for_in_order() {
    let params = AccParams::default();
    let key = SecretKey(Scalar::from_u64(10));
    let mut server = Server::with_key(&params, key);
    let g = G1Point::generator();
    server.add(Element(Scalar::from_u64(1))).unwrap();
    server.add(Element(Scalar::from_u64(2))).unwrap();
    server.delete(Element(Scalar::from_u64(1))).unwrap();
    let query = Scalar::from_u64(100);
    let shares = server.update(0, &[query]).unwrap();
    assert_eq!(shares.len(), 3);
    // The addition of 1 to the accumulator 1.
    assert_eq!(shares[0].numerator, Scalar::from_u64(1).sub(&query));
    assert_eq!(shares[0].denominator, Scalar::one());
    assert_eq!(shares[0].point, g.neg());
    // The addition of 2 to the accumulator 11.
    assert_eq!(shares[1].numerator, Scalar::from_u64(2).sub(&query));
    assert_eq!(shares[1].denominator, Scalar::one());
    assert_eq!(shares[1].point, g.mul(&Scalar::from_u64(11)).neg());
    // The deletion of 1, which leaves the accumulator 12.
    assert_eq!(shares[2].numerator, Scalar::one());
    assert_eq!(shares[2].denominator, Scalar::from_u64(1).sub(&query));
    assert_eq!(shares[2].point, g.mul(&Scalar::from_u64(12)));

    let other = Scalar::from_u64(7);
    let later = server.update(1, &[other]).unwrap();
    assert_eq!(later.len(), 2);
    assert_eq!(later[0].numerator, Scalar::from_u64(2).sub(&other));
    assert_eq!(later[0].point, shares[1].point);
    assert_eq!(later[1].denominator, Scalar::from_u64(1).sub(&other));
    assert_eq!(server.update(1, &[query]).unwrap(), shares[1..].to_vec());
    assert_eq!(server.update(3, &[]), Ok(vec![]));
}

#[test]
fn update_gives_one_value_for_each_epoch_whatever_the_queries() {
    let params = AccParams::default();
    let key = SecretKey(Scalar::from_u64(10));
    let mut server = Server::with_key(&params, key);
    server.add(Element(Scalar::from_u64(1))).unwrap();
    server.add(Element(Scalar::from_u64(2))).unwrap();
    server.delete(Element(Scalar::from_u64(1))).unwrap();
    let y = Scalar::from_u64(100);
    let first = server.update(0, &[y]).unwrap();
    // Further powers of the identifier are not read.
    assert_eq!(server.update(0, &[y, y.mul(&y), y.mul(&y).mul(&y)]), Ok(first.clone()));
    assert_ne!(server.update(0, &[y.mul(&y), y]), Ok(first));
    // Without a query the values are those at zero.
    let none = server.update(0, &[]).unwrap();
    assert_eq!(none, server.update(0, &[Scalar::zero()]).unwrap());
    assert_eq!(none.len(), 3);
    assert_eq!(none[0].numerator, Scalar::from_u64(1));
    assert_eq!(none[2].denominator, Scalar::from_u64(1));
    for from in 0..=3 {
        assert_eq!(server.update(from, &[y, y]).unwrap().len(), 3 - from);
    }
}

#[test]
fn the_authority_publishes_its_records() {
    let params = AccParams::default();
    let key = SecretKey(Scalar::from_u64(10));
    let mut server = Server::with_key(&params, key);
    let g = G1Point::generator();
    let one = Element(Scalar::from_u64(1));
    let two = Element(Scalar::from_u64(2));
    server.add(one).unwrap();
    server.add(two).unwrap();
    server.delete(one).unwrap();
    let records = server.records(0).unwrap();
    assert_eq!(records.len(), 3);
    assert_eq!(records[0].epoch, 0);
    assert_eq!(records[0].additions, vec![one]);
    assert!(records[0].deletions.is_empty());
    assert_eq!(records[0].coefficients, vec![allosaurus::Coefficient(g.neg())]);
    assert_eq!(records[1].epoch, 1);
    assert_eq!(records[1].additions, vec![two]);
    assert_eq!(
        records[1].coefficients,
        vec![allosaurus::Coefficient(g.mul(&Scalar::from_u64(11)).neg())]
    );
    assert_eq!(records[2].epoch, 2);
    assert!(records[2].additions.is_empty());
    assert_eq!(records[2].deletions, vec![one]);
    assert_eq!(
        records[2].coefficients,
        vec![allosaurus::Coefficient(g.mul(&Scalar::from_u64(12)))]
    );
    assert_eq!(server.records(2).unwrap(), records[2..].to_vec());
    assert_eq!(server.records(3), Ok(vec![]));
    assert_eq!(server.records(4), Err(Error::Epoch));
}

#[test]
fn a_witness_follows_the_published_records() {
    let params = AccParams::default();
    let mut server = Server::new(&params);
    let key = server.get_witness_public_key();
    let a = Element::hash(b"a");
    let witness = server.add(a).unwrap();
    for n in 0..4u8 {
        server.add(Element::hash(&[n])).unwrap();
    }
    server.delete(Element::hash(&[2])).unwrap();
    let records = server.records(1).unwrap();
    let updated = witness.multi_batch_update(&a, &records).unwrap();
    assert!(updated.verify(&a, &key, &server.get_accumulator()));
    assert_eq!(updated, fold_all(witness, &server, 1, &a));
    server.delete(a).unwrap();
    let records = server.records(1).unwrap();
    assert_eq!(witness.multi_batch_update(&a, &records), Err(Error::NoWitness));
}

#[test]
fn update_refuses_epochs_beyond_the_history_and_nothing_else() {
    let params = AccParams::default();
    let mut server = Server::new(&params);
    server.add(Element::hash(b"a")).unwrap();
    server.add(Element::hash(b"b")).unwrap();
    let q = Scalar::one();
    assert_eq!(server.update(3, &[]), Err(Error::Epoch));
    assert_eq!(server.update(usize::MAX, &[q]), Err(Error::Epoch));
    assert_eq!(server.update(0, &[q]).unwrap().len(), 2);
    assert_eq!(server.update(0, &[q, q, q]).unwrap().len(), 2);
    assert_eq!(server.update(0, &[]).unwrap().len(), 2);
    assert_eq!(server.update(1, &[q, q]).unwrap().len(), 1);
    assert_eq!(server.update(2, &[q]), Ok(vec![]));
    assert_eq!(server.update(2, &[]), Ok(vec![]));
}

#[test]
fn end_to_end() {
    let params = AccParams::default();
    let mut server = Server::new(&params);
    let keys = server.get_public_keys();
    assert_eq!(server.get_epoch(), 0);

    let a = Element::hash(b"member A");
    let b = Element::hash(b"member B");
    let mut witness = server.add(a).unwrap();
    assert_eq!(server.get_epoch(), 1);
    assert!(witness.verify(&a, &keys.witness_key, &server.get_accumulator()));

    server.add(b).unwrap();
    assert_eq!(server.get_epoch(), 2);
    assert!(!witness.verify(&a, &keys.witness_key, &server.get_accumulator()));

    witness = fold_all(witness, &server, 1, &a);
    assert!(witness.verify(&a, &keys.witness_key, &server.get_accumulator()));

    server.delete(b).unwrap();
    assert_eq!(server.get_epoch(), 3);
    assert!(!witness.verify(&a, &keys.witness_key, &server.get_accumulator()));
    witness = fold_all(witness, &server, 2, &a);
    assert!(witness.verify(&a, &keys.witness_key, &server.get_accumulator()));

    let challenge = [0u8; 32];
    let proof = allosaurus::make_membership_proof(&witness, &a, &params, &keys, &challenge).unwrap();
    let accumulator = server.get_accumulator();
    assert!(check_membership_proof(&proof, &params, &keys, &accumulator, &challenge));

    let bytes = proof.to_bytes();
    assert_eq!(bytes.len(), 240);
    assert_eq!(MembershipProof::from_bytes(&bytes), Ok(proof));
    for i in 0..bytes.len() {
        let mut flipped = bytes.clone();
        flipped[i] ^= 0x01;
        let accepted = match MembershipProof::from_bytes(&flipped) {
            Ok(p) => check_membership_proof(&p, &params, &keys, &accumulator, &challenge),
            Err(e) => {
                assert_eq!(e, Error::Encoding);
                false
            }
        };
        assert!(!accepted, "the verifier accepted a proof with byte {} flipped", i);
    }
}

#[test]
fn a_holder_takes_its_witness_from_the_authority() {
    let params = AccParams::default();
    let mut server = Server::new(&params);
    let id = UserID::hash(b"holder");
    let mut user = User::new(&server, id);
    assert_eq!(user.get_id(), id);
    assert_eq!(user.get_witness(), None);
    assert_eq!(user.get_epoch(), 0);
    assert_eq!(user.get_accumulator(), server.get_accumulator());
    assert_eq!(user.check_witness(&server.get_accumulator()), Err(Error::NoWitness));
    assert_eq!(user.create_witness(&server), Err(Error::NotMember));
    assert_eq!(user.get_witness(), None);

    let issued = server.add(id).unwrap();
    server.add(UserID::hash(b"another")).unwrap();
    user.create_witness(&server).unwrap();
    assert_eq!(user.get_epoch(), 2);
    assert_eq!(user.get_accumulator(), server.get_accumulator());
    assert_ne!(user.get_witness(), Some(issued));
    assert_eq!(user.get_witness(), Some(server.witness(&id).unwrap()));
    assert_eq!(user.check_witness(&server.get_accumulator()), Ok(true));

    server.add(UserID::hash(b"a third")).unwrap();
    assert_eq!(user.check_witness(&server.get_accumulator()), Ok(false));
    assert_eq!(user.check_witness(&user.get_accumulator()), Ok(true));
}

#[test]
fn a_holder_proves_membership() {
    let params = AccParams::default();
    let mut server = Server::new(&params);
    let keys = server.get_public_keys();
    let id = UserID::hash(b"holder");
    let mut user = User::new(&server, id);
    let challenge = [7u8; 32];
    assert_eq!(user.make_membership_proof(&params, &keys, &challenge), Err(Error::NoWitness));
    server.add(id).unwrap();
    user.create_witness(&server).unwrap();
    let proof = user.make_membership_proof(&params, &keys, &challenge).unwrap();
    assert!(check_membership_proof(&proof, &params, &keys, &server.get_accumulator(), &challenge));
    let bundle = CustomStructForMembershipProof::new(proof, challenge);
    assert_eq!(bundle.proof, proof);
    assert_eq!(bundle.challenge, challenge);
}

#[test]
fn answers_are_collected_in_two_lists() {
    let mut answer = CustomStructForServerUpdate::new();
    assert!(answer.ds.is_empty());
    assert!(answer.vs.is_empty());
    let g = G1Point::generator();
    answer.add_multiple(vec![Scalar::from_u64(1), Scalar::from_u64(2)], vec![g]);
    answer.add_multiple(vec![Scalar::from_u64(3)], vec![g.neg(), G1Point::identity()]);
    assert_eq!(answer.ds, vec![Scalar::from_u64(1), Scalar::from_u64(2), Scalar::from_u64(3)]);
    assert_eq!(answer.vs, vec![g, g.neg(), G1Point::identity()]);
}
