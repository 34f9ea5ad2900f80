use allosaurus::accumulator::contains;
use allosaurus::{
    Accumulator, Coefficient, Delta, DeltaShare, Element, Error, G1Point, MembershipWitness,
    PublicKey, Scalar, SecretKey,
};

fn ids() -> Vec<Element> {
    vec![
        Element::hash(b"3"),
        Element::hash(b"4"),
        Element::hash(b"5"),
        Element::hash(b"6"),
        Element::hash(b"7"),
        Element::hash(b"8"),
        Element::hash(b"9"),
    ]
}

fn key() -> SecretKey {
    SecretKey::new(Some(b"1234567890"))
}

/// The record of an addition to the accumulator `before`.
fn addition(epoch: usize, before: &Accumulator, id: Element) -> Delta {
    Delta {
        epoch,
        additions: vec![id],
        deletions: vec![],
        coefficients: vec![Coefficient(before.0.neg())],
    }
}

/// The record of a deletion that leaves the accumulator `after`.
fn deletion(epoch: usize, after: &Accumulator, id: Element) -> Delta {
    Delta { epoch, additions: vec![], deletions: vec![id], coefficients: vec![Coefficient(after.0)] }
}

#[test]
fn empty_accumulator_is_the_generator() {
    assert_eq!(Accumulator::with_elements(&key(), &[]).0, G1Point::generator());
}

#[test]
fn accumulator_of_small_numbers() {
    let key = SecretKey(Scalar::from_u64(10));
    let members = [Element(Scalar::from_u64(1)), Element(Scalar::from_u64(2))];
    // (10 + 1) * (10 + 2) == 132
    let expected = G1Point::generator().mul(&Scalar::from_u64(132));
    assert_eq!(Accumulator::with_elements(&key, &members).0, expected);
    let one = Accumulator::with_elements(&key, &members[..1]);
    assert_eq!(one.0, G1Point::generator().mul(&Scalar::from_u64(11)));
    assert_eq!(one.add(&key, &members[1]).0, expected);
}

#[test]
fn construction_is_adding_one_by_one_in_any_order() {
    let key = key();
    let ids = ids();
    let built = Accumulator::with_elements(&key, &ids);
    let orders: [[usize; 7]; 3] = [[0, 1, 2, 3, 4, 5, 6], [6, 5, 4, 3, 2, 1, 0], [3, 0, 6, 1, 5, 2, 4]];
    for order in orders {
        let mut acc = Accumulator::with_elements(&key, &[]);
        for i in order {
            acc = acc.add(&key, &ids[i]);
        }
        assert_eq!(acc, built);
        let shuffled: Vec<Element> = order.iter().map(|i| ids[*i]).collect();
        assert_eq!(Accumulator::with_elements(&key, &shuffled), built);
    }
    assert_ne!(Accumulator::with_elements(&key, &ids[..6]), built);
}

#[test]
fn removing_undoes_adding() {
    let key = key();
    let ids = ids();
    let all = Accumulator::with_elements(&key, &ids);
    let without = all.remove(&key, &ids[2], &ids).unwrap();
    let mut rest = ids.clone();
    rest.remove(2);
    assert_eq!(without, Accumulator::with_elements(&key, &rest));
    assert_eq!(without.add(&key, &ids[2]), all);
}

#[test]
fn removing_one_who_is_no_member_fails() {
    let key = key();
    let ids = ids();
    let acc = Accumulator::with_elements(&key, &ids[..3]);
    assert_eq!(acc.remove(&key, &ids[5], &ids[..3]), None);
    assert_eq!(acc.remove(&key, &ids[0], &[]), None);
    assert!(acc.remove(&key, &ids[0], &ids[..3]).is_some());
    assert!(contains(&ids, &ids[6]));
    assert!(!contains(&ids[..6], &ids[6]));
}

#[test]
fn test_desearialize_witness() {
    let key = SecretKey::new(Some(b"1234567890"));
    let pubkey = PublicKey::from_secret(&key);
    let elements = ids();
    let y = elements[3];
    let acc = Accumulator::with_elements(&key, &elements);
    let wit = MembershipWitness::new(&y, &acc, &key).unwrap();

    let current_witness = wit.0.to_bytes();
    let witness = MembershipWitness(G1Point::from_bytes(&current_witness).unwrap());

    assert_eq!(witness, wit);
    assert!(witness.verify(&y, &pubkey, &acc));
}

#[test]
fn witness_is_the_accumulator_without_the_member() {
    let key = key();
    let ids = ids();
    let acc = Accumulator::with_elements(&key, &ids);
    let witness = MembershipWitness::new(&ids[1], &acc, &key).unwrap();
    let mut rest = ids.clone();
    rest.remove(1);
    assert_eq!(witness.0, Accumulator::with_elements(&key, &rest).0);
}

#[test]
fn witness_verifies_for_its_identifier_alone() {
    let key = key();
    let public_key = PublicKey::from_secret(&key);
    let ids = ids();
    let acc = Accumulator::with_elements(&key, &ids);
    let witness = MembershipWitness::new(&ids[1], &acc, &key).unwrap();
    assert!(witness.verify(&ids[1], &public_key, &acc));
    assert!(!witness.verify(&ids[2], &public_key, &acc));
    let other_key = PublicKey::from_secret(&SecretKey(Scalar::from_u64(3)));
    assert!(!witness.verify(&ids[1], &other_key, &acc));
    let other_acc = acc.add(&key, &Element::hash(b"one more"));
    assert!(!witness.verify(&ids[1], &public_key, &other_acc));
}

#[test]
fn there_is_no_witness_for_the_negative_of_the_key() {
    let key = key();
    let acc = Accumulator::with_elements(&key, &ids());
    let degenerate = Element(key.0.neg());
    assert_eq!(MembershipWitness::new(&degenerate, &acc, &key), None);
}

#[test]
fn a_record_is_evaluated_at_an_identifier() {
    let point = G1Point::generator().mul(&Scalar::from_u64(9));
    let tenth = G1Point::generator().mul(&Scalar::from_u64(10));
    let record = Delta {
        epoch: 4,
        additions: vec![Element(Scalar::from_u64(20)), Element(Scalar::from_u64(30))],
        deletions: vec![Element(Scalar::from_u64(7))],
        coefficients: vec![Coefficient(point), Coefficient(tenth)],
    };
    let share = record.evaluate(&Scalar::from_u64(2));
    // (20 - 2) * (30 - 2), 7 - 2, and 9 + 10 * 2 times the generator.
    assert_eq!(share.numerator, Scalar::from_u64(504));
    assert_eq!(share.denominator, Scalar::from_u64(5));
    assert_eq!(share.point, G1Point::generator().mul(&Scalar::from_u64(29)));
    let nothing = Delta { epoch: 0, additions: vec![], deletions: vec![], coefficients: vec![] };
    assert_eq!(record.copy(), record);
    assert_eq!(nothing.copy(), nothing);
    let share = nothing.evaluate(&Scalar::from_u64(2));
    assert_eq!(share.numerator, Scalar::one());
    assert_eq!(share.denominator, Scalar::one());
    assert_eq!(share.point, G1Point::identity());
}

#[test]
fn folding_multiplies_subtracts_and_divides() {
    let g = G1Point::generator();
    let witness = MembershipWitness(g.mul(&Scalar::from_u64(10)));
    let share = DeltaShare {
        numerator: Scalar::from_u64(3),
        denominator: Scalar::from_u64(4),
        point: g.mul(&Scalar::from_u64(2)),
    };
    // (10 * 3 - 2) / 4 == 7
    assert_eq!(witness.fold(&share), Some(MembershipWitness(g.mul(&Scalar::from_u64(7)))));
    let lost = DeltaShare { denominator: Scalar::zero(), ..share };
    assert_eq!(witness.fold(&lost), None);
}

#[test]
fn a_witness_is_stale_until_updated() {
    let key = key();
    let public_key = PublicKey::from_secret(&key);
    let ids = ids();
    let y = ids[0];
    let epoch0 = Accumulator::with_elements(&key, &ids[..3]);
    let witness = MembershipWitness::new(&y, &epoch0, &key).unwrap();
    assert!(witness.verify(&y, &public_key, &epoch0));

    let epoch1 = epoch0.add(&key, &ids[3]);
    assert!(!witness.verify(&y, &public_key, &epoch1));
    let updated = witness.multi_batch_update(&y, &[addition(0, &epoch0, ids[3])]).unwrap();
    assert!(updated.verify(&y, &public_key, &epoch1));
    assert!(!updated.verify(&y, &public_key, &epoch0));
    assert_eq!(updated, MembershipWitness::new(&y, &epoch1, &key).unwrap());

    let epoch2 = epoch1.remove(&key, &ids[1], &ids[..4]).unwrap();
    assert!(!updated.verify(&y, &public_key, &epoch2));
    let again = updated.multi_batch_update(&y, &[deletion(1, &epoch2, ids[1])]).unwrap();
    assert!(again.verify(&y, &public_key, &epoch2));
    assert_eq!(again, MembershipWitness::new(&y, &epoch2, &key).unwrap());
}

#[test]
fn updates_one_by_one_are_one_update_over_all() {
    let key = key();
    let public_key = PublicKey::from_secret(&key);
    let ids = ids();
    let y = ids[0];
    let mut acc = Accumulator::with_elements(&key, &ids[..2]);
    let witness = MembershipWitness::new(&y, &acc, &key).unwrap();
    let mut members = ids[..2].to_vec();
    let mut records = Vec::new();
    for id in &ids[2..6] {
        records.push(addition(records.len(), &acc, *id));
        acc = acc.add(&key, id);
        members.push(*id);
    }
    for id in [ids[1], ids[4]] {
        let after = acc.remove(&key, &id, &members).unwrap();
        records.push(deletion(records.len(), &after, id));
        acc = after;
        members.retain(|m| *m != id);
    }
    let at_once = witness.multi_batch_update(&y, &records).unwrap();
    let mut in_turn = witness;
    for record in &records {
        in_turn = in_turn.multi_batch_update(&y, std::slice::from_ref(record)).unwrap();
    }
    assert_eq!(in_turn.0.to_bytes(), at_once.0.to_bytes());
    let halves = witness
        .multi_batch_update(&y, &records[..3])
        .unwrap()
        .multi_batch_update(&y, &records[3..])
        .unwrap();
    assert_eq!(halves, at_once);
    assert!(at_once.verify(&y, &public_key, &acc));
    assert_eq!(witness.multi_batch_update(&y, &[]), Ok(witness));
}

#[test]
fn updates_out_of_order_or_with_a_gap_are_refused() {
    let key = key();
    let public_key = PublicKey::from_secret(&key);
    let ids = ids();
    let y = ids[0];
    let epoch0 = Accumulator::with_elements(&key, &ids[..2]);
    let witness = MembershipWitness::new(&y, &epoch0, &key).unwrap();
    let epoch1 = epoch0.add(&key, &ids[2]);
    let epoch2 = epoch1.add(&key, &ids[3]);
    let epoch3 = epoch2.add(&key, &ids[4]);
    let first = addition(7, &epoch0, ids[2]);
    let second = addition(8, &epoch1, ids[3]);
    let third = addition(9, &epoch2, ids[4]);
    let in_order = [first.copy(), second.copy(), third.copy()];
    assert!(witness.multi_batch_update(&y, &in_order).unwrap().verify(&y, &public_key, &epoch3));
    let swapped = [second.copy(), first.copy(), third.copy()];
    assert_eq!(witness.multi_batch_update(&y, &swapped), Err(Error::Order));
    let gapped = [first.copy(), third.copy()];
    assert_eq!(witness.multi_batch_update(&y, &gapped), Err(Error::Order));
    let twice = [first.copy(), first.copy()];
    assert_eq!(witness.multi_batch_update(&y, &twice), Err(Error::Order));
    let at_the_end = [addition(usize::MAX, &epoch0, ids[2]), addition(0, &epoch1, ids[3])];
    assert_eq!(witness.multi_batch_update(&y, &at_the_end), Err(Error::Order));
    // Part of the records, in order, gives a witness that fails.
    let part = witness.multi_batch_update(&y, &in_order[1..]).unwrap();
    assert!(!part.verify(&y, &public_key, &epoch3));
}

#[test]
fn the_deleted_identifier_is_left_without_a_witness() {
    let key = key();
    let ids = ids();
    let y = ids[0];
    let epoch0 = Accumulator::with_elements(&key, &ids[..3]);
    let witness = MembershipWitness::new(&y, &epoch0, &key).unwrap();
    let epoch1 = epoch0.remove(&key, &y, &ids[..3]).unwrap();
    assert_eq!(witness.multi_batch_update(&y, &[deletion(0, &epoch1, y)]), Err(Error::NoWitness));
    let epoch2 = epoch1.add(&key, &ids[5]);
    let records = [deletion(0, &epoch1, y), addition(1, &epoch1, ids[5])];
    assert_eq!(witness.multi_batch_update(&y, &records), Err(Error::NoWitness));
    assert_ne!(epoch2, epoch1);
}
