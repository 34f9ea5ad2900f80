use allosaurus::{
    shamir_share_with, AccParams, Element, Error, Scalar, SecretKey, Server, User, UserID,
};

fn id(n: u8) -> Element {
    Element::hash(&[n])
}

/// Authorities that hold one key and have seen the same changes.
fn authorities(n: usize) -> Vec<Server> {
    let params = AccParams::default();
    let key = SecretKey::new(Some(b"a key held by all"));
    (0..n).map(|_| Server::with_key(&params, key)).collect()
}

fn add_to_all(servers: &mut [Server], id: Element) {
    for s in servers.iter_mut() {
        s.add(id).unwrap();
    }
}

fn delete_from_all(servers: &mut [Server], id: Element) {
    for s in servers.iter_mut() {
        s.delete(id).unwrap();
    }
}

/// A holder of `id(0)` with a witness at epoch 1, and authorities that have
/// since moved on to epoch 5.
fn holder_behind(n: usize) -> (Vec<Server>, User) {
    let mut servers = authorities(n);
    add_to_all(&mut servers, id(0));
    let mut user = User::new(&servers[0], id(0));
    user.create_witness(&servers[0]).unwrap();
    add_to_all(&mut servers, id(1));
    add_to_all(&mut servers, id(2));
    delete_from_all(&mut servers, id(1));
    add_to_all(&mut servers, id(3));
    (servers, user)
}

#[test]
fn update_from_one_authority() {
    let (servers, mut user) = holder_behind(1);
    let current = servers[0].get_accumulator();
    assert_eq!(user.check_witness(&current), Ok(false));
    assert_eq!(user.update(&servers, 1), Ok(()));
    assert_eq!(user.check_witness(&current), Ok(true));
    assert_eq!(user.get_epoch(), 5);
    assert_eq!(user.get_accumulator(), current);
    assert_eq!(user.get_witness(), Some(servers[0].witness(&id(0)).unwrap()));
    assert_eq!(user.update(&servers, 1), Ok(()));
    assert_eq!(user.check_witness(&current), Ok(true));
}

#[test]
fn update_from_authorities_among_which_the_identifier_is_shared() {
    for (n, threshold) in [(3, 2), (3, 3), (5, 3), (4, 1), (2, 1)] {
        let (servers, mut user) = holder_behind(n);
        let current = servers[0].get_accumulator();
        assert_eq!(user.update(&servers, threshold), Ok(()));
        assert_eq!(user.check_witness(&current), Ok(true));
        assert_eq!(user.get_epoch(), 5);
        assert_eq!(user.get_witness(), Some(servers[0].witness(&id(0)).unwrap()));
    }
}

#[test]
fn update_with_given_shares_is_the_update_with_the_identifier() {
    let (servers, mut user) = holder_behind(4);
    let y = user.get_id();
    let shares = shamir_share_with(&[y.0, Scalar::from_u64(1234), Scalar::from_u64(99)], 4);
    let before = user.get_witness().unwrap();
    assert_eq!(user.update_with_shares(&servers, 3, &shares), Ok(()));
    let mut expected = before;
    for share in servers[0].update(1, &[y.0]).unwrap() {
        expected = expected.fold(&share).unwrap();
    }
    assert_eq!(user.get_witness(), Some(expected));
}

#[test]
fn too_few_authorities_are_refused() {
    let (servers, mut user) = holder_behind(2);
    let before = user;
    assert_eq!(user.update(&servers, 3), Err(Error::InsufficientShares));
    assert_eq!(user.update(&servers, 0), Err(Error::InsufficientShares));
    assert_eq!(user.update(&[], 1), Err(Error::InsufficientShares));
    assert_eq!(user.update(&[], 0), Err(Error::InsufficientShares));
    assert_eq!(user.get_witness(), before.get_witness());
    assert_eq!(user.get_epoch(), 1);
}

#[test]
fn a_holder_without_a_witness_cannot_update() {
    let servers = authorities(2);
    let mut user = User::new(&servers[0], UserID::random());
    assert_eq!(user.update(&servers, 1), Err(Error::NoWitness));
    assert_eq!(user.get_witness(), None);
}

#[test]
fn authorities_at_different_epochs_are_refused() {
    let (mut servers, mut user) = holder_behind(3);
    servers[2].add(id(9)).unwrap();
    assert_eq!(user.update(&servers, 2), Err(Error::Shares));
    assert_eq!(user.get_epoch(), 1);
    add_to_all(&mut servers[..2], id(9));
    assert_eq!(user.update(&servers, 2), Ok(()));
    assert_eq!(user.get_epoch(), 6);
}

#[test]
fn authorities_that_lag_behind_the_holder_are_refused() {
    let (servers, mut user) = holder_behind(2);
    user.update(&servers, 1).unwrap();
    let mut older = authorities(2);
    add_to_all(&mut older, id(0));
    assert_eq!(user.update(&older, 1), Err(Error::Epoch));
    assert_eq!(user.get_epoch(), 5);
    assert_eq!(user.check_witness(&servers[0].get_accumulator()), Ok(true));
}

#[test]
fn an_authority_that_answers_otherwise_is_found_out() {
    let (mut servers, mut user) = holder_behind(3);
    // The last authority has seen other changes than the rest.
    let params = AccParams::default();
    let mut odd = Server::with_key(&params, SecretKey::new(Some(b"a key held by all")));
    for n in [0u8, 1, 7, 8, 9] {
        odd.add(id(n)).unwrap();
    }
    servers[2] = odd;
    let before = user.get_witness();
    assert_eq!(user.update(&servers, 2), Err(Error::Mismatch));
    assert_eq!(user.get_witness(), before);
    assert_eq!(user.get_epoch(), 1);
    // Without a share left over for the check, a wrong witness comes out.
    assert_eq!(user.update(&servers[1..], 2), Ok(()));
    assert_eq!(user.check_witness(&servers[0].get_accumulator()), Ok(false));
}

#[test]
fn a_deleted_holder_is_left_as_it_was() {
    let (mut servers, mut user) = holder_behind(3);
    delete_from_all(&mut servers, id(0));
    add_to_all(&mut servers, id(4));
    let before = user.get_witness();
    assert_eq!(user.update(&servers, 2), Err(Error::NoWitness));
    assert_eq!(user.get_witness(), before);
    assert_eq!(user.get_epoch(), 1);
    assert_eq!(user.create_witness(&servers[0]), Err(Error::NotMember));
}

#[test]
fn shares_that_do_not_fit_are_refused() {
    let (servers, mut user) = holder_behind(3);
    let y = user.get_id().0;
    let good = shamir_share_with(&[y, Scalar::from_u64(5)], 3);
    assert_eq!(user.update_with_shares(&servers, 2, &good[..2]), Err(Error::Shares));
    let mut twice = good.clone();
    twice[1].0 = twice[0].0;
    assert_eq!(user.update_with_shares(&servers, 2, &twice), Err(Error::Shares));
    let mut zero = good.clone();
    zero[2].0 = Scalar::zero();
    assert_eq!(user.update_with_shares(&servers, 2, &zero), Err(Error::Shares));
    assert_eq!(user.update_with_shares(&servers, 4, &good), Err(Error::InsufficientShares));
    assert_eq!(user.get_epoch(), 1);
    assert_eq!(user.update_with_shares(&servers, 2, &good), Ok(()));
    assert_eq!(user.check_witness(&servers[0].get_accumulator()), Ok(true));
}

#[test]
fn shares_of_another_identifier_give_a_witness_that_fails() {
    let (servers, mut user) = holder_behind(3);
    let other = id(200).0;
    let shares = shamir_share_with(&[other, Scalar::from_u64(5)], 3);
    assert_eq!(user.update_with_shares(&servers, 2, &shares), Ok(()));
    assert_eq!(user.check_witness(&servers[0].get_accumulator()), Ok(false));
}
