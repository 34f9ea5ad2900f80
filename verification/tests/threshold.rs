use allosaurus::{
    admissible, poly_evaluate, shamir_coefficients, shamir_rebuild_point, shamir_rebuild_scalar,
    shamir_reconstruct_point, shamir_reconstruct_scalar, shamir_share, shamir_share_with, Error,
    G1Point, Scalar,
};

fn s(v: u64) -> Scalar {
    Scalar::from_u64(v)
}

fn minus(v: u64) -> Scalar {
    Scalar::from_u64(v).neg()
}

#[test]
fn polynomial_is_evaluated_with_the_constant_term_first() {
    // 5 + 3 x + 2 x^2
    let f = [s(5), s(3), s(2)];
    assert_eq!(poly_evaluate(&f, &s(0)), s(5));
    assert_eq!(poly_evaluate(&f, &s(1)), s(10));
    assert_eq!(poly_evaluate(&f, &s(2)), s(19));
    assert_eq!(poly_evaluate(&f, &s(10)), s(235));
    assert_eq!(poly_evaluate(&[], &s(7)), s(0));
    assert_eq!(poly_evaluate(&[s(9)], &s(7)), s(9));
}

#[test]
fn shares_are_the_values_at_one_two_three() {
    let f = [s(5), s(3), s(2)];
    let shares = shamir_share_with(&f, 4);
    assert_eq!(shares, vec![(s(1), s(10)), (s(2), s(19)), (s(3), s(32)), (s(4), s(49))]);
    assert_eq!(shamir_share_with(&f, 0), vec![]);
}

#[test]
fn lagrange_coefficients_of_one_two_three() {
    let shares = [(s(1), ()), (s(2), ()), (s(3), ())];
    let (coefficients, checks) = shamir_coefficients(3, &shares);
    assert_eq!(coefficients, vec![s(3), minus(3), s(1)]);
    assert_eq!(checks, None);
}

#[test]
fn check_coefficients_replace_the_first_node_by_the_next() {
    let shares = [(s(1), ()), (s(2), ()), (s(3), ()), (s(4), ()), (s(5), ())];
    let (coefficients, checks) = shamir_coefficients(3, &shares);
    assert_eq!(coefficients, vec![s(3), minus(3), s(1)]);
    // The nodes 4, 2, 3.
    assert_eq!(checks, Some(vec![s(3), s(6), minus(8)]));
}

#[test]
fn check_coefficients_where_the_first_node_is_not_one() {
    // The nodes 2, 3, 4 and, for the check, 5, 3, 4.
    let shares = [(s(2), ()), (s(3), ()), (s(4), ()), (s(5), ())];
    let (coefficients, checks) = shamir_coefficients(3, &shares);
    assert_eq!(coefficients, vec![s(6), minus(8), s(3)]);
    assert_eq!(checks, Some(vec![s(6), s(10), minus(15)]));
}

#[test]
fn coefficient_of_a_single_share_is_one() {
    let (coefficients, checks) = shamir_coefficients(1, &[(s(9), ())]);
    assert_eq!(coefficients, vec![s(1)]);
    assert_eq!(checks, None);
    let (coefficients, checks) = shamir_coefficients(1, &[(s(9), ()), (s(4), ())]);
    assert_eq!(coefficients, vec![s(1)]);
    assert_eq!(checks, Some(vec![s(1)]));
}

#[test]
fn reconstruction_gives_the_constant_term() {
    let f = [s(5), s(3), s(2)];
    let shares = shamir_share_with(&f, 5);
    let (coefficients, checks) = shamir_coefficients(3, &shares);
    assert_eq!(shamir_rebuild_scalar(&shares, &coefficients, &None), Ok(s(5)));
    assert_eq!(shamir_rebuild_scalar(&shares, &coefficients, &checks), Ok(s(5)));
    let exact = &shares[..3];
    let (coefficients, checks) = shamir_coefficients(3, exact);
    assert_eq!(checks, None);
    assert_eq!(shamir_rebuild_scalar(exact, &coefficients, &checks), Ok(s(5)));
}

#[test]
fn reconstruction_from_any_shares() {
    let f = [s(1234), s(99), s(7), s(3)];
    let all = shamir_share_with(&f, 7);
    for first in 0..3 {
        let chosen: Vec<_> = all.iter().skip(first).step_by(1).take(5).cloned().collect();
        let (coefficients, checks) = shamir_coefficients(4, &chosen);
        assert_eq!(shamir_rebuild_scalar(&chosen, &coefficients, &checks), Ok(s(1234)));
    }
    let scattered = vec![all[6], all[0], all[3], all[5], all[2]];
    let (coefficients, checks) = shamir_coefficients(4, &scattered);
    assert_eq!(shamir_rebuild_scalar(&scattered, &coefficients, &checks), Ok(s(1234)));
}

#[test]
fn reconstruction_of_a_random_sharing() {
    let secret = Scalar::random();
    let shares = shamir_share(3, 5, secret);
    assert_eq!(shares.len(), 5);
    for (i, share) in shares.iter().enumerate() {
        assert_eq!(share.0, s(i as u64 + 1));
    }
    let (coefficients, checks) = shamir_coefficients(3, &shares);
    assert_eq!(shamir_rebuild_scalar(&shares, &coefficients, &checks), Ok(secret));
    // Two shares of three say nothing of the secret.
    let (coefficients, _) = shamir_coefficients(2, &shares);
    assert_ne!(shamir_rebuild_scalar(&shares, &coefficients, &None), Ok(secret));
}

#[test]
fn a_threshold_of_one_shares_the_secret_itself() {
    let shares = shamir_share(1, 3, s(42));
    assert_eq!(shares, vec![(s(1), s(42)), (s(2), s(42)), (s(3), s(42))]);
}

#[test]
fn a_corrupted_share_fails_the_check() {
    let f = [s(5), s(3), s(2)];
    let shares = shamir_share_with(&f, 4);
    let (coefficients, checks) = shamir_coefficients(3, &shares);
    for k in 0..4 {
        let mut corrupted = shares.clone();
        corrupted[k].1 = corrupted[k].1.add(&s(1));
        assert_eq!(shamir_rebuild_scalar(&corrupted, &coefficients, &checks), Err(Error::Mismatch));
    }
    // Without the check a wrong value comes out.
    let mut corrupted = shares.clone();
    corrupted[1].1 = corrupted[1].1.add(&s(1));
    assert_eq!(shamir_rebuild_scalar(&corrupted, &coefficients, &None), Ok(s(2)));
}

#[test]
fn reconstruction_of_a_shared_point() {
    let f = [s(5), s(3), s(2)];
    let base = G1Point::hash(b"a point", b"a tag");
    let shares: Vec<(Scalar, G1Point)> =
        shamir_share_with(&f, 4).iter().map(|(x, y)| (*x, base.mul(y))).collect();
    let (coefficients, checks) = shamir_coefficients(3, &shares);
    let secret = base.mul(&s(5));
    assert_eq!(shamir_rebuild_point(&shares, &coefficients, &None), Ok(secret));
    assert_eq!(shamir_rebuild_point(&shares, &coefficients, &checks), Ok(secret));
    for k in 0..4 {
        let mut corrupted = shares.clone();
        corrupted[k].1 = corrupted[k].1.add(&base);
        assert_eq!(shamir_rebuild_point(&corrupted, &coefficients, &checks), Err(Error::Mismatch));
    }
}

#[test]
fn reconstruction_of_a_point_that_all_parties_hold() {
    let point = G1Point::generator().mul(&s(77));
    let shares = [(s(1), point), (s(2), point), (s(3), point)];
    let (coefficients, checks) = shamir_coefficients(2, &shares);
    assert_eq!(shamir_rebuild_point(&shares, &coefficients, &checks), Ok(point));
}

#[test]
fn reconstruction_with_no_coefficients_is_zero() {
    let shares = [(s(1), s(10))];
    assert_eq!(shamir_rebuild_scalar(&shares, &[], &None), Ok(s(0)));
    let points = [(s(1), G1Point::generator())];
    assert_eq!(shamir_rebuild_point(&points, &[], &None), Ok(G1Point::identity()));
}

#[test]
fn reconstruction_in_one_call() {
    let f = [s(5), s(3), s(2)];
    let shares = shamir_share_with(&f, 5);
    assert_eq!(shamir_reconstruct_scalar(3, &shares), Ok(s(5)));
    assert_eq!(shamir_reconstruct_scalar(3, &shares[..3]), Ok(s(5)));
    assert_eq!(shamir_reconstruct_scalar(3, &shares[1..]), Ok(s(5)));
    assert_eq!(shamir_reconstruct_scalar(5, &shares), Ok(s(5)));
    let base = G1Point::generator();
    let points: Vec<(Scalar, G1Point)> = shares.iter().map(|(x, y)| (*x, base.mul(y))).collect();
    assert_eq!(shamir_reconstruct_point(3, &points), Ok(base.mul(&s(5))));
}

#[test]
fn reconstruction_reports_what_is_wrong() {
    let f = [s(5), s(3), s(2)];
    let shares = shamir_share_with(&f, 5);
    assert_eq!(shamir_reconstruct_scalar(3, &shares[..2]), Err(Error::InsufficientShares));
    assert_eq!(shamir_reconstruct_scalar(0, &shares), Err(Error::InsufficientShares));
    assert_eq!(shamir_reconstruct_scalar(6, &shares), Err(Error::InsufficientShares));
    assert_eq!(shamir_reconstruct_scalar(1, &[]), Err(Error::InsufficientShares));

    let mut twice = shares.clone();
    twice[2].0 = twice[0].0;
    assert_eq!(shamir_reconstruct_scalar(3, &twice), Err(Error::Shares));
    let mut zero = shares.clone();
    zero[3].0 = s(0);
    assert_eq!(shamir_reconstruct_scalar(3, &zero), Err(Error::Shares));
    // A node that is not read may be anything.
    let mut unread = shares.clone();
    unread[4].0 = s(0);
    assert_eq!(shamir_reconstruct_scalar(3, &unread), Ok(s(5)));
    assert!(admissible(&unread, 4));
    assert!(!admissible(&unread, 5));
    assert!(!admissible(&twice, 3));
    assert!(admissible(&twice, 2));

    for k in 0..4 {
        let mut corrupted = shares.clone();
        corrupted[k].1 = corrupted[k].1.add(&s(1));
        assert_eq!(shamir_reconstruct_scalar(3, &corrupted), Err(Error::Mismatch));
    }
    let base = G1Point::generator();
    let mut points: Vec<(Scalar, G1Point)> =
        shares.iter().map(|(x, y)| (*x, base.mul(y))).collect();
    assert_eq!(shamir_reconstruct_point(6, &points), Err(Error::InsufficientShares));
    points[1].1 = base;
    assert_eq!(shamir_reconstruct_point(3, &points), Err(Error::Mismatch));
    points[1].0 = points[0].0;
    assert_eq!(shamir_reconstruct_point(3, &points), Err(Error::Shares));
}

#[test]
fn the_checking_node_may_be_zero_or_that_of_the_share_it_replaces() {
    // 5 + 7 x at 2, 3 and 0.
    let shares = [(s(2), s(19)), (s(3), s(26)), (s(0), s(5))];
    let (coefficients, checks) = shamir_coefficients(2, &shares);
    assert_eq!(coefficients, vec![s(3), minus(2)]);
    assert_eq!(checks, Some(vec![s(1), s(0)]));
    assert_eq!(shamir_rebuild_scalar(&shares, &coefficients, &checks), Ok(s(5)));

    let shares = [(s(2), s(19)), (s(3), s(26)), (s(2), s(19))];
    let (coefficients, checks) = shamir_coefficients(2, &shares);
    assert_eq!(checks, Some(coefficients.clone()));
    assert_eq!(shamir_rebuild_scalar(&shares, &coefficients, &checks), Ok(s(5)));

    // A reconstruction in one call asks for more: a check by such a node
    // would not find out every wrong share.
    assert_eq!(shamir_reconstruct_scalar(2, &shares), Err(Error::Shares));
}

#[test]
fn any_one_wrong_share_among_those_read_is_found_out() {
    // 11 + 4 x + 9 x^2 at 5, 1, 7, 3; a fifth share is not read.
    let f = [s(11), s(4), s(9)];
    let nodes = [5u64, 1, 7, 3, 8];
    let shares: Vec<(Scalar, Scalar)> =
        nodes.iter().map(|x| (s(*x), poly_evaluate(&f, &s(*x)))).collect();
    assert_eq!(shamir_reconstruct_scalar(3, &shares), Ok(s(11)));
    let g = G1Point::generator();
    let points: Vec<(Scalar, G1Point)> = shares.iter().map(|(x, y)| (*x, g.mul(y))).collect();
    assert_eq!(shamir_reconstruct_point(3, &points), Ok(g.mul(&s(11))));
    for k in 0..4 {
        for wrong in [s(0), shares[k].1.add(&s(1)), shares[k].1.neg()] {
            let mut changed = shares.clone();
            changed[k].1 = wrong;
            assert_eq!(shamir_reconstruct_scalar(3, &changed), Err(Error::Mismatch));
            let mut changed = points.clone();
            changed[k].1 = g.mul(&wrong);
            assert_eq!(shamir_reconstruct_point(3, &changed), Err(Error::Mismatch));
        }
    }
    let mut changed = shares.clone();
    changed[4].1 = s(0);
    assert_eq!(shamir_reconstruct_scalar(3, &changed), Ok(s(11)));
}

#[test]
fn too_few_shares_for_the_coefficients_are_refused() {
    let shares = [(s(1), s(7)), (s(2), s(9)), (s(3), s(11))];
    let (coefficients, checks) = shamir_coefficients(2, &shares);
    assert_eq!(shamir_rebuild_scalar(&shares, &coefficients, &checks), Ok(s(5)));
    // Two coefficients and one share.
    assert_eq!(
        shamir_rebuild_scalar(&shares[..1], &coefficients, &None),
        Err(Error::InsufficientShares)
    );
    // Two coefficients and two shares, with none left for the check.
    assert_eq!(
        shamir_rebuild_scalar(&shares[..2], &coefficients, &checks),
        Err(Error::InsufficientShares)
    );
    assert_eq!(shamir_rebuild_scalar(&shares[..2], &coefficients, &None), Ok(s(5)));
    assert_eq!(shamir_rebuild_scalar(&[], &coefficients, &None), Err(Error::InsufficientShares));

    let g = G1Point::generator();
    let points: Vec<(Scalar, G1Point)> = shares.iter().map(|(x, y)| (*x, g.mul(y))).collect();
    assert_eq!(shamir_rebuild_point(&points, &coefficients, &checks), Ok(g.mul(&s(5))));
    assert_eq!(
        shamir_rebuild_point(&points[..1], &coefficients, &None),
        Err(Error::InsufficientShares)
    );
    assert_eq!(
        shamir_rebuild_point(&points[..2], &coefficients, &checks),
        Err(Error::InsufficientShares)
    );
}
