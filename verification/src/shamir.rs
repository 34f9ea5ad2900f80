//! Threshold sharing of a scalar and its reconstruction by Lagrange
//! interpolation at zero.
use crate::error::Error;
use crate::field::{
    fadd, finv, fmul, fsub, invertible, is_elem, lemma_fadd_comm, lemma_fadd_zero, lemma_finv,
    lemma_fmul_assoc, lemma_fmul_comm, lemma_fmul_elem, lemma_fmul_interchange, lemma_fmul_one,
    lemma_fmul_swap, lemma_fsub_swap, lemma_fsub_zero_iff, lemma_invertible_neg, lemma_order_bounds,
};
use crate::group::G1Point;
use crate::interpolation::{
    consistent, lemma_admissible_usable, lemma_reconstructed, lemma_reconstructed_detects,
    nodes_invertible, nodes_ok,
};
use crate::scalar::Scalar;
use vstd::prelude::*;

verus! {

/// The value at `x` of the polynomial with the given coefficients, the
/// constant term first.
pub open spec fn poly_eval(coefficients: Seq<nat>, x: nat) -> nat
    decreases coefficients.len(),
{
    if coefficients.len() == 0 {
        0
    } else {
        fadd(coefficients[0], fmul(x, poly_eval(coefficients.drop_first(), x)))
    }
}

/// The nodes of a sequence of shares: the residues at which the shared
/// polynomial was evaluated.
pub open spec fn share_nodes<T>(shares: Seq<(Scalar, T)>) -> Seq<nat> {
    Seq::new(shares.len(), |i: int| shares[i].0@)
}

/// The values of a sequence of scalar shares.
pub open spec fn share_values(shares: Seq<(Scalar, Scalar)>) -> Seq<nat> {
    Seq::new(shares.len(), |i: int| shares[i].1@)
}

/// The logarithms of the values of a sequence of point shares.
pub open spec fn share_points(shares: Seq<(Scalar, G1Point)>) -> Seq<nat> {
    Seq::new(shares.len(), |i: int| shares[i].1@)
}

/// The first `n` nodes are residues other than zero, no two of them equal.
pub open spec fn nodes_admissible(xs: Seq<nat>, n: int) -> bool {
    &&& n <= xs.len()
    &&& forall|i: int| 0 <= i < n ==> is_elem(#[trigger] xs[i]) && xs[i] != 0
    &&& forall|i: int, j: int| 0 <= i < j < n ==> #[trigger] xs[i] != #[trigger] xs[j]
}

/// The node after the first `threshold` differs from each of them but,
/// possibly, the first.
pub open spec fn replacement_admissible(xs: Seq<nat>, threshold: int) -> bool {
    &&& threshold < xs.len()
    &&& forall|i: int| 1 <= i < threshold ==> #[trigger] xs[i] != xs[threshold]
}

/// The difference of node `j` from node `i` is a unit.
pub open spec fn difference_invertible(xs: Seq<nat>, i: int, j: int) -> bool {
    invertible(fsub(xs[j], xs[i]))
}

/// The differences of any two of the nodes are units, so that every
/// Lagrange factor is a quotient.
pub open spec fn differences_invertible(xs: Seq<nat>) -> bool {
    forall|i: int, j: int|
        0 <= i < xs.len() && 0 <= j < xs.len() && i != j ==> #[trigger] difference_invertible(
            xs,
            i,
            j,
        )
}

/// The product of the first `n` nodes.
pub open spec fn node_product(xs: Seq<nat>, n: int) -> nat
    decreases n,
{
    if n <= 0 {
        1
    } else {
        fmul(node_product(xs, n - 1), xs[n - 1])
    }
}

/// The factor that node `j` contributes to the coefficient of node `i`:
/// `x_j / (x_j - x_i)`.
pub open spec fn lagrange_factor(xs: Seq<nat>, i: int, j: int) -> nat {
    fmul(xs[j], finv(fsub(xs[j], xs[i])))
}

/// The product of the factors of the nodes `lo <= j < n` other than `i`.
pub open spec fn lagrange_product(xs: Seq<nat>, i: int, lo: int, n: int) -> nat
    decreases n - lo,
{
    if n <= lo {
        1
    } else if n - 1 == i {
        lagrange_product(xs, i, lo, n - 1)
    } else {
        fmul(lagrange_product(xs, i, lo, n - 1), lagrange_factor(xs, i, n - 1))
    }
}

/// The Lagrange coefficient of node `i` among the nodes `xs`, for
/// interpolation at zero: the product over the other nodes `j` of
/// `x_j / (x_j - x_i)`.
pub open spec fn lagrange_at_zero(xs: Seq<nat>, i: int) -> nat {
    lagrange_product(xs, i, 0, xs.len() as int)
}

/// The Lagrange coefficients of all the nodes `xs`.
pub open spec fn lagrange_coefficients(xs: Seq<nat>) -> Seq<nat> {
    Seq::new(xs.len(), |i: int| lagrange_at_zero(xs, i))
}

/// The nodes against which a reconstruction is checked: the first
/// `threshold` nodes with the first replaced by the one after them.
pub open spec fn check_nodes(xs: Seq<nat>, threshold: int) -> Seq<nat> {
    xs.take(threshold).update(0, xs[threshold])
}

/// The sum over `i < n` of `values[i] * weights[i]`.
pub open spec fn weighted_sum(values: Seq<nat>, weights: Seq<nat>, n: int) -> nat
    decreases n,
{
    if n <= 0 {
        0
    } else {
        fadd(weighted_sum(values, weights, n - 1), fmul(values[n - 1], weights[n - 1]))
    }
}

/// The running product that the coefficient of node `i` is built from: the
/// inverses of `x_j - x_i` for the nodes `j < n` other than `i`, and the
/// inverse of `x_i` where `j` is `i`.
pub open spec fn inverse_product(xs: Seq<nat>, i: int, n: int) -> nat
    decreases n,
{
    if n <= 0 {
        1
    } else if n - 1 == i {
        fmul(inverse_product(xs, i, n - 1), finv(xs[i]))
    } else {
        fmul(inverse_product(xs, i, n - 1), finv(fsub(xs[n - 1], xs[i])))
    }
}

/// The product of the nodes is a canonical residue.
pub proof fn lemma_node_product_elem(xs: Seq<nat>, n: int)
    ensures
        is_elem(node_product(xs, n)),
    decreases n,
{
    lemma_order_bounds();
    if n > 0 {
        lemma_fmul_elem(node_product(xs, n - 1), xs[n - 1]);
    }
}

/// A product of Lagrange factors is a canonical residue.
pub proof fn lemma_lagrange_product_elem(xs: Seq<nat>, i: int, lo: int, n: int)
    ensures
        is_elem(lagrange_product(xs, i, lo, n)),
    decreases n - lo,
{
    lemma_order_bounds();
    if n > lo {
        lemma_lagrange_product_elem(xs, i, lo, n - 1);
        lemma_fmul_elem(lagrange_product(xs, i, lo, n - 1), lagrange_factor(xs, i, n - 1));
    }
}

/// The product of the nodes times the running product of inverses is the
/// product of the Lagrange factors: at `i` the node meets its own inverse.
pub proof fn lemma_inverse_product(xs: Seq<nat>, i: int, n: int)
    requires
        0 <= n <= xs.len(),
        0 <= i < xs.len(),
        nodes_admissible(xs, xs.len() as int),
        invertible(xs[i]),
    ensures
        fmul(node_product(xs, n), inverse_product(xs, i, n)) == lagrange_product(xs, i, 0, n),
    decreases n,
{
    lemma_order_bounds();
    if n <= 0 {
        lemma_fmul_one(1);
    } else {
        lemma_inverse_product(xs, i, n - 1);
        let a = node_product(xs, n - 1);
        let w = inverse_product(xs, i, n - 1);
        let x = xs[n - 1];
        lemma_lagrange_product_elem(xs, i, 0, n - 1);
        if n - 1 == i {
            lemma_fmul_interchange(a, x, w, finv(x));
            lemma_finv(x);
            lemma_fmul_one(fmul(a, w));
        } else {
            lemma_fmul_interchange(a, x, w, finv(fsub(x, xs[i])));
        }
    }
}

/// The residues that a sequence of scalars stands for.
pub open spec fn scalar_values(v: Seq<Scalar>) -> Seq<nat> {
    Seq::new(v.len(), |i: int| v[i]@)
}

/// The residues that check coefficients stand for, where there are any.
pub open spec fn check_values(checks: Option<Vec<Scalar>>) -> Option<Seq<nat>> {
    match checks {
        Some(c) => Some(scalar_values(c@)),
        None => None,
    }
}

/// The running product that the check coefficient of the replacing node is
/// built from: the inverses of `x_j - x_0` for the nodes `1 <= j < n`.
pub open spec fn check_inverse_product(xs: Seq<nat>, n: int) -> nat
    decreases n,
{
    if n <= 1 {
        1
    } else {
        fmul(check_inverse_product(xs, n - 1), finv(fsub(xs[n - 1], xs[0])))
    }
}

/// The product of the nodes, divided by the first and multiplied by the
/// inverses of the differences to the replacing node, is the Lagrange
/// coefficient of the replacing node.
pub proof fn lemma_check_inverse_product(xs: Seq<nat>, ys: Seq<nat>, n: int)
    requires
        1 <= n <= xs.len(),
        xs.len() == ys.len(),
        forall|j: int| 1 <= j < xs.len() ==> xs[j] == ys[j],
        invertible(xs[0]),
    ensures
        fmul(fmul(node_product(xs, n), finv(xs[0])), check_inverse_product(ys, n))
            == lagrange_product(ys, 0, 0, n),
    decreases n,
{
    lemma_order_bounds();
    let v = finv(xs[0]);
    lemma_finv(xs[0]);
    if n == 1 {
        assert(node_product(xs, 0) == 1);
        lemma_fmul_comm(1, xs[0]);
        lemma_fmul_reduce_one(xs[0], v);
        assert(lagrange_product(ys, 0, 0, 0) == 1);
    } else {
        lemma_check_inverse_product(xs, ys, n - 1);
        let a = node_product(xs, n - 1);
        let x = xs[n - 1];
        let d = check_inverse_product(ys, n - 1);
        let e = finv(fsub(ys[n - 1], ys[0]));
        lemma_fmul_swap(a, x, v);
        lemma_fmul_interchange(fmul(a, v), x, d, e);
    }
}

/// `(1 * a) * b == 1` where `b` inverts `a`.
pub proof fn lemma_fmul_reduce_one(a: nat, b: nat)
    requires
        fmul(a, b) == 1,
    ensures
        fmul(fmul(1, a), b) == 1,
        fmul(fmul(fmul(1, a), b), 1) == 1,
{
    lemma_order_bounds();
    lemma_fmul_assoc(1, a, b);
    lemma_fmul_one(1);
}

/// The factor of the first node can be taken out of a Lagrange product.
pub proof fn lemma_lagrange_product_first(xs: Seq<nat>, i: int, n: int)
    requires
        1 <= n,
        i != 0,
    ensures
        lagrange_product(xs, i, 0, n) == fmul(
            lagrange_factor(xs, i, 0),
            lagrange_product(xs, i, 1, n),
        ),
    decreases n,
{
    lemma_order_bounds();
    let f = lagrange_factor(xs, i, 0);
    lemma_fmul_elem(xs[0], finv(fsub(xs[0], xs[i])));
    if n == 1 {
        assert(lagrange_product(xs, i, 0, 0) == 1);
        assert(lagrange_product(xs, i, 1, 1) == 1);
        lemma_fmul_one(f);
    } else {
        lemma_lagrange_product_first(xs, i, n - 1);
        if n - 1 != i {
            lemma_fmul_assoc(f, lagrange_product(xs, i, 1, n - 1), lagrange_factor(xs, i, n - 1));
        }
    }
}

/// A Lagrange product reads only the nodes of its range and node `i`.
pub proof fn lemma_lagrange_product_agree(xs: Seq<nat>, ys: Seq<nat>, i: int, lo: int, n: int)
    requires
        0 <= lo,
        n <= xs.len(),
        n <= ys.len(),
        0 <= i < xs.len(),
        i < ys.len(),
        xs[i] == ys[i],
        forall|j: int| lo <= j < n ==> xs[j] == ys[j],
    ensures
        lagrange_product(xs, i, lo, n) == lagrange_product(ys, i, lo, n),
    decreases n - lo,
{
    if n > lo {
        lemma_lagrange_product_agree(xs, ys, i, lo, n - 1);
    }
}

/// Replacing the first node `u` by `w` multiplies the factor it contributes
/// to another node's coefficient by `(w / u) * (u - x) / (w - x)`.
pub proof fn lemma_adjust_factor(u: nat, w: nat, x: nat)
    requires
        is_elem(w),
        invertible(u),
        invertible(fsub(u, x)),
    ensures
        fmul(
            fmul(u, finv(fsub(u, x))),
            fmul(fmul(fmul(w, finv(u)), fsub(u, x)), finv(fsub(w, x))),
        ) == fmul(w, finv(fsub(w, x))),
{
    let d = fsub(u, x);
    let e = finv(fsub(w, x));
    let m = fmul(fmul(w, finv(u)), d);
    lemma_finv(u);
    lemma_finv(d);
    lemma_fmul_assoc(fmul(u, finv(d)), m, e);
    lemma_fmul_interchange(u, finv(d), fmul(w, finv(u)), d);
    lemma_fmul_elem(u, fmul(w, finv(u)));
    lemma_fmul_one(fmul(u, fmul(w, finv(u))));
    lemma_fmul_comm(w, finv(u));
    lemma_fmul_assoc(u, finv(u), w);
    lemma_fmul_one(w);
}

/// Computes the Lagrange coefficients, for interpolation at zero, of the
/// first `threshold` shares, whose nodes must be other than zero and
/// distinct. Where more shares are given, also those of the set in which
/// the share after them replaces the first: a second way to the same
/// result, by which a reconstruction can be checked. The node of that share
/// must differ from those of the shares that stay; it may be zero, or that
/// of the share it replaces.
pub fn shamir_coefficients<T>(threshold: usize, shares: &[(Scalar, T)]) -> (r: (
    Vec<Scalar>,
    Option<Vec<Scalar>>,
))
    requires
        1 <= threshold <= shares.len(),
        nodes_admissible(share_nodes(shares@), threshold as int),
        shares.len() > threshold ==> replacement_admissible(
            share_nodes(shares@),
            threshold as int,
        ),
    ensures
        scalar_values(r.0@) == lagrange_coefficients(
            share_nodes(shares@).take(threshold as int),
        ),
        differences_invertible(share_nodes(shares@).take(threshold as int)),
        r.1 is Some <==> shares.len() > threshold,
        r.1 matches Some(c) ==> scalar_values(c@) == lagrange_coefficients(
            check_nodes(share_nodes(shares@), threshold as int),
        ) && differences_invertible(check_nodes(share_nodes(shares@), threshold as int)),
{
    let ghost all = share_nodes(shares@);
    let ghost xs = all.take(threshold as int);
    let mut product = Scalar::one();
    let mut k: usize = 0;
    while k < threshold
        invariant
            k <= threshold <= shares.len(),
            xs == share_nodes(shares@).take(threshold as int),
            product@ == node_product(xs, k as int),
        decreases threshold - k,
    {
        product = product.mul(&shares[k].0);
        k += 1;
    }
    let mut coefficients: Vec<Scalar> = Vec::new();
    let mut i: usize = 0;
    while i < threshold
        invariant
            i <= threshold <= shares.len(),
            xs == share_nodes(shares@).take(threshold as int),
            nodes_admissible(xs, threshold as int),
            product@ == node_product(xs, threshold as int),
            coefficients@.len() == i,
            forall|m: int| 0 <= m < i ==> (#[trigger] coefficients@[m])@ == lagrange_at_zero(xs, m),
            forall|m: int, j: int|
                0 <= m < i && 0 <= j < threshold && m != j ==> #[trigger] difference_invertible(
                    xs,
                    m,
                    j,
                ),
        decreases threshold - i,
    {
        let mut c = product;
        let mut ii: usize = 0;
        proof {
            lemma_node_product_elem(xs, threshold as int);
            lemma_fmul_one(product@);
        }
        while ii < threshold
            invariant
                ii <= threshold <= shares.len(),
                i < threshold,
                xs == share_nodes(shares@).take(threshold as int),
                nodes_admissible(xs, threshold as int),
                c@ == fmul(product@, inverse_product(xs, i as int, ii as int)),
                ii > i ==> invertible(xs[i as int]),
                forall|j: int|
                    0 <= j < ii && j != i ==> #[trigger] difference_invertible(xs, i as int, j),
            decreases threshold - ii,
        {
            let xi = shares[i].0;
            let inverse = if i == ii {
                assert(xs[i as int] == xi@);
                xi.invert().unwrap()
            } else {
                let xj = shares[ii].0;
                proof {
                    assert(xs[i as int] == xi@);
                    assert(xs[ii as int] == xj@);
                    lemma_fsub_zero_iff(xj@, xi@);
                }
                xj.sub(&xi).invert().unwrap()
            };
            proof {
                lemma_fmul_assoc(
                    product@,
                    inverse_product(xs, i as int, ii as int),
                    inverse@,
                );
            }
            c = c.mul(&inverse);
            ii += 1;
        }
        proof {
            lemma_inverse_product(xs, i as int, threshold as int);
        }
        coefficients.push(c);
        i += 1;
    }
    assert(scalar_values(coefficients@) =~= lagrange_coefficients(xs));
    assert(differences_invertible(xs));
    if shares.len() > threshold {
        let ghost ys = check_nodes(all, threshold as int);
        let x0 = shares[0].0;
        let xt = shares[threshold].0;
        assert(all[0] == x0@);
        assert(all[threshold as int] == xt@);
        proof {
            use_type_invariant(&xt);
        }
        let inverse_x0 = x0.invert().unwrap();
        let adjustment = xt.mul(&inverse_x0);
        let mut first = product.mul(&inverse_x0);
        let mut checks: Vec<Scalar> = Vec::new();
        checks.push(first);
        let mut i: usize = 1;
        proof {
            lemma_fmul_elem(product@, inverse_x0@);
            lemma_fmul_one(first@);
        }
        while i < threshold
            invariant
                1 <= i <= threshold < shares.len(),
                all == share_nodes(shares@),
                xs == all.take(threshold as int),
                ys == check_nodes(all, threshold as int),
                nodes_admissible(all, threshold as int),
                replacement_admissible(all, threshold as int),
                product@ == node_product(xs, threshold as int),
                x0 == shares[0].0,
                xt == shares[threshold as int].0,
                is_elem(xt@),
                inverse_x0@ == finv(x0@),
                invertible(x0@),
                adjustment@ == fmul(xt@, finv(x0@)),
                coefficients@.len() == threshold,
                forall|m: int|
                    0 <= m < threshold ==> (#[trigger] coefficients@[m])@ == lagrange_at_zero(
                        xs,
                        m,
                    ),
                first@ == fmul(
                    fmul(product@, finv(x0@)),
                    check_inverse_product(ys, i as int),
                ),
                checks@.len() == i,
                forall|m: int| 1 <= m < i ==> (#[trigger] checks@[m])@ == lagrange_at_zero(ys, m),
                differences_invertible(xs),
                forall|m: int| 1 <= m < i ==> #[trigger] difference_invertible(ys, 0, m),
                forall|m: int| 1 <= m < i ==> #[trigger] difference_invertible(ys, m, 0),
            decreases threshold - i,
        {
            let xi = shares[i].0;
            proof {
                assert(all[i as int] == xi@);
                assert(all[0] == x0@);
                assert(all[threshold as int] == xt@);
                assert(ys[i as int] == xi@);
                assert(ys[0] == xt@);
                lemma_fsub_zero_iff(xt@, xi@);
                lemma_fsub_zero_iff(xi@, xt@);
                lemma_fsub_zero_iff(x0@, xi@);
            }
            let difference = x0.sub(&xi);
            let replaced = xt.sub(&xi).invert().unwrap();
            let factor = adjustment.mul(&difference).mul(&replaced);
            let old = coefficients[i];
            let changed = old.mul(&factor);
            let back = xi.sub(&xt).invert().unwrap();
            proof {
                // The coefficient of node `i`, with the factor of the first node replaced.
                assert(difference_invertible(xs, i as int, 0));
                lemma_lagrange_product_first(xs, i as int, threshold as int);
                lemma_lagrange_product_first(ys, i as int, threshold as int);
                lemma_lagrange_product_agree(xs, ys, i as int, 1, threshold as int);
                let tail = lagrange_product(xs, i as int, 1, threshold as int);
                lemma_adjust_factor(x0@, xt@, xi@);
                lemma_fmul_swap(lagrange_factor(xs, i as int, 0), tail, factor@);
                assert(xs[0] == x0@);
                assert(xs[i as int] == xi@);
                assert(changed@ == lagrange_at_zero(ys, i as int));
                assert(difference_invertible(ys, 0, i as int));
                assert(difference_invertible(ys, i as int, 0));
                // The coefficient of the replacing node takes one more inverse.
                lemma_fmul_assoc(
                    fmul(product@, finv(x0@)),
                    check_inverse_product(ys, i as int),
                    back@,
                );
            }
            first = first.mul(&back);
            checks.push(changed);
            i += 1;
        }
        proof {
            assert(xs[0] == x0@);
            assert forall|j: int| 1 <= j < xs.len() implies xs[j] == ys[j] by {}
            lemma_check_inverse_product(xs, ys, threshold as int);
        }
        checks.set(0, first);
        assert(scalar_values(checks@) =~= lagrange_coefficients(ys));
        assert forall|m: int, j: int|
            0 <= m < ys.len() && 0 <= j < ys.len() && m != j
        implies #[trigger] difference_invertible(ys, m, j) by {
            if m != 0 && j != 0 {
                assert(difference_invertible(xs, m, j));
                assert(xs[m] == ys[m] && xs[j] == ys[j]);
            } else if m == 0 {
                assert(difference_invertible(ys, 0, j));
            } else {
                assert(difference_invertible(ys, m, 0));
            }
        }
        return (coefficients, Some(checks));
    }
    (coefficients, None)
}

/// The sum by which a reconstruction is checked: the share after the
/// first `threshold` takes the place of the first.
pub open spec fn check_sum(values: Seq<nat>, checks: Seq<nat>, threshold: int, n: int) -> nat
    decreases n,
{
    if n <= 1 {
        fmul(values[threshold], checks[0])
    } else {
        fadd(check_sum(values, checks, threshold, n - 1), fmul(values[n - 1], checks[n - 1]))
    }
}

/// What a reconstruction gives: the sum of the first shares weighted by the
/// coefficients and, where check coefficients are given, nothing unless the
/// check sum agrees with it.
pub open spec fn rebuilt(values: Seq<nat>, coefficients: Seq<nat>, checks: Option<Seq<nat>>)
    -> Option<nat> {
    let threshold = coefficients.len() as int;
    let primary = weighted_sum(values, coefficients, threshold);
    match checks {
        None => Some(primary),
        Some(c) => if check_sum(values, c, threshold, threshold) == primary {
            Some(primary)
        } else {
            None
        },
    }
}

/// The check sum is the weighted sum over the shares in which the share
/// after the first `threshold` replaces the first.
pub proof fn lemma_check_sum(values: Seq<nat>, checks: Seq<nat>, threshold: int, n: int)
    requires
        1 <= n <= threshold < values.len(),
    ensures
        check_sum(values, checks, threshold, n) == weighted_sum(
            values.take(threshold).update(0, values[threshold]),
            checks,
            n,
        ),
    decreases n,
{
    let replaced = values.take(threshold).update(0, values[threshold]);
    if n == 1 {
        assert(weighted_sum(replaced, checks, 0) == 0);
        lemma_fmul_elem(values[threshold], checks[0]);
        lemma_fadd_zero(fmul(values[threshold], checks[0]));
    } else {
        lemma_check_sum(values, checks, threshold, n - 1);
    }
}

/// Whether there are shares enough for a reconstruction with `threshold`
/// coefficients: as many as those and, for a check, one more.
pub open spec fn shares_suffice(shares: int, threshold: int, checked: bool) -> bool {
    if checked {
        threshold < shares
    } else {
        threshold <= shares
    }
}

/// Reconstructs the shared scalar from the first shares and their
/// coefficients. With check coefficients, of which there must be as many,
/// the share after those takes the place of the first for a second
/// reconstruction, and the two must agree: where they do not, that is the
/// answer, and no scalar. Fewer shares than are read are refused.
pub fn shamir_rebuild_scalar(
    shares: &[(Scalar, Scalar)],
    coefficients: &[Scalar],
    check_coefficients: &Option<Vec<Scalar>>,
) -> (r: Result<Scalar, Error>)
    requires
        check_coefficients matches Some(c) ==> 1 <= c.len() && coefficients.len() <= c.len(),
    ensures
        match r {
            Ok(s) => shares_suffice(
                shares.len() as int,
                coefficients.len() as int,
                check_coefficients is Some,
            ) && rebuilt(
                share_values(shares@),
                scalar_values(coefficients@),
                check_values(*check_coefficients),
            ) == Some(s@),
            Err(e) => if shares_suffice(
                shares.len() as int,
                coefficients.len() as int,
                check_coefficients is Some,
            ) {
                e == Error::Mismatch && rebuilt(
                    share_values(shares@),
                    scalar_values(coefficients@),
                    check_values(*check_coefficients),
                ) is None
            } else {
                e == Error::InsufficientShares
            },
        },
{
    let threshold = coefficients.len();
    if shares.len() < threshold || (check_coefficients.is_some() && shares.len() == threshold) {
        return Err(Error::InsufficientShares);
    }
    let ghost values = share_values(shares@);
    let ghost weights = scalar_values(coefficients@);
    let mut result = Scalar::zero();
    let mut i: usize = 0;
    while i < threshold
        invariant
            i <= threshold <= shares.len(),
            threshold == coefficients.len(),
            values == share_values(shares@),
            weights == scalar_values(coefficients@),
            result@ == weighted_sum(values, weights, i as int),
        decreases threshold - i,
    {
        let term = shares[i].1.mul(&coefficients[i]);
        result = result.add(&term);
        i += 1;
    }
    match check_coefficients {
        Some(checks) => {
            let ghost marks = scalar_values(checks@);
            let mut check_result = shares[threshold].1.mul(&checks[0]);
            let mut i: usize = 1;
            while i < threshold
                invariant
                    1 <= i,
                    i <= threshold || i == 1,
                    threshold < shares.len(),
                    threshold <= checks.len(),
                    1 <= checks.len(),
                    values == share_values(shares@),
                    marks == scalar_values(checks@),
                    check_result@ == check_sum(values, marks, threshold as int, i as int),
                decreases threshold - i,
            {
                let term = shares[i].1.mul(&checks[i]);
                check_result = check_result.add(&term);
                i += 1;
            }
            proof {
                assert(check_sum(values, marks, threshold as int, i as int) == check_sum(
                    values,
                    marks,
                    threshold as int,
                    threshold as int,
                ));
            }
            if check_result.eq(&result) {
                return Ok(result);
            }
            return Err(Error::Mismatch);
        },
        None => {},
    }
    Ok(result)
}

/// Reconstructs a shared point from the first shares and their
/// coefficients, as `shamir_rebuild_scalar` does a scalar; the sums are
/// taken in the group.
pub fn shamir_rebuild_point(
    shares: &[(Scalar, G1Point)],
    coefficients: &[Scalar],
    check_coefficients: &Option<Vec<Scalar>>,
) -> (r: Result<G1Point, Error>)
    requires
        check_coefficients matches Some(c) ==> 1 <= c.len() && coefficients.len() <= c.len(),
    ensures
        match r {
            Ok(p) => shares_suffice(
                shares.len() as int,
                coefficients.len() as int,
                check_coefficients is Some,
            ) && rebuilt(
                share_points(shares@),
                scalar_values(coefficients@),
                check_values(*check_coefficients),
            ) == Some(p@),
            Err(e) => if shares_suffice(
                shares.len() as int,
                coefficients.len() as int,
                check_coefficients is Some,
            ) {
                e == Error::Mismatch && rebuilt(
                    share_points(shares@),
                    scalar_values(coefficients@),
                    check_values(*check_coefficients),
                ) is None
            } else {
                e == Error::InsufficientShares
            },
        },
{
    let threshold = coefficients.len();
    if shares.len() < threshold || (check_coefficients.is_some() && shares.len() == threshold) {
        return Err(Error::InsufficientShares);
    }
    let ghost values = share_points(shares@);
    let ghost weights = scalar_values(coefficients@);
    let mut result = G1Point::identity();
    let mut i: usize = 0;
    while i < threshold
        invariant
            i <= threshold <= shares.len(),
            threshold == coefficients.len(),
            values == share_points(shares@),
            weights == scalar_values(coefficients@),
            result@ == weighted_sum(values, weights, i as int),
        decreases threshold - i,
    {
        let term = shares[i].1.mul(&coefficients[i]);
        result = result.add(&term);
        i += 1;
    }
    match check_coefficients {
        Some(checks) => {
            let ghost marks = scalar_values(checks@);
            let mut check_result = shares[threshold].1.mul(&checks[0]);
            let mut i: usize = 1;
            while i < threshold
                invariant
                    1 <= i,
                    i <= threshold || i == 1,
                    threshold < shares.len(),
                    threshold <= checks.len(),
                    1 <= checks.len(),
                    values == share_points(shares@),
                    marks == scalar_values(checks@),
                    check_result@ == check_sum(values, marks, threshold as int, i as int),
                decreases threshold - i,
            {
                let term = shares[i].1.mul(&checks[i]);
                check_result = check_result.add(&term);
                i += 1;
            }
            proof {
                assert(check_sum(values, marks, threshold as int, i as int) == check_sum(
                    values,
                    marks,
                    threshold as int,
                    threshold as int,
                ));
            }
            if check_result.eq(&result) {
                return Ok(result);
            }
            return Err(Error::Mismatch);
        },
        None => {},
    }
    Ok(result)
}

/// Evaluates a polynomial, given by its coefficients with the constant term
/// first, at `x`.
pub fn poly_evaluate(coefficients: &[Scalar], x: &Scalar) -> (r: Scalar)
    ensures
        r@ == poly_eval(scalar_values(coefficients@), x@),
{
    let ghost all = scalar_values(coefficients@);
    let mut out = Scalar::zero();
    let mut i: usize = coefficients.len();
    assert(all.skip(i as int) =~= Seq::<nat>::empty());
    while i > 0
        invariant
            i <= coefficients.len(),
            all == scalar_values(coefficients@),
            out@ == poly_eval(all.skip(i as int), x@),
        decreases i,
    {
        i -= 1;
        proof {
            assert(all.skip(i as int).drop_first() =~= all.skip(i + 1));
            lemma_fadd_comm(all[i as int], fmul(x@, out@));
        }
        out = x.mul(&out).add(&coefficients[i]);
    }
    assert(all.skip(0) =~= all);
    out
}

/// The shares of a polynomial: share `i` is the value at `i + 1`.
pub open spec fn shares_of(polynomial: Seq<nat>, shares: Seq<(Scalar, Scalar)>) -> bool {
    forall|i: int|
        0 <= i < shares.len() ==> (#[trigger] shares[i]).0@ == i + 1 && shares[i].1@ == poly_eval(
            polynomial,
            (i + 1) as nat,
        )
}

/// Evaluates a polynomial at `1, 2, ..., num_shares`.
pub fn shamir_share_with(polynomial: &[Scalar], num_shares: usize) -> (r: Vec<(Scalar, Scalar)>)
    ensures
        r@.len() == num_shares,
        shares_of(scalar_values(polynomial@), r@),
{
    let mut shares: Vec<(Scalar, Scalar)> = Vec::new();
    let mut i: usize = 0;
    while i < num_shares
        invariant
            i <= num_shares,
            shares@.len() == i,
            shares_of(scalar_values(polynomial@), shares@),
        decreases num_shares - i,
    {
        let x = Scalar::from_u64((i + 1) as u64);
        let y = poly_evaluate(polynomial, &x);
        shares.push((x, y));
        i += 1;
    }
    shares
}

/// Divides a secret into `num_shares` shares of which `threshold` rebuild
/// it: the values at `1, 2, ..., num_shares` of a polynomial of `threshold`
/// coefficients whose constant term is the secret, the others drawn at
/// random.
pub fn shamir_share(threshold: usize, num_shares: usize, secret: Scalar) -> (r: Vec<
    (Scalar, Scalar),
>)
    requires
        1 <= threshold,
    ensures
        r@.len() == num_shares,
        exists|polynomial: Seq<nat>|
            polynomial.len() == threshold && polynomial[0] == secret@ && #[trigger] shares_of(
                polynomial,
                r@,
            ),
{
    let mut polynomial: Vec<Scalar> = Vec::new();
    polynomial.push(secret);
    let mut i: usize = 1;
    while i < threshold
        invariant
            1 <= i <= threshold,
            polynomial@.len() == i,
            polynomial@[0] == secret,
        decreases threshold - i,
    {
        polynomial.push(Scalar::random());
        i += 1;
    }
    let shares = shamir_share_with(polynomial.as_slice(), num_shares);
    assert(scalar_values(polynomial@).len() == threshold);
    assert(scalar_values(polynomial@)[0] == secret@);
    shares
}

/// How many nodes a reconstruction reads: those of the threshold and, where
/// there are more, one for the check.
pub open spec fn nodes_read(shares: int, threshold: int) -> int {
    if shares > threshold {
        threshold + 1
    } else {
        threshold
    }
}

/// Whether the first `n` nodes are other than zero and no two of them
/// equal. The test inverts each node and each difference of two, so that
/// where it holds they are known to be units.
pub fn admissible<T>(shares: &[(Scalar, T)], n: usize) -> (r: bool)
    requires
        n <= shares.len(),
    ensures
        r == nodes_admissible(share_nodes(shares@), n as int),
        r ==> nodes_ok(share_nodes(shares@).take(n as int)) && nodes_invertible(
            share_nodes(shares@).take(n as int),
        ),
{
    let ghost xs = share_nodes(shares@);
    let mut i: usize = 0;
    while i < n
        invariant
            i <= n <= shares.len(),
            xs == share_nodes(shares@),
            forall|k: int| 0 <= k < i ==> is_elem(#[trigger] xs[k]) && xs[k] != 0,
            forall|k: int, l: int| 0 <= k < l < i ==> #[trigger] xs[k] != #[trigger] xs[l],
            forall|k: int| 0 <= k < i ==> invertible(#[trigger] xs[k]),
            forall|k: int, l: int|
                0 <= k < i && 0 <= l < i && k != l ==> #[trigger] difference_invertible(xs, k, l),
        decreases n - i,
    {
        let x = shares[i].0;
        proof {
            use_type_invariant(&x);
            assert(xs[i as int] == x@);
        }
        if x.invert().is_none() {
            return false;
        }
        let mut j: usize = 0;
        while j < i
            invariant
                j <= i < n <= shares.len(),
                xs == share_nodes(shares@),
                x == shares[i as int].0,
                is_elem(x@),
                forall|k: int| 0 <= k < i ==> is_elem(#[trigger] xs[k]),
                forall|k: int| 0 <= k < j ==> #[trigger] xs[k] != xs[i as int],
                forall|k: int| 0 <= k < j ==> #[trigger] difference_invertible(xs, k, i as int),
                forall|k: int| 0 <= k < j ==> #[trigger] difference_invertible(xs, i as int, k),
            decreases i - j,
        {
            let difference = shares[j].0.sub(&x);
            proof {
                assert(xs[j as int] == shares[j as int].0@);
                assert(xs[i as int] == x@);
                lemma_fsub_zero_iff(xs[j as int], x@);
                lemma_fsub_swap(xs[j as int], x@);
            }
            if difference.invert().is_none() {
                return false;
            }
            proof {
                lemma_invertible_neg(difference@);
                assert(difference_invertible(xs, i as int, j as int));
                assert(difference_invertible(xs, j as int, i as int));
            }
            j += 1;
        }
        i += 1;
    }
    proof {
        let first = xs.take(n as int);
        assert forall|k: int, l: int|
            0 <= k < first.len() && 0 <= l < first.len() && k != l
        implies #[trigger] difference_invertible(first, k, l) by {
            assert(difference_invertible(xs, k, l));
        }
        assert forall|k: int| 0 <= k < first.len() implies is_elem(#[trigger] first[k])
            && invertible(first[k]) by {
            assert(is_elem(xs[k]) && invertible(xs[k]));
        }
    }
    true
}

/// The first `n` values are those of the polynomial at the nodes but for
/// the one at `k`, which is another residue.
pub open spec fn consistent_but(
    polynomial: Seq<nat>,
    nodes: Seq<nat>,
    values: Seq<nat>,
    n: int,
    k: int,
) -> bool {
    &&& 0 <= k < n <= nodes.len()
    &&& n <= values.len()
    &&& forall|i: int|
        0 <= i < n && i != k ==> #[trigger] values[i] == poly_eval(polynomial, nodes[i])
    &&& values[k] != poly_eval(polynomial, nodes[k])
}

/// Gathers what the type of a scalar promises of each value of the shares:
/// that it is a residue.
fn scalars_are_residues(shares: &[(Scalar, Scalar)])
    ensures
        forall|i: int| 0 <= i < shares.len() ==> is_elem(#[trigger] share_values(shares@)[i]),
{
    let ghost values = share_values(shares@);
    let mut i: usize = 0;
    while i < shares.len()
        invariant
            i <= shares.len(),
            values == share_values(shares@),
            forall|k: int| 0 <= k < i ==> is_elem(#[trigger] values[k]),
        decreases shares.len() - i,
    {
        let value = shares[i].1;
        proof {
            use_type_invariant(&value);
        }
        i += 1;
    }
}

/// Gathers what the type of a point promises of each value of the shares:
/// that its logarithm is a residue.
fn points_are_residues(shares: &[(Scalar, G1Point)])
    ensures
        forall|i: int| 0 <= i < shares.len() ==> is_elem(#[trigger] share_points(shares@)[i]),
{
    let ghost values = share_points(shares@);
    let mut i: usize = 0;
    while i < shares.len()
        invariant
            i <= shares.len(),
            values == share_points(shares@),
            forall|k: int| 0 <= k < i ==> is_elem(#[trigger] values[k]),
        decreases shares.len() - i,
    {
        let value = shares[i].1;
        proof {
            use_type_invariant(&value);
        }
        i += 1;
    }
}

/// What a reconstruction from shares gives: the secret, or the reason for
/// which there is none.
pub open spec fn reconstructed(nodes: Seq<nat>, values: Seq<nat>, threshold: int) -> Result<
    nat,
    Error,
> {
    let n = nodes.len() as int;
    if threshold <= 0 || n < threshold {
        Err(Error::InsufficientShares)
    } else if !nodes_admissible(nodes, nodes_read(n, threshold)) {
        Err(Error::Shares)
    } else {
        match rebuilt(
            values,
            lagrange_coefficients(nodes.take(threshold)),
            if n > threshold {
                Some(lagrange_coefficients(check_nodes(nodes, threshold)))
            } else {
                None
            },
        ) {
            Some(v) => Ok(v),
            None => Err(Error::Mismatch),
        }
    }
}

/// Reconstructs a shared scalar from `threshold` shares or more. Fewer
/// shares than the threshold are refused. With exactly `threshold` of them
/// there is no share left for a check, and the scalar is what they give.
/// With more, the share after the first `threshold` serves as a check:
/// shares that fail it give no scalar, and they fail it where all but one
/// of the shares that are read lie on one polynomial. Shares whose nodes
/// are zero or not distinct are refused.
pub fn shamir_reconstruct_scalar(threshold: usize, shares: &[(Scalar, Scalar)]) -> (r: Result<
    Scalar,
    Error,
>)
    ensures
        match r {
            Ok(s) => reconstructed(share_nodes(shares@), share_values(shares@), threshold as int)
                == Ok::<nat, Error>(s@),
            Err(e) => reconstructed(share_nodes(shares@), share_values(shares@), threshold as int)
                == Err::<nat, Error>(e),
        },
        forall|polynomial: Seq<nat>|
            1 <= threshold <= shares.len() && polynomial.len() <= threshold && nodes_admissible(
                share_nodes(shares@),
                nodes_read(shares.len() as int, threshold as int),
            ) && #[trigger] consistent(
                polynomial,
                share_nodes(shares@),
                share_values(shares@),
                nodes_read(shares.len() as int, threshold as int),
            ) ==> (r matches Ok(s) && s@ == poly_eval(polynomial, 0)),
        forall|polynomial: Seq<nat>, k: int|
            1 <= threshold < shares.len() && polynomial.len() <= threshold && nodes_admissible(
                share_nodes(shares@),
                threshold + 1,
            ) && #[trigger] consistent_but(
                polynomial,
                share_nodes(shares@),
                share_values(shares@),
                threshold + 1,
                k,
            ) ==> r == Err::<Scalar, Error>(Error::Mismatch),
{
    if threshold == 0 || shares.len() < threshold {
        return Err(Error::InsufficientShares);
    }
    let read = if shares.len() > threshold {
        threshold + 1
    } else {
        threshold
    };
    if !admissible(shares, read) {
        return Err(Error::Shares);
    }
    let (coefficients, checks) = shamir_coefficients(threshold, shares);
    scalars_are_residues(shares);
    proof {
        let nodes = share_nodes(shares@);
        let values = share_values(shares@);
        assert forall|polynomial: Seq<nat>, k: int|
            threshold < shares.len() && polynomial.len() <= threshold && #[trigger] consistent_but(
                polynomial,
                nodes,
                values,
                threshold + 1,
                k,
            ) implies reconstructed(nodes, values, threshold as int) == Err::<nat, Error>(
            Error::Mismatch,
        ) by {
            let original = values.update(k, poly_eval(polynomial, nodes[k]));
            assert(original.update(k, values[k]) =~= values);
            lemma_reconstructed_detects(
                polynomial,
                nodes,
                original,
                threshold as int,
                k,
                values[k],
            );
        }
        assert(scalar_values(coefficients@).len() == threshold);
        assert(check_values(checks) matches Some(c) ==> c.len() == threshold);
        lemma_admissible_usable(nodes, threshold as int);
        assert forall|polynomial: Seq<nat>|
            polynomial.len() <= threshold && #[trigger] consistent(
                polynomial,
                nodes,
                values,
                nodes_read(shares.len() as int, threshold as int),
            ) implies reconstructed(nodes, values, threshold as int) == Ok::<nat, Error>(
            poly_eval(polynomial, 0),
        ) by {
            lemma_reconstructed(polynomial, nodes, values, threshold as int);
        }
    }
    shamir_rebuild_scalar(shares, coefficients.as_slice(), &checks)
}

/// Reconstructs a shared point from `threshold` shares or more, as
/// `shamir_reconstruct_scalar` does a scalar.
pub fn shamir_reconstruct_point(threshold: usize, shares: &[(Scalar, G1Point)]) -> (r: Result<
    G1Point,
    Error,
>)
    ensures
        match r {
            Ok(p) => reconstructed(share_nodes(shares@), share_points(shares@), threshold as int)
                == Ok::<nat, Error>(p@),
            Err(e) => reconstructed(share_nodes(shares@), share_points(shares@), threshold as int)
                == Err::<nat, Error>(e),
        },
        forall|polynomial: Seq<nat>|
            1 <= threshold <= shares.len() && polynomial.len() <= threshold && nodes_admissible(
                share_nodes(shares@),
                nodes_read(shares.len() as int, threshold as int),
            ) && #[trigger] consistent(
                polynomial,
                share_nodes(shares@),
                share_points(shares@),
                nodes_read(shares.len() as int, threshold as int),
            ) ==> (r matches Ok(p) && p@ == poly_eval(polynomial, 0)),
        forall|polynomial: Seq<nat>, k: int|
            1 <= threshold < shares.len() && polynomial.len() <= threshold && nodes_admissible(
                share_nodes(shares@),
                threshold + 1,
            ) && #[trigger] consistent_but(
                polynomial,
                share_nodes(shares@),
                share_points(shares@),
                threshold + 1,
                k,
            ) ==> r == Err::<G1Point, Error>(Error::Mismatch),
{
    if threshold == 0 || shares.len() < threshold {
        return Err(Error::InsufficientShares);
    }
    let read = if shares.len() > threshold {
        threshold + 1
    } else {
        threshold
    };
    if !admissible(shares, read) {
        return Err(Error::Shares);
    }
    let (coefficients, checks) = shamir_coefficients(threshold, shares);
    points_are_residues(shares);
    proof {
        let nodes = share_nodes(shares@);
        let values = share_points(shares@);
        assert forall|polynomial: Seq<nat>, k: int|
            threshold < shares.len() && polynomial.len() <= threshold && #[trigger] consistent_but(
                polynomial,
                nodes,
                values,
                threshold + 1,
                k,
            ) implies reconstructed(nodes, values, threshold as int) == Err::<nat, Error>(
            Error::Mismatch,
        ) by {
            let original = values.update(k, poly_eval(polynomial, nodes[k]));
            assert(original.update(k, values[k]) =~= values);
            lemma_reconstructed_detects(
                polynomial,
                nodes,
                original,
                threshold as int,
                k,
                values[k],
            );
        }
        assert(scalar_values(coefficients@).len() == threshold);
        assert(check_values(checks) matches Some(c) ==> c.len() == threshold);
        lemma_admissible_usable(nodes, threshold as int);
        assert forall|polynomial: Seq<nat>|
            polynomial.len() <= threshold && #[trigger] consistent(
                polynomial,
                nodes,
                values,
                nodes_read(shares.len() as int, threshold as int),
            ) implies reconstructed(nodes, values, threshold as int) == Ok::<nat, Error>(
            poly_eval(polynomial, 0),
        ) by {
            lemma_reconstructed(polynomial, nodes, values, threshold as int);
        }
    }
    shamir_rebuild_point(shares, coefficients.as_slice(), &checks)
}

} // verus!
