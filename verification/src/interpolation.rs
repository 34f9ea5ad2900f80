//! Why reconstruction works: the sum of the values of a polynomial at
//! distinct nodes, weighted by the Lagrange coefficients of the nodes, is
//! the value of the polynomial at zero.
use crate::error::Error;
use crate::field::{
    fadd, finv, fmul, fneg, fsub, invertible, is_elem, lemma_add_differences, lemma_cancel,
    lemma_fadd_assoc, lemma_fadd_cancel, lemma_fadd_comm, lemma_fadd_elem, lemma_fadd_left_swap,
    lemma_fadd_zero, lemma_finv, lemma_fmul_assoc, lemma_fmul_comm, lemma_fmul_distrib,
    lemma_fmul_distrib_sub, lemma_fmul_elem, lemma_fmul_interchange, lemma_fmul_neg, lemma_fmul_one,
    lemma_fmul_swap, lemma_fmul_zero, lemma_fneg_add, lemma_fneg_elem, lemma_fneg_neg,
    lemma_fneg_zero, lemma_fsub_add, lemma_fsub_elem, lemma_fsub_self, lemma_fsub_swap,
    lemma_fsub_zero_iff, lemma_invertible_inv, lemma_invertible_mul, lemma_one_invertible,
    lemma_order_bounds, lemma_unit_mul_zero,
};
use crate::shamir::{
    check_nodes, check_sum, difference_invertible, differences_invertible, lagrange_at_zero,
    lagrange_coefficients, lagrange_factor, lagrange_product, lemma_check_sum,
    lemma_lagrange_product_agree, lemma_lagrange_product_elem, lemma_lagrange_product_first,
    nodes_admissible, nodes_read, poly_eval, rebuilt, reconstructed, weighted_sum,
};
use vstd::prelude::*;

verus! {

/// The values of a polynomial at the nodes.
pub open spec fn evaluations(polynomial: Seq<nat>, xs: Seq<nat>) -> Seq<nat> {
    Seq::new(xs.len(), |i: int| poly_eval(polynomial, xs[i]))
}

/// What the values of a polynomial at the nodes interpolate to at zero.
pub open spec fn interpolated(polynomial: Seq<nat>, xs: Seq<nat>) -> nat {
    weighted_sum(evaluations(polynomial, xs), lagrange_coefficients(xs), xs.len() as int)
}

/// The sum of the first `n` weights.
pub open spec fn weight_sum(weights: Seq<nat>, n: int) -> nat
    decreases n,
{
    if n <= 0 {
        0
    } else {
        fadd(weight_sum(weights, n - 1), weights[n - 1])
    }
}

/// The quotient of a polynomial by `X - z`.
pub open spec fn quotient(polynomial: Seq<nat>, z: nat) -> Seq<nat>
    decreases polynomial.len(),
{
    if polynomial.len() <= 1 {
        Seq::empty()
    } else {
        seq![poly_eval(polynomial.drop_first(), z)] + quotient(polynomial.drop_first(), z)
    }
}

/// The value of a polynomial is a canonical residue.
pub proof fn lemma_poly_eval_elem(polynomial: Seq<nat>, x: nat)
    ensures
        is_elem(poly_eval(polynomial, x)),
    decreases polynomial.len(),
{
    lemma_order_bounds();
    if polynomial.len() > 0 {
        lemma_fadd_elem(polynomial[0], fmul(x, poly_eval(polynomial.drop_first(), x)));
    }
}

/// The quotient has one coefficient less.
pub proof fn lemma_quotient_len(polynomial: Seq<nat>, z: nat)
    ensures
        quotient(polynomial, z).len() == if polynomial.len() == 0 {
            0
        } else {
            polynomial.len() - 1
        },
    decreases polynomial.len(),
{
    if polynomial.len() > 1 {
        lemma_quotient_len(polynomial.drop_first(), z);
    }
}

/// A sum of weights is a canonical residue.
pub proof fn lemma_weight_sum_elem(weights: Seq<nat>, n: int)
    ensures
        is_elem(weight_sum(weights, n)),
    decreases n,
{
    lemma_order_bounds();
    if n > 0 {
        lemma_fadd_elem(weight_sum(weights, n - 1), weights[n - 1]);
    }
}

/// A polynomial is its value at `z` plus `X - z` times its quotient.
pub proof fn lemma_division(polynomial: Seq<nat>, z: nat, x: nat)
    requires
        is_elem(x),
    ensures
        poly_eval(polynomial, x) == fadd(
            poly_eval(polynomial, z),
            fmul(fsub(x, z), poly_eval(quotient(polynomial, z), x)),
        ),
    decreases polynomial.len(),
{
    lemma_order_bounds();
    let q = quotient(polynomial, z);
    let d = fsub(x, z);
    if polynomial.len() == 0 {
        lemma_fmul_zero(d);
        lemma_fadd_zero(0);
        assert(poly_eval(q, x) == 0);
    } else if polynomial.len() == 1 {
        assert(polynomial.drop_first().len() == 0);
        assert(poly_eval(polynomial.drop_first(), x) == 0);
        assert(poly_eval(polynomial.drop_first(), z) == 0);
        assert(poly_eval(q, x) == 0);
        lemma_fmul_zero(d);
        lemma_fmul_zero(x);
        lemma_fmul_zero(z);
        lemma_fadd_elem(polynomial[0], 0);
        lemma_fadd_zero(fadd(polynomial[0], 0));
        assert(poly_eval(polynomial, x) == fadd(polynomial[0], 0));
        assert(poly_eval(polynomial, z) == fadd(polynomial[0], 0));
    } else {
        let c0 = polynomial[0];
        let rest = polynomial.drop_first();
        let q1 = quotient(rest, z);
        let ez = poly_eval(rest, z);
        let qx = poly_eval(q1, x);
        let m = fmul(d, fmul(x, qx));
        lemma_division(rest, z, x);
        assert(q.drop_first() =~= q1);
        assert(q[0] == ez);
        let left = fadd(c0, fmul(x, fadd(ez, fmul(d, qx))));
        assert(poly_eval(polynomial, x) == left);
        assert(poly_eval(q, x) == fadd(ez, fmul(x, qx)));
        let right = fadd(fadd(c0, fmul(z, ez)), fmul(d, fadd(ez, fmul(x, qx))));
        assert(fadd(poly_eval(polynomial, z), fmul(d, poly_eval(q, x))) == right);
        // x * (ez + d * qx) == x * ez + m
        assert(fmul(x, fadd(ez, fmul(d, qx))) == fadd(fmul(x, ez), m)) by {
            lemma_fmul_distrib(x, ez, fmul(d, qx));
            lemma_fmul_assoc(x, d, qx);
            lemma_fmul_comm(x, d);
            lemma_fmul_assoc(d, x, qx);
        }
        // d * (ez + x * qx) == d * ez + m
        assert(fmul(d, fadd(ez, fmul(x, qx))) == fadd(fmul(d, ez), m)) by {
            lemma_fmul_distrib(d, ez, fmul(x, qx));
        }
        // z * ez + d * ez == x * ez
        assert(fadd(fmul(z, ez), fmul(d, ez)) == fmul(x, ez)) by {
            lemma_fmul_distrib(ez, z, d);
            lemma_fadd_comm(z, d);
            lemma_fsub_add(x, z);
        }
        assert(right == fadd(c0, fadd(fmul(x, ez), m))) by {
            lemma_fadd_assoc(c0, fmul(z, ez), fadd(fmul(d, ez), m));
            lemma_fadd_assoc(fmul(z, ez), fmul(d, ez), m);
        }
    }
}

/// The nodes are residues, and the differences of any two of them are
/// units.
pub open spec fn nodes_ok(xs: Seq<nat>) -> bool {
    &&& forall|i: int| 0 <= i < xs.len() ==> is_elem(#[trigger] xs[i])
    &&& differences_invertible(xs)
}

/// The nodes without the last are in order where the nodes are.
pub proof fn lemma_nodes_ok_shorter(xs: Seq<nat>)
    requires
        nodes_ok(xs),
        xs.len() >= 1,
    ensures
        nodes_ok(xs.drop_last()),
{
    let shorter = xs.drop_last();
    assert forall|i: int, j: int|
        0 <= i < shorter.len() && 0 <= j < shorter.len() && i != j
    implies #[trigger] difference_invertible(shorter, i, j) by {
        assert(difference_invertible(xs, i, j));
    }
}

/// The coefficient of a node among all the nodes is its coefficient among
/// the nodes without the last, times the factor of the last.
pub proof fn lemma_coefficient_grows(xs: Seq<nat>, i: int)
    requires
        0 <= i < xs.len() - 1,
    ensures
        lagrange_at_zero(xs, i) == fmul(
            lagrange_at_zero(xs.drop_last(), i),
            lagrange_factor(xs, i, xs.len() - 1),
        ),
{
    lemma_lagrange_product_agree(xs, xs.drop_last(), i, 0, xs.len() - 1);
}

/// `(x - z) / (z - x) == -1`.
pub proof fn lemma_opposite_quotient(x: nat, z: nat)
    requires
        is_elem(x),
        is_elem(z),
        invertible(fsub(z, x)),
    ensures
        fmul(fsub(x, z), finv(fsub(z, x))) == fneg(1),
{
    let e = fsub(z, x);
    lemma_fsub_swap(z, x);
    lemma_fmul_neg(e, finv(e));
    lemma_finv(e);
}

/// One term of the interpolation, in terms of the quotient by the last
/// node `z`: `f(x) * L == f(z) * L - z * (q(x) * L')`, where `L` is `L'`
/// times `z / (z - x)`.
pub proof fn lemma_term(fx: nat, fz: nat, qx: nat, x: nat, z: nat, shorter: nat)
    requires
        is_elem(x),
        is_elem(z),
        is_elem(shorter),
        invertible(fsub(z, x)),
        fx == fadd(fz, fmul(fsub(x, z), qx)),
    ensures
        fmul(fx, fmul(shorter, fmul(z, finv(fsub(z, x))))) == fsub(
            fmul(fz, fmul(shorter, fmul(z, finv(fsub(z, x))))),
            fmul(z, fmul(qx, shorter)),
        ),
{
    lemma_order_bounds();
    let d = fsub(x, z);
    let e = finv(fsub(z, x));
    let l = fmul(shorter, fmul(z, e));
    let m = fmul(z, fmul(qx, shorter));
    lemma_fmul_distrib(l, fz, fmul(d, qx));
    // (d * qx) * l == (d * e) * (qx * (shorter * z)) == -(z * (qx * shorter))
    assert(fmul(fmul(d, qx), l) == fneg(m)) by {
        lemma_fmul_assoc(shorter, z, e);
        lemma_fmul_comm(fmul(shorter, z), e);
        lemma_fmul_interchange(d, qx, e, fmul(shorter, z));
        lemma_opposite_quotient(x, z);
        lemma_fmul_assoc(qx, shorter, z);
        lemma_fmul_comm(fmul(qx, shorter), z);
        lemma_fmul_neg(1, m);
        lemma_fmul_elem(z, fmul(qx, shorter));
        lemma_fmul_one(m);
    }
}

/// The first `n` terms of the interpolation, in terms of the quotient by
/// the last node.
pub proof fn lemma_partial_sums(polynomial: Seq<nat>, xs: Seq<nat>, n: int)
    requires
        nodes_ok(xs),
        0 <= n <= xs.len() - 1,
    ensures
        weighted_sum(evaluations(polynomial, xs), lagrange_coefficients(xs), n) == fsub(
            fmul(poly_eval(polynomial, xs.last()), weight_sum(lagrange_coefficients(xs), n)),
            fmul(
                xs.last(),
                weighted_sum(
                    evaluations(quotient(polynomial, xs.last()), xs.drop_last()),
                    lagrange_coefficients(xs.drop_last()),
                    n,
                ),
            ),
        ),
    decreases n,
{
    lemma_order_bounds();
    let z = xs.last();
    let fz = poly_eval(polynomial, z);
    let q = quotient(polynomial, z);
    let shorter = xs.drop_last();
    let values = evaluations(polynomial, xs);
    let weights = lagrange_coefficients(xs);
    let values1 = evaluations(q, shorter);
    let weights1 = lagrange_coefficients(shorter);
    if n == 0 {
        lemma_fmul_zero(fz);
        lemma_fmul_zero(z);
        lemma_fsub_self(0);
    } else {
        let i = n - 1;
        lemma_partial_sums(polynomial, xs, i);
        let x = xs[i];
        assert(shorter[i] == x);
        lemma_division(polynomial, z, x);
        lemma_coefficient_grows(xs, i);
        lemma_lagrange_product_elem(shorter, i, 0, shorter.len() as int);
        assert(difference_invertible(xs, i, xs.len() - 1));
        lemma_term(values[i], fz, values1[i], x, z, weights1[i]);
        let big = fmul(fz, weight_sum(weights, i));
        let small = fmul(z, weighted_sum(values1, weights1, i));
        lemma_add_differences(
            big,
            small,
            fmul(fz, weights[i]),
            fmul(z, fmul(values1[i], weights1[i])),
        );
        lemma_fmul_distrib(fz, weight_sum(weights, i), weights[i]);
        lemma_fmul_distrib(z, weighted_sum(values1, weights1, i), fmul(values1[i], weights1[i]));
    }
}

/// The interpolation of a polynomial at the nodes, in terms of that of its
/// quotient by the last node at the nodes without it.
pub proof fn lemma_interpolation_step(polynomial: Seq<nat>, xs: Seq<nat>)
    requires
        nodes_ok(xs),
        xs.len() >= 1,
    ensures
        interpolated(polynomial, xs) == fsub(
            fmul(
                poly_eval(polynomial, xs.last()),
                weight_sum(lagrange_coefficients(xs), xs.len() as int),
            ),
            fmul(xs.last(), interpolated(quotient(polynomial, xs.last()), xs.drop_last())),
        ),
{
    lemma_order_bounds();
    let t = xs.len() as int;
    let z = xs.last();
    let fz = poly_eval(polynomial, z);
    let weights = lagrange_coefficients(xs);
    let q = quotient(polynomial, z);
    let shorter = xs.drop_last();
    lemma_partial_sums(polynomial, xs, t - 1);
    let big = fmul(fz, weight_sum(weights, t - 1));
    let small = fmul(z, interpolated(q, shorter));
    let last = fmul(fz, weights[t - 1]);
    lemma_add_differences(big, small, last, 0);
    lemma_fmul_elem(fz, weights[t - 1]);
    lemma_fmul_elem(z, interpolated(q, shorter));
    lemma_fneg_zero();
    lemma_fadd_zero(last);
    lemma_fadd_zero(small);
    lemma_fmul_distrib(fz, weight_sum(weights, t - 1), weights[t - 1]);
}

/// A polynomial with its constant term lowered by `k`.
pub open spec fn lowered(polynomial: Seq<nat>, k: nat) -> Seq<nat> {
    if polynomial.len() == 0 {
        seq![fneg(k)]
    } else {
        polynomial.update(0, fsub(polynomial[0], k))
    }
}

/// The product of a polynomial with `a - X`.
pub open spec fn times_linear(polynomial: Seq<nat>, a: nat) -> Seq<nat>
    decreases polynomial.len(),
{
    if polynomial.len() == 0 {
        Seq::empty()
    } else {
        seq![fmul(a, polynomial[0])] + lowered(
            times_linear(polynomial.drop_first(), a),
            polynomial[0],
        )
    }
}

/// The polynomial that vanishes at the first `n` nodes: the product of the
/// `x_j - X`.
pub open spec fn vanishing_polynomial(xs: Seq<nat>, n: int) -> Seq<nat>
    decreases n,
{
    if n <= 0 {
        seq![1]
    } else {
        times_linear(vanishing_polynomial(xs, n - 1), xs[n - 1])
    }
}

/// The product of the differences of the first `n` nodes from `x`.
pub open spec fn vanishing(xs: Seq<nat>, n: int, x: nat) -> nat
    decreases n,
{
    if n <= 0 {
        1
    } else {
        fmul(vanishing(xs, n - 1, x), fsub(xs[n - 1], x))
    }
}

/// Lowering the constant term by `k` lowers every value by `k`.
pub proof fn lemma_lowered_eval(polynomial: Seq<nat>, k: nat, x: nat)
    ensures
        poly_eval(lowered(polynomial, k), x) == fsub(poly_eval(polynomial, x), k),
        lowered(polynomial, k).len() == if polynomial.len() == 0 {
            1
        } else {
            polynomial.len()
        },
{
    lemma_order_bounds();
    let l = lowered(polynomial, k);
    if polynomial.len() == 0 {
        assert(l.drop_first() =~= Seq::<nat>::empty());
        assert(poly_eval(l.drop_first(), x) == 0);
        lemma_fmul_zero(x);
        lemma_fneg_elem(k);
        lemma_fadd_zero(fneg(k));
    } else {
        assert(l.drop_first() =~= polynomial.drop_first());
        let rest = fmul(x, poly_eval(polynomial.drop_first(), x));
        // (p0 - k) + rest == (p0 + rest) - k
        lemma_fadd_assoc(polynomial[0], fneg(k), rest);
        lemma_fadd_comm(fneg(k), rest);
        lemma_fadd_assoc(polynomial[0], rest, fneg(k));
    }
}

/// The value of the product with `a - X` is `a - x` times the value.
pub proof fn lemma_times_linear(polynomial: Seq<nat>, a: nat, x: nat)
    requires
        is_elem(a),
    ensures
        poly_eval(times_linear(polynomial, a), x) == fmul(fsub(a, x), poly_eval(polynomial, x)),
        times_linear(polynomial, a).len() == if polynomial.len() == 0 {
            0
        } else {
            polynomial.len() + 1
        },
    decreases polynomial.len(),
{
    lemma_order_bounds();
    let d = fsub(a, x);
    if polynomial.len() == 0 {
        lemma_fmul_zero(d);
    } else {
        let p0 = polynomial[0];
        let rest = polynomial.drop_first();
        let t1 = times_linear(rest, a);
        let e1 = poly_eval(rest, x);
        lemma_times_linear(rest, a, x);
        lemma_lowered_eval(t1, p0, x);
        let product = times_linear(polynomial, a);
        assert(product.drop_first() =~= lowered(t1, p0));
        assert(product[0] == fmul(a, p0));
        // The left side: a * p0 + x * (d * e1 - p0).
        let left = fadd(fmul(a, p0), fmul(x, fsub(fmul(d, e1), p0)));
        assert(poly_eval(product, x) == left);
        // The right side: d * (p0 + x * e1) == d * p0 + d * (x * e1).
        lemma_fmul_distrib(d, p0, fmul(x, e1));
        let m = fmul(d, fmul(x, e1));
        // x * (d * e1 - p0) == m - x * p0
        assert(fmul(x, fsub(fmul(d, e1), p0)) == fsub(m, fmul(x, p0))) by {
            lemma_fmul_distrib_sub(x, fmul(d, e1), p0);
            lemma_fmul_assoc(x, d, e1);
            lemma_fmul_comm(x, d);
            lemma_fmul_assoc(d, x, e1);
        }
        // a * p0 - x * p0 == d * p0
        assert(fsub(fmul(a, p0), fmul(x, p0)) == fmul(d, p0)) by {
            lemma_fmul_distrib_sub(p0, a, x);
        }
        // a * p0 + (m - x * p0) == (a * p0 - x * p0) + m
        lemma_fadd_left_swap(fmul(a, p0), m, fneg(fmul(x, p0)));
        lemma_fadd_comm(m, fsub(fmul(a, p0), fmul(x, p0)));
    }
}

/// The value of the vanishing polynomial is the product of the differences.
pub proof fn lemma_vanishing_polynomial(xs: Seq<nat>, n: int, x: nat)
    requires
        0 <= n <= xs.len(),
        forall|i: int| 0 <= i < xs.len() ==> is_elem(#[trigger] xs[i]),
    ensures
        poly_eval(vanishing_polynomial(xs, n), x) == vanishing(xs, n, x),
        vanishing_polynomial(xs, n).len() == n + 1,
    decreases n,
{
    lemma_order_bounds();
    if n == 0 {
        let one = seq![1nat];
        assert(one.drop_first() =~= Seq::<nat>::empty());
        assert(poly_eval(one.drop_first(), x) == 0);
        lemma_fmul_zero(x);
        lemma_fadd_zero(1);
    } else {
        lemma_vanishing_polynomial(xs, n - 1, x);
        lemma_times_linear(vanishing_polynomial(xs, n - 1), xs[n - 1], x);
        lemma_fmul_comm(fsub(xs[n - 1], x), vanishing(xs, n - 1, x));
    }
}

/// The product of the differences from a node vanishes when the node is
/// among those the differences are taken of.
pub proof fn lemma_vanishing_at_node(xs: Seq<nat>, n: int, i: int)
    requires
        0 <= i < n <= xs.len(),
    ensures
        vanishing(xs, n, xs[i]) == 0,
    decreases n,
{
    if n - 1 == i {
        lemma_fsub_self(xs[i]);
        lemma_fmul_zero(vanishing(xs, n - 1, xs[i]));
    } else {
        lemma_vanishing_at_node(xs, n - 1, i);
        lemma_fmul_zero(fsub(xs[n - 1], xs[i]));
    }
}

/// The product of the differences of the other nodes from the last is a
/// unit, and times the coefficient of the last node it is the product of
/// the other nodes.
pub proof fn lemma_vanishing_at_last(xs: Seq<nat>, n: int)
    requires
        nodes_ok(xs),
        xs.len() >= 1,
        0 <= n <= xs.len() - 1,
    ensures
        invertible(vanishing(xs, n, xs.last())),
        fmul(vanishing(xs, n, xs.last()), lagrange_product(xs, xs.len() - 1, 0, n)) == vanishing(
            xs,
            n,
            0,
        ),
    decreases n,
{
    lemma_order_bounds();
    let z = xs.last();
    let last = xs.len() - 1;
    if n == 0 {
        lemma_one_invertible();
        lemma_fmul_one(1);
    } else {
        lemma_vanishing_at_last(xs, n - 1);
        let x = xs[n - 1];
        let d = fsub(x, z);
        assert(difference_invertible(xs, last, n - 1));
        lemma_invertible_mul(vanishing(xs, n - 1, z), d);
        // (A * d) * (B * (x * e)) == (A * B) * (d * (x * e)) == (A * B) * x
        lemma_fmul_interchange(
            vanishing(xs, n - 1, z),
            d,
            lagrange_product(xs, last, 0, n - 1),
            lagrange_factor(xs, last, n - 1),
        );
        lemma_finv(d);
        lemma_fmul_comm(x, finv(d));
        lemma_fmul_assoc(d, finv(d), x);
        lemma_fmul_one(x);
        // x - 0 == x
        lemma_fneg_zero();
        lemma_fadd_zero(x);
    }
}

/// A weighted sum in which all values but the last are zero is its last
/// term.
pub proof fn lemma_weighted_sum_last(values: Seq<nat>, weights: Seq<nat>, n: int)
    requires
        1 <= n,
        forall|i: int| 0 <= i < n - 1 ==> values[i] == 0,
    ensures
        weighted_sum(values, weights, n - 1) == 0,
        weighted_sum(values, weights, n) == fmul(values[n - 1], weights[n - 1]),
    decreases n,
{
    lemma_order_bounds();
    if n > 1 {
        lemma_weighted_sum_last(values, weights, n - 1);
        lemma_fmul_zero(weights[n - 2]);
    }
    lemma_fmul_elem(values[n - 1], weights[n - 1]);
    lemma_fadd_zero(fmul(values[n - 1], weights[n - 1]));
}

/// The value at zero, in terms of the value at `z` and the quotient.
pub proof fn lemma_division_at_zero(polynomial: Seq<nat>, z: nat)
    ensures
        poly_eval(polynomial, 0) == fsub(
            poly_eval(polynomial, z),
            fmul(z, poly_eval(quotient(polynomial, z), 0)),
        ),
{
    lemma_order_bounds();
    lemma_division(polynomial, z, 0);
    let q0 = poly_eval(quotient(polynomial, z), 0);
    // (0 - z) * q0 == -(z * q0)
    lemma_fneg_elem(z);
    lemma_fadd_zero(fneg(z));
    lemma_fmul_neg(z, q0);
}

/// Interpolation at zero: the values of a polynomial at the nodes, weighted
/// by the Lagrange coefficients of the nodes, add up to its value at zero,
/// where the polynomial has no more coefficients than there are nodes. The
/// coefficients themselves add up to one.
pub proof fn lemma_interpolation(polynomial: Seq<nat>, xs: Seq<nat>)
    requires
        nodes_ok(xs),
        1 <= xs.len(),
        polynomial.len() <= xs.len(),
    ensures
        interpolated(polynomial, xs) == poly_eval(polynomial, 0),
        weight_sum(lagrange_coefficients(xs), xs.len() as int) == 1,
    decreases xs.len(),
{
    lemma_order_bounds();
    let t = xs.len() as int;
    let z = xs.last();
    let weights = lagrange_coefficients(xs);
    let total = weight_sum(weights, t);
    if t == 1 {
        assert(lagrange_product(xs, 0, 0, 0) == 1);
        assert(weights[0] == 1);
        assert(weight_sum(weights, 0) == 0);
        lemma_fadd_zero(1);
        let values = evaluations(polynomial, xs);
        assert(weighted_sum(values, weights, 0) == 0);
        lemma_poly_eval_elem(polynomial, z);
        lemma_fmul_one(values[0]);
        lemma_fadd_zero(values[0]);
        if polynomial.len() == 1 {
            assert(polynomial.drop_first().len() == 0);
            assert(poly_eval(polynomial.drop_first(), z) == 0);
            assert(poly_eval(polynomial.drop_first(), 0) == 0);
            lemma_fmul_zero(z);
            lemma_fmul_zero(0);
        }
    } else {
        let shorter = xs.drop_last();
        lemma_nodes_ok_shorter(xs);
        // The coefficients add up to one: the polynomial that vanishes at the
        // other nodes is interpolated by its last term alone.
        assert(total == 1) by {
            let h = vanishing_polynomial(xs, t - 1);
            let hz = poly_eval(h, z);
            let q = quotient(h, z);
            let rest = fmul(z, poly_eval(q, 0));
            lemma_vanishing_polynomial(xs, t - 1, z);
            lemma_vanishing_polynomial(xs, t - 1, 0);
            lemma_quotient_len(h, z);
            lemma_interpolation(q, shorter);
            lemma_interpolation_step(h, xs);
            lemma_division_at_zero(h, z);
            let values = evaluations(h, xs);
            assert forall|i: int| 0 <= i < t - 1 implies values[i] == 0 by {
                lemma_vanishing_polynomial(xs, t - 1, xs[i]);
                lemma_vanishing_at_node(xs, t - 1, i);
            }
            lemma_weighted_sum_last(values, weights, t);
            lemma_vanishing_at_last(xs, t - 1);
            assert(weights[t - 1] == lagrange_product(xs, t - 1, 0, t - 1));
            assert(interpolated(h, xs) == poly_eval(h, 0));
            // hz * total - rest == hz - rest, so hz * total == hz.
            lemma_fmul_elem(hz, total);
            lemma_poly_eval_elem(h, z);
            lemma_fsub_add(fmul(hz, total), rest);
            lemma_fsub_add(hz, rest);
            lemma_fmul_one(hz);
            lemma_weight_sum_elem(weights, t);
            lemma_cancel(hz, total, 1);
        }
        let q = quotient(polynomial, z);
        lemma_quotient_len(polynomial, z);
        lemma_interpolation(q, shorter);
        lemma_interpolation_step(polynomial, xs);
        lemma_division_at_zero(polynomial, z);
        lemma_poly_eval_elem(polynomial, z);
        lemma_fmul_one(poly_eval(polynomial, z));
    }
}

/// The first `n` values are those of the polynomial at the nodes.
pub open spec fn consistent(
    polynomial: Seq<nat>,
    nodes: Seq<nat>,
    values: Seq<nat>,
    n: int,
) -> bool {
    &&& n <= nodes.len()
    &&& n <= values.len()
    &&& forall|i: int| 0 <= i < n ==> #[trigger] values[i] == poly_eval(polynomial, nodes[i])
}

/// A weighted sum reads only the first `n` values and weights.
pub proof fn lemma_weighted_sum_agree(
    values: Seq<nat>,
    weights: Seq<nat>,
    values1: Seq<nat>,
    weights1: Seq<nat>,
    n: int,
)
    requires
        forall|i: int| 0 <= i < n ==> values[i] == values1[i] && weights[i] == weights1[i],
    ensures
        weighted_sum(values, weights, n) == weighted_sum(values1, weights1, n),
    decreases n,
{
    if n > 0 {
        lemma_weighted_sum_agree(values, weights, values1, weights1, n - 1);
    }
}

/// The nodes that a reconstruction reads are in order: the first
/// `threshold` among themselves and, where there is a node after them for
/// the check, those against which the reconstruction is checked.
pub open spec fn nodes_usable(nodes: Seq<nat>, threshold: int) -> bool {
    &&& nodes_ok(nodes.take(threshold))
    &&& nodes.len() > threshold ==> nodes_ok(check_nodes(nodes, threshold))
}

/// Nodes that are other than zero and distinct, and whose differences have
/// been found to be units, can be used.
pub proof fn lemma_admissible_usable(nodes: Seq<nat>, threshold: int)
    requires
        1 <= threshold <= nodes.len(),
        nodes_admissible(nodes, nodes_read(nodes.len() as int, threshold)),
        differences_invertible(nodes.take(threshold)),
        nodes.len() > threshold ==> differences_invertible(check_nodes(nodes, threshold)),
    ensures
        nodes_usable(nodes, threshold),
{
    let first = nodes.take(threshold);
    assert forall|i: int| 0 <= i < first.len() implies is_elem(#[trigger] first[i]) by {
        assert(is_elem(nodes[i]));
    }
    if nodes.len() > threshold {
        let checked = check_nodes(nodes, threshold);
        assert forall|i: int| 0 <= i < checked.len() implies is_elem(#[trigger] checked[i]) by {
            assert(is_elem(nodes[i]) && is_elem(nodes[threshold]));
        }
    }
}

/// The nodes against which a reconstruction is checked are in order where
/// the nodes before them and the one after are.
pub proof fn lemma_check_nodes_ok(nodes: Seq<nat>, threshold: int)
    requires
        1 <= threshold < nodes.len(),
        nodes_ok(nodes.take(threshold + 1)),
    ensures
        nodes_ok(check_nodes(nodes, threshold)),
        nodes_ok(nodes.take(threshold)),
        nodes_usable(nodes, threshold),
{
    let all = nodes.take(threshold + 1);
    let first = nodes.take(threshold);
    let checked = check_nodes(nodes, threshold);
    assert forall|i: int| 0 <= i < checked.len() implies is_elem(#[trigger] checked[i]) by {
        assert(is_elem(all[i]) && is_elem(all[threshold]));
    }
    assert forall|i: int| 0 <= i < first.len() implies is_elem(#[trigger] first[i]) by {
        assert(is_elem(all[i]));
    }
    assert forall|i: int, j: int|
        0 <= i < first.len() && 0 <= j < first.len() && i != j
    implies #[trigger] difference_invertible(first, i, j) by {
        assert(difference_invertible(all, i, j));
    }
    assert forall|i: int, j: int|
        0 <= i < checked.len() && 0 <= j < checked.len() && i != j
    implies #[trigger] difference_invertible(checked, i, j) by {
        let a = if i == 0 {
            threshold
        } else {
            i
        };
        let b = if j == 0 {
            threshold
        } else {
            j
        };
        assert(difference_invertible(all, a, b));
    }
}

/// Reconstruction from shares of one polynomial gives its value at zero,
/// the secret: from the first `threshold` shares and, where one more share
/// serves as a check, from those as well, so that the check agrees.
pub proof fn lemma_reconstruction(
    polynomial: Seq<nat>,
    nodes: Seq<nat>,
    values: Seq<nat>,
    threshold: int,
)
    requires
        1 <= threshold < nodes.len(),
        polynomial.len() <= threshold,
        nodes_usable(nodes, threshold),
        consistent(polynomial, nodes, values, threshold + 1),
    ensures
        rebuilt(
            values,
            lagrange_coefficients(nodes.take(threshold)),
            Some(lagrange_coefficients(check_nodes(nodes, threshold))),
        ) == Some(poly_eval(polynomial, 0)),
{
    let first = nodes.take(threshold);
    let checked = check_nodes(nodes, threshold);
    lemma_interpolation(polynomial, first);
    lemma_interpolation(polynomial, checked);
    lemma_weighted_sum_agree(
        values,
        lagrange_coefficients(first),
        evaluations(polynomial, first),
        lagrange_coefficients(first),
        threshold,
    );
    lemma_check_sum(values, lagrange_coefficients(checked), threshold, threshold);
    lemma_weighted_sum_agree(
        values.take(threshold).update(0, values[threshold]),
        lagrange_coefficients(checked),
        evaluations(polynomial, checked),
        lagrange_coefficients(checked),
        threshold,
    );
}

/// Reconstruction without a check, from `threshold` shares of one
/// polynomial, gives its value at zero.
pub proof fn lemma_reconstruction_unchecked(
    polynomial: Seq<nat>,
    nodes: Seq<nat>,
    values: Seq<nat>,
    threshold: int,
)
    requires
        1 <= threshold <= nodes.len(),
        polynomial.len() <= threshold,
        nodes_ok(nodes.take(threshold)),
        consistent(polynomial, nodes, values, threshold),
    ensures
        rebuilt(values, lagrange_coefficients(nodes.take(threshold)), None) == Some(
            poly_eval(polynomial, 0),
        ),
{
    let first = nodes.take(threshold);
    lemma_interpolation(polynomial, first);
    lemma_weighted_sum_agree(
        values,
        lagrange_coefficients(first),
        evaluations(polynomial, first),
        lagrange_coefficients(first),
        threshold,
    );
}

/// Every node is a unit.
pub open spec fn nodes_invertible(xs: Seq<nat>) -> bool {
    forall|i: int| 0 <= i < xs.len() ==> invertible(#[trigger] xs[i])
}

/// A Lagrange coefficient is a unit where the nodes are.
pub proof fn lemma_lagrange_product_invertible(xs: Seq<nat>, i: int, lo: int, n: int)
    requires
        nodes_ok(xs),
        nodes_invertible(xs),
        0 <= lo,
        n <= xs.len(),
        0 <= i < xs.len(),
    ensures
        invertible(lagrange_product(xs, i, lo, n)),
    decreases n - lo,
{
    if n <= lo {
        lemma_one_invertible();
    } else {
        lemma_lagrange_product_invertible(xs, i, lo, n - 1);
        if n - 1 != i {
            let d = fsub(xs[n - 1], xs[i]);
            assert(difference_invertible(xs, i, n - 1));
            lemma_finv(d);
            lemma_invertible_inv(d);
            lemma_invertible_mul(xs[n - 1], finv(d));
            lemma_invertible_mul(lagrange_product(xs, i, lo, n - 1), lagrange_factor(xs, i, n - 1));
        }
    }
}

/// Changing one value changes a weighted sum by the change times the
/// weight of that value.
pub proof fn lemma_weighted_sum_update(
    values: Seq<nat>,
    weights: Seq<nat>,
    n: int,
    k: int,
    changed: nat,
)
    requires
        0 <= k < values.len(),
        n <= values.len(),
        is_elem(changed),
    ensures
        weighted_sum(values.update(k, changed), weights, n) == if k < n {
            fadd(weighted_sum(values, weights, n), fmul(fsub(changed, values[k]), weights[k]))
        } else {
            weighted_sum(values, weights, n)
        },
    decreases n,
{
    lemma_order_bounds();
    let other = values.update(k, changed);
    if n > 0 {
        lemma_weighted_sum_update(values, weights, n - 1, k, changed);
        let before = weighted_sum(values, weights, n - 1);
        let d = fmul(fsub(changed, values[k]), weights[k]);
        if n - 1 == k {
            // changed * w == values[k] * w + (changed - values[k]) * w
            lemma_fmul_distrib(weights[k], values[k], fsub(changed, values[k]));
            lemma_fadd_comm(values[k], fsub(changed, values[k]));
            lemma_fsub_add(changed, values[k]);
            lemma_fadd_assoc(before, fmul(values[k], weights[k]), d);
        } else if k < n - 1 {
            let term = fmul(values[n - 1], weights[n - 1]);
            lemma_fadd_assoc(before, d, term);
            lemma_fadd_comm(d, term);
            lemma_fadd_assoc(before, term, d);
        }
    }
}

/// The factor that the first node contributes to another node's
/// coefficient changes when the first node is replaced by a different one:
/// only zero has the same multiple of the two factors.
pub proof fn lemma_factor_differs(d: nat, a: nat, b: nat, c: nat)
    requires
        is_elem(d),
        is_elem(a),
        is_elem(b),
        is_elem(c),
        invertible(c),
        invertible(fsub(a, c)),
        invertible(fsub(b, c)),
        invertible(fsub(b, a)),
        fmul(d, fmul(a, finv(fsub(a, c)))) == fmul(d, fmul(b, finv(fsub(b, c)))),
    ensures
        d == 0,
{
    let p = fsub(a, c);
    let q = fsub(b, c);
    let da = fmul(d, a);
    let db = fmul(d, b);
    lemma_order_bounds();
    lemma_finv(p);
    lemma_finv(q);
    lemma_fmul_elem(d, a);
    lemma_fmul_elem(d, b);
    lemma_fmul_assoc(d, a, finv(p));
    lemma_fmul_assoc(d, b, finv(q));
    // Multiply both sides by p * q: (d * a) * q == (d * b) * p.
    assert(fmul(fmul(da, finv(p)), fmul(p, q)) == fmul(da, q)) by {
        lemma_fmul_interchange(da, finv(p), q, p);
        lemma_fmul_comm(p, q);
        lemma_fmul_elem(da, q);
        lemma_fmul_one(fmul(da, q));
    }
    assert(fmul(fmul(db, finv(q)), fmul(p, q)) == fmul(db, p)) by {
        lemma_fmul_interchange(db, finv(q), p, q);
        lemma_fmul_elem(db, p);
        lemma_fmul_one(fmul(db, p));
    }
    // dab - dac == dba - dbc, so dac == dbc, so da == db.
    lemma_fmul_distrib_sub(da, b, c);
    lemma_fmul_distrib_sub(db, a, c);
    lemma_fmul_swap(d, a, b);
    lemma_fmul_elem(da, c);
    lemma_fmul_elem(db, c);
    lemma_fneg_elem(fmul(da, c));
    lemma_fneg_elem(fmul(db, c));
    lemma_fadd_cancel(fmul(da, b), fneg(fmul(da, c)), fneg(fmul(db, c)));
    lemma_fneg_neg(fmul(da, c));
    lemma_fneg_neg(fmul(db, c));
    lemma_fmul_comm(da, c);
    lemma_fmul_comm(db, c);
    lemma_cancel(c, da, db);
    // d * (b - a) == d * b - d * a == 0, and b - a is a unit.
    lemma_fmul_distrib_sub(d, b, a);
    lemma_fsub_self(db);
    lemma_fmul_comm(d, fsub(b, a));
    lemma_unit_mul_zero(fsub(b, a), d);
}

/// A reconstruction with a check fails when one of the shares that go into
/// it is not the value of the polynomial: no wrong value is returned.
pub proof fn lemma_corruption_detected(
    polynomial: Seq<nat>,
    nodes: Seq<nat>,
    values: Seq<nat>,
    threshold: int,
    k: int,
    wrong: nat,
)
    requires
        1 <= threshold < nodes.len(),
        polynomial.len() <= threshold,
        nodes_ok(nodes.take(threshold + 1)),
        nodes_invertible(nodes.take(threshold + 1)),
        consistent(polynomial, nodes, values, threshold + 1),
        0 <= k <= threshold,
        is_elem(wrong),
        wrong != values[k],
    ensures
        rebuilt(
            values.update(k, wrong),
            lagrange_coefficients(nodes.take(threshold)),
            Some(lagrange_coefficients(check_nodes(nodes, threshold))),
        ) is None,
{
    lemma_order_bounds();
    let t = threshold;
    let all = nodes.take(t + 1);
    let first = nodes.take(t);
    let checked = check_nodes(nodes, t);
    let weights = lagrange_coefficients(first);
    let marks = lagrange_coefficients(checked);
    let other = values.update(k, wrong);
    let delta = fsub(wrong, values[k]);
    let secret = poly_eval(polynomial, 0);
    lemma_check_nodes_ok(nodes, t);
    lemma_reconstruction(polynomial, nodes, values, t);
    assert(nodes_invertible(first)) by {
        assert forall|i: int| 0 <= i < first.len() implies invertible(#[trigger] first[i]) by {
            assert(invertible(all[i]));
        }
    }
    assert(nodes_invertible(checked)) by {
        assert forall|i: int| 0 <= i < checked.len() implies invertible(
            #[trigger] checked[i],
        ) by {
            assert(invertible(all[i]) && invertible(all[t]));
        }
    }
    let primary = weighted_sum(other, weights, t);
    let check = check_sum(other, marks, t, t);
    let replaced = values.take(t).update(0, values[t]);
    let replaced1 = other.take(t).update(0, other[t]);
    lemma_check_sum(values, marks, t, t);
    lemma_check_sum(other, marks, t, t);
    lemma_weighted_sum_update(values, weights, t, k, wrong);
    lemma_fmul_elem(delta, weights[0]);
    lemma_fmul_elem(delta, marks[0]);
    lemma_fsub_elem(wrong, values[k]);
    lemma_poly_eval_elem(polynomial, nodes[k]);
    lemma_fsub_zero_iff(wrong, values[k]);
    if primary == check {
        // The change is zero, which it is not.
        if k == 0 {
            assert(replaced1 =~= replaced);
            lemma_fadd_zero(secret);
            lemma_poly_eval_elem(polynomial, 0);
            lemma_fadd_cancel(secret, fmul(delta, weights[0]), 0);
            lemma_lagrange_product_invertible(first, 0, 0, t);
            lemma_fmul_comm(delta, weights[0]);
            lemma_unit_mul_zero(weights[0], delta);
        } else if k == t {
            assert(replaced1 =~= replaced.update(0, wrong));
            lemma_weighted_sum_update(replaced, marks, t, 0, wrong);
            lemma_fadd_zero(secret);
            lemma_poly_eval_elem(polynomial, 0);
            lemma_fadd_cancel(secret, fmul(delta, marks[0]), 0);
            lemma_lagrange_product_invertible(checked, 0, 0, t);
            lemma_fmul_comm(delta, marks[0]);
            lemma_unit_mul_zero(marks[0], delta);
        } else {
            assert(replaced1 =~= replaced.update(k, wrong));
            lemma_weighted_sum_update(replaced, marks, t, k, wrong);
            lemma_fmul_elem(delta, weights[k]);
            lemma_fmul_elem(delta, marks[k]);
            lemma_fadd_cancel(secret, fmul(delta, weights[k]), fmul(delta, marks[k]));
            // The two coefficients share all factors but that of the first node.
            lemma_lagrange_product_first(first, k, t);
            lemma_lagrange_product_first(checked, k, t);
            lemma_lagrange_product_agree(first, checked, k, 1, t);
            let tail = lagrange_product(first, k, 1, t);
            let one = lagrange_factor(first, k, 0);
            let other_one = lagrange_factor(checked, k, 0);
            lemma_lagrange_product_invertible(first, k, 1, t);
            lemma_fmul_assoc(delta, one, tail);
            lemma_fmul_assoc(delta, other_one, tail);
            lemma_fmul_comm(fmul(delta, one), tail);
            lemma_fmul_comm(fmul(delta, other_one), tail);
            lemma_fmul_elem(delta, one);
            lemma_fmul_elem(delta, other_one);
            lemma_cancel(tail, fmul(delta, one), fmul(delta, other_one));
            assert(difference_invertible(all, k, 0));
            assert(difference_invertible(all, k, t));
            assert(difference_invertible(all, 0, t));
            assert(invertible(all[k]));
            assert(is_elem(all[0]) && is_elem(all[t]) && is_elem(all[k]));
            lemma_factor_differs(delta, all[0], all[t], all[k]);
        }
    }
}

/// Reconstruction from the shares of one polynomial gives its value at
/// zero, with a check where there are more shares than the threshold and
/// without one where there are not.
pub proof fn lemma_rebuilt(polynomial: Seq<nat>, nodes: Seq<nat>, values: Seq<nat>, threshold: int)
    requires
        1 <= threshold <= nodes.len(),
        polynomial.len() <= threshold,
        nodes_usable(nodes, threshold),
        consistent(polynomial, nodes, values, nodes_read(nodes.len() as int, threshold)),
    ensures
        rebuilt(
            values,
            lagrange_coefficients(nodes.take(threshold)),
            if nodes.len() > threshold {
                Some(lagrange_coefficients(check_nodes(nodes, threshold)))
            } else {
                None
            },
        ) == Some(poly_eval(polynomial, 0)),
{
    if nodes.len() > threshold {
        lemma_reconstruction(polynomial, nodes, values, threshold);
    } else {
        lemma_reconstruction_unchecked(polynomial, nodes, values, threshold);
    }
}

/// The polynomial with every coefficient negated.
pub open spec fn negated(polynomial: Seq<nat>) -> Seq<nat> {
    Seq::new(polynomial.len(), |i: int| fneg(polynomial[i]))
}

/// The polynomial `a - p`.
pub open spec fn subtracted_from(a: nat, polynomial: Seq<nat>) -> Seq<nat> {
    if polynomial.len() == 0 {
        seq![a]
    } else {
        negated(polynomial).update(0, fsub(a, polynomial[0]))
    }
}

/// The value of the negated polynomial is the negative of the value.
pub proof fn lemma_negated_eval(polynomial: Seq<nat>, x: nat)
    ensures
        poly_eval(negated(polynomial), x) == fneg(poly_eval(polynomial, x)),
    decreases polynomial.len(),
{
    lemma_order_bounds();
    if polynomial.len() == 0 {
        lemma_fneg_zero();
    } else {
        let rest = polynomial.drop_first();
        lemma_negated_eval(rest, x);
        assert(negated(polynomial).drop_first() =~= negated(rest));
        lemma_fneg_add(polynomial[0], fmul(x, poly_eval(rest, x)));
        lemma_fmul_neg(poly_eval(rest, x), x);
        lemma_fmul_comm(x, poly_eval(rest, x));
    }
}

/// The value of `a - p` is `a` less the value of `p`.
pub proof fn lemma_subtracted_from_eval(a: nat, polynomial: Seq<nat>, x: nat)
    requires
        is_elem(a),
    ensures
        poly_eval(subtracted_from(a, polynomial), x) == fsub(a, poly_eval(polynomial, x)),
        subtracted_from(a, polynomial).len() == if polynomial.len() == 0 {
            1
        } else {
            polynomial.len()
        },
{
    lemma_order_bounds();
    let q = subtracted_from(a, polynomial);
    if polynomial.len() == 0 {
        assert(q.drop_first() =~= Seq::<nat>::empty());
        assert(poly_eval(q.drop_first(), x) == 0);
        lemma_fmul_zero(x);
        lemma_fadd_zero(a);
        lemma_fneg_zero();
    } else {
        let rest = polynomial.drop_first();
        lemma_negated_eval(rest, x);
        assert(q.drop_first() =~= negated(rest));
        let m = fmul(x, poly_eval(rest, x));
        lemma_fmul_neg(poly_eval(rest, x), x);
        lemma_fmul_comm(x, poly_eval(rest, x));
        lemma_fneg_add(polynomial[0], m);
        lemma_fadd_assoc(a, fneg(polynomial[0]), fneg(m));
    }
}

/// A polynomial of one coefficient has that value everywhere.
pub proof fn lemma_constant_eval(c: nat, x: nat)
    requires
        is_elem(c),
    ensures
        poly_eval(seq![c], x) == c,
{
    let s = seq![c];
    assert(s.drop_first() =~= Seq::<nat>::empty());
    assert(poly_eval(s.drop_first(), x) == 0);
    lemma_fmul_zero(x);
    lemma_fadd_zero(c);
}

/// Shares of one polynomial reconstruct to its value at zero, the secret.
pub proof fn lemma_reconstructed(
    polynomial: Seq<nat>,
    nodes: Seq<nat>,
    values: Seq<nat>,
    threshold: int,
)
    requires
        1 <= threshold <= nodes.len(),
        polynomial.len() <= threshold,
        nodes_admissible(nodes, nodes_read(nodes.len() as int, threshold)),
        nodes_usable(nodes, threshold),
        consistent(polynomial, nodes, values, nodes_read(nodes.len() as int, threshold)),
    ensures
        reconstructed(nodes, values, threshold) == Ok::<nat, Error>(poly_eval(polynomial, 0)),
{
    lemma_rebuilt(polynomial, nodes, values, threshold);
}

/// Shares of one polynomial of which one of those that are read has been
/// changed do not reconstruct: where there is a share for the check, the
/// change is found out.
pub proof fn lemma_reconstructed_detects(
    polynomial: Seq<nat>,
    nodes: Seq<nat>,
    values: Seq<nat>,
    threshold: int,
    k: int,
    wrong: nat,
)
    requires
        1 <= threshold < nodes.len(),
        polynomial.len() <= threshold,
        nodes_admissible(nodes, threshold + 1),
        nodes_ok(nodes.take(threshold + 1)),
        nodes_invertible(nodes.take(threshold + 1)),
        consistent(polynomial, nodes, values, threshold + 1),
        0 <= k <= threshold,
        is_elem(wrong),
        wrong != values[k],
    ensures
        reconstructed(nodes, values.update(k, wrong), threshold) == Err::<nat, Error>(
            Error::Mismatch,
        ),
{
    lemma_corruption_detected(polynomial, nodes, values, threshold, k, wrong);
}

} // verus!
