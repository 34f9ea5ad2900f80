//! Arithmetic modulo the order of the pairing groups.
//!
//! Scalars, and the discrete logarithms by which group elements are modelled,
//! are natural numbers below `order()`. The operations here are the ring
//! operations on those residues; the lemmas are the ring laws, stated so that
//! proofs elsewhere never have to open the definitions.
use vstd::arithmetic::div_mod::*;
use vstd::arithmetic::mul::*;
use vstd::prelude::*;

verus! {

/// The order `r` of the groups G1, G2 and of the scalar field of BLS12-381.
pub closed spec fn order() -> nat {
    0x73eda753299d7d483339d80809a1d80553bda402fffe5bfeffffffff00000001nat
}

/// The value of `order()`, for the code that has to compare against it.
pub proof fn lemma_order_value()
    ensures
        order() == 0x73eda753299d7d483339d80809a1d80553bda402fffe5bfeffffffff00000001nat,
{
}

/// The order is more than two and has 255 bits.
pub proof fn lemma_order_bounds()
    ensures
        2 < order(),
        order() < 0x8000000000000000000000000000000000000000000000000000000000000000nat,
{
}

/// `a` is a canonical residue.
pub open spec fn is_elem(a: nat) -> bool {
    a < order()
}

/// The sum of two residues.
pub open spec fn fadd(a: nat, b: nat) -> nat {
    ((a + b) as int % (order() as int)) as nat
}

/// The product of two residues.
pub open spec fn fmul(a: nat, b: nat) -> nat {
    ((a * b) as int % (order() as int)) as nat
}

/// The negative of a residue.
pub open spec fn fneg(a: nat) -> nat {
    ((order() - (a % order())) % (order() as int)) as nat
}

/// The difference of two residues.
pub open spec fn fsub(a: nat, b: nat) -> nat {
    fadd(a, fneg(b))
}

/// A sum is a canonical residue.
pub proof fn lemma_fadd_elem(a: nat, b: nat)
    ensures
        is_elem(fadd(a, b)),
{
    lemma_order_bounds();
    lemma_mod_bound((a + b) as int, order() as int);
}

/// A product is a canonical residue.
pub proof fn lemma_fmul_elem(a: nat, b: nat)
    ensures
        is_elem(fmul(a, b)),
{
    lemma_order_bounds();
    lemma_mul_nonnegative(a as int, b as int);
    lemma_mod_bound((a * b) as int, order() as int);
}

/// A negative is a canonical residue.
pub proof fn lemma_fneg_elem(a: nat)
    ensures
        is_elem(fneg(a)),
{
}

/// A difference is a canonical residue.
pub proof fn lemma_fsub_elem(a: nat, b: nat)
    ensures
        is_elem(fsub(a, b)),
{
    lemma_fadd_elem(a, fneg(b));
}

/// `a + b == b + a`.
pub proof fn lemma_fadd_comm(a: nat, b: nat)
    ensures
        fadd(a, b) == fadd(b, a),
{
}

/// `(a + b) + c == a + (b + c)`.
pub proof fn lemma_fadd_assoc(a: nat, b: nat, c: nat)
    ensures
        fadd(fadd(a, b), c) == fadd(a, fadd(b, c)),
{
    let m = order() as int;
    lemma_order_bounds();
    lemma_add_mod_noop((a + b) as int, c as int, m);
    lemma_add_mod_noop(a as int, (b + c) as int, m);
    lemma_mod_twice((a + b) as int, m);
    lemma_mod_twice((b + c) as int, m);
    lemma_add_mod_noop((a + b) as int % m, c as int, m);
    lemma_add_mod_noop(a as int, (b + c) as int % m, m);
}

/// `a + 0 == a`.
pub proof fn lemma_fadd_zero(a: nat)
    requires
        is_elem(a),
    ensures
        fadd(a, 0) == a,
        fadd(0, a) == a,
{
}

/// `a + -a == 0`.
pub proof fn lemma_fadd_neg(a: nat)
    ensures
        fadd(a, fneg(a)) == 0,
        fadd(fneg(a), a) == 0,
{
    let m = order() as int;
    lemma_order_bounds();
    lemma_add_mod_noop(a as int, m - (a % order()), m);
    lemma_add_mod_noop(a as int, (m - (a % order())) % m, m);
    lemma_mod_twice(m - (a % order()), m);
    lemma_fadd_comm(a, fneg(a));
}

/// `a * b == b * a`.
pub proof fn lemma_fmul_comm(a: nat, b: nat)
    ensures
        fmul(a, b) == fmul(b, a),
{
    lemma_mul_is_commutative(a as int, b as int);
}

/// `(a * b) * c == a * (b * c)`.
pub proof fn lemma_fmul_assoc(a: nat, b: nat, c: nat)
    ensures
        fmul(fmul(a, b), c) == fmul(a, fmul(b, c)),
{
    let m = order() as int;
    lemma_order_bounds();
    lemma_mul_nonnegative(a as int, b as int);
    lemma_mul_nonnegative(b as int, c as int);
    lemma_mul_mod_noop_left((a * b) as int, c as int, m);
    lemma_mul_mod_noop_right(a as int, (b * c) as int, m);
    lemma_mul_is_associative(a as int, b as int, c as int);
}

/// `a * 1 == a`.
pub proof fn lemma_fmul_one(a: nat)
    requires
        is_elem(a),
    ensures
        fmul(a, 1) == a,
        fmul(1, a) == a,
{
    lemma_mul_basics(a as int);
    lemma_small_mod(a, order());
}

/// `a * 0 == 0`.
pub proof fn lemma_fmul_zero(a: nat)
    ensures
        fmul(a, 0) == 0,
        fmul(0, a) == 0,
{
    lemma_mul_basics(a as int);
}

/// `a * (b + c) == a * b + a * c`.
pub proof fn lemma_fmul_distrib(a: nat, b: nat, c: nat)
    ensures
        fmul(a, fadd(b, c)) == fadd(fmul(a, b), fmul(a, c)),
        fmul(fadd(b, c), a) == fadd(fmul(b, a), fmul(c, a)),
{
    let m = order() as int;
    lemma_order_bounds();
    lemma_mul_nonnegative(a as int, b as int);
    lemma_mul_nonnegative(a as int, c as int);
    lemma_mul_mod_noop_right(a as int, (b + c) as int, m);
    lemma_mul_is_distributive_add(a as int, b as int, c as int);
    lemma_add_mod_noop((a * b) as int, (a * c) as int, m);
    lemma_fmul_comm(a, fadd(b, c));
    lemma_fmul_comm(a, b);
    lemma_fmul_comm(a, c);
}

/// Reducing an operand first changes nothing.
pub proof fn lemma_fadd_reduce(a: nat, b: nat)
    ensures
        fadd(a % order(), b) == fadd(a, b),
        fadd(a, b % order()) == fadd(a, b),
{
    let m = order() as int;
    lemma_order_bounds();
    lemma_add_mod_noop(a as int, b as int, m);
    lemma_add_mod_noop((a % order()) as int, b as int, m);
    lemma_add_mod_noop(a as int, (b % order()) as int, m);
    lemma_mod_twice(a as int, m);
    lemma_mod_twice(b as int, m);
}

/// Reducing a factor first changes nothing.
pub proof fn lemma_fmul_reduce(a: nat, b: nat)
    ensures
        fmul(a % order(), b) == fmul(a, b),
        fmul(a, b % order()) == fmul(a, b),
{
    let m = order() as int;
    lemma_order_bounds();
    lemma_mul_mod_noop_left(a as int, b as int, m);
    lemma_mul_mod_noop_right(a as int, b as int, m);
}

/// `-(-a) == a`.
pub proof fn lemma_fneg_neg(a: nat)
    requires
        is_elem(a),
    ensures
        fneg(fneg(a)) == a,
{
}

/// `-0 == 0`.
pub proof fn lemma_fneg_zero()
    ensures
        fneg(0) == 0,
{
}

/// `(-a) * b == -(a * b)`.
pub proof fn lemma_fmul_neg(a: nat, b: nat)
    ensures
        fmul(fneg(a), b) == fneg(fmul(a, b)),
        fmul(b, fneg(a)) == fneg(fmul(a, b)),
{
    // (-a) * b + a * b == (-a + a) * b == 0, and negatives are unique.
    lemma_fmul_distrib(b, fneg(a), a);
    lemma_fadd_neg(a);
    lemma_fmul_zero(b);
    lemma_fmul_elem(fneg(a), b);
    lemma_fmul_elem(a, b);
    lemma_fneg_unique(fmul(a, b), fmul(fneg(a), b));
    lemma_fmul_comm(b, fneg(a));
}

/// The negative of `a` is the only residue that adds up to zero with it.
pub proof fn lemma_fneg_unique(a: nat, x: nat)
    requires
        is_elem(x),
        fadd(x, a) == 0,
    ensures
        x == fneg(a),
{
    // x == x + (a + (-a)) == (x + a) + (-a) == -a
    lemma_fadd_neg(a);
    lemma_fadd_zero(x);
    lemma_fadd_assoc(x, a, fneg(a));
    lemma_fneg_elem(a);
    lemma_fadd_zero(fneg(a));
}

/// `a - a == 0`.
pub proof fn lemma_fsub_self(a: nat)
    ensures
        fsub(a, a) == 0,
{
    lemma_fadd_neg(a);
}

/// `(a - b) + b == a`.
pub proof fn lemma_fsub_add(a: nat, b: nat)
    requires
        is_elem(a),
    ensures
        fadd(fsub(a, b), b) == a,
{
    lemma_fadd_assoc(a, fneg(b), b);
    lemma_fadd_neg(b);
    lemma_fadd_zero(a);
}

/// `a - b == 0` exactly when `a == b`.
pub proof fn lemma_fsub_zero_iff(a: nat, b: nat)
    requires
        is_elem(a),
        is_elem(b),
    ensures
        fsub(a, b) == 0 <==> a == b,
{
    if fsub(a, b) == 0 {
        lemma_fsub_add(a, b);
        lemma_fadd_zero(b);
    }
    if a == b {
        lemma_fsub_self(a);
    }
}

/// `-(a - b) == b - a`.
pub proof fn lemma_fsub_swap(a: nat, b: nat)
    requires
        is_elem(a),
        is_elem(b),
    ensures
        fneg(fsub(a, b)) == fsub(b, a),
{
    // (b - a) + (a - b) == 0
    lemma_fadd_assoc(fsub(b, a), a, fneg(b));
    lemma_fsub_add(b, a);
    lemma_fadd_neg(b);
    lemma_fsub_elem(b, a);
    lemma_fneg_unique(fsub(a, b), fsub(b, a));
}

/// `a * (b - c) == a * b - a * c`.
pub proof fn lemma_fmul_distrib_sub(a: nat, b: nat, c: nat)
    ensures
        fmul(a, fsub(b, c)) == fsub(fmul(a, b), fmul(a, c)),
        fmul(fsub(b, c), a) == fsub(fmul(b, a), fmul(c, a)),
{
    lemma_fmul_distrib(a, b, fneg(c));
    lemma_fmul_neg(c, a);
    lemma_fmul_comm(a, c);
    lemma_fmul_comm(a, b);
    lemma_fmul_comm(a, fsub(b, c));
}

/// `x` is the canonical multiplicative inverse of `a`.
pub open spec fn is_inverse(a: nat, x: nat) -> bool {
    is_elem(x) && fmul(a, x) == 1
}

/// `a` is a unit of the ring of residues.
pub open spec fn invertible(a: nat) -> bool {
    exists|x: nat| is_inverse(a, x)
}

/// The inverse of a unit.
pub open spec fn finv(a: nat) -> nat {
    choose|x: nat| is_inverse(a, x)
}

/// A residue has no more than one inverse.
pub proof fn lemma_inverse_unique(a: nat, x: nat, y: nat)
    requires
        is_inverse(a, x),
        is_inverse(a, y),
    ensures
        x == y,
{
    // x == x * (a * y) == (x * a) * y == y
    lemma_fmul_one(x);
    lemma_fmul_one(y);
    lemma_fmul_assoc(x, a, y);
    lemma_fmul_comm(x, a);
}

/// Whoever holds an inverse of `a` holds `finv(a)`.
pub proof fn lemma_finv_is(a: nat, x: nat)
    requires
        is_inverse(a, x),
    ensures
        invertible(a),
        finv(a) == x,
{
    lemma_inverse_unique(a, x, finv(a));
}

/// The inverse of a unit is a canonical residue and inverts it.
pub proof fn lemma_finv(a: nat)
    requires
        invertible(a),
    ensures
        is_elem(finv(a)),
        fmul(a, finv(a)) == 1,
        fmul(finv(a), a) == 1,
{
    lemma_fmul_comm(a, finv(a));
}

/// A unit is never zero.
pub proof fn lemma_invertible_nonzero(a: nat)
    requires
        invertible(a),
    ensures
        a % order() != 0,
        a != 0,
{
    lemma_finv(a);
    lemma_fmul_reduce(a, finv(a));
    lemma_fmul_zero(finv(a));
}

/// One is a unit, and its own inverse.
pub proof fn lemma_one_invertible()
    ensures
        invertible(1),
        finv(1) == 1,
{
    lemma_order_bounds();
    lemma_fmul_one(1);
    lemma_finv_is(1, 1);
}

/// Units are closed under multiplication.
pub proof fn lemma_invertible_mul(a: nat, b: nat)
    requires
        invertible(a),
        invertible(b),
    ensures
        invertible(fmul(a, b)),
        finv(fmul(a, b)) == fmul(finv(a), finv(b)),
{
    let x = finv(a);
    let y = finv(b);
    lemma_finv(a);
    lemma_finv(b);
    // (a b)(x y) == a (b (x y)) == a ((b y) x) == a x == 1
    lemma_fmul_assoc(a, b, fmul(x, y));
    lemma_fmul_comm(x, y);
    lemma_fmul_assoc(b, y, x);
    lemma_fmul_one(x);
    lemma_fmul_elem(x, y);
    lemma_finv_is(fmul(a, b), fmul(x, y));
}

/// The inverse of a unit is a unit, inverted by the unit.
pub proof fn lemma_invertible_inv(a: nat)
    requires
        invertible(a),
        is_elem(a),
    ensures
        invertible(finv(a)),
        finv(finv(a)) == a,
{
    lemma_finv(a);
    lemma_finv_is(finv(a), a);
}

/// A unit can be cancelled from both sides of an equation.
pub proof fn lemma_cancel(a: nat, b: nat, c: nat)
    requires
        invertible(a),
        is_elem(b),
        is_elem(c),
        fmul(a, b) == fmul(a, c),
    ensures
        b == c,
{
    let x = finv(a);
    lemma_finv(a);
    lemma_fmul_assoc(x, a, b);
    lemma_fmul_assoc(x, a, c);
    lemma_fmul_one(b);
    lemma_fmul_one(c);
}

/// The negative of a unit is a unit.
pub proof fn lemma_invertible_neg(a: nat)
    requires
        invertible(a),
    ensures
        invertible(fneg(a)),
{
    let v = finv(a);
    lemma_order_bounds();
    lemma_finv(a);
    lemma_fneg_elem(v);
    lemma_fmul_neg(a, fneg(v));
    lemma_fmul_neg(v, a);
    lemma_fneg_neg(1);
    lemma_finv_is(fneg(a), fneg(v));
}

/// A unit times a residue is zero only when the residue is.
pub proof fn lemma_unit_mul_zero(a: nat, b: nat)
    requires
        invertible(a),
        is_elem(b),
        fmul(a, b) == 0,
    ensures
        b == 0,
{
    lemma_fmul_zero(a);
    lemma_order_bounds();
    lemma_cancel(a, b, 0);
}

/// The residue `a` is that of the integer `x`.
pub open spec fn is_residue_of(a: nat, x: int) -> bool {
    a as int % (order() as int) == x % (order() as int)
}

/// A residue is that of itself.
pub proof fn lemma_residue_self(a: nat)
    ensures
        is_residue_of(a, a as int),
{
}

/// The sum of residues is the residue of the sum.
pub proof fn lemma_residue_add(a: nat, b: nat, x: int, y: int)
    requires
        is_residue_of(a, x),
        is_residue_of(b, y),
    ensures
        is_residue_of(fadd(a, b), x + y),
{
    let m = order() as int;
    lemma_add_mod_noop(a as int, b as int, m);
    lemma_add_mod_noop(x, y, m);
    lemma_mod_twice((a + b) as int, m);
}

/// The negative of a residue is the residue of the negative.
pub proof fn lemma_residue_neg(a: nat, x: int)
    requires
        is_residue_of(a, x),
    ensures
        is_residue_of(fneg(a), -x),
{
    let m = order() as int;
    lemma_sub_mod_noop(0, a as int, m);
    lemma_sub_mod_noop(0, x, m);
    lemma_mod_twice(m - (a % order()), m);
    lemma_sub_mod_noop(m, a as int, m);
    lemma_mod_self_0(m);
}

/// The difference of residues is the residue of the difference.
pub proof fn lemma_residue_sub(a: nat, b: nat, x: int, y: int)
    requires
        is_residue_of(a, x),
        is_residue_of(b, y),
    ensures
        is_residue_of(fsub(a, b), x - y),
{
    lemma_residue_neg(b, y);
    lemma_residue_add(a, fneg(b), x, -y);
}

/// Canonical residues of one integer are equal.
pub proof fn lemma_residue_unique(a: nat, b: nat, x: int)
    requires
        is_elem(a),
        is_elem(b),
        is_residue_of(a, x),
        is_residue_of(b, x),
    ensures
        a == b,
{
    lemma_small_mod(a, order());
    lemma_small_mod(b, order());
}

/// `a + (b + c) == b + (a + c)`.
pub proof fn lemma_fadd_left_swap(a: nat, b: nat, c: nat)
    ensures
        fadd(a, fadd(b, c)) == fadd(b, fadd(a, c)),
{
    lemma_fadd_assoc(a, b, c);
    lemma_fadd_comm(a, b);
    lemma_fadd_assoc(b, a, c);
}

/// `(a - b) + (c - d) == (a + c) - (b + d)`.
pub proof fn lemma_add_differences(a: nat, b: nat, c: nat, d: nat)
    ensures
        fadd(fsub(a, b), fsub(c, d)) == fsub(fadd(a, c), fadd(b, d)),
{
    // -(b + d) == -b + -d, as (b + d) + (-b + -d) == 0.
    let n = fadd(fneg(b), fneg(d));
    assert(fneg(fadd(b, d)) == n) by {
        lemma_fadd_assoc(fneg(b), fneg(d), fadd(b, d));
        lemma_fadd_left_swap(fneg(d), b, d);
        lemma_fadd_neg(d);
        lemma_fadd_neg(b);
        lemma_order_bounds();
        lemma_fadd_reduce(b, 0);
        lemma_fadd_assoc(fneg(b), b, 0);
        lemma_fadd_zero(0);
        lemma_fadd_elem(fneg(b), fneg(d));
        lemma_fneg_unique(fadd(b, d), n);
    }
    lemma_fadd_assoc(a, fneg(b), fadd(c, fneg(d)));
    lemma_fadd_left_swap(fneg(b), c, fneg(d));
    lemma_fadd_assoc(a, c, n);
}

/// `-(a + b) == -a + -b`.
pub proof fn lemma_fneg_add(a: nat, b: nat)
    ensures
        fneg(fadd(a, b)) == fadd(fneg(a), fneg(b)),
{
    lemma_add_differences(0, a, 0, b);
    lemma_order_bounds();
    lemma_fadd_zero(0);
    lemma_fneg_elem(a);
    lemma_fneg_elem(b);
    lemma_fadd_zero(fneg(a));
    lemma_fadd_zero(fneg(b));
    lemma_fneg_elem(fadd(a, b));
    lemma_fadd_zero(fneg(fadd(a, b)));
}

/// What is added to a residue can be taken off again.
pub proof fn lemma_fadd_cancel(s: nat, a: nat, b: nat)
    requires
        is_elem(a),
        is_elem(b),
        fadd(s, a) == fadd(s, b),
    ensures
        a == b,
{
    lemma_fadd_assoc(fneg(s), s, a);
    lemma_fadd_assoc(fneg(s), s, b);
    lemma_fadd_neg(s);
    lemma_fadd_zero(a);
    lemma_fadd_zero(b);
}

/// What added to `b` gives `a` is `a - b`.
pub proof fn lemma_difference_unique(a: nat, b: nat, x: nat)
    requires
        is_elem(x),
        fadd(x, b) == a,
    ensures
        x == fsub(a, b),
{
    // x == x + (b - b) == (x + b) - b
    lemma_fadd_neg(b);
    lemma_fadd_assoc(x, b, fneg(b));
    lemma_fadd_zero(x);
}

/// `(a * b) * (c * d) == (a * c) * (b * d)`.
pub proof fn lemma_fmul_interchange(a: nat, b: nat, c: nat, d: nat)
    ensures
        fmul(fmul(a, b), fmul(c, d)) == fmul(fmul(a, c), fmul(b, d)),
{
    lemma_fmul_assoc(a, b, fmul(c, d));
    lemma_fmul_assoc(b, c, d);
    lemma_fmul_comm(b, c);
    lemma_fmul_assoc(c, b, d);
    lemma_fmul_assoc(a, c, fmul(b, d));
}

/// `(a * b) * c == (a * c) * b`.
pub proof fn lemma_fmul_swap(a: nat, b: nat, c: nat)
    ensures
        fmul(fmul(a, b), c) == fmul(fmul(a, c), b),
{
    lemma_fmul_assoc(a, b, c);
    lemma_fmul_comm(b, c);
    lemma_fmul_assoc(a, c, b);
}

} // verus!
