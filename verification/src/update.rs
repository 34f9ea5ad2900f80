//! Bringing a witness up to date: the record of what an epoch changed, its
//! value at a holder's identifier, and the folding of that value into the
//! witness.
use crate::accumulator::{element_values, witness_valid, Coefficient, Element, MembershipWitness};
use crate::error::Error;
use crate::field::{
    fadd, finv, fmul, fneg, fsub, invertible, is_elem, lemma_difference_unique, lemma_fadd_assoc,
    lemma_fadd_comm, lemma_fadd_elem, lemma_fadd_zero, lemma_finv, lemma_fmul_assoc,
    lemma_fmul_comm, lemma_fmul_distrib, lemma_fmul_distrib_sub, lemma_fmul_elem, lemma_fmul_one,
    lemma_fmul_swap, lemma_fmul_zero, lemma_fneg_elem, lemma_fneg_neg, lemma_fsub_add,
    lemma_fsub_elem, lemma_one_invertible, lemma_order_bounds,
};
use crate::group::G1Point;
use crate::scalar::Scalar;
use crate::server::{
    carried_from, deleted_between, lemma_carried, lemma_vanishes_where_deleted, replayed,
};
use crate::shamir::poly_eval;
use vstd::prelude::*;

verus! {

/// What one epoch changed: the identifiers that were added, those that were
/// deleted, and the coefficients of the polynomial that carries a witness
/// over the change.
#[derive(Clone, Debug, PartialEq, Eq)]
pub struct Delta {
    /// The epoch that the change led out of.
    pub epoch: usize,
    /// The identifiers that were added.
    pub additions: Vec<Element>,
    /// The identifiers that were deleted.
    pub deletions: Vec<Element>,
    /// The coefficients of the polynomial, the constant term first.
    pub coefficients: Vec<Coefficient>,
}

/// A record of change as residues: the identifiers, and the logarithms of
/// the coefficients.
pub struct DeltaView {
    /// The identifiers that were added.
    pub additions: Seq<nat>,
    /// The identifiers that were deleted.
    pub deletions: Seq<nat>,
    /// The logarithms of the coefficients, the constant term first.
    pub coefficients: Seq<nat>,
}

/// The value of a record of change at an identifier, or at a share of one.
#[derive(Clone, Copy, Debug, PartialEq, Eq)]
pub struct DeltaShare {
    /// The product of the differences of the added identifiers from it.
    pub numerator: Scalar,
    /// The product of the differences of the deleted identifiers from it.
    pub denominator: Scalar,
    /// The value of the polynomial of the coefficients at it.
    pub point: G1Point,
}

/// A value of a record of change as residues.
pub struct ShareView {
    /// The numerator.
    pub numerator: nat,
    /// The denominator.
    pub denominator: nat,
    /// The logarithm of the point.
    pub point: nat,
}

/// The logarithms of a sequence of coefficients.
pub open spec fn coefficient_values(v: Seq<Coefficient>) -> Seq<nat> {
    Seq::new(v.len(), |i: int| v[i]@)
}

/// The epochs of a sequence of records of change.
pub open spec fn delta_epochs(v: Seq<Delta>) -> Seq<nat> {
    Seq::new(v.len(), |i: int| v[i].epoch as nat)
}

/// The epochs follow one another without a gap.
pub open spec fn consecutive(epochs: Seq<nat>) -> bool {
    forall|i: int| 0 < i < epochs.len() ==> #[trigger] epochs[i] == epochs[i - 1] + 1
}

/// The records of change that a sequence of them stands for.
pub open spec fn delta_views(v: Seq<Delta>) -> Seq<DeltaView> {
    Seq::new(v.len(), |i: int| v[i]@)
}

/// The product of the differences of the identifiers from `y`.
pub open spec fn difference_product(ids: Seq<nat>, y: nat) -> nat
    decreases ids.len(),
{
    if ids.len() == 0 {
        1
    } else {
        fmul(difference_product(ids.drop_last(), y), fsub(ids.last(), y))
    }
}

/// The value of a record of change at `y`.
pub open spec fn evaluated(d: DeltaView, y: nat) -> ShareView {
    ShareView {
        numerator: difference_product(d.additions, y),
        denominator: difference_product(d.deletions, y),
        point: poly_eval(d.coefficients, y),
    }
}

/// The witness `w` carried over one change: multiplied by the numerator,
/// less the point, divided by the denominator. Where the denominator has no
/// inverse the identifier was deleted, and no witness is left.
pub open spec fn folded(w: nat, s: ShareView) -> Option<nat> {
    if invertible(s.denominator) {
        Some(fmul(fsub(fmul(w, s.numerator), s.point), finv(s.denominator)))
    } else {
        None
    }
}

/// The witness `w` of the identifier `y` carried over a sequence of
/// changes, one after the other.
pub open spec fn updated(w: nat, y: nat, deltas: Seq<DeltaView>) -> Option<nat>
    decreases deltas.len(),
{
    if deltas.len() == 0 {
        Some(w)
    } else {
        match updated(w, y, deltas.drop_last()) {
            Some(v) => folded(v, evaluated(deltas.last(), y)),
            None => None,
        }
    }
}

/// Whether the denominator of one of the records vanishes at `y`.
pub open spec fn denominator_vanishes(deltas: Seq<DeltaView>, y: nat) -> bool {
    exists|k: int|
        0 <= k < deltas.len() && difference_product((#[trigger] deltas[k]).deletions, y) == 0
}

impl View for Delta {
    type V = DeltaView;

    open spec fn view(&self) -> DeltaView {
        DeltaView {
            additions: element_values(self.additions@),
            deletions: element_values(self.deletions@),
            coefficients: coefficient_values(self.coefficients@),
        }
    }
}

impl View for DeltaShare {
    type V = ShareView;

    open spec fn view(&self) -> ShareView {
        ShareView {
            numerator: self.numerator@,
            denominator: self.denominator@,
            point: self.point@,
        }
    }
}

/// The product of the differences of the identifiers from `y`.
fn product_of_differences(ids: &Vec<Element>, y: &Scalar) -> (r: Scalar)
    ensures
        r@ == difference_product(element_values(ids@), y@),
{
    let ghost values = element_values(ids@);
    let mut product = Scalar::one();
    let mut i: usize = 0;
    assert(values.take(0) =~= Seq::<nat>::empty());
    while i < ids.len()
        invariant
            i <= ids.len(),
            values == element_values(ids@),
            product@ == difference_product(values.take(i as int), y@),
        decreases ids.len() - i,
    {
        product = product.mul(&ids[i].0.sub(y));
        i += 1;
        assert(values.take(i as int).drop_last() =~= values.take(i - 1));
    }
    assert(values.take(i as int) =~= values);
    product
}

/// The value at `y` of the polynomial with the given coefficients, taken in
/// the group.
fn evaluate_coefficients(coefficients: &Vec<Coefficient>, y: &Scalar) -> (r: G1Point)
    ensures
        r@ == poly_eval(coefficient_values(coefficients@), y@),
{
    let ghost all = coefficient_values(coefficients@);
    let mut out = G1Point::identity();
    let mut i: usize = coefficients.len();
    assert(all.skip(i as int) =~= Seq::<nat>::empty());
    while i > 0
        invariant
            i <= coefficients.len(),
            all == coefficient_values(coefficients@),
            out@ == poly_eval(all.skip(i as int), y@),
        decreases i,
    {
        i -= 1;
        proof {
            assert(all.skip(i as int).drop_first() =~= all.skip(i + 1));
            lemma_fadd_comm(all[i as int], fmul(y@, out@));
            lemma_fmul_comm(y@, out@);
        }
        out = out.mul(y).add(&coefficients[i].0);
    }
    assert(all.skip(0) =~= all);
    out
}

/// A copy of a list of identifiers.
fn copy_elements(v: &Vec<Element>) -> (r: Vec<Element>)
    ensures
        r@ == v@,
{
    let mut out: Vec<Element> = Vec::new();
    let mut i: usize = 0;
    while i < v.len()
        invariant
            i <= v.len(),
            out@ == v@.take(i as int),
        decreases v.len() - i,
    {
        out.push(v[i]);
        i += 1;
        assert(v@.take(i as int) =~= v@.take(i - 1).push(v@[i - 1]));
    }
    assert(v@.take(i as int) =~= v@);
    out
}

/// A copy of a list of coefficients.
fn copy_coefficients(v: &Vec<Coefficient>) -> (r: Vec<Coefficient>)
    ensures
        r@ == v@,
{
    let mut out: Vec<Coefficient> = Vec::new();
    let mut i: usize = 0;
    while i < v.len()
        invariant
            i <= v.len(),
            out@ == v@.take(i as int),
        decreases v.len() - i,
    {
        out.push(v[i]);
        i += 1;
        assert(v@.take(i as int) =~= v@.take(i - 1).push(v@[i - 1]));
    }
    assert(v@.take(i as int) =~= v@);
    out
}

impl Delta {
    /// A copy of the record.
    pub fn copy(&self) -> (r: Delta)
        ensures
            r.epoch == self.epoch,
            r.additions@ == self.additions@,
            r.deletions@ == self.deletions@,
            r.coefficients@ == self.coefficients@,
            r@ == self@,
    {
        Delta {
            epoch: self.epoch,
            additions: copy_elements(&self.additions),
            deletions: copy_elements(&self.deletions),
            coefficients: copy_coefficients(&self.coefficients),
        }
    }

    /// The value of the record at `y`: at a holder's identifier, or at a
    /// share of one.
    pub fn evaluate(&self, y: &Scalar) -> (r: DeltaShare)
        ensures
            r@ == evaluated(self@, y@),
    {
        DeltaShare {
            numerator: product_of_differences(&self.additions, y),
            denominator: product_of_differences(&self.deletions, y),
            point: evaluate_coefficients(&self.coefficients, y),
        }
    }
}

impl MembershipWitness {
    /// The witness carried over one change, given by its value at the
    /// holder's identifier. There is none where the denominator is zero,
    /// and only there.
    pub fn fold(&self, share: &DeltaShare) -> (r: Option<MembershipWitness>)
        ensures
            match r {
                Some(w) => folded(self@, share@) == Some(w@),
                None => folded(self@, share@) is None,
            },
            r is None <==> share.denominator@ == 0,
    {
        match share.denominator.invert() {
            Some(inverse) => {
                let scaled = self.0.mul(&share.numerator);
                let moved = scaled.add(&share.point.neg());
                Some(MembershipWitness(moved.mul(&inverse)))
            },
            None => None,
        }
    }

    /// The witness of the identifier `y` carried over a sequence of changes,
    /// which must be those of consecutive epochs, in their order: a
    /// sequence with a gap, or out of order, is refused. The work is one
    /// folding for each epoch. There is no witness where the denominator of
    /// a record vanishes at the identifier. Over the records of an
    /// authority, that is where the identifier was deleted on the way;
    /// where it was not, a witness that was valid before the first of the
    /// records comes out valid after the last.
    pub fn multi_batch_update(&self, y: &Element, deltas: &[Delta]) -> (r: Result<
        MembershipWitness,
        Error,
    >)
        ensures
            match r {
                Ok(w) => consecutive(delta_epochs(deltas@)) && updated(
                    self@,
                    y@,
                    delta_views(deltas@),
                ) == Some(w@),
                Err(e) => {
                    &&& e == Error::Order <==> !consecutive(delta_epochs(deltas@))
                    &&& e == Error::NoWitness <==> consecutive(delta_epochs(deltas@)) && updated(
                        self@,
                        y@,
                        delta_views(deltas@),
                    ) is None
                    &&& e == Error::Order || e == Error::NoWitness
                },
            },
            consecutive(delta_epochs(deltas@)) ==> (r is Err <==> denominator_vanishes(
                delta_views(deltas@),
                y@,
            )),
            forall|key: nat, history: Seq<DeltaView>, from: int|
                consecutive(delta_epochs(deltas@)) && #[trigger] carried_from(
                    key,
                    history,
                    from,
                    self@,
                    y@,
                    delta_views(deltas@),
                ) ==> match r {
                    Ok(w) => witness_valid(
                        w@,
                        y@,
                        key,
                        replayed(key, history, from + deltas.len()),
                    ) && !deleted_between(history, y@, from, from + deltas.len()),
                    Err(_) => deleted_between(history, y@, from, from + deltas.len()),
                },
    {
        if !in_order(deltas) {
            return Err(Error::Order);
        }
        let ghost views = delta_views(deltas@);
        let mut witness = *self;
        let mut i: usize = 0;
        assert(views.take(0) =~= Seq::<DeltaView>::empty());
        while i < deltas.len()
            invariant
                i <= deltas.len(),
                consecutive(delta_epochs(deltas@)),
                views == delta_views(deltas@),
                updated(self@, y@, views.take(i as int)) == Some(witness@),
                forall|k: int|
                    0 <= k < i ==> difference_product((#[trigger] views[k]).deletions, y@) != 0,
            decreases deltas.len() - i,
        {
            let share = deltas[i].evaluate(&y.0);
            proof {
                assert(views.take(i + 1).drop_last() =~= views.take(i as int));
                assert(views.take(i + 1).last() == deltas@[i as int]@);
                assert(views[i as int] == deltas@[i as int]@);
            }
            match witness.fold(&share) {
                Some(next) => {
                    witness = next;
                },
                None => {
                    proof {
                        use_type_invariant(&y.0);
                        lemma_updated_fails(self@, y@, views, i + 1);
                        assert(difference_product(views[i as int].deletions, y@) == 0);
                        assert forall|key: nat, history: Seq<DeltaView>, from: int|
                            #[trigger] carried_from(
                                key,
                                history,
                                from,
                                self@,
                                y@,
                                views,
                            ) implies deleted_between(
                            history,
                            y@,
                            from,
                            from + deltas.len(),
                        ) by {
                            assert(history[from + i] == views[i as int]);
                            lemma_vanishes_where_deleted(key, history, y@, from + i);
                        }
                    }
                    return Err(Error::NoWitness);
                },
            }
            i += 1;
        }
        proof {
            assert(views.take(i as int) =~= views);
            assert forall|key: nat, history: Seq<DeltaView>, from: int|
                #[trigger] carried_from(
                    key,
                    history,
                    from,
                    self@,
                    y@,
                    views,
                ) implies witness_valid(
                witness@,
                y@,
                key,
                replayed(key, history, from + deltas.len()),
            ) && !deleted_between(history, y@, from, from + deltas.len()) by {
                lemma_carried(key, history, from, self@, y@, views);
            }
        }
        Ok(witness)
    }
}

/// Whether the records are those of consecutive epochs, in their order.
pub fn in_order(deltas: &[Delta]) -> (r: bool)
    ensures
        r == consecutive(delta_epochs(deltas@)),
{
    let ghost epochs = delta_epochs(deltas@);
    let mut i: usize = 1;
    while i < deltas.len()
        invariant
            1 <= i,
            epochs == delta_epochs(deltas@),
            forall|k: int|
                0 < k < i && k < epochs.len() ==> #[trigger] epochs[k] == epochs[k - 1] + 1,
        decreases deltas.len() - i,
    {
        let before = deltas[i - 1].epoch;
        if before == usize::MAX || deltas[i].epoch != before + 1 {
            assert(epochs[i as int] != epochs[i - 1] + 1);
            return false;
        }
        i += 1;
    }
    true
}

/// Once a witness is lost on the way, it stays lost.
pub proof fn lemma_updated_fails(w: nat, y: nat, deltas: Seq<DeltaView>, n: int)
    requires
        0 <= n <= deltas.len(),
        updated(w, y, deltas.take(n)) is None,
    ensures
        updated(w, y, deltas) is None,
    decreases deltas.len() - n,
{
    if n < deltas.len() {
        assert(deltas.take(n + 1).drop_last() =~= deltas.take(n));
        lemma_updated_fails(w, y, deltas, n + 1);
    } else {
        assert(deltas.take(n) =~= deltas);
    }
}

/// Folding the changes of consecutive epochs one call after the other gives
/// the witness that one call over all of them gives.
pub proof fn lemma_update_splits(w: nat, y: nat, first: Seq<DeltaView>, second: Seq<DeltaView>)
    ensures
        updated(w, y, first + second) == match updated(w, y, first) {
            Some(v) => updated(v, y, second),
            None => None,
        },
    decreases second.len(),
{
    if second.len() == 0 {
        assert(first + second =~= first);
    } else {
        lemma_update_splits(w, y, first, second.drop_last());
        assert((first + second).drop_last() =~= first + second.drop_last());
        assert((first + second).last() == second.last());
    }
}

/// The product of the differences of one identifier is its difference.
pub proof fn lemma_difference_product_single(id: nat, y: nat)
    ensures
        difference_product(seq![id], y) == fsub(id, y),
        difference_product(Seq::empty(), y) == 1,
{
    let s = seq![id];
    assert(s.drop_last() =~= Seq::<nat>::empty());
    assert(difference_product(s.drop_last(), y) == 1);
    assert(difference_product(s, y) == fmul(1, fsub(s.last(), y)));
    lemma_fsub_elem(id, y);
    lemma_fmul_one(fsub(id, y));
}

/// A polynomial of one coefficient is constant.
pub proof fn lemma_poly_eval_single(c: nat, y: nat)
    requires
        is_elem(c),
    ensures
        poly_eval(seq![c], y) == c,
{
    let s = seq![c];
    assert(s.drop_first() =~= Seq::<nat>::empty());
    assert(poly_eval(s.drop_first(), y) == 0);
    lemma_fmul_zero(y);
    lemma_fadd_zero(c);
}

/// The record of an addition carries a witness over the addition: the
/// witness of `y` against `v`, folded with the record that adds `a` and
/// holds the negative of `v`, is a witness against `v` with the factor of
/// `a`.
pub proof fn lemma_fold_addition(w: nat, y: nat, key: nat, v: nat, a: nat)
    requires
        is_elem(a),
        is_elem(v),
        witness_valid(w, y, key, v),
    ensures
        folded(
            w,
            evaluated(
                DeltaView {
                    additions: seq![a],
                    deletions: Seq::empty(),
                    coefficients: seq![fneg(v)],
                },
                y,
            ),
        ) matches Some(next) && witness_valid(next, y, key, fmul(v, fadd(key, a))),
{
    let n = fsub(a, y);
    let s = fadd(y, key);
    lemma_order_bounds();
    lemma_difference_product_single(a, y);
    lemma_fneg_elem(v);
    lemma_poly_eval_single(fneg(v), y);
    lemma_one_invertible();
    lemma_fneg_neg(v);
    let next = fadd(fmul(w, n), v);
    lemma_fadd_elem(fmul(w, n), v);
    lemma_fmul_one(next);
    // next * s == (w * n) * s + v * s == v * n + v * s == v * (n + s)
    lemma_fmul_distrib(s, fmul(w, n), v);
    lemma_fmul_swap(w, n, s);
    lemma_fmul_distrib(v, n, s);
    // n + s == (a - y) + (y + key) == a + key
    lemma_fadd_assoc(n, y, key);
    lemma_fsub_add(a, y);
    lemma_fadd_comm(a, key);
}

/// The record of a deletion carries a witness over the deletion: the
/// witness of `y` against `v`, folded with the record that deletes `d` and
/// holds `v` without the factor of `d`, is a witness against that. There is
/// none where the difference of `d` from `y` has no inverse, as for `y`
/// itself.
pub proof fn lemma_fold_deletion(w: nat, y: nat, key: nat, v: nat, d: nat)
    requires
        is_elem(d),
        is_elem(v),
        invertible(fadd(key, d)),
        witness_valid(w, y, key, v),
    ensures
        folded(
            w,
            evaluated(
                DeltaView {
                    additions: Seq::empty(),
                    deletions: seq![d],
                    coefficients: seq![fmul(v, finv(fadd(key, d)))],
                },
                y,
            ),
        ) is Some <==> invertible(fsub(d, y)),
        folded(
            w,
            evaluated(
                DeltaView {
                    additions: Seq::empty(),
                    deletions: seq![d],
                    coefficients: seq![fmul(v, finv(fadd(key, d)))],
                },
                y,
            ),
        ) matches Some(next) ==> witness_valid(next, y, key, fmul(v, finv(fadd(key, d)))),
{
    let f = fadd(key, d);
    let after = fmul(v, finv(f));
    let dd = fsub(d, y);
    let s = fadd(y, key);
    lemma_order_bounds();
    lemma_difference_product_single(d, y);
    lemma_fmul_elem(v, finv(f));
    lemma_poly_eval_single(after, y);
    if invertible(dd) {
        lemma_finv(f);
        lemma_finv(dd);
        lemma_fmul_elem(w, s);
        let next = fmul(fsub(fmul(w, 1), after), finv(dd));
        // (w * 1 - after) * s == w * s - after * s == after * f - after * s
        lemma_fmul_elem(w, 1);
        lemma_fmul_distrib_sub(s, fmul(w, 1), after);
        lemma_fmul_assoc(w, 1, s);
        lemma_fadd_elem(y, key);
        lemma_fmul_one(s);
        lemma_fmul_assoc(v, finv(f), f);
        lemma_fmul_one(v);
        // after * f - after * s == after * (f - s) == after * (d - y)
        lemma_fmul_distrib_sub(after, f, s);
        lemma_difference_of_sums(key, d, y);
        // ((w * 1 - after) * inverse) * s == ((w * 1 - after) * s) * inverse
        lemma_fmul_swap(fsub(fmul(w, 1), after), finv(dd), s);
        lemma_fmul_assoc(after, dd, finv(dd));
        lemma_fmul_one(after);
    }
}

/// `(key + d) - (y + key) == d - y`.
pub proof fn lemma_difference_of_sums(key: nat, d: nat, y: nat)
    requires
        is_elem(d),
    ensures
        fsub(fadd(key, d), fadd(y, key)) == fsub(d, y),
{
    // (d - y) + (y + key) == d + key, and differences are unique.
    lemma_fadd_assoc(fsub(d, y), y, key);
    lemma_fsub_add(d, y);
    lemma_fadd_comm(d, key);
    lemma_fadd_elem(y, key);
    lemma_fsub_elem(d, y);
    lemma_difference_unique(fadd(key, d), fadd(y, key), fsub(d, y));
}

} // verus!
