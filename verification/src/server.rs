//! The authority: the holder of the key, of the accumulator and of the
//! history of changes, one record for each epoch.
use crate::accumulator::{
    contains, element_values, lemma_member_product_elem, lemma_member_product_single,
    lemma_witness_stale, member_product, witness_valid, Accumulator, Coefficient, Element,
    MembershipWitness, PublicKey, SecretKey,
};
use crate::error::Error;
use crate::field::{
    fadd, finv, fmul, fneg, invertible, is_elem, lemma_fadd_comm, lemma_fadd_elem, lemma_finv,
    lemma_fmul_assoc, lemma_fmul_elem, lemma_fmul_one, lemma_fmul_swap, lemma_fsub_self,
    lemma_fsub_zero_iff, lemma_invertible_mul, lemma_invertible_nonzero, lemma_one_invertible,
    lemma_order_bounds,
};
use crate::params::{AccParams, PublicKeys};
use crate::scalar::Scalar;
use crate::update::{
    consecutive, delta_epochs, delta_views, evaluated, lemma_difference_product_single,
    lemma_fold_addition, lemma_fold_deletion, lemma_updated_fails, updated, Delta, DeltaShare,
    DeltaView, ShareView,
};
use vstd::prelude::*;

verus! {

/// The authority.
#[derive(Clone, Debug)]
pub struct Server {
    params: AccParams,
    secret_key: SecretKey,
    public_keys: PublicKeys,
    accumulator: Accumulator,
    history: Vec<Delta>,
    members: Vec<Element>,
}

/// The values of a sequence of values of records.
pub open spec fn share_views(v: Seq<DeltaShare>) -> Seq<ShareView> {
    Seq::new(v.len(), |i: int| v[i]@)
}

/// The first power of the identifier that the queries stand for: the first
/// query, or zero where there is none.
pub open spec fn first_power(queries: Seq<Scalar>) -> nat {
    if queries.len() > 0 {
        queries[0]@
    } else {
        0
    }
}

/// The accumulator after the first `n` epochs of a history: each record
/// multiplies it by the factors of the identifiers added and divides it by
/// those of the identifiers deleted.
pub open spec fn replayed(key: nat, history: Seq<DeltaView>, n: int) -> nat
    decreases n,
{
    if n <= 0 {
        1
    } else {
        fmul(
            fmul(replayed(key, history, n - 1), member_product(key, history[n - 1].additions)),
            finv(member_product(key, history[n - 1].deletions)),
        )
    }
}

/// The record of epoch `e` adds one identifier and carries the negative of
/// the accumulator before it.
pub open spec fn record_adds(key: nat, history: Seq<DeltaView>, e: int) -> bool {
    let d = history[e];
    &&& d.additions.len() == 1
    &&& d.deletions.len() == 0
    &&& d.coefficients.len() == 1
    &&& is_elem(d.additions[0])
    &&& invertible(fadd(key, d.additions[0]))
    &&& d.coefficients[0] == fneg(replayed(key, history, e))
}

/// The record of epoch `e` deletes one identifier and carries the
/// accumulator after it.
pub open spec fn record_deletes(key: nat, history: Seq<DeltaView>, e: int) -> bool {
    let d = history[e];
    &&& d.additions.len() == 0
    &&& d.deletions.len() == 1
    &&& d.coefficients.len() == 1
    &&& is_elem(d.deletions[0])
    &&& invertible(fadd(key, d.deletions[0]))
    &&& d.coefficients[0] == replayed(key, history, e + 1)
}

/// Every record of the history is one that the authority writes.
pub open spec fn history_ok(key: nat, history: Seq<DeltaView>) -> bool {
    forall|e: int|
        0 <= e < history.len() ==> #[trigger] record_adds(key, history, e) || record_deletes(
            key,
            history,
            e,
        )
}

/// Whether one of the records of the epochs `from <= e < to` deletes `y`.
pub open spec fn deleted_between(history: Seq<DeltaView>, y: nat, from: int, to: int) -> bool {
    exists|e: int| from <= e < to && (#[trigger] history[e]).deletions.contains(y)
}

/// The records are those that the history of an authority with the given
/// key holds for the epochs from `from` on, and `w` is a witness of `y`
/// that is valid at the epoch `from`.
pub open spec fn carried_from(
    key: nat,
    history: Seq<DeltaView>,
    from: int,
    w: nat,
    y: nat,
    records: Seq<DeltaView>,
) -> bool {
    &&& history_ok(key, history)
    &&& 0 <= from
    &&& from + records.len() <= history.len()
    &&& records == history.subrange(from, from + records.len())
    &&& witness_valid(w, y, key, replayed(key, history, from))
}

/// The factor of every member is a unit.
pub open spec fn members_ok(key: nat, members: Seq<nat>) -> bool {
    forall|i: int| 0 <= i < members.len() ==> invertible(fadd(key, #[trigger] members[i]))
}

/// A replay reads only the records before its end.
pub proof fn lemma_replayed_prefix(key: nat, a: Seq<DeltaView>, b: Seq<DeltaView>, n: int)
    requires
        n <= a.len(),
        n <= b.len(),
        forall|i: int| 0 <= i < n ==> a[i] == b[i],
    ensures
        replayed(key, a, n) == replayed(key, b, n),
    decreases n,
{
    if n > 0 {
        lemma_replayed_prefix(key, a, b, n - 1);
    }
}

/// A replayed accumulator is a canonical residue.
pub proof fn lemma_replayed_elem(key: nat, history: Seq<DeltaView>, n: int)
    ensures
        is_elem(replayed(key, history, n)),
    decreases n,
{
    lemma_order_bounds();
    if n > 0 {
        lemma_fmul_elem(
            fmul(replayed(key, history, n - 1), member_product(key, history[n - 1].additions)),
            finv(member_product(key, history[n - 1].deletions)),
        );
    }
}

/// A history that is in order stays so when a record joins it that is.
pub proof fn lemma_history_grows(key: nat, history: Seq<DeltaView>, record: DeltaView)
    requires
        history_ok(key, history),
        record_adds(key, history.push(record), history.len() as int) || record_deletes(
            key,
            history.push(record),
            history.len() as int,
        ),
    ensures
        history_ok(key, history.push(record)),
{
    let longer = history.push(record);
    assert forall|e: int| 0 <= e < longer.len() implies #[trigger] record_adds(key, longer, e)
        || record_deletes(key, longer, e) by {
        if e < history.len() {
            lemma_replayed_prefix(key, history, longer, e);
            lemma_replayed_prefix(key, history, longer, e + 1);
            assert(record_adds(key, history, e) || record_deletes(key, history, e));
            assert(longer[e] == history[e]);
        }
    }
}

/// The product over the members without one of them is the product over
/// all, divided by the factor of that one.
pub proof fn lemma_member_product_remove(key: nat, members: Seq<nat>, k: int)
    requires
        0 <= k < members.len(),
        invertible(fadd(key, members[k])),
    ensures
        member_product(key, members.remove(k)) == fmul(
            member_product(key, members),
            finv(fadd(key, members[k])),
        ),
    decreases members.len(),
{
    let f = fadd(key, members[k]);
    let v = finv(f);
    lemma_finv(f);
    let rest = members.drop_last();
    if k == members.len() - 1 {
        assert(members.remove(k) =~= rest);
        lemma_member_product_elem(key, rest);
        lemma_fmul_assoc(member_product(key, rest), f, v);
        lemma_fmul_one(member_product(key, rest));
    } else {
        lemma_member_product_remove(key, rest, k);
        assert(members.remove(k).drop_last() =~= rest.remove(k));
        assert(members.remove(k).last() == members.last());
        lemma_fmul_swap(member_product(key, rest), v, fadd(key, members.last()));
    }
}

/// The product of the factors of members is a unit where each factor is.
pub proof fn lemma_member_product_invertible(key: nat, members: Seq<nat>)
    requires
        members_ok(key, members),
    ensures
        invertible(member_product(key, members)),
    decreases members.len(),
{
    if members.len() == 0 {
        lemma_one_invertible();
    } else {
        let rest = members.drop_last();
        assert forall|i: int| 0 <= i < rest.len() implies invertible(
            fadd(key, #[trigger] rest[i]),
        ) by {
            assert(rest[i] == members[i]);
        }
        lemma_member_product_invertible(key, rest);
        assert(members.last() == members[members.len() - 1]);
        lemma_invertible_mul(
            member_product(key, rest),
            fadd(key, members.last()),
        );
    }
}

/// What the record of epoch `e` turns the accumulator into.
pub proof fn lemma_replayed_step(key: nat, history: Seq<DeltaView>, e: int)
    requires
        0 <= e < history.len(),
        history_ok(key, history),
    ensures
        record_adds(key, history, e) ==> replayed(key, history, e + 1) == fmul(
            replayed(key, history, e),
            fadd(key, history[e].additions[0]),
        ) && history[e] == (DeltaView {
            additions: seq![history[e].additions[0]],
            deletions: Seq::empty(),
            coefficients: seq![fneg(replayed(key, history, e))],
        }),
        record_deletes(key, history, e) ==> replayed(key, history, e + 1) == fmul(
            replayed(key, history, e),
            finv(fadd(key, history[e].deletions[0])),
        ) && history[e] == (DeltaView {
            additions: Seq::empty(),
            deletions: seq![history[e].deletions[0]],
            coefficients: seq![replayed(key, history, e + 1)],
        }),
{
    let d = history[e];
    let v = replayed(key, history, e);
    lemma_order_bounds();
    lemma_replayed_elem(key, history, e);
    if record_adds(key, history, e) {
        let a = d.additions[0];
        assert(d.additions =~= seq![a]);
        assert(d.deletions =~= Seq::<nat>::empty());
        assert(d.coefficients =~= seq![fneg(v)]);
        lemma_member_product_single(key, a);
        lemma_one_invertible();
        lemma_fmul_elem(v, fadd(key, a));
        lemma_fmul_one(fmul(v, fadd(key, a)));
    }
    if record_deletes(key, history, e) {
        let x = d.deletions[0];
        assert(d.additions =~= Seq::<nat>::empty());
        assert(d.deletions =~= seq![x]);
        assert(d.coefficients =~= seq![replayed(key, history, e + 1)]);
        lemma_member_product_single(key, x);
        lemma_fmul_one(v);
    }
}

/// A witness that is valid at one epoch and has been carried over the
/// records of the epochs up to a later one is valid at that one.
pub proof fn lemma_update_keeps_valid(
    key: nat,
    history: Seq<DeltaView>,
    y: nat,
    w: nat,
    from: int,
    to: int,
)
    requires
        history_ok(key, history),
        0 <= from <= to <= history.len(),
        witness_valid(w, y, key, replayed(key, history, from)),
        updated(w, y, history.subrange(from, to)) is Some,
    ensures
        witness_valid(
            updated(w, y, history.subrange(from, to))->Some_0,
            y,
            key,
            replayed(key, history, to),
        ),
    decreases to - from,
{
    let records = history.subrange(from, to);
    if to > from {
        let e = to - 1;
        assert(records.drop_last() =~= history.subrange(from, e));
        assert(records.last() == history[e]);
        lemma_update_keeps_valid(key, history, y, w, from, e);
        let before = updated(w, y, history.subrange(from, e))->Some_0;
        let v = replayed(key, history, e);
        lemma_replayed_elem(key, history, e);
        lemma_replayed_step(key, history, e);
        assert(record_adds(key, history, e) || record_deletes(key, history, e));
        if record_adds(key, history, e) {
            lemma_fold_addition(before, y, key, v, history[e].additions[0]);
        } else {
            lemma_fold_deletion(before, y, key, v, history[e].deletions[0]);
        }
    }
}

/// A holder whose identifier is deleted on the way is left without a
/// witness.
pub proof fn lemma_update_loses_deleted(
    key: nat,
    history: Seq<DeltaView>,
    y: nat,
    w: nat,
    from: int,
    to: int,
    e: int,
)
    requires
        history_ok(key, history),
        0 <= from <= e < to <= history.len(),
        record_deletes(key, history, e),
        history[e].deletions[0] == y,
    ensures
        updated(w, y, history.subrange(from, to)) is None,
{
    let upto = history.subrange(from, e + 1);
    assert(upto.drop_last() =~= history.subrange(from, e));
    assert(upto.last() == history[e]);
    lemma_difference_product_single(y, y);
    assert(history[e].deletions =~= seq![y]);
    lemma_fsub_self(y);
    if invertible(0) {
        lemma_invertible_nonzero(0);
    }
    assert(updated(w, y, upto) is None);
    assert(history.subrange(from, to).take(e + 1 - from) =~= upto);
    lemma_updated_fails(w, y, history.subrange(from, to), e + 1 - from);
}

/// The denominator of a record of an authority vanishes at an identifier
/// exactly where the record deletes it.
pub proof fn lemma_vanishes_where_deleted(key: nat, history: Seq<DeltaView>, y: nat, e: int)
    requires
        history_ok(key, history),
        0 <= e < history.len(),
        is_elem(y),
    ensures
        evaluated(history[e], y).denominator == 0 <==> history[e].deletions.contains(y),
        history[e].deletions.contains(y) <==> record_deletes(key, history, e)
            && history[e].deletions[0] == y,
{
    let d = history[e];
    lemma_order_bounds();
    assert(record_adds(key, history, e) || record_deletes(key, history, e));
    if record_deletes(key, history, e) {
        let x = d.deletions[0];
        assert(d.deletions =~= seq![x]);
        lemma_difference_product_single(x, y);
        lemma_fsub_zero_iff(x, y);
        if x == y {
            assert(d.deletions[0] == y);
        }
    } else {
        assert(d.deletions =~= Seq::<nat>::empty());
        lemma_difference_product_single(y, y);
    }
}

/// Whether an identifier is deleted on the way decides whether a witness
/// can be carried over the records of an authority: where it is not, the
/// witness that comes out is valid at the end; where it is, none comes out.
pub proof fn lemma_carried(
    key: nat,
    history: Seq<DeltaView>,
    from: int,
    w: nat,
    y: nat,
    records: Seq<DeltaView>,
)
    requires
        carried_from(key, history, from, w, y, records),
    ensures
        updated(w, y, records) matches Some(v) ==> witness_valid(
            v,
            y,
            key,
            replayed(key, history, from + records.len()),
        ) && !deleted_between(history, y, from, from + records.len()),
{
    let to = from + records.len();
    if updated(w, y, records) is Some {
        lemma_update_keeps_valid(key, history, y, w, from, to);
        if deleted_between(history, y, from, to) {
            let e = choose|e: int| from <= e < to && (#[trigger] history[e]).deletions.contains(y);
            assert(record_adds(key, history, e) || record_deletes(key, history, e));
            lemma_update_loses_deleted(key, history, y, w, from, to, e);
        }
    }
}

impl Server {
    /// An accumulator in order is a unit: no factor of a member is zero.
    pub proof fn lemma_value_invertible(self)
        requires
            self.wf(),
        ensures
            invertible(self.value()),
    {
        lemma_member_product_invertible(self.key(), self.members());
    }

    /// A witness that is valid before an identifier is added is not valid
    /// after, but for the one identifier whose factor is one.
    pub proof fn lemma_stale_after_add(self, id: nat, w: nat, y: nat)
        requires
            self.wf(),
            witness_valid(w, y, self.key(), self.value()),
            fadd(self.key(), id) != 1,
        ensures
            !witness_valid(w, y, self.key(), fmul(self.value(), fadd(self.key(), id))),
    {
        self.lemma_value_invertible();
        lemma_fadd_elem(self.key(), id);
        lemma_witness_stale(w, y, self.key(), self.value(), fadd(self.key(), id));
    }

    /// A witness that is valid before an identifier is deleted is not valid
    /// after, but for the one identifier whose factor is one.
    pub proof fn lemma_stale_after_delete(self, id: nat, w: nat, y: nat)
        requires
            self.wf(),
            witness_valid(w, y, self.key(), self.value()),
            invertible(fadd(self.key(), id)),
            fadd(self.key(), id) != 1,
        ensures
            !witness_valid(w, y, self.key(), fmul(self.value(), finv(fadd(self.key(), id)))),
    {
        let f = fadd(self.key(), id);
        self.lemma_value_invertible();
        lemma_finv(f);
        if finv(f) == 1 {
            lemma_fadd_elem(self.key(), id);
            lemma_fmul_one(f);
        }
        lemma_witness_stale(w, y, self.key(), self.value(), finv(f));
    }

    /// The records that the authority publishes are those of consecutive
    /// epochs, in their order.
    pub proof fn lemma_records_consecutive(self, from: int)
        requires
            self.wf(),
            0 <= from <= self.epoch(),
        ensures
            consecutive(self.stamps().subrange(from, self.epoch() as int)),
    {
    }

    /// A witness that was valid at an earlier epoch, carried over the
    /// records that the authority has published since, is valid against the
    /// accumulator as it stands.
    pub proof fn lemma_records_keep_valid(self, w: nat, y: nat, from: int)
        requires
            self.wf(),
            0 <= from <= self.epoch(),
            witness_valid(w, y, self.key(), replayed(self.key(), self.history(), from)),
            updated(w, y, self.history().subrange(from, self.epoch() as int)) is Some,
        ensures
            witness_valid(
                updated(w, y, self.history().subrange(from, self.epoch() as int))->Some_0,
                y,
                self.key(),
                self.value(),
            ),
    {
        lemma_update_keeps_valid(self.key(), self.history(), y, w, from, self.epoch() as int);
    }

    /// The secret key.
    pub closed spec fn key(self) -> nat {
        self.secret_key@
    }

    /// The logarithm of the accumulator.
    pub closed spec fn value(self) -> nat {
        self.accumulator@
    }

    /// The members, in the order in which they were added.
    pub closed spec fn members(self) -> Seq<nat> {
        element_values(self.members@)
    }

    /// The records of change, one for each epoch that has passed.
    pub closed spec fn history(self) -> Seq<DeltaView> {
        delta_views(self.history@)
    }

    /// The epochs with which the records of change are stamped.
    pub closed spec fn stamps(self) -> Seq<nat> {
        delta_epochs(self.history@)
    }

    /// The logarithm of the key against which witnesses are verified.
    pub closed spec fn witness_key(self) -> nat {
        self.public_keys.witness_key@
    }

    /// The logarithm of the key against which signatures are verified.
    pub closed spec fn sign_key(self) -> nat {
        self.public_keys.sign_key@
    }

    /// The parameters with which the authority was made.
    pub closed spec fn parameters(self) -> AccParams {
        self.params
    }

    /// The number of epochs that have passed.
    pub open spec fn epoch(self) -> nat {
        self.history().len()
    }

    /// The state is in order: the public keys are those of the secret key,
    /// no member occurs twice, and the accumulator is both the commitment to
    /// the members and what the history gives when replayed from the start.
    pub open spec fn wf(self) -> bool {
        &&& self.witness_key() == self.key()
        &&& self.sign_key() == fmul(self.parameters().k2@, self.key())
        &&& self.members().no_duplicates()
        &&& members_ok(self.key(), self.members())
        &&& self.value() == member_product(self.key(), self.members())
        &&& history_ok(self.key(), self.history())
        &&& self.value() == replayed(self.key(), self.history(), self.epoch() as int)
        &&& self.stamps() == Seq::new(self.epoch(), |e: int| e as nat)
    }

    /// An authority with a key drawn at random, no members, at epoch 0.
    pub fn new(params: &AccParams) -> (r: Server)
        ensures
            r.wf(),
            r.epoch() == 0,
            r.members() == Seq::<nat>::empty(),
            r.value() == 1,
            r.parameters() == *params,
    {
        Server::with_key(params, SecretKey::new(None))
    }

    /// An authority with the given key, no members, at epoch 0.
    pub fn with_key(params: &AccParams, key: SecretKey) -> (r: Server)
        ensures
            r.wf(),
            r.key() == key@,
            r.epoch() == 0,
            r.members() == Seq::<nat>::empty(),
            r.value() == 1,
            r.parameters() == *params,
    {
        let witness_key = PublicKey::from_secret(&key);
        let sign_key = PublicKey(params.k2.mul(&key.0));
        let accumulator = Accumulator::with_elements(&key, Vec::new().as_slice());
        let r = Server {
            params: *params,
            secret_key: key,
            public_keys: PublicKeys { witness_key, sign_key },
            accumulator,
            history: Vec::new(),
            members: Vec::new(),
        };
        assert(r.members() =~= Seq::<nat>::empty());
        assert(r.history() =~= Seq::<DeltaView>::empty());
        assert(r.stamps() =~= Seq::new(r.epoch(), |e: int| e as nat));
        r
    }

    /// The number of epochs that have passed.
    pub fn get_epoch(&self) -> (r: usize)
        ensures
            r == self.epoch(),
    {
        self.history.len()
    }

    /// The accumulator.
    pub fn get_accumulator(&self) -> (r: Accumulator)
        ensures
            r@ == self.value(),
    {
        self.accumulator
    }

    /// The key against which witnesses are verified.
    pub fn get_witness_public_key(&self) -> (r: PublicKey)
        ensures
            r@ == self.witness_key(),
    {
        self.public_keys.witness_key
    }

    /// The key against which signatures are verified.
    pub fn get_sign_public_key(&self) -> (r: PublicKey)
        ensures
            r@ == self.sign_key(),
    {
        self.public_keys.sign_key
    }

    /// Both public keys.
    pub fn get_public_keys(&self) -> (r: PublicKeys)
        ensures
            r.witness_key@ == self.witness_key(),
            r.sign_key@ == self.sign_key(),
    {
        self.public_keys
    }

    /// Admits an identifier. The accumulator takes its factor, the epoch
    /// advances by one, and the record of the change joins the history. The
    /// witness returned is the accumulator as it was before. An identifier
    /// that is a member already, or whose factor is zero, is refused, and
    /// nothing changes.
    pub fn add(&mut self, id: Element) -> (r: Result<MembershipWitness, Error>)
        requires
            old(self).wf(),
        ensures
            final(self).wf(),
            final(self).key() == old(self).key(),
            final(self).parameters() == old(self).parameters(),
            match r {
                Ok(w) => {
                    &&& !old(self).members().contains(id@)
                    &&& invertible(fadd(old(self).key(), id@))
                    &&& w@ == old(self).value()
                    &&& final(self).value() == fmul(old(self).value(), fadd(old(self).key(), id@))
                    &&& final(self).members() == old(self).members().push(id@)
                    &&& final(self).history() == old(self).history().push(
                        DeltaView {
                            additions: seq![id@],
                            deletions: Seq::empty(),
                            coefficients: seq![fneg(old(self).value())],
                        },
                    )
                    &&& witness_valid(w@, id@, final(self).key(), final(self).value())
                },
                Err(e) => {
                    &&& *final(self) == *old(self)
                    &&& e == Error::AlreadyMember <==> old(self).members().contains(id@)
                    &&& e == Error::Degenerate <==> !old(self).members().contains(id@)
                        && fadd(old(self).key(), id@) == 0
                    &&& e == Error::AlreadyMember || e == Error::Degenerate
                },
            },
    {
        if contains(self.members.as_slice(), &id) {
            return Err(Error::AlreadyMember);
        }
        let factor = self.secret_key.0.add(&id.0);
        if factor.invert().is_none() {
            return Err(Error::Degenerate);
        }
        let before = self.accumulator;
        let ghost key = self.key();
        let ghost members = self.members();
        let ghost history = self.history();
        let ghost stamps = self.stamps();
        let mut additions: Vec<Element> = Vec::new();
        additions.push(id);
        let mut coefficients: Vec<Coefficient> = Vec::new();
        coefficients.push(Coefficient(before.0.neg()));
        let record = Delta {
            epoch: self.history.len(),
            additions,
            deletions: Vec::new(),
            coefficients,
        };
        let ghost view = DeltaView {
            additions: seq![id@],
            deletions: Seq::empty(),
            coefficients: seq![fneg(before@)],
        };
        proof {
            assert(record@.additions =~= view.additions);
            assert(record@.deletions =~= view.deletions);
            assert(record@.coefficients =~= view.coefficients);
        }
        self.accumulator = before.add(&self.secret_key, &id);
        self.history.push(record);
        self.members.push(id);
        proof {
            let longer = history.push(view);
            assert(self.history() =~= longer);
            assert(self.stamps() =~= stamps.push(history.len()));
            assert(self.stamps() =~= Seq::new(self.epoch(), |e: int| e as nat));
            assert(self.members() =~= members.push(id@));
            assert(members.push(id@).drop_last() =~= members);
            // The new record and the accumulator that it leads to.
            lemma_replayed_prefix(key, history, longer, history.len() as int);
            lemma_member_product_single(key, id@);
            lemma_order_bounds();
            lemma_one_invertible();
            lemma_fmul_elem(before@, fadd(key, id@));
            lemma_fmul_one(fmul(before@, fadd(key, id@)));
            use_type_invariant(&id.0);
            assert(record_adds(key, longer, history.len() as int));
            lemma_history_grows(key, history, view);
            // The members and their factors.
            assert forall|i: int| 0 <= i < members.push(id@).len() implies invertible(
                fadd(key, #[trigger] members.push(id@)[i]),
            ) by {
                if i < members.len() {
                    assert(members.push(id@)[i] == members[i]);
                }
            }
            assert(members.push(id@).no_duplicates()) by {
                let more = members.push(id@);
                assert forall|i: int, j: int|
                    0 <= i < more.len() && 0 <= j < more.len() && i != j
                implies more[i] != more[j] by {
                    if i < members.len() && j < members.len() {
                        assert(members[i] != members[j]);
                    } else if i < members.len() {
                        assert(members.contains(members[i]));
                    } else {
                        assert(members.contains(members[j]));
                    }
                }
            }
            lemma_fadd_comm(key, id@);
        }
        Ok(MembershipWitness(before.0))
    }

    /// Removes a member. The accumulator loses its factor, the epoch
    /// advances by one, and the record of the change joins the history. The
    /// new accumulator is returned. An identifier that is not a member is
    /// refused, and nothing changes.
    pub fn delete(&mut self, id: Element) -> (r: Result<Accumulator, Error>)
        requires
            old(self).wf(),
        ensures
            final(self).wf(),
            final(self).key() == old(self).key(),
            final(self).parameters() == old(self).parameters(),
            match r {
                Ok(a) => {
                    &&& old(self).members().contains(id@)
                    &&& invertible(fadd(old(self).key(), id@))
                    &&& a@ == final(self).value()
                    &&& final(self).value() == fmul(
                        old(self).value(),
                        finv(fadd(old(self).key(), id@)),
                    )
                    &&& final(self).members() == old(self).members().remove(
                        old(self).members().index_of(id@),
                    )
                    &&& final(self).history() == old(self).history().push(
                        DeltaView {
                            additions: Seq::empty(),
                            deletions: seq![id@],
                            coefficients: seq![final(self).value()],
                        },
                    )
                },
                Err(e) => {
                    &&& *final(self) == *old(self)
                    &&& !old(self).members().contains(id@)
                    &&& e == Error::NotMember
                },
            },
    {
        let position = match position(self.members.as_slice(), &id) {
            Some(k) => k,
            None => {
                return Err(Error::NotMember);
            },
        };
        let ghost key = self.key();
        let ghost members = self.members();
        let ghost history = self.history();
        let ghost stamps = self.stamps();
        let ghost k = position as int;
        let factor = self.secret_key.0.add(&id.0);
        assert(invertible(fadd(key, members[k])));
        let inverse = factor.invert().unwrap();
        let before = self.accumulator;
        let after = Accumulator(before.0.mul(&inverse));
        let mut deletions: Vec<Element> = Vec::new();
        deletions.push(id);
        let mut coefficients: Vec<Coefficient> = Vec::new();
        coefficients.push(Coefficient(after.0));
        let record = Delta {
            epoch: self.history.len(),
            additions: Vec::new(),
            deletions,
            coefficients,
        };
        let ghost view = DeltaView {
            additions: Seq::empty(),
            deletions: seq![id@],
            coefficients: seq![after@],
        };
        proof {
            assert(record@.additions =~= view.additions);
            assert(record@.deletions =~= view.deletions);
            assert(record@.coefficients =~= view.coefficients);
        }
        self.accumulator = after;
        self.history.push(record);
        self.members.remove(position);
        proof {
            let longer = history.push(view);
            let fewer = members.remove(k);
            assert(self.history() =~= longer);
            assert(self.stamps() =~= stamps.push(history.len()));
            assert(self.stamps() =~= Seq::new(self.epoch(), |e: int| e as nat));
            assert(self.members() =~= fewer);
            assert(members.index_of(id@) == k) by {
                let j = members.index_of(id@);
                assert(0 <= j < members.len() && members[j] == id@);
            }
            // The new record and the accumulator that it leads to.
            lemma_replayed_prefix(key, history, longer, history.len() as int);
            lemma_member_product_single(key, id@);
            lemma_order_bounds();
            use_type_invariant(&before.0);
            lemma_fmul_one(before@);
            use_type_invariant(&id.0);
            assert(record_deletes(key, longer, history.len() as int));
            lemma_history_grows(key, history, view);
            // The members and their factors.
            lemma_member_product_remove(key, members, k);
            assert forall|i: int| 0 <= i < fewer.len() implies invertible(
                fadd(key, #[trigger] fewer[i]),
            ) by {
                if i < k {
                    assert(fewer[i] == members[i]);
                } else {
                    assert(fewer[i] == members[i + 1]);
                }
            }
            assert(fewer.no_duplicates()) by {
                assert forall|i: int, j: int|
                    0 <= i < fewer.len() && 0 <= j < fewer.len() && i != j implies fewer[i]
                    != fewer[j] by {
                    let a = if i < k {
                        i
                    } else {
                        i + 1
                    };
                    let b = if j < k {
                        j
                    } else {
                        j + 1
                    };
                    assert(fewer[i] == members[a] && fewer[j] == members[b]);
                }
            }
        }
        Ok(after)
    }

    /// The witness of a member against the accumulator as it stands.
    pub fn witness(&self, id: &Element) -> (r: Result<MembershipWitness, Error>)
        requires
            self.wf(),
        ensures
            match r {
                Ok(w) => self.members().contains(id@) && w@ == fmul(
                    self.value(),
                    finv(fadd(id@, self.key())),
                ) && witness_valid(w@, id@, self.key(), self.value()),
                Err(e) => !self.members().contains(id@) && e == Error::NotMember,
            },
    {
        let position = match position(self.members.as_slice(), id) {
            Some(k) => k,
            None => {
                return Err(Error::NotMember);
            },
        };
        proof {
            assert(invertible(fadd(self.key(), self.members()[position as int])));
            lemma_fadd_comm(self.key(), id@);
        }
        Ok(MembershipWitness::new(id, &self.accumulator, &self.secret_key).unwrap())
    }

    /// The records of the epochs from `from_epoch` on, in their order: what
    /// the authority publishes of its changes. An epoch beyond the history
    /// is refused.
    pub fn records(&self, from_epoch: usize) -> (r: Result<Vec<Delta>, Error>)
        ensures
            match r {
                Ok(records) => {
                    &&& from_epoch <= self.epoch()
                    &&& delta_views(records@) == self.history().subrange(
                        from_epoch as int,
                        self.epoch() as int,
                    )
                    &&& delta_epochs(records@) == self.stamps().subrange(
                        from_epoch as int,
                        self.epoch() as int,
                    )
                },
                Err(e) => from_epoch > self.epoch() && e == Error::Epoch,
            },
    {
        if from_epoch > self.history.len() {
            return Err(Error::Epoch);
        }
        let mut out: Vec<Delta> = Vec::new();
        let mut e: usize = from_epoch;
        while e < self.history.len()
            invariant
                from_epoch <= e <= self.history.len(),
                out@.len() == e - from_epoch,
                forall|k: int|
                    0 <= k < out@.len() ==> (#[trigger] out@[k])@ == self.history@[from_epoch + k]@
                        && out@[k].epoch == self.history@[from_epoch + k].epoch,
            decreases self.history.len() - e,
        {
            out.push(self.history[e].copy());
            e += 1;
        }
        assert(delta_views(out@) =~= self.history().subrange(
            from_epoch as int,
            self.epoch() as int,
        ));
        assert(delta_epochs(out@) =~= self.stamps().subrange(
            from_epoch as int,
            self.epoch() as int,
        ));
        Ok(out)
    }

    /// The values of the records of the epochs from `from_epoch` on, one for
    /// each epoch and in their order, at what the queries stand for. The
    /// queries are the powers of the holder's identifier, or shares of
    /// them, the first power first. A record of an authority holds one
    /// change, so that its value is of the first degree in the identifier:
    /// it is taken at the first query, and no further power is read.
    /// Without a query the terms of the identifier fall away, which leaves
    /// the values at zero. An epoch beyond the history is refused; nothing
    /// else is.
    pub fn update(&self, from_epoch: usize, queries: &[Scalar]) -> (r: Result<
        Vec<DeltaShare>,
        Error,
    >)
        ensures
            match r {
                Ok(shares) => {
                    &&& from_epoch <= self.epoch()
                    &&& share_views(shares@) == Seq::new(
                        (self.epoch() - from_epoch) as nat,
                        |k: int| evaluated(self.history()[from_epoch + k], first_power(queries@)),
                    )
                },
                Err(e) => from_epoch > self.epoch() && e == Error::Epoch,
            },
    {
        let epoch = self.history.len();
        if from_epoch > epoch {
            return Err(Error::Epoch);
        }
        let query = if queries.len() > 0 {
            queries[0]
        } else {
            Scalar::zero()
        };
        let mut shares: Vec<DeltaShare> = Vec::new();
        let mut e: usize = from_epoch;
        while e < epoch
            invariant
                from_epoch <= e <= epoch,
                epoch == self.history.len(),
                query@ == first_power(queries@),
                shares@.len() == e - from_epoch,
                forall|j: int|
                    0 <= j < shares@.len() ==> (#[trigger] shares@[j])@ == evaluated(
                        self.history()[from_epoch + j],
                        query@,
                    ),
            decreases epoch - e,
        {
            let share = self.history[e].evaluate(&query);
            shares.push(share);
            e += 1;
        }
        assert(share_views(shares@) =~= Seq::new(
            (self.epoch() - from_epoch) as nat,
            |k: int| evaluated(self.history()[from_epoch + k], first_power(queries@)),
        ));
        Ok(shares)
    }
}

/// The place of an identifier among the members, if it is one.
pub fn position(members: &[Element], id: &Element) -> (r: Option<usize>)
    ensures
        match r {
            Some(k) => k < members.len() && element_values(members@)[k as int] == id@,
            None => !element_values(members@).contains(id@),
        },
{
    let ghost values = element_values(members@);
    let mut i: usize = 0;
    while i < members.len()
        invariant
            i <= members.len(),
            values == element_values(members@),
            forall|j: int| 0 <= j < i ==> values[j] != id@,
        decreases members.len() - i,
    {
        if members[i].0.eq(&id.0) {
            return Some(i);
        }
        i += 1;
    }
    None
}

} // verus!
