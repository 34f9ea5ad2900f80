//! The holder of an identifier and of its witness.
use crate::accumulator::{witness_valid, Accumulator, Element, MembershipWitness};
use crate::error::Error;
use crate::field::{
    fsub, is_elem, lemma_fadd_zero, lemma_fmul_zero, lemma_fneg_elem, lemma_order_bounds,
    lemma_order_value,
};
use crate::group::G1Point;
use crate::interpolation::{
    consistent, lemma_admissible_usable, lemma_constant_eval, lemma_rebuilt,
    lemma_subtracted_from_eval, nodes_usable, subtracted_from,
};
use crate::membership::{make_membership_proof, proof_of, MembershipProof};
use crate::params::{AccParams, PublicKeys};
use crate::scalar::Scalar;
use crate::server::{
    deleted_between, first_power, history_ok, lemma_carried, lemma_replayed_elem,
    lemma_replayed_step, lemma_update_keeps_valid, lemma_vanishes_where_deleted, record_adds,
    record_deletes, replayed, share_views, Server,
};
use crate::shamir::{
    admissible, check_nodes, check_values, lagrange_coefficients, nodes_admissible, nodes_read,
    poly_eval, rebuilt, scalar_values, shamir_coefficients, shamir_rebuild_point,
    shamir_rebuild_scalar, shamir_share, share_nodes, share_points, share_values, shares_of,
};
use crate::update::{
    evaluated, folded, lemma_difference_product_single, updated, DeltaShare, DeltaView, ShareView,
};
use vstd::prelude::*;

verus! {

/// The answers of the authorities for the epoch `from + e`, each to the
/// query that was put to it.
pub open spec fn answers(servers: Seq<Server>, queries: Seq<nat>, from: int, e: int) -> Seq<
    ShareView,
> {
    Seq::new(servers.len(), |i: int| evaluated(servers[i].history()[from + e], queries[i]))
}

/// The answers of the authorities for each of the `m` epochs from `from`
/// on.
pub open spec fn all_answers(servers: Seq<Server>, queries: Seq<nat>, from: int, m: int) -> Seq<
    Seq<ShareView>,
> {
    Seq::new(m as nat, |e: int| answers(servers, queries, from, e))
}

/// The numerators of a sequence of answers.
pub open spec fn numerators(column: Seq<ShareView>) -> Seq<nat> {
    Seq::new(column.len(), |i: int| column[i].numerator)
}

/// The denominators of a sequence of answers.
pub open spec fn denominators(column: Seq<ShareView>) -> Seq<nat> {
    Seq::new(column.len(), |i: int| column[i].denominator)
}

/// The points of a sequence of answers.
pub open spec fn points(column: Seq<ShareView>) -> Seq<nat> {
    Seq::new(column.len(), |i: int| column[i].point)
}

/// What the answers of the authorities for one epoch combine to: each of
/// the three parts is reconstructed from the answers, and there is nothing
/// where a reconstruction fails its check.
pub open spec fn combined(
    column: Seq<ShareView>,
    coefficients: Seq<nat>,
    checks: Option<Seq<nat>>,
) -> Option<ShareView> {
    match (
        rebuilt(numerators(column), coefficients, checks),
        rebuilt(denominators(column), coefficients, checks),
        rebuilt(points(column), coefficients, checks),
    ) {
        (Some(numerator), Some(denominator), Some(point)) => Some(
            ShareView { numerator, denominator, point },
        ),
        _ => None,
    }
}

/// The witness `w` carried over the epochs of which the authorities'
/// answers are given, one after the other: the answers for an epoch are
/// combined, and the witness folded with what they combine to.
pub open spec fn combined_update(
    w: nat,
    columns: Seq<Seq<ShareView>>,
    coefficients: Seq<nat>,
    checks: Option<Seq<nat>>,
) -> Result<nat, Error>
    decreases columns.len(),
{
    if columns.len() == 0 {
        Ok(w)
    } else {
        match combined_update(w, columns.drop_last(), coefficients, checks) {
            Err(e) => Err(e),
            Ok(v) => match combined(columns.last(), coefficients, checks) {
                None => Err(Error::Mismatch),
                Some(share) => match folded(v, share) {
                    Some(next) => Ok(next),
                    None => Err(Error::NoWitness),
                },
            },
        }
    }
}

/// What comes of an update of a holder from the authorities, to each of
/// which one share of the holder's identifier is put: the new witness, or
/// the reason for which there is none.
pub open spec fn update_outcome(
    user: User,
    servers: Seq<Server>,
    threshold: int,
    nodes: Seq<nat>,
    queries: Seq<nat>,
) -> Result<nat, Error> {
    let n = servers.len() as int;
    if threshold <= 0 || n < threshold {
        Err(Error::InsufficientShares)
    } else if nodes.len() != n || queries.len() != n {
        Err(Error::Shares)
    } else if !nodes_admissible(nodes, nodes_read(n, threshold)) {
        Err(Error::Shares)
    } else if user.witness() is None {
        Err(Error::NoWitness)
    } else if exists|i: int| 0 <= i < n && #[trigger] servers[i].epoch() != servers[0].epoch() {
        Err(Error::Shares)
    } else if user.epoch() > servers[0].epoch() {
        Err(Error::Epoch)
    } else {
        combined_update(
            user.witness()->Some_0,
            all_answers(
                servers,
                queries,
                user.epoch() as int,
                servers[0].epoch() - user.epoch(),
            ),
            lagrange_coefficients(nodes.take(threshold)),
            if n > threshold {
                Some(lagrange_coefficients(check_nodes(nodes, threshold)))
            } else {
                None
            },
        )
    }
}

/// What an update checks its combinations against: the coefficients of
/// the checking nodes where there are more authorities than the threshold,
/// and nothing where there are not.
pub open spec fn update_checks(nodes: Seq<nat>, n: int, threshold: int) -> Option<Seq<nat>> {
    if n > threshold {
        Some(lagrange_coefficients(check_nodes(nodes, threshold)))
    } else {
        None
    }
}

/// The answers of the authorities for the epoch `e` after the holder's
/// combine to a value whose denominator is zero.
pub open spec fn loses_at(
    user: User,
    servers: Seq<Server>,
    threshold: int,
    nodes: Seq<nat>,
    queries: Seq<nat>,
    e: int,
) -> bool {
    match combined(
        answers(servers, queries, user.epoch() as int, e),
        lagrange_coefficients(nodes.take(threshold)),
        update_checks(nodes, servers.len() as int, threshold),
    ) {
        Some(s) => s.denominator == 0,
        None => false,
    }
}

/// The answers of the authorities for one of the epochs that the holder has
/// missed combine to a value whose denominator is zero.
pub open spec fn update_loses(
    user: User,
    servers: Seq<Server>,
    threshold: int,
    nodes: Seq<nat>,
    queries: Seq<nat>,
) -> bool {
    exists|e: int|
        0 <= e < servers[0].epoch() - user.epoch() && #[trigger] loses_at(
            user,
            servers,
            threshold,
            nodes,
            queries,
            e,
        )
}

/// Puts to each authority its share of the holder's identifier, and
/// collects the answers for the `m` epochs from `from` on.
fn collect_answers(servers: &[Server], shares: &[(Scalar, Scalar)], from: usize, m: usize) -> (r:
    Vec<Vec<DeltaShare>>)
    requires
        shares.len() == servers.len(),
        forall|i: int| 0 <= i < servers.len() ==> (#[trigger] servers[i]).epoch() == from + m,
    ensures
        r@.len() == servers.len(),
        forall|i: int| 0 <= i < r@.len() ==> (#[trigger] r@[i])@.len() == m,
        forall|i: int, e: int|
            0 <= i < r@.len() && 0 <= e < m ==> (#[trigger] r@[i]@[e])@ == evaluated(
                servers[i].history()[from + e],
                shares[i].1@,
            ),
{
    let mut all: Vec<Vec<DeltaShare>> = Vec::new();
    let mut i: usize = 0;
    while i < servers.len()
        invariant
            i <= servers.len(),
            shares.len() == servers.len(),
            forall|k: int| 0 <= k < servers.len() ==> (#[trigger] servers[k]).epoch() == from + m,
            all@.len() == i,
            forall|k: int| 0 <= k < i ==> (#[trigger] all@[k])@.len() == m,
            forall|k: int, e: int|
                0 <= k < i && 0 <= e < m ==> (#[trigger] all@[k]@[e])@ == evaluated(
                    servers[k].history()[from + e],
                    shares[k].1@,
                ),
        decreases servers.len() - i,
    {
        let mut queries: Vec<Scalar> = Vec::new();
        queries.push(shares[i].1);
        assert(servers[i as int].epoch() == from + m);
        assert(first_power(queries@) == shares[i as int].1@);
        let answer = servers[i].update(from, queries.as_slice()).unwrap();
        proof {
            assert(share_views(answer@).len() == m);
            assert forall|e: int| 0 <= e < m implies (#[trigger] answer@[e])@ == evaluated(
                servers[i as int].history()[from + e],
                shares[i as int].1@,
            ) by {
                assert(share_views(answer@)[e] == answer@[e]@);
            }
        }
        all.push(answer);
        i += 1;
    }
    all
}

/// The answers of the authorities for the epoch `e`, out of all their
/// answers.
pub open spec fn column(all: Seq<Vec<DeltaShare>>, e: int) -> Seq<ShareView> {
    Seq::new(all.len(), |i: int| all[i]@[e]@)
}

/// Combines the answers of the authorities for one epoch.
fn combine(
    shares: &[(Scalar, Scalar)],
    all: &Vec<Vec<DeltaShare>>,
    e: usize,
    coefficients: &Vec<Scalar>,
    checks: &Option<Vec<Scalar>>,
) -> (r: Option<DeltaShare>)
    requires
        shares.len() == all@.len(),
        forall|i: int| 0 <= i < all@.len() ==> e < (#[trigger] all@[i])@.len(),
        coefficients@.len() <= all@.len(),
        checks matches Some(c) ==> coefficients@.len() < all@.len() && 1 <= c@.len()
            && coefficients@.len() <= c@.len(),
    ensures
        match r {
            Some(share) => combined(
                column(all@, e as int),
                scalar_values(coefficients@),
                check_values(*checks),
            ) == Some(share@),
            None => combined(
                column(all@, e as int),
                scalar_values(coefficients@),
                check_values(*checks),
            ) is None,
        },
{
    let ghost answers = column(all@, e as int);
    let mut tops: Vec<(Scalar, Scalar)> = Vec::new();
    let mut bottoms: Vec<(Scalar, Scalar)> = Vec::new();
    let mut marks: Vec<(Scalar, G1Point)> = Vec::new();
    let mut i: usize = 0;
    while i < all.len()
        invariant
            i <= all@.len(),
            shares.len() == all@.len(),
            forall|k: int| 0 <= k < all@.len() ==> e < (#[trigger] all@[k])@.len(),
            answers == column(all@, e as int),
            tops@.len() == i,
            bottoms@.len() == i,
            marks@.len() == i,
            forall|k: int| 0 <= k < i ==> (#[trigger] tops@[k]).1@ == answers[k].numerator,
            forall|k: int| 0 <= k < i ==> (#[trigger] bottoms@[k]).1@ == answers[k].denominator,
            forall|k: int| 0 <= k < i ==> (#[trigger] marks@[k]).1@ == answers[k].point,
        decreases all@.len() - i,
    {
        let node = shares[i].0;
        assert(e < all@[i as int]@.len());
        let answer = all[i][e];
        tops.push((node, answer.numerator));
        bottoms.push((node, answer.denominator));
        marks.push((node, answer.point));
        i += 1;
    }
    proof {
        assert(share_values(tops@) =~= numerators(answers));
        assert(share_values(bottoms@) =~= denominators(answers));
        assert(share_points(marks@) =~= points(answers));
    }
    let numerator = shamir_rebuild_scalar(tops.as_slice(), coefficients.as_slice(), checks);
    let denominator = shamir_rebuild_scalar(bottoms.as_slice(), coefficients.as_slice(), checks);
    let point = shamir_rebuild_point(marks.as_slice(), coefficients.as_slice(), checks);
    match (numerator, denominator, point) {
        (Ok(numerator), Ok(denominator), Ok(point)) => Some(
            DeltaShare { numerator, denominator, point },
        ),
        _ => None,
    }
}

/// The identifier of a holder.
pub type UserID = Element;

/// A holder: its identifier, its witness once it has one, and the
/// accumulator and epoch for which the witness was last made valid.
#[derive(Clone, Copy, Debug)]
pub struct User {
    id: UserID,
    witness: Option<MembershipWitness>,
    epoch: usize,
    accumulator: Accumulator,
    public_keys: PublicKeys,
}

impl User {
    /// The identifier.
    pub closed spec fn id(self) -> nat {
        self.id@
    }

    /// The logarithm of the witness, if the holder has one.
    pub closed spec fn witness(self) -> Option<nat> {
        match self.witness {
            Some(w) => Some(w@),
            None => None,
        }
    }

    /// The epoch at which the holder last saw the authority.
    pub closed spec fn epoch(self) -> nat {
        self.epoch as nat
    }

    /// The logarithm of the accumulator as the holder last saw it.
    pub closed spec fn value(self) -> nat {
        self.accumulator@
    }

    /// The logarithm of the key against which the holder checks its
    /// witness.
    pub closed spec fn witness_key(self) -> nat {
        self.public_keys.witness_key@
    }

    /// A holder of the given identifier, who has seen the authority as it
    /// stands but has no witness yet.
    pub fn new(server: &Server, id: UserID) -> (r: User)
        ensures
            r.id() == id@,
            r.witness() is None,
            r.epoch() == server.epoch(),
            r.value() == server.value(),
            r.witness_key() == server.witness_key(),
    {
        User {
            id,
            witness: None,
            epoch: server.get_epoch(),
            accumulator: server.get_accumulator(),
            public_keys: server.get_public_keys(),
        }
    }

    /// A holder in the state given: for a holder that was taken apart to be
    /// kept or sent.
    pub fn from_parts(
        id: UserID,
        witness: Option<MembershipWitness>,
        epoch: usize,
        accumulator: Accumulator,
        public_keys: PublicKeys,
    ) -> (r: User)
        ensures
            r.id() == id@,
            r.witness() == match witness {
                Some(w) => Some(w@),
                None => None,
            },
            r.epoch() == epoch,
            r.value() == accumulator@,
            r.witness_key() == public_keys.witness_key@,
    {
        User { id, witness, epoch, accumulator, public_keys }
    }

    /// The public keys of the authority as the holder last saw them.
    pub fn get_public_keys(&self) -> (r: PublicKeys)
        ensures
            r.witness_key@ == self.witness_key(),
    {
        self.public_keys
    }

    /// The identifier.
    pub fn get_id(&self) -> (r: UserID)
        ensures
            r@ == self.id(),
    {
        self.id
    }

    /// The witness, if the holder has one.
    pub fn get_witness(&self) -> (r: Option<MembershipWitness>)
        ensures
            match r {
                Some(w) => self.witness() == Some(w@),
                None => self.witness() is None,
            },
    {
        self.witness
    }

    /// The epoch at which the holder last saw the authority.
    pub fn get_epoch(&self) -> (r: usize)
        ensures
            r == self.epoch(),
    {
        self.epoch
    }

    /// The accumulator as the holder last saw it.
    pub fn get_accumulator(&self) -> (r: Accumulator)
        ensures
            r@ == self.value(),
    {
        self.accumulator
    }

    /// Takes the authority's witness for the holder's identifier, with the
    /// accumulator and the epoch at which it is valid. An authority of which
    /// the holder is no member has none to give, and nothing changes.
    pub fn create_witness(&mut self, server: &Server) -> (r: Result<(), Error>)
        requires
            server.wf(),
        ensures
            final(self).id() == old(self).id(),
            match r {
                Ok(_) => {
                    &&& server.members().contains(old(self).id())
                    &&& final(self).witness() matches Some(w) && witness_valid(
                        w,
                        final(self).id(),
                        server.key(),
                        server.value(),
                    )
                    &&& final(self).epoch() == server.epoch()
                    &&& final(self).value() == server.value()
                    &&& final(self).witness_key() == server.witness_key()
                },
                Err(e) => {
                    &&& *final(self) == *old(self)
                    &&& !server.members().contains(old(self).id())
                    &&& e == Error::NotMember
                },
            },
    {
        match server.witness(&self.id) {
            Ok(w) => {
                self.witness = Some(w);
                self.epoch = server.get_epoch();
                self.accumulator = server.get_accumulator();
                self.public_keys = server.get_public_keys();
                Ok(())
            },
            Err(e) => Err(e),
        }
    }

    /// Whether the holder's witness is valid against an accumulator. A
    /// holder without a witness cannot tell.
    pub fn check_witness(&self, accumulator: &Accumulator) -> (r: Result<bool, Error>)
        ensures
            match r {
                Ok(valid) => self.witness() matches Some(w) && valid == witness_valid(
                    w,
                    self.id(),
                    self.witness_key(),
                    accumulator@,
                ),
                Err(e) => self.witness() is None && e == Error::NoWitness,
            },
    {
        match self.witness {
            Some(w) => Ok(w.verify(&self.id, &self.public_keys.witness_key, accumulator)),
            None => Err(Error::NoWitness),
        }
    }

    /// A proof that the holder is a member, bound to the challenge that the
    /// verifier chose. A holder with a witness always has one to give; one
    /// without a witness has none.
    pub fn make_membership_proof(
        &self,
        params: &AccParams,
        public_keys: &PublicKeys,
        challenge: &[u8; 32],
    ) -> (r: Result<MembershipProof, Error>)
        ensures
            match r {
                Ok(p) => self.witness() matches Some(w) && proof_of(
                    p,
                    w,
                    self.id(),
                    *params,
                    *public_keys,
                    challenge@,
                ),
                Err(e) => self.witness() is None && e == Error::NoWitness,
            },
    {
        match self.witness {
            Some(w) => Ok(
                make_membership_proof(&w, &self.id, params, public_keys, challenge).unwrap(),
            ),
            None => Err(Error::NoWitness),
        }
    }

    /// Brings the witness up to date from several authorities, each of
    /// which holds the key and the history, given the shares of the
    /// holder's identifier that are put to them: share `i` goes to
    /// authority `i`, which sees no more of the identifier. The answers for
    /// each epoch
    /// that the holder has missed are combined with the Lagrange
    /// coefficients of the nodes of the first `threshold` shares and, where
    /// there are more authorities than that, checked against a second
    /// combination; the witness is folded with what they combine to. On any
    /// failure nothing changes.
    pub fn update_with_shares(
        &mut self,
        servers: &[Server],
        threshold: usize,
        shares: &[(Scalar, Scalar)],
    ) -> (r: Result<(), Error>)
        ensures
            final(self).id() == old(self).id(),
            final(self).witness_key() == old(self).witness_key(),
            match r {
                Ok(_) => {
                    &&& final(self).witness() matches Some(w) && update_outcome(
                        *old(self),
                        servers@,
                        threshold as int,
                        share_nodes(shares@),
                        share_values(shares@),
                    ) == Ok::<nat, Error>(w)
                    &&& final(self).epoch() == servers[0].epoch()
                    &&& final(self).value() == servers[0].value()
                },
                Err(e) => {
                    &&& *final(self) == *old(self)
                    &&& update_outcome(
                        *old(self),
                        servers@,
                        threshold as int,
                        share_nodes(shares@),
                        share_values(shares@),
                    ) == Err::<nat, Error>(e)
                },
            },
            r is Ok || r == Err::<(), Error>(Error::Mismatch) || (r == Err::<(), Error>(
                Error::NoWitness,
            ) && old(self).witness() is Some) ==> nodes_usable(
                share_nodes(shares@),
                threshold as int,
            ),
            r == Err::<(), Error>(Error::NoWitness) && old(self).witness() is Some
                ==> update_loses(
                *old(self),
                servers@,
                threshold as int,
                share_nodes(shares@),
                share_values(shares@),
            ),
    {
        let n = servers.len();
        if threshold == 0 || n < threshold {
            return Err(Error::InsufficientShares);
        }
        if shares.len() != n {
            return Err(Error::Shares);
        }
        let read = if n > threshold {
            threshold + 1
        } else {
            threshold
        };
        if !admissible(shares, read) {
            return Err(Error::Shares);
        }
        let mut witness = match self.witness {
            Some(w) => w,
            None => {
                return Err(Error::NoWitness);
            },
        };
        let target = servers[0].get_epoch();
        let mut i: usize = 0;
        while i < n
            invariant
                i <= n,
                n == servers.len(),
                1 <= threshold <= n,
                shares.len() == n,
                nodes_admissible(share_nodes(shares@), nodes_read(n as int, threshold as int)),
                old(self).witness() is Some,
                *self == *old(self),
                target == servers[0].epoch(),
                forall|k: int| 0 <= k < i ==> (#[trigger] servers[k]).epoch() == target,
            decreases n - i,
        {
            if servers[i].get_epoch() != target {
                assert(servers@[i as int].epoch() != servers@[0].epoch());
                return Err(Error::Shares);
            }
            i += 1;
        }
        if self.epoch > target {
            return Err(Error::Epoch);
        }
        let from = self.epoch;
        let m = target - from;
        let all = collect_answers(servers, shares, from, m);
        let (coefficients, checks) = shamir_coefficients(threshold, shares);
        let ghost queries = share_values(shares@);
        let ghost columns = all_answers(servers@, queries, from as int, m as int);
        let ghost weights = scalar_values(coefficients@);
        let ghost marks = check_values(checks);
        let ghost start = witness@;
        proof {
            lemma_admissible_usable(
                share_nodes(shares@),
                threshold as int,
            );
            assert(weights.len() == threshold);
            assert(marks matches Some(c) ==> c.len() == threshold);
            assert(forall|k: int| 0 <= k < n ==> (#[trigger] servers@[k]).epoch() == target);
            assert(update_outcome(
                *old(self),
                servers@,
                threshold as int,
                share_nodes(shares@),
                share_values(shares@),
            ) == combined_update(start, columns, weights, marks));
        }
        let mut e: usize = 0;
        assert(columns.take(0) =~= Seq::<Seq<ShareView>>::empty());
        while e < m
            invariant
                e <= m,
                shares.len() == all@.len(),
                all@.len() == servers.len(),
                forall|k: int| 0 <= k < all@.len() ==> (#[trigger] all@[k])@.len() == m,
                forall|k: int, l: int|
                    0 <= k < all@.len() && 0 <= l < m ==> (#[trigger] all@[k]@[l])@ == evaluated(
                        servers[k].history()[from + l],
                        shares[k].1@,
                    ),
                queries == share_values(shares@),
                columns == all_answers(servers@, queries, from as int, m as int),
                weights == scalar_values(coefficients@),
                marks == check_values(checks),
                coefficients@.len() <= all@.len(),
                checks matches Some(c) ==> coefficients@.len() < all@.len() && 1 <= c@.len()
                    && coefficients@.len() <= c@.len(),
                combined_update(start, columns.take(e as int), weights, marks) == Ok::<nat, Error>(
                    witness@,
                ),
                update_outcome(
                    *old(self),
                    servers@,
                    threshold as int,
                    share_nodes(shares@),
                    share_values(shares@),
                ) == combined_update(start, columns, weights, marks),
                *self == *old(self),
                old(self).witness() is Some,
                nodes_usable(share_nodes(shares@), threshold as int),
                from == old(self).epoch(),
                from + m == servers[0].epoch(),
                weights == lagrange_coefficients(share_nodes(shares@).take(threshold as int)),
                marks == update_checks(
                    share_nodes(shares@),
                    servers.len() as int,
                    threshold as int,
                ),
            decreases m - e,
        {
            proof {
                assert(columns.take(e + 1).drop_last() =~= columns.take(e as int));
                assert(columns.take(e + 1).last() == columns[e as int]);
                assert(column(all@, e as int) =~= columns[e as int]);
            }
            let share = match combine(shares, &all, e, &coefficients, &checks) {
                Some(share) => share,
                None => {
                    proof {
                        lemma_combined_update_fails(start, columns, weights, marks, e + 1);
                    }
                    return Err(Error::Mismatch);
                },
            };
            witness = match witness.fold(&share) {
                Some(next) => next,
                None => {
                    proof {
                        lemma_combined_update_fails(start, columns, weights, marks, e + 1);
                        assert(columns[e as int] == answers(
                            servers@,
                            queries,
                            from as int,
                            e as int,
                        ));
                        assert(combined(columns[e as int], weights, marks) == Some(share@));
                        assert(loses_at(
                            *old(self),
                            servers@,
                            threshold as int,
                            share_nodes(shares@),
                            queries,
                            e as int,
                        ));
                    }
                    return Err(Error::NoWitness);
                },
            };
            e += 1;
        }
        assert(columns.take(m as int) =~= columns);
        self.witness = Some(witness);
        self.epoch = target;
        self.accumulator = servers[0].get_accumulator();
        Ok(())
    }

    /// Brings the witness up to date from several authorities, each of
    /// which holds the key and the history. What is shared among them is
    /// the holder's identifier, by a polynomial drawn at random, so that
    /// fewer than `threshold` of them learn nothing of it; what comes back
    /// is combined as `update_with_shares` says. Fewer authorities than the
    /// threshold are refused. With exactly `threshold` of them the answers
    /// are combined without a check, for which there is no answer left;
    /// with one more, every combination is checked. On any failure nothing
    /// changes.
    pub fn update(&mut self, servers: &[Server], threshold: usize) -> (r: Result<(), Error>)
        ensures
            final(self).id() == old(self).id(),
            final(self).witness_key() == old(self).witness_key(),
            r is Err ==> *final(self) == *old(self),
            r is Ok ==> final(self).epoch() == servers[0].epoch() && final(self).value()
                == servers[0].value(),
            threshold == 0 || servers.len() < threshold ==> r == Err::<(), Error>(
                Error::InsufficientShares,
            ),
            1 <= threshold <= servers.len() ==> exists|shares: Seq<(Scalar, Scalar)>|
                shares.len() == servers.len() && sharing(
                    shares,
                    threshold as int,
                    old(self).id(),
                ) && #[trigger] update_outcome(
                    *old(self),
                    servers@,
                    threshold as int,
                    share_nodes(shares),
                    share_values(shares),
                ) == match r {
                    Ok(_) => Ok::<nat, Error>(final(self).witness()->Some_0),
                    Err(e) => Err(e),
                },
            forall|key: nat, history: Seq<DeltaView>|
                1 <= threshold <= servers.len() && #[trigger] replicas(servers@, key, history)
                    && holds_valid_witness(*old(self), key, history) ==> follows(
                    *old(self),
                    final(self).witness(),
                    r,
                    key,
                    history,
                ),
    {
        if threshold == 0 || servers.len() < threshold {
            return Err(Error::InsufficientShares);
        }
        let shares = shamir_share(threshold, servers.len(), self.id.0);
        let r = self.update_with_shares(servers, threshold, shares.as_slice());
        proof {
            use_type_invariant(&self.id.0);
            assert(sharing(shares@, threshold as int, old(self).id()));
            assert forall|key: nat, history: Seq<DeltaView>|
                #[trigger] replicas(servers@, key, history) && holds_valid_witness(
                    *old(self),
                    key,
                    history,
                ) implies follows(*old(self), self.witness(), r, key, history) by {
                lemma_sharing_admitted(
                    *old(self),
                    servers@,
                    threshold as int,
                    shares@,
                    key,
                    history,
                );
                lemma_update_of_sharing(
                    *old(self),
                    servers@,
                    threshold as int,
                    shares@,
                    key,
                    history,
                );
                lemma_deleted_or_carried(
                    *old(self),
                    servers@,
                    threshold as int,
                    shares@,
                    key,
                    history,
                );
            }
        }
        r
    }
}

/// The holder has a witness that is valid at the epoch at which it last saw
/// the authorities, whose key and history are given.
pub open spec fn holds_valid_witness(user: User, key: nat, history: Seq<DeltaView>) -> bool {
    &&& user.epoch() <= history.len()
    &&& user.witness() matches Some(w) && witness_valid(
        w,
        user.id(),
        key,
        replayed(key, history, user.epoch() as int),
    )
}

/// The update did what the records of the epochs that the holder had missed
/// say. Where none of them deletes the holder's identifier, it left the
/// holder with its witness carried over them, valid at the end of the
/// history. Where one of them does, it failed, and for that reason.
pub open spec fn follows(
    before: User,
    after: Option<nat>,
    r: Result<(), Error>,
    key: nat,
    history: Seq<DeltaView>,
) -> bool {
    let carried = updated(
        before.witness()->Some_0,
        before.id(),
        history.subrange(before.epoch() as int, history.len() as int),
    );
    let deleted = deleted_between(
        history,
        before.id(),
        before.epoch() as int,
        history.len() as int,
    );
    match r {
        Ok(_) => {
            &&& after == carried
            &&& after matches Some(v) && witness_valid(
                v,
                before.id(),
                key,
                replayed(key, history, history.len() as int),
            )
            &&& !deleted
        },
        Err(e) => e == Error::NoWitness && carried is None && deleted,
    }
}

/// The shares are those of a polynomial of `threshold` coefficients whose
/// constant term is `secret`: share `i` is its value at `i + 1`.
pub open spec fn sharing(shares: Seq<(Scalar, Scalar)>, threshold: int, secret: nat) -> bool {
    exists|polynomial: Seq<nat>|
        polynomial.len() == threshold && polynomial[0] == secret && #[trigger] shares_of(
            polynomial,
            shares,
        )
}

/// Once an update has failed at an epoch, it has failed.
pub proof fn lemma_combined_update_fails(
    w: nat,
    columns: Seq<Seq<ShareView>>,
    coefficients: Seq<nat>,
    checks: Option<Seq<nat>>,
    n: int,
)
    requires
        0 <= n <= columns.len(),
        combined_update(w, columns.take(n), coefficients, checks) is Err,
    ensures
        combined_update(w, columns, coefficients, checks) == combined_update(
            w,
            columns.take(n),
            coefficients,
            checks,
        ),
    decreases columns.len() - n,
{
    if n < columns.len() {
        assert(columns.take(n + 1).drop_last() =~= columns.take(n));
        lemma_combined_update_fails(w, columns, coefficients, checks, n + 1);
    } else {
        assert(columns.take(n) =~= columns);
    }
}

/// The authorities are in order and hold one key and one history.
pub open spec fn replicas(servers: Seq<Server>, key: nat, history: Seq<DeltaView>) -> bool {
    forall|i: int|
        0 <= i < servers.len() ==> (#[trigger] servers[i]).wf() && servers[i].key() == key
            && servers[i].history() == history
}

/// The outcome of an update that ends with the given witness, or without
/// one.
pub open spec fn outcome_of(witness: Option<nat>) -> Result<nat, Error> {
    match witness {
        Some(v) => Ok(v),
        None => Err(Error::NoWitness),
    }
}

/// What authorities that hold one history answer to shares of an
/// identifier combines to the value of the record at the identifier itself:
/// the record of an epoch adds or deletes one identifier, so that its value
/// at a share is a share of its value.
pub proof fn lemma_combined_answers(
    servers: Seq<Server>,
    threshold: int,
    nodes: Seq<nat>,
    queries: Seq<nat>,
    polynomial: Seq<nat>,
    key: nat,
    history: Seq<DeltaView>,
    from: int,
    e: int,
)
    requires
        replicas(servers, key, history),
        history_ok(key, history),
        1 <= threshold <= servers.len(),
        nodes.len() == servers.len(),
        queries.len() == servers.len(),
        0 <= from,
        0 <= e,
        from + e < history.len(),
        polynomial.len() <= threshold,
        nodes_usable(nodes, threshold),
        consistent(polynomial, nodes, queries, nodes_read(servers.len() as int, threshold)),
    ensures
        combined(
            answers(servers, queries, from, e),
            lagrange_coefficients(nodes.take(threshold)),
            if servers.len() > threshold {
                Some(lagrange_coefficients(check_nodes(nodes, threshold)))
            } else {
                None
            },
        ) == Some(evaluated(history[from + e], poly_eval(polynomial, 0))),
{
    let n = servers.len() as int;
    let read = nodes_read(n, threshold);
    let d = history[from + e];
    let y = poly_eval(polynomial, 0);
    let column = answers(servers, queries, from, e);
    let v = replayed(key, history, from + e);
    lemma_order_bounds();
    lemma_replayed_elem(key, history, from + e);
    lemma_replayed_elem(key, history, from + e + 1);
    lemma_replayed_step(key, history, from + e);
    assert(record_adds(key, history, from + e) || record_deletes(key, history, from + e));
    let point = d.coefficients[0];
    lemma_fneg_elem(v);
    assert(is_elem(point));
    let id = if record_adds(key, history, from + e) {
        d.additions[0]
    } else {
        d.deletions[0]
    };
    let difference = subtracted_from(id, polynomial);
    let one = seq![1nat];
    let constant = seq![point];
    let moving = Seq::new(column.len(), |i: int| fsub(id, queries[i]));
    let ones = Seq::new(column.len(), |i: int| 1nat);
    assert forall|i: int| 0 <= i < n implies #[trigger] column[i] == evaluated(d, queries[i]) by {
        assert(servers[i].history() == history);
    }
    assert forall|i: int| 0 <= i < n implies points(column)[i] == point by {
        assert(column[i] == evaluated(d, queries[i]));
        lemma_constant_eval(point, queries[i]);
        assert(d.coefficients =~= constant);
    }
    assert(consistent(constant, nodes, points(column), read)) by {
        assert forall|i: int| 0 <= i < read implies #[trigger] points(column)[i] == poly_eval(
            constant,
            nodes[i],
        ) by {
            lemma_constant_eval(point, nodes[i]);
        }
    }
    assert(consistent(difference, nodes, moving, read)) by {
        assert forall|i: int| 0 <= i < read implies #[trigger] moving[i] == poly_eval(
            difference,
            nodes[i],
        ) by {
            lemma_subtracted_from_eval(id, polynomial, nodes[i]);
        }
    }
    assert(consistent(one, nodes, ones, read)) by {
        assert forall|i: int| 0 <= i < read implies #[trigger] ones[i] == poly_eval(
            one,
            nodes[i],
        ) by {
            lemma_constant_eval(1, nodes[i]);
        }
    }
    lemma_subtracted_from_eval(id, polynomial, 0);
    lemma_constant_eval(1, 0);
    lemma_constant_eval(point, 0);
    lemma_constant_eval(point, y);
    lemma_rebuilt(difference, nodes, moving, threshold);
    lemma_rebuilt(one, nodes, ones, threshold);
    lemma_rebuilt(constant, nodes, points(column), threshold);
    lemma_difference_product_single(id, y);
    if record_adds(key, history, from + e) {
        assert(numerators(column) =~= moving) by {
            assert forall|i: int| 0 <= i < n implies numerators(column)[i] == moving[i] by {
                assert(column[i] == evaluated(d, queries[i]));
                lemma_difference_product_single(id, queries[i]);
            }
        }
        assert(denominators(column) =~= ones) by {
            assert forall|i: int| 0 <= i < n implies denominators(column)[i] == ones[i] by {
                assert(column[i] == evaluated(d, queries[i]));
                lemma_difference_product_single(id, queries[i]);
            }
        }
    } else {
        assert(denominators(column) =~= moving) by {
            assert forall|i: int| 0 <= i < n implies denominators(column)[i] == moving[i] by {
                assert(column[i] == evaluated(d, queries[i]));
                lemma_difference_product_single(id, queries[i]);
            }
        }
        assert(numerators(column) =~= ones) by {
            assert forall|i: int| 0 <= i < n implies numerators(column)[i] == ones[i] by {
                assert(column[i] == evaluated(d, queries[i]));
                lemma_difference_product_single(id, queries[i]);
            }
        }
    }
}

/// The combined update over the first `k` epochs is the update of the
/// witness with the records of those epochs themselves.
pub proof fn lemma_combined_update(
    w: nat,
    servers: Seq<Server>,
    threshold: int,
    nodes: Seq<nat>,
    queries: Seq<nat>,
    polynomial: Seq<nat>,
    key: nat,
    history: Seq<DeltaView>,
    from: int,
    k: int,
)
    requires
        replicas(servers, key, history),
        history_ok(key, history),
        1 <= threshold <= servers.len(),
        nodes.len() == servers.len(),
        queries.len() == servers.len(),
        0 <= from,
        0 <= k,
        from + k <= history.len(),
        polynomial.len() <= threshold,
        nodes_usable(nodes, threshold),
        consistent(polynomial, nodes, queries, nodes_read(servers.len() as int, threshold)),
    ensures
        combined_update(
            w,
            all_answers(servers, queries, from, k),
            lagrange_coefficients(nodes.take(threshold)),
            if servers.len() > threshold {
                Some(lagrange_coefficients(check_nodes(nodes, threshold)))
            } else {
                None
            },
        ) == outcome_of(updated(w, poly_eval(polynomial, 0), history.subrange(from, from + k))),
    decreases k,
{
    if k > 0 {
        let columns = all_answers(servers, queries, from, k);
        lemma_combined_update(
            w,
            servers,
            threshold,
            nodes,
            queries,
            polynomial,
            key,
            history,
            from,
            k - 1,
        );
        lemma_combined_answers(
            servers,
            threshold,
            nodes,
            queries,
            polynomial,
            key,
            history,
            from,
            k - 1,
        );
        assert(columns.drop_last() =~= all_answers(servers, queries, from, k - 1));
        assert(columns.last() == answers(servers, queries, from, k - 1));
        let records = history.subrange(from, from + k);
        assert(records.drop_last() =~= history.subrange(from, from + k - 1));
        assert(records.last() == history[from + k - 1]);
    }
}

/// A holder with a valid witness who updates from authorities that hold one
/// history, with shares of its identifier by a polynomial of no more
/// coefficients than the threshold, is left with the witness that the
/// records of the epochs it has missed carry its own over to, and that
/// witness is valid against the accumulator of the authorities. It is left
/// without a witness only where its identifier was deleted on the way.
pub proof fn lemma_threshold_update(
    user: User,
    servers: Seq<Server>,
    threshold: int,
    nodes: Seq<nat>,
    queries: Seq<nat>,
    polynomial: Seq<nat>,
    key: nat,
    history: Seq<DeltaView>,
)
    requires
        replicas(servers, key, history),
        1 <= threshold <= servers.len(),
        nodes.len() == servers.len(),
        queries.len() == servers.len(),
        nodes_admissible(nodes, nodes_read(servers.len() as int, threshold)),
        nodes_usable(nodes, threshold),
        polynomial.len() <= threshold,
        consistent(polynomial, nodes, queries, nodes_read(servers.len() as int, threshold)),
        poly_eval(polynomial, 0) == user.id(),
        user.epoch() <= history.len(),
        user.witness() matches Some(w) && witness_valid(
            w,
            user.id(),
            key,
            replayed(key, history, user.epoch() as int),
        ),
    ensures
        update_outcome(user, servers, threshold, nodes, queries) == outcome_of(
            updated(
                user.witness()->Some_0,
                user.id(),
                history.subrange(user.epoch() as int, history.len() as int),
            ),
        ),
        update_outcome(user, servers, threshold, nodes, queries) matches Ok(v) ==> witness_valid(
            v,
            user.id(),
            key,
            servers[0].value(),
        ),
{
    let from = user.epoch() as int;
    let m = history.len() - from;
    assert(servers[0].wf() && servers[0].history() == history);
    assert forall|i: int| 0 <= i < servers.len() implies (#[trigger] servers[i]).epoch()
        == servers[0].epoch() by {
        assert(servers[i].history() == history);
    }
    lemma_combined_update(
        user.witness()->Some_0,
        servers,
        threshold,
        nodes,
        queries,
        polynomial,
        key,
        history,
        from,
        m,
    );
    if updated(user.witness()->Some_0, user.id(), history.subrange(from, history.len() as int))
        is Some {
        lemma_update_keeps_valid(
            key,
            history,
            user.id(),
            user.witness()->Some_0,
            from,
            history.len() as int,
        );
    }
}

/// The law of the update in terms of what the holder does: it shares its
/// identifier among authorities that hold one history, and is left with the
/// witness that the records of the epochs it has missed carry its own over
/// to.
pub proof fn lemma_update_of_sharing(
    user: User,
    servers: Seq<Server>,
    threshold: int,
    shares: Seq<(Scalar, Scalar)>,
    key: nat,
    history: Seq<DeltaView>,
)
    requires
        replicas(servers, key, history),
        1 <= threshold <= servers.len(),
        servers.len() <= usize::MAX,
        shares.len() == servers.len(),
        is_elem(user.id()),
        sharing(shares, threshold, user.id()),
        nodes_usable(share_nodes(shares), threshold),
        user.epoch() <= history.len(),
        user.witness() matches Some(w) && witness_valid(
            w,
            user.id(),
            key,
            replayed(key, history, user.epoch() as int),
        ),
    ensures
        update_outcome(
            user,
            servers,
            threshold,
            share_nodes(shares),
            share_values(shares),
        ) == outcome_of(
            updated(
                user.witness()->Some_0,
                user.id(),
                history.subrange(user.epoch() as int, history.len() as int),
            ),
        ),
        update_outcome(
            user,
            servers,
            threshold,
            share_nodes(shares),
            share_values(shares),
        ) matches Ok(v) ==> witness_valid(v, user.id(), key, servers[0].value()),
{
    let polynomial = choose|polynomial: Seq<nat>|
        polynomial.len() == threshold && polynomial[0] == user.id() && #[trigger] shares_of(
            polynomial,
            shares,
        );
    let nodes = share_nodes(shares);
    let queries = share_values(shares);
    let read = nodes_read(servers.len() as int, threshold);
    lemma_order_value();
    assert forall|i: int| 0 <= i < shares.len() implies nodes[i] == i + 1 && queries[i]
        == poly_eval(polynomial, nodes[i]) by {
        assert(shares[i].0@ == i + 1);
    }
    assert(nodes_admissible(nodes, read));
    assert(consistent(polynomial, nodes, queries, read));
    assert(poly_eval(polynomial, 0) == user.id()) by {
        lemma_fmul_zero(poly_eval(polynomial.drop_first(), 0));
        lemma_fadd_zero(user.id());
    }
    lemma_threshold_update(user, servers, threshold, nodes, queries, polynomial, key, history);
}

/// Whether the holder's identifier was deleted on the way, as the update
/// finds it: the witness is carried over the records only where it was not,
/// and a denominator of zero among the combined answers is that of a record
/// that deletes it.
pub proof fn lemma_deleted_or_carried(
    user: User,
    servers: Seq<Server>,
    threshold: int,
    shares: Seq<(Scalar, Scalar)>,
    key: nat,
    history: Seq<DeltaView>,
)
    requires
        replicas(servers, key, history),
        1 <= threshold <= servers.len(),
        servers.len() <= usize::MAX,
        shares.len() == servers.len(),
        is_elem(user.id()),
        sharing(shares, threshold, user.id()),
        nodes_usable(share_nodes(shares), threshold),
        user.epoch() <= history.len(),
        user.witness() matches Some(w) && witness_valid(
            w,
            user.id(),
            key,
            replayed(key, history, user.epoch() as int),
        ),
    ensures
        updated(
            user.witness()->Some_0,
            user.id(),
            history.subrange(user.epoch() as int, history.len() as int),
        ) is Some ==> !deleted_between(
            history,
            user.id(),
            user.epoch() as int,
            history.len() as int,
        ),
        update_loses(user, servers, threshold, share_nodes(shares), share_values(shares))
            ==> deleted_between(history, user.id(), user.epoch() as int, history.len() as int),
{
    let from = user.epoch() as int;
    let nodes = share_nodes(shares);
    let queries = share_values(shares);
    let read = nodes_read(servers.len() as int, threshold);
    assert(servers[0].wf() && servers[0].history() == history);
    lemma_carried(
        key,
        history,
        from,
        user.witness()->Some_0,
        user.id(),
        history.subrange(from, history.len() as int),
    );
    if update_loses(user, servers, threshold, nodes, queries) {
        let polynomial = choose|polynomial: Seq<nat>|
            polynomial.len() == threshold && polynomial[0] == user.id() && #[trigger] shares_of(
                polynomial,
                shares,
            );
        let e = choose|e: int|
            0 <= e < servers[0].epoch() - user.epoch() && #[trigger] loses_at(
                user,
                servers,
                threshold,
                nodes,
                queries,
                e,
            );
        lemma_order_value();
        assert forall|i: int| 0 <= i < shares.len() implies nodes[i] == i + 1 && queries[i]
            == poly_eval(polynomial, nodes[i]) by {
            assert(shares[i].0@ == i + 1);
        }
        assert(consistent(polynomial, nodes, queries, read));
        assert(poly_eval(polynomial, 0) == user.id()) by {
            lemma_fmul_zero(poly_eval(polynomial.drop_first(), 0));
            lemma_fadd_zero(user.id());
        }
        lemma_combined_answers(
            servers,
            threshold,
            nodes,
            queries,
            polynomial,
            key,
            history,
            from,
            e,
        );
        lemma_vanishes_where_deleted(key, history, user.id(), from + e);
    }
}

/// Shares of an identifier, put to authorities that hold one history by a
/// holder who has a witness from no later than the end of it, are not
/// refused: the update proceeds to the answers.
pub proof fn lemma_sharing_admitted(
    user: User,
    servers: Seq<Server>,
    threshold: int,
    shares: Seq<(Scalar, Scalar)>,
    key: nat,
    history: Seq<DeltaView>,
)
    requires
        replicas(servers, key, history),
        1 <= threshold <= servers.len(),
        servers.len() <= usize::MAX,
        shares.len() == servers.len(),
        sharing(shares, threshold, user.id()),
        user.epoch() <= history.len(),
        user.witness() is Some,
    ensures
        update_outcome(
            user,
            servers,
            threshold,
            share_nodes(shares),
            share_values(shares),
        ) is Ok || update_outcome(
            user,
            servers,
            threshold,
            share_nodes(shares),
            share_values(shares),
        ) == Err::<nat, Error>(Error::Mismatch) || update_outcome(
            user,
            servers,
            threshold,
            share_nodes(shares),
            share_values(shares),
        ) == Err::<nat, Error>(Error::NoWitness),
{
    let polynomial = choose|polynomial: Seq<nat>|
        polynomial.len() == threshold && polynomial[0] == user.id() && #[trigger] shares_of(
            polynomial,
            shares,
        );
    let nodes = share_nodes(shares);
    lemma_order_value();
    assert forall|i: int| 0 <= i < shares.len() implies nodes[i] == i + 1 by {
        assert(shares[i].0@ == i + 1);
    }
    assert(nodes_admissible(nodes, nodes_read(servers.len() as int, threshold)));
    assert(servers[0].history() == history);
    assert forall|i: int| 0 <= i < servers.len() implies (#[trigger] servers[i]).epoch()
        == servers[0].epoch() by {
        assert(servers[i].history() == history);
    }
    lemma_combined_update_outcome(
        user.witness()->Some_0,
        all_answers(
            servers,
            share_values(shares),
            user.epoch() as int,
            servers[0].epoch() - user.epoch(),
        ),
        lagrange_coefficients(nodes.take(threshold)),
        if servers.len() > threshold {
            Some(lagrange_coefficients(check_nodes(nodes, threshold)))
        } else {
            None
        },
    );
}

/// An update over the answers of the authorities fails for no reason but
/// that the answers do not agree or that there is no witness left.
pub proof fn lemma_combined_update_outcome(
    w: nat,
    columns: Seq<Seq<ShareView>>,
    coefficients: Seq<nat>,
    checks: Option<Seq<nat>>,
)
    ensures
        combined_update(w, columns, coefficients, checks) is Ok || combined_update(
            w,
            columns,
            coefficients,
            checks,
        ) == Err::<nat, Error>(Error::Mismatch) || combined_update(
            w,
            columns,
            coefficients,
            checks,
        ) == Err::<nat, Error>(Error::NoWitness),
    decreases columns.len(),
{
    if columns.len() > 0 {
        lemma_combined_update_outcome(w, columns.drop_last(), coefficients, checks);
    }
}

} // verus!
