//! The accumulator: one point that commits to the set of members, the
//! authority's key, and the values derived from them.
use crate::field::{
    fadd, finv, fmul, invertible, is_elem, lemma_cancel, lemma_fadd_elem, lemma_fmul_assoc,
    lemma_fmul_comm, lemma_fmul_elem, lemma_fmul_one, lemma_fsub_zero_iff, lemma_order_bounds,
};
use crate::group::{g1_decoding, pairing_product_is_one, G1Point, G2Point};
use crate::scalar::{hash_to_scalar, scalar_decoding, scalar_encoding, Scalar};
use vstd::prelude::*;
use vstd::string::StringSliceAdditionalSpecFns;

verus! {

/// An identifier that can be accumulated: a scalar.
#[derive(Clone, Copy, Debug, PartialEq, Eq, Hash, Structural)]
pub struct Element(pub Scalar);

/// A coefficient of an update polynomial: a point of the first group.
#[derive(Clone, Copy, Debug, PartialEq, Eq, Hash)]
pub struct Coefficient(pub G1Point);

/// The authority's secret scalar.
#[derive(Clone, Copy, Debug, PartialEq, Eq, Hash, Structural)]
pub struct SecretKey(pub Scalar);

/// A public derivation of the secret key: a point of the second group.
#[derive(Clone, Copy, Debug, PartialEq, Eq, Hash)]
pub struct PublicKey(pub G2Point);

impl View for Element {
    type V = nat;

    open spec fn view(&self) -> nat {
        self.0@
    }
}

impl View for Coefficient {
    type V = nat;

    open spec fn view(&self) -> nat {
        self.0@
    }
}

impl View for SecretKey {
    type V = nat;

    open spec fn view(&self) -> nat {
        self.0@
    }
}

impl View for PublicKey {
    type V = nat;

    open spec fn view(&self) -> nat {
        self.0@
    }
}

/// The commitment to the set of members: the generator of the first group
/// multiplied, for each member, by the key plus the member.
#[derive(Clone, Copy, Debug, PartialEq, Eq, Hash)]
pub struct Accumulator(pub G1Point);

/// What lets the holder of an identifier show that it is a member: the
/// accumulator with the factor of the identifier taken out.
#[derive(Clone, Copy, Debug, PartialEq, Eq, Hash)]
pub struct MembershipWitness(pub G1Point);

impl View for Accumulator {
    type V = nat;

    open spec fn view(&self) -> nat {
        self.0@
    }
}

impl View for MembershipWitness {
    type V = nat;

    open spec fn view(&self) -> nat {
        self.0@
    }
}

/// The domain separation tag under which identifiers are hashed.
pub open spec fn element_tag() -> Seq<u8> {
    "ALLOSAUR_ELEMENT_XMD:SHA-256_RO_".spec_bytes()
}

/// The domain separation tag under which a seed is hashed to a secret key.
pub open spec fn key_tag() -> Seq<u8> {
    "ALLOSAUR_KEYGEN_XMD:SHA-256_RO_".spec_bytes()
}

/// The residues that a sequence of identifiers stands for.
pub open spec fn element_values(v: Seq<Element>) -> Seq<nat> {
    Seq::new(v.len(), |i: int| v[i]@)
}

/// The product, over the members, of the key plus the member.
pub open spec fn member_product(key: nat, members: Seq<nat>) -> nat
    decreases members.len(),
{
    if members.len() == 0 {
        1
    } else {
        fmul(member_product(key, members.drop_last()), fadd(key, members.last()))
    }
}

/// The product is a canonical residue.
pub proof fn lemma_member_product_elem(key: nat, members: Seq<nat>)
    ensures
        is_elem(member_product(key, members)),
    decreases members.len(),
{
    lemma_order_bounds();
    if members.len() > 0 {
        lemma_fmul_elem(member_product(key, members.drop_last()), fadd(key, members.last()));
    }
}

/// The product over one member is its factor.
pub proof fn lemma_member_product_single(key: nat, member: nat)
    ensures
        member_product(key, seq![member]) == fadd(key, member),
        member_product(key, Seq::empty()) == 1,
{
    let s = seq![member];
    assert(s.drop_last() =~= Seq::<nat>::empty());
    assert(member_product(key, s.drop_last()) == 1);
    assert(member_product(key, s) == fmul(1, fadd(key, s.last())));
    lemma_fadd_elem(key, member);
    lemma_fmul_one(fadd(key, member));
}

/// The accumulator `v` after the identifiers have been added to it one by
/// one, in their order.
pub open spec fn added_in_turn(v: nat, key: nat, ids: Seq<nat>) -> nat
    decreases ids.len(),
{
    if ids.len() == 0 {
        v
    } else {
        fmul(added_in_turn(v, key, ids.drop_last()), fadd(key, ids.last()))
    }
}

/// The factor of any one member can be taken out of the product.
pub proof fn lemma_member_product_extract(key: nat, members: Seq<nat>, k: int)
    requires
        0 <= k < members.len(),
    ensures
        member_product(key, members) == fmul(
            member_product(key, members.remove(k)),
            fadd(key, members[k]),
        ),
    decreases members.len(),
{
    let rest = members.drop_last();
    if k == members.len() - 1 {
        assert(members.remove(k) =~= rest);
    } else {
        lemma_member_product_extract(key, rest, k);
        assert(members.remove(k).drop_last() =~= rest.remove(k));
        assert(members.remove(k).last() == members.last());
        let p = member_product(key, rest.remove(k));
        let f = fadd(key, members[k]);
        let g = fadd(key, members.last());
        lemma_fmul_assoc(p, f, g);
        lemma_fmul_comm(f, g);
        lemma_fmul_assoc(p, g, f);
    }
}

/// The product does not depend on the order of the members.
pub proof fn lemma_member_product_permutation(key: nat, a: Seq<nat>, b: Seq<nat>)
    requires
        a.to_multiset() == b.to_multiset(),
    ensures
        member_product(key, a) == member_product(key, b),
    decreases a.len(),
{
    broadcast use vstd::seq_lib::group_to_multiset_ensures;

    a.to_multiset_ensures();
    b.to_multiset_ensures();
    if a.len() == 0 {
        assert(b.len() == 0);
    } else {
        let x = a.last();
        let shorter = a.drop_last();
        assert(a =~= shorter.push(x));
        shorter.to_multiset_ensures();
        assert(a.to_multiset() =~= shorter.to_multiset().insert(x));
        assert(b.to_multiset().count(x) > 0);
        assert(b.contains(x));
        let k = b.index_of(x);
        let others = b.remove(k);
        assert(others.to_multiset() =~= b.to_multiset().remove(x));
        assert(shorter.to_multiset() =~= others.to_multiset());
        lemma_member_product_permutation(key, shorter, others);
        lemma_member_product_extract(key, b, k);
    }
}

/// The accumulator built in one pass from a set of members is the one that
/// comes of adding them one by one to the empty accumulator, in any order.
pub proof fn lemma_construct_is_add_in_any_order(
    key: nat,
    members: Seq<nat>,
    arrangement: Seq<nat>,
)
    requires
        members.to_multiset() == arrangement.to_multiset(),
    ensures
        added_in_turn(member_product(key, Seq::empty()), key, arrangement) == member_product(
            key,
            members,
        ),
{
    lemma_member_product_permutation(key, members, arrangement);
    lemma_added_in_turn(key, arrangement);
}

/// Adding members one by one to the empty accumulator gives their product.
pub proof fn lemma_added_in_turn(key: nat, ids: Seq<nat>)
    ensures
        added_in_turn(member_product(key, Seq::empty()), key, ids) == member_product(key, ids),
    decreases ids.len(),
{
    if ids.len() > 0 {
        lemma_added_in_turn(key, ids.drop_last());
    }
}

/// A witness that is valid against an accumulator is stale once the
/// accumulator has been multiplied by a factor other than one, as it is
/// when an identifier is added or deleted.
pub proof fn lemma_witness_stale(w: nat, y: nat, key: nat, v: nat, factor: nat)
    requires
        invertible(v),
        is_elem(factor),
        factor != 1,
        witness_valid(w, y, key, v),
    ensures
        !witness_valid(w, y, key, fmul(v, factor)),
{
    if witness_valid(w, y, key, fmul(v, factor)) {
        lemma_order_bounds();
        lemma_fmul_elem(w, fadd(y, key));
        lemma_fmul_one(v);
        lemma_cancel(v, factor, 1);
    }
}

impl Element {
    /// The identifier that a byte string hashes to.
    pub fn hash(d: &[u8]) -> (r: Element)
        ensures
            r@ == hash_to_scalar(d@, element_tag()),
    {
        Element(Scalar::hash(d, "ALLOSAUR_ELEMENT_XMD:SHA-256_RO_".as_bytes()))
    }

    /// An identifier drawn at random: any residue below the order.
    pub fn random() -> (r: Element)
        ensures
            is_elem(r@),
    {
        Element(Scalar::random())
    }

    /// Decodes an identifier from the 32 bytes of a scalar.
    pub fn from_bytes(bytes: &[u8]) -> (r: Option<Element>)
        ensures
            match r {
                Some(e) => scalar_decoding(bytes@) == Some(e@),
                None => scalar_decoding(bytes@) is None,
            },
    {
        match Scalar::from_bytes(bytes) {
            Some(s) => Some(Element(s)),
            None => None,
        }
    }

    /// The 32 bytes of the identifier.
    pub fn to_bytes(&self) -> (r: Vec<u8>)
        ensures
            r@ == scalar_encoding(self@),
    {
        self.0.to_bytes()
    }
}

impl Coefficient {
    /// Decodes a coefficient from the 48 bytes of a point.
    pub fn from_bytes(bytes: &[u8]) -> (r: Option<Coefficient>)
        ensures
            match r {
                Some(c) => g1_decoding(bytes@) == Some(c.0),
                None => g1_decoding(bytes@) is None,
            },
    {
        match G1Point::from_bytes(bytes) {
            Some(p) => Some(Coefficient(p)),
            None => None,
        }
    }

    /// The 48 bytes of the coefficient.
    pub fn to_bytes(&self) -> (r: Vec<u8>)
        ensures
            r@ == self.0.encoding(),
    {
        self.0.to_bytes()
    }
}

impl SecretKey {
    /// A secret key: the one that the seed hashes to or, without a seed, one
    /// drawn at random.
    pub fn new(seed: Option<&[u8]>) -> (r: SecretKey)
        ensures
            seed matches Some(s) ==> r@ == hash_to_scalar(s@, key_tag()),
            is_elem(r@),
    {
        let key = match seed {
            Some(s) => Scalar::hash(s, "ALLOSAUR_KEYGEN_XMD:SHA-256_RO_".as_bytes()),
            None => Scalar::random(),
        };
        proof {
            use_type_invariant(&key);
        }
        SecretKey(key)
    }
}

impl PublicKey {
    /// The public key of a secret key: the generator of the second group
    /// multiplied by it.
    pub fn from_secret(key: &SecretKey) -> (r: PublicKey)
        ensures
            r@ == key@,
    {
        proof {
            use_type_invariant(&key.0);
            lemma_fmul_one(key@);
        }
        PublicKey(G2Point::generator().mul(&key.0))
    }
}

/// Whether `w` is a witness for `y` against the accumulator `v` under the
/// key `key`: the factor of `y` brings it back to the accumulator.
pub open spec fn witness_valid(w: nat, y: nat, key: nat, v: nat) -> bool {
    fmul(w, fadd(y, key)) == v
}

/// Whether the identifier is among the members.
pub fn contains(members: &[Element], id: &Element) -> (r: bool)
    ensures
        r == element_values(members@).contains(id@),
{
    let ghost values = element_values(members@);
    let mut i: usize = 0;
    while i < members.len()
        invariant
            i <= members.len(),
            values == element_values(members@),
            forall|j: int| 0 <= j < i ==> values[j] != id@,
        decreases members.len() - i,
    {
        if members[i].0.eq(&id.0) {
            assert(values[i as int] == id@);
            return true;
        }
        i += 1;
    }
    false
}

impl Accumulator {
    /// The accumulator of a set of members, built in one pass.
    pub fn with_elements(key: &SecretKey, members: &[Element]) -> (r: Accumulator)
        ensures
            r@ == member_product(key@, element_values(members@)),
    {
        let ghost values = element_values(members@);
        let mut product = Scalar::one();
        let mut i: usize = 0;
        assert(values.take(0) =~= Seq::<nat>::empty());
        while i < members.len()
            invariant
                i <= members.len(),
                values == element_values(members@),
                product@ == member_product(key@, values.take(i as int)),
            decreases members.len() - i,
        {
            let factor = key.0.add(&members[i].0);
            product = product.mul(&factor);
            i += 1;
            assert(values.take(i as int).drop_last() =~= values.take(i - 1));
        }
        assert(values.take(i as int) =~= values);
        proof {
            lemma_member_product_elem(key@, values);
            lemma_fmul_one(product@);
        }
        Accumulator(G1Point::generator().mul(&product))
    }

    /// The accumulator with one more member.
    pub fn add(&self, key: &SecretKey, id: &Element) -> (r: Accumulator)
        ensures
            r@ == fmul(self@, fadd(key@, id@)),
    {
        Accumulator(self.0.mul(&key.0.add(&id.0)))
    }

    /// The accumulator with a member taken out. The accumulator cannot tell
    /// who is a member, so the set of members must come with it: nothing is
    /// returned for an identifier that is not in it.
    pub fn remove(&self, key: &SecretKey, id: &Element, members: &[Element]) -> (r: Option<
        Accumulator,
    >)
        ensures
            r is Some <==> element_values(members@).contains(id@) && fadd(key@, id@) != 0,
            r is Some <==> element_values(members@).contains(id@) && invertible(
                fadd(key@, id@),
            ),
            r matches Some(a) ==> a@ == fmul(self@, finv(fadd(key@, id@))),
    {
        if !contains(members, id) {
            return None;
        }
        match key.0.add(&id.0).invert() {
            Some(inverse) => Some(Accumulator(self.0.mul(&inverse))),
            None => None,
        }
    }
}

impl MembershipWitness {
    /// The witness for a member of the accumulated set. There is none for
    /// the identifier that is the negative of the key.
    pub fn new(y: &Element, accumulator: &Accumulator, key: &SecretKey) -> (r: Option<
        MembershipWitness,
    >)
        ensures
            r is Some <==> fadd(y@, key@) != 0,
            r is Some <==> invertible(fadd(y@, key@)),
            r matches Some(w) ==> w@ == fmul(accumulator@, finv(fadd(y@, key@)))
                && witness_valid(w@, y@, key@, accumulator@),
    {
        match y.0.add(&key.0).invert() {
            Some(inverse) => {
                proof {
                    let f = fadd(y@, key@);
                    use_type_invariant(&accumulator.0);
                    lemma_fmul_assoc(accumulator@, inverse@, f);
                    lemma_fmul_comm(inverse@, f);
                    lemma_fmul_one(accumulator@);
                }
                Some(MembershipWitness(accumulator.0.mul(&inverse)))
            },
            None => None,
        }
    }

    /// Whether this is a witness for `y` against the accumulator, checked
    /// with the public key alone: the pairing of the witness with the
    /// identifier's point must be that of the accumulator with the generator.
    pub fn verify(&self, y: &Element, public_key: &PublicKey, accumulator: &Accumulator) -> (r:
        bool)
        ensures
            r == witness_valid(self@, y@, public_key@, accumulator@),
    {
        let generator = G2Point::generator();
        let point = generator.mul(&y.0).add(&public_key.0);
        let negative = accumulator.0.neg();
        proof {
            use_type_invariant(&y.0);
            use_type_invariant(&accumulator.0);
            use_type_invariant(&negative);
            lemma_fmul_one(y@);
            lemma_fmul_one(negative@);
            let left = fmul(self@, fadd(y@, public_key@));
            lemma_fmul_elem(self@, fadd(y@, public_key@));
            lemma_fsub_zero_iff(left, accumulator@);
        }
        pairing_product_is_one(&self.0, &point, &negative, &generator)
    }
}

} // verus!
