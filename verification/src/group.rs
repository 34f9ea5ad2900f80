//! Points of the two source groups of the pairing, held by their compressed
//! encodings.
//!
//! Both groups are cyclic of the prime order `order()`, each with a fixed
//! generator. A point is modelled by its logarithm to that generator: the
//! scalar by which the generator must be multiplied to give the point. The
//! group operations then are the ring operations on logarithms, and the
//! pairing multiplies them. The encoding of a point is canonical, so that a
//! point is known by its logarithm.
//!
//! None of this is proved here: the arithmetic of the curve is that of
//! blsful. What the functions at the end of this file state of it is what
//! the rest of the library rests on.
use crate::error::Error;
use crate::field::{fadd, fmul, fneg, is_elem};
use crate::scalar::{limbs_value, Scalar};
use vstd::prelude::*;

verus! {

/// The number of bytes in the encoding of a point of the first group.
pub const G1_BYTES: usize = 48;

/// The number of bytes in the encoding of a point of the second group.
pub const G2_BYTES: usize = 96;

/// The compressed encoding of the point of the first group with the given
/// logarithm: of the fixed generator multiplied by it.
pub uninterp spec fn g1_point(log: nat) -> Seq<u8>;

/// The compressed encoding of the point of the second group with the given
/// logarithm: of the fixed generator multiplied by it.
pub uninterp spec fn g2_point(log: nat) -> Seq<u8>;

/// Whether the bytes are the encoding of the point of the first group with
/// the logarithm `log`.
pub open spec fn is_g1_log(bytes: Seq<u8>, log: nat) -> bool {
    is_elem(log) && g1_point(log) == bytes
}

/// Whether the bytes are the encoding of the point of the second group with
/// the logarithm `log`.
pub open spec fn is_g2_log(bytes: Seq<u8>, log: nat) -> bool {
    is_elem(log) && g2_point(log) == bytes
}

/// Whether the bytes are the compressed encoding of a point of the first
/// group. The group is cyclic, so that its points are the multiples of the
/// generator.
pub open spec fn g1_valid(bytes: Seq<u8>) -> bool {
    exists|log: nat| is_g1_log(bytes, log)
}

/// Whether the bytes are the compressed encoding of a point of the second
/// group.
pub open spec fn g2_valid(bytes: Seq<u8>) -> bool {
    exists|log: nat| is_g2_log(bytes, log)
}

/// The logarithm, to the fixed generator of the first group, of the point
/// that a valid encoding stands for.
pub open spec fn g1_log(bytes: Seq<u8>) -> nat {
    choose|log: nat| is_g1_log(bytes, log)
}

/// The logarithm, to the fixed generator of the second group, of the point
/// that a valid encoding stands for.
pub open spec fn g2_log(bytes: Seq<u8>) -> nat {
    choose|log: nat| is_g2_log(bytes, log)
}

/// The encoding of the point of the first group that a message hashes to
/// under a domain separation tag.
pub uninterp spec fn hash_to_g1(msg: Seq<u8>, dst: Seq<u8>) -> Seq<u8>;

/// The encoding of the point of the second group that a message hashes to
/// under a domain separation tag.
pub uninterp spec fn hash_to_g2(msg: Seq<u8>, dst: Seq<u8>) -> Seq<u8>;

/// A point of the first group.
#[derive(Clone, Copy, Debug, PartialEq, Eq, Hash)]
pub struct G1Point {
    bytes: [u8; 48],
}

/// A point of the second group.
#[derive(Clone, Copy, Debug, PartialEq, Eq, Hash)]
pub struct G2Point {
    bytes: [u8; 96],
}

impl View for G1Point {
    type V = nat;

    /// The logarithm of the point.
    open spec fn view(&self) -> nat {
        g1_log(self.encoding())
    }
}

impl View for G2Point {
    type V = nat;

    /// The logarithm of the point.
    open spec fn view(&self) -> nat {
        g2_log(self.encoding())
    }
}

/// The point of the first group that bytes decode to, if they decode to
/// one: they must be 48 and the encoding of a point of the group.
pub open spec fn g1_decoding(bytes: Seq<u8>) -> Option<G1Point> {
    if bytes.len() == 48 && g1_valid(bytes) {
        Some(G1Point::of_encoding(bytes))
    } else {
        None
    }
}

/// The point of the second group that bytes decode to, if they decode to
/// one: they must be 96 and the encoding of a point of the group.
pub open spec fn g2_decoding(bytes: Seq<u8>) -> Option<G2Point> {
    if bytes.len() == 96 && g2_valid(bytes) {
        Some(G2Point::of_encoding(bytes))
    } else {
        None
    }
}

impl G1Point {
    /// The compressed encoding of the point.
    pub closed spec fn encoding(self) -> Seq<u8> {
        self.bytes@
    }

    /// The point with the given encoding.
    pub closed spec fn of_encoding(bytes: Seq<u8>) -> G1Point {
        choose|p: G1Point| p.encoding() == bytes
    }

    /// A point is the point with its encoding.
    pub proof fn lemma_of_encoding(p: G1Point)
        ensures
            Self::of_encoding(p.encoding()) == p,
    {
        Self::lemma_encoding_injective(Self::of_encoding(p.encoding()), p);
    }

    /// A point survives encoding and decoding unchanged.
    pub proof fn lemma_roundtrip(p: G1Point)
        requires
            p.wf(),
        ensures
            g1_decoding(p.encoding()) == Some(p),
    {
        Self::lemma_of_encoding(p);
    }

    /// Every point that executable code holds has a valid encoding.
    #[verifier::type_invariant]
    pub open spec fn wf(self) -> bool {
        &&& self.encoding().len() == 48
        &&& g1_valid(self.encoding())
        &&& is_elem(self@)
        &&& self.encoding() == g1_point(self@)
    }

    /// Points with the same logarithm are the same point.
    pub proof fn lemma_view_injective(a: G1Point, b: G1Point)
        requires
            a.wf(),
            b.wf(),
            a@ == b@,
        ensures
            a == b,
    {
        Self::lemma_encoding_injective(a, b);
    }

    /// Points with the same encoding are the same point.
    pub proof fn lemma_encoding_injective(a: G1Point, b: G1Point)
        requires
            a.encoding() == b.encoding(),
        ensures
            a == b,
    {
        assert(a.bytes@ =~= b.bytes@);
        assert(a.bytes == b.bytes);
    }

    /// The fixed generator of the group.
    pub fn generator() -> (r: G1Point)
        ensures
            r@ == 1,
    {
        outside_g1_generator()
    }

    /// The neutral element.
    pub fn identity() -> (r: G1Point)
        ensures
            r@ == 0,
    {
        outside_g1_identity()
    }

    /// The sum of two points.
    pub fn add(&self, other: &G1Point) -> (r: G1Point)
        ensures
            r@ == fadd(self@, other@),
    {
        proof {
            use_type_invariant(self);
            use_type_invariant(other);
        }
        outside_g1_add(self, other)
    }

    /// The inverse of the point in the group.
    pub fn neg(&self) -> (r: G1Point)
        ensures
            r@ == fneg(self@),
    {
        proof {
            use_type_invariant(self);
        }
        outside_g1_neg(self)
    }

    /// The point multiplied by a scalar.
    pub fn mul(&self, s: &Scalar) -> (r: G1Point)
        ensures
            r@ == fmul(self@, s@),
    {
        proof {
            use_type_invariant(self);
            use_type_invariant(s);
        }
        outside_g1_mul(self, s.to_raw())
    }

    /// Whether two points are the same element of the group.
    pub fn eq(&self, other: &G1Point) -> (r: bool)
        ensures
            r == (self@ == other@),
            r == (*self == *other),
    {
        proof {
            use_type_invariant(self);
            use_type_invariant(other);
        }
        let mut i: usize = 0;
        while i < 48
            invariant
                i <= 48,
                self.wf(),
                other.wf(),
                forall|j: int| 0 <= j < i ==> self.bytes@[j] == other.bytes@[j],
            decreases 48 - i,
        {
            if self.bytes[i] != other.bytes[i] {
                proof {
                    if self@ == other@ {
                        assert(self.encoding() == other.encoding());
                        assert(self.bytes@[i as int] == other.bytes@[i as int]);
                    }
                }
                return false;
            }
            i += 1;
        }
        proof {
            assert(self.bytes@ =~= other.bytes@);
            Self::lemma_encoding_injective(*self, *other);
        }
        true
    }

    /// The point that a message hashes to under a domain separation tag.
    pub fn hash(msg: &[u8], dst: &[u8]) -> (r: G1Point)
        ensures
            r.encoding() == hash_to_g1(msg@, dst@),
    {
        outside_g1_hash(msg, dst)
    }

    /// Decodes a point from its 48 bytes. Bytes of another length, or that
    /// are not the encoding of a point of the group, decode to nothing.
    pub fn from_bytes(bytes: &[u8]) -> (r: Option<G1Point>)
        ensures
            r == g1_decoding(bytes@),
            r matches Some(p) ==> p.encoding() == bytes@,
    {
        if bytes.len() != G1_BYTES {
            return None;
        }
        let r = outside_g1_decode(bytes);
        proof {
            if let Some(p) = r {
                Self::lemma_of_encoding(p);
            }
        }
        r
    }

    /// Decodes a point as `from_bytes` does, and says what is wrong with
    /// bytes that do not decode: their length, or that they are no encoding
    /// of a point of the group.
    pub fn decode(bytes: &[u8]) -> (r: Result<G1Point, Error>)
        ensures
            match r {
                Ok(p) => g1_decoding(bytes@) == Some(p) && p.encoding() == bytes@,
                Err(e) => {
                    &&& g1_decoding(bytes@) is None
                    &&& e == Error::Length <==> bytes@.len() != 48
                    &&& e == Error::Encoding <==> bytes@.len() == 48
                },
            },
    {
        if bytes.len() != G1_BYTES {
            return Err(Error::Length);
        }
        match Self::from_bytes(bytes) {
            Some(p) => Ok(p),
            None => Err(Error::Encoding),
        }
    }

    /// The 48 bytes of the point.
    pub fn to_bytes(&self) -> (r: Vec<u8>)
        ensures
            r@ == self.encoding(),
            r@.len() == 48,
    {
        let mut out: Vec<u8> = Vec::new();
        let mut i: usize = 0;
        while i < 48
            invariant
                i <= 48,
                out@ == self.bytes@.subrange(0, i as int),
            decreases 48 - i,
        {
            out.push(self.bytes[i]);
            i += 1;
        }
        assert(out@ =~= self.bytes@);
        out
    }
}

impl G2Point {
    /// The compressed encoding of the point.
    pub closed spec fn encoding(self) -> Seq<u8> {
        self.bytes@
    }

    /// The point with the given encoding.
    pub closed spec fn of_encoding(bytes: Seq<u8>) -> G2Point {
        choose|p: G2Point| p.encoding() == bytes
    }

    /// A point is the point with its encoding.
    pub proof fn lemma_of_encoding(p: G2Point)
        ensures
            Self::of_encoding(p.encoding()) == p,
    {
        Self::lemma_encoding_injective(Self::of_encoding(p.encoding()), p);
    }

    /// A point survives encoding and decoding unchanged.
    pub proof fn lemma_roundtrip(p: G2Point)
        requires
            p.wf(),
        ensures
            g2_decoding(p.encoding()) == Some(p),
    {
        Self::lemma_of_encoding(p);
    }

    /// Every point that executable code holds has a valid encoding.
    #[verifier::type_invariant]
    pub open spec fn wf(self) -> bool {
        &&& self.encoding().len() == 96
        &&& g2_valid(self.encoding())
        &&& is_elem(self@)
        &&& self.encoding() == g2_point(self@)
    }

    /// Points with the same logarithm are the same point.
    pub proof fn lemma_view_injective(a: G2Point, b: G2Point)
        requires
            a.wf(),
            b.wf(),
            a@ == b@,
        ensures
            a == b,
    {
        Self::lemma_encoding_injective(a, b);
    }

    /// Points with the same encoding are the same point.
    pub proof fn lemma_encoding_injective(a: G2Point, b: G2Point)
        requires
            a.encoding() == b.encoding(),
        ensures
            a == b,
    {
        assert(a.bytes@ =~= b.bytes@);
        assert(a.bytes == b.bytes);
    }

    /// The fixed generator of the group.
    pub fn generator() -> (r: G2Point)
        ensures
            r@ == 1,
    {
        outside_g2_generator()
    }

    /// The sum of two points.
    pub fn add(&self, other: &G2Point) -> (r: G2Point)
        ensures
            r@ == fadd(self@, other@),
    {
        proof {
            use_type_invariant(self);
            use_type_invariant(other);
        }
        outside_g2_add(self, other)
    }

    /// The point multiplied by a scalar.
    pub fn mul(&self, s: &Scalar) -> (r: G2Point)
        ensures
            r@ == fmul(self@, s@),
    {
        proof {
            use_type_invariant(self);
            use_type_invariant(s);
        }
        outside_g2_mul(self, s.to_raw())
    }

    /// Whether two points are the same element of the group.
    pub fn eq(&self, other: &G2Point) -> (r: bool)
        ensures
            r == (self@ == other@),
            r == (*self == *other),
    {
        proof {
            use_type_invariant(self);
            use_type_invariant(other);
        }
        let mut i: usize = 0;
        while i < 96
            invariant
                i <= 96,
                self.wf(),
                other.wf(),
                forall|j: int| 0 <= j < i ==> self.bytes@[j] == other.bytes@[j],
            decreases 96 - i,
        {
            if self.bytes[i] != other.bytes[i] {
                proof {
                    if self@ == other@ {
                        assert(self.encoding() == other.encoding());
                        assert(self.bytes@[i as int] == other.bytes@[i as int]);
                    }
                }
                return false;
            }
            i += 1;
        }
        proof {
            assert(self.bytes@ =~= other.bytes@);
            Self::lemma_encoding_injective(*self, *other);
        }
        true
    }

    /// The point that a message hashes to under a domain separation tag.
    pub fn hash(msg: &[u8], dst: &[u8]) -> (r: G2Point)
        ensures
            r.encoding() == hash_to_g2(msg@, dst@),
    {
        outside_g2_hash(msg, dst)
    }

    /// Decodes a point from its 96 bytes. Bytes of another length, or that
    /// are not the encoding of a point of the group, decode to nothing.
    pub fn from_bytes(bytes: &[u8]) -> (r: Option<G2Point>)
        ensures
            r == g2_decoding(bytes@),
            r matches Some(p) ==> p.encoding() == bytes@,
    {
        if bytes.len() != G2_BYTES {
            return None;
        }
        let r = outside_g2_decode(bytes);
        proof {
            if let Some(p) = r {
                Self::lemma_of_encoding(p);
            }
        }
        r
    }

    /// Decodes a point as `from_bytes` does, and says what is wrong with
    /// bytes that do not decode: their length, or that they are no encoding
    /// of a point of the group.
    pub fn decode(bytes: &[u8]) -> (r: Result<G2Point, Error>)
        ensures
            match r {
                Ok(p) => g2_decoding(bytes@) == Some(p) && p.encoding() == bytes@,
                Err(e) => {
                    &&& g2_decoding(bytes@) is None
                    &&& e == Error::Length <==> bytes@.len() != 96
                    &&& e == Error::Encoding <==> bytes@.len() == 96
                },
            },
    {
        if bytes.len() != G2_BYTES {
            return Err(Error::Length);
        }
        match Self::from_bytes(bytes) {
            Some(p) => Ok(p),
            None => Err(Error::Encoding),
        }
    }

    /// The 96 bytes of the point.
    pub fn to_bytes(&self) -> (r: Vec<u8>)
        ensures
            r@ == self.encoding(),
            r@.len() == 96,
    {
        let mut out: Vec<u8> = Vec::new();
        let mut i: usize = 0;
        while i < 96
            invariant
                i <= 96,
                out@ == self.bytes@.subrange(0, i as int),
            decreases 96 - i,
        {
            out.push(self.bytes[i]);
            i += 1;
        }
        assert(out@ =~= self.bytes@);
        out
    }
}

/// Whether the product of two pairings is the neutral element of the target
/// group: `e(a, b) * e(c, d) == 1`. The pairing is bilinear and maps the two
/// generators to an element of order `order()`, so this holds exactly when
/// the logarithms satisfy `a * b + c * d == 0`.
pub fn pairing_product_is_one(a: &G1Point, b: &G2Point, c: &G1Point, d: &G2Point) -> (r: bool)
    ensures
        r == (fadd(fmul(a@, b@), fmul(c@, d@)) == 0),
{
    proof {
        use_type_invariant(a);
        use_type_invariant(b);
        use_type_invariant(c);
        use_type_invariant(d);
    }
    outside_pairing_product_is_one(a, b, c, d)
}

/// `G1Projective::GENERATOR` of blsful, the generator to which the
/// logarithms of the first group are taken.
#[verifier::external_body]
fn outside_g1_generator() -> (r: G1Point)
    ensures
        r.wf(),
        g1_log(r.encoding()) == 1,
        r.encoding() == g1_point(1),
{
    G1Point { bytes: blsful::inner_types::G1Projective::GENERATOR.to_compressed() }
}

/// `G1Projective::IDENTITY` of blsful: the neutral element, zero times the
/// generator.
#[verifier::external_body]
fn outside_g1_identity() -> (r: G1Point)
    ensures
        r.wf(),
        g1_log(r.encoding()) == 0,
{
    G1Point { bytes: blsful::inner_types::G1Projective::IDENTITY.to_compressed() }
}

/// `G1Projective + G1Projective` of blsful: the group operation, under
/// which logarithms add.
#[verifier::external_body]
fn outside_g1_add(a: &G1Point, b: &G1Point) -> (r: G1Point)
    requires
        a.wf(),
        b.wf(),
    ensures
        r.wf(),
        r@ == fadd(a@, b@),
{
    let x = blsful::inner_types::G1Projective::from_compressed(&a.bytes).unwrap();
    let y = blsful::inner_types::G1Projective::from_compressed(&b.bytes).unwrap();
    G1Point { bytes: (x + y).to_compressed() }
}

/// `-G1Projective` of blsful: the inverse in the group, which negates the
/// logarithm.
#[verifier::external_body]
fn outside_g1_neg(a: &G1Point) -> (r: G1Point)
    requires
        a.wf(),
    ensures
        r.wf(),
        r@ == fneg(a@),
{
    let x = blsful::inner_types::G1Projective::from_compressed(&a.bytes).unwrap();
    G1Point { bytes: (-x).to_compressed() }
}

/// `G1Projective * Scalar` of blsful, the scalar given by its limbs:
/// multiplication of a point by a scalar, which multiplies the logarithm by
/// it.
#[verifier::external_body]
fn outside_g1_mul(p: &G1Point, limbs: [u64; 4]) -> (r: G1Point)
    requires
        p.wf(),
        is_elem(limbs_value(limbs[0], limbs[1], limbs[2], limbs[3])),
    ensures
        r.wf(),
        r@ == fmul(p@, limbs_value(limbs[0], limbs[1], limbs[2], limbs[3])),
{
    let x = blsful::inner_types::G1Projective::from_compressed(&p.bytes).unwrap();
    let k = blsful::inner_types::Scalar::from_raw(limbs).unwrap();
    G1Point { bytes: (x * k).to_compressed() }
}

/// `G1Projective::hash` of blsful with `ExpandMsgXmd<Sha256>`: a function of
/// the message and the tag alone, whose result is a point of the group.
#[verifier::external_body]
fn outside_g1_hash(msg: &[u8], dst: &[u8]) -> (r: G1Point)
    ensures
        r.wf(),
        r.encoding() == hash_to_g1(msg@, dst@),
{
    let p = blsful::inner_types::G1Projective::hash::<
        blsful::inner_types::ExpandMsgXmd<sha2::Sha256>,
    >(msg, dst);
    G1Point { bytes: p.to_compressed() }
}

/// `G1Projective::from_compressed` of blsful: accepts exactly the 48-byte
/// strings that are the compressed encoding of a point of the group. The
/// encoding is canonical, so the point accepted encodes to the same bytes.
#[verifier::external_body]
fn outside_g1_decode(bytes: &[u8]) -> (r: Option<G1Point>)
    requires
        bytes@.len() == 48,
    ensures
        r is Some <==> g1_valid(bytes@),
        r matches Some(p) ==> p.wf() && p.encoding() == bytes@,
{
    let buf: [u8; 48] = bytes.try_into().unwrap();
    let p: Option<blsful::inner_types::G1Projective> =
        blsful::inner_types::G1Projective::from_compressed(&buf).into();
    p.map(|q| G1Point { bytes: q.to_compressed() })
}

/// `G2Projective::GENERATOR` of blsful, the generator to which the
/// logarithms of the second group are taken.
#[verifier::external_body]
fn outside_g2_generator() -> (r: G2Point)
    ensures
        r.wf(),
        g2_log(r.encoding()) == 1,
        r.encoding() == g2_point(1),
{
    G2Point { bytes: blsful::inner_types::G2Projective::GENERATOR.to_compressed() }
}

/// `G2Projective + G2Projective` of blsful: the group operation, under
/// which logarithms add.
#[verifier::external_body]
fn outside_g2_add(a: &G2Point, b: &G2Point) -> (r: G2Point)
    requires
        a.wf(),
        b.wf(),
    ensures
        r.wf(),
        r@ == fadd(a@, b@),
{
    let x = blsful::inner_types::G2Projective::from_compressed(&a.bytes).unwrap();
    let y = blsful::inner_types::G2Projective::from_compressed(&b.bytes).unwrap();
    G2Point { bytes: (x + y).to_compressed() }
}

/// `G2Projective * Scalar` of blsful, the scalar given by its limbs:
/// multiplication of a point by a scalar, which multiplies the logarithm by
/// it.
#[verifier::external_body]
fn outside_g2_mul(p: &G2Point, limbs: [u64; 4]) -> (r: G2Point)
    requires
        p.wf(),
        is_elem(limbs_value(limbs[0], limbs[1], limbs[2], limbs[3])),
    ensures
        r.wf(),
        r@ == fmul(p@, limbs_value(limbs[0], limbs[1], limbs[2], limbs[3])),
{
    let x = blsful::inner_types::G2Projective::from_compressed(&p.bytes).unwrap();
    let k = blsful::inner_types::Scalar::from_raw(limbs).unwrap();
    G2Point { bytes: (x * k).to_compressed() }
}

/// `G2Projective::hash` of blsful with `ExpandMsgXmd<Sha256>`: a function of
/// the message and the tag alone, whose result is a point of the group.
#[verifier::external_body]
fn outside_g2_hash(msg: &[u8], dst: &[u8]) -> (r: G2Point)
    ensures
        r.wf(),
        r.encoding() == hash_to_g2(msg@, dst@),
{
    let p = blsful::inner_types::G2Projective::hash::<
        blsful::inner_types::ExpandMsgXmd<sha2::Sha256>,
    >(msg, dst);
    G2Point { bytes: p.to_compressed() }
}

/// `G2Projective::from_compressed` of blsful: accepts exactly the 96-byte
/// strings that are the compressed encoding of a point of the group. The
/// encoding is canonical, so the point accepted encodes to the same bytes.
#[verifier::external_body]
fn outside_g2_decode(bytes: &[u8]) -> (r: Option<G2Point>)
    requires
        bytes@.len() == 96,
    ensures
        r is Some <==> g2_valid(bytes@),
        r matches Some(p) ==> p.wf() && p.encoding() == bytes@,
{
    let buf: [u8; 96] = bytes.try_into().unwrap();
    let p: Option<blsful::inner_types::G2Projective> =
        blsful::inner_types::G2Projective::from_compressed(&buf).into();
    p.map(|q| G2Point { bytes: q.to_compressed() })
}

/// `multi_miller_loop` of blsful on the two pairs, followed by
/// `final_exponentiation` and `is_identity`: whether `e(a, b) * e(c, d)` is
/// the neutral element of the target group. By bilinearity the product is
/// `e(g1, g2)` raised to `a * b + c * d` over the logarithms, and `e(g1, g2)`
/// has order `order()`.
#[verifier::external_body]
fn outside_pairing_product_is_one(a: &G1Point, b: &G2Point, c: &G1Point, d: &G2Point) -> (r: bool)
    requires
        a.wf(),
        b.wf(),
        c.wf(),
        d.wf(),
    ensures
        r == (fadd(fmul(a@, b@), fmul(c@, d@)) == 0),
{
    let a = blsful::inner_types::G1Affine::from_compressed(&a.bytes).unwrap();
    let b = blsful::inner_types::G2Affine::from_compressed(&b.bytes).unwrap();
    let c = blsful::inner_types::G1Affine::from_compressed(&c.bytes).unwrap();
    let d = blsful::inner_types::G2Affine::from_compressed(&d.bytes).unwrap();
    let b = blsful::inner_types::G2Prepared::from(b);
    let d = blsful::inner_types::G2Prepared::from(d);
    let m = blsful::inner_types::multi_miller_loop(&[(&a, &b), (&c, &d)]);
    let t = blsful::inner_types::MillerLoopResult::final_exponentiation(&m);
    blsful::inner_types::Group::is_identity(&t).into()
}

} // verus!
