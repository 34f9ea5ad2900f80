//! Scalars: residues modulo the group order, held as four 64-bit limbs.
use crate::encoding::{
    be_bytes, be_value, le_value, lemma_be_bytes_len, lemma_be_bytes_of_value,
    lemma_be_value_of_bytes, lemma_pow256_32,
};
use crate::error::Error;
use crate::field::{
    fadd, finv, fmul, fneg, fsub, invertible, is_elem, is_inverse, lemma_finv_is,
    lemma_invertible_nonzero, lemma_order_bounds, lemma_order_value, order,
};
use vstd::prelude::*;

verus! {

/// The number of bytes in the encoding of a scalar.
pub const SCALAR_BYTES: usize = 32;

/// An element of the scalar field, always in canonical form.
#[derive(Clone, Copy, Debug, PartialEq, Eq, Hash, Structural)]
pub struct Scalar {
    l0: u64,
    l1: u64,
    l2: u64,
    l3: u64,
}

/// The number that four limbs stand for, least significant limb first.
pub open spec fn limbs_value(l0: u64, l1: u64, l2: u64, l3: u64) -> nat {
    (l0 as nat) + (l1 as nat) * 0x1_0000_0000_0000_0000nat + (l2 as nat)
        * 0x1_0000_0000_0000_0000_0000_0000_0000_0000nat + (l3 as nat)
        * 0x1_0000_0000_0000_0000_0000_0000_0000_0000_0000_0000_0000_0000nat
}

/// The last digit of a number in base 2^64, and the number without it.
proof fn lemma_digit(x: int, q: int, r: u64)
    requires
        x == r + 0x1_0000_0000_0000_0000 * q,
    ensures
        q == x / 0x1_0000_0000_0000_0000,
        r == x % 0x1_0000_0000_0000_0000,
{
    vstd::arithmetic::div_mod::lemma_fundamental_div_mod_converse(
        x,
        0x1_0000_0000_0000_0000,
        q,
        r as int,
    );
}

/// Limbs are the digits of a number in base 2^64, so the number fixes them.
pub proof fn lemma_limbs_value_injective(
    a0: u64,
    a1: u64,
    a2: u64,
    a3: u64,
    b0: u64,
    b1: u64,
    b2: u64,
    b3: u64,
)
    requires
        limbs_value(a0, a1, a2, a3) == limbs_value(b0, b1, b2, b3),
    ensures
        a0 == b0,
        a1 == b1,
        a2 == b2,
        a3 == b3,
{
    let x2: int = a2 + 0x1_0000_0000_0000_0000 * a3;
    let y2: int = b2 + 0x1_0000_0000_0000_0000 * b3;
    let x1: int = a1 + 0x1_0000_0000_0000_0000 * x2;
    let y1: int = b1 + 0x1_0000_0000_0000_0000 * y2;
    let x0: int = a0 + 0x1_0000_0000_0000_0000 * x1;
    let y0: int = b0 + 0x1_0000_0000_0000_0000 * y1;
    assert(limbs_value(a0, a1, a2, a3) == x0);
    assert(limbs_value(b0, b1, b2, b3) == y0);
    lemma_digit(x0, x1, a0);
    lemma_digit(y0, y1, b0);
    lemma_digit(x1, x2, a1);
    lemma_digit(y1, y2, b1);
    lemma_digit(x2, a3 as int, a2);
    lemma_digit(y2, b3 as int, b2);
}

/// The encoding of the residue `v`: its 32 base-256 digits, most
/// significant first.
pub open spec fn scalar_encoding(v: nat) -> Seq<u8> {
    be_bytes(v, 32)
}

/// The residue that a byte string encodes, if it encodes one: it must have
/// 32 bytes and stand for a number below the order.
pub open spec fn scalar_decoding(b: Seq<u8>) -> Option<nat> {
    if b.len() == 32 && be_value(b) < order() {
        Some(be_value(b))
    } else {
        None
    }
}

/// What hashing a message to the scalar field under a domain separation tag
/// gives.
pub uninterp spec fn hash_to_scalar(msg: Seq<u8>, dst: Seq<u8>) -> nat;

impl View for Scalar {
    type V = nat;

    closed spec fn view(&self) -> nat {
        limbs_value(self.l0, self.l1, self.l2, self.l3)
    }
}

impl Scalar {
    /// Every scalar that executable code holds is below the order.
    #[verifier::type_invariant]
    pub open spec fn wf(self) -> bool {
        is_elem(self@)
    }

    /// The limbs of the scalar, least significant first.
    pub fn to_raw(&self) -> (r: [u64; 4])
        ensures
            limbs_value(r[0], r[1], r[2], r[3]) == self@,
    {
        [self.l0, self.l1, self.l2, self.l3]
    }

    /// The scalar with the given value.
    pub closed spec fn of_value(v: nat) -> Scalar {
        choose|s: Scalar| s@ == v
    }

    /// A scalar is the scalar with its value.
    pub proof fn lemma_of_value(s: Scalar)
        ensures
            Self::of_value(s@) == s,
    {
        Self::lemma_view_injective(Self::of_value(s@), s);
    }

    /// Scalars with the same value are the same scalar.
    pub proof fn lemma_view_injective(a: Scalar, b: Scalar)
        requires
            a@ == b@,
        ensures
            a == b,
    {
        lemma_limbs_value_injective(a.l0, a.l1, a.l2, a.l3, b.l0, b.l1, b.l2, b.l3);
    }

    /// The scalar zero.
    pub fn zero() -> (r: Scalar)
        ensures
            r@ == 0,
    {
        proof {
            lemma_order_value();
        }
        Scalar { l0: 0, l1: 0, l2: 0, l3: 0 }
    }

    /// The scalar one.
    pub fn one() -> (r: Scalar)
        ensures
            r@ == 1,
    {
        proof {
            lemma_order_value();
        }
        Scalar { l0: 1, l1: 0, l2: 0, l3: 0 }
    }

    /// The scalar with a value of 64 bits.
    pub fn from_u64(v: u64) -> (r: Scalar)
        ensures
            r@ == v,
    {
        proof {
            lemma_order_value();
        }
        Scalar { l0: v, l1: 0, l2: 0, l3: 0 }
    }

    /// Whether two scalars stand for the same residue.
    pub fn eq(&self, other: &Scalar) -> (r: bool)
        ensures
            r == (self@ == other@),
            r == (*self == *other),
    {
        proof {
            if self@ == other@ {
                Self::lemma_view_injective(*self, *other);
            }
        }
        *self == *other
    }

    /// Whether the scalar is zero.
    pub fn is_zero(&self) -> (r: bool)
        ensures
            r == (self@ == 0),
    {
        self.l0 == 0 && self.l1 == 0 && self.l2 == 0 && self.l3 == 0
    }

    /// The sum of two scalars.
    pub fn add(&self, other: &Scalar) -> (r: Scalar)
        ensures
            r@ == fadd(self@, other@),
    {
        proof {
            use_type_invariant(self);
            use_type_invariant(other);
        }
        outside_add(self, other)
    }

    /// The difference of two scalars.
    pub fn sub(&self, other: &Scalar) -> (r: Scalar)
        ensures
            r@ == fsub(self@, other@),
    {
        proof {
            use_type_invariant(self);
            use_type_invariant(other);
        }
        outside_sub(self, other)
    }

    /// The product of two scalars.
    pub fn mul(&self, other: &Scalar) -> (r: Scalar)
        ensures
            r@ == fmul(self@, other@),
    {
        proof {
            use_type_invariant(self);
            use_type_invariant(other);
        }
        outside_mul(self, other)
    }

    /// The negative of the scalar.
    pub fn neg(&self) -> (r: Scalar)
        ensures
            r@ == fneg(self@),
    {
        proof {
            use_type_invariant(self);
        }
        outside_neg(self)
    }

    /// The multiplicative inverse: every scalar but zero has one.
    pub fn invert(&self) -> (r: Option<Scalar>)
        ensures
            r is Some <==> self@ != 0,
            r is Some <==> invertible(self@),
            r matches Some(x) ==> x@ == finv(self@) && is_inverse(self@, x@),
    {
        proof {
            use_type_invariant(self);
        }
        let r = outside_invert(self);
        proof {
            match r {
                Some(x) => {
                    lemma_finv_is(self@, x@);
                },
                None => {
                    if invertible(self@) {
                        lemma_invertible_nonzero(self@);
                    }
                },
            }
        }
        r
    }

    /// A scalar drawn from the operating system's random number generator.
    /// Every residue below the order may come out, and nothing else.
    pub fn random() -> (r: Scalar)
        ensures
            r.wf(),
    {
        outside_random()
    }

    /// The scalar that a message hashes to under a domain separation tag.
    pub fn hash(msg: &[u8], dst: &[u8]) -> (r: Scalar)
        ensures
            r@ == hash_to_scalar(msg@, dst@),
    {
        outside_hash(msg, dst)
    }

    /// The residue of a 512-bit number given least significant byte first.
    pub fn from_wide(bytes: &[u8; 64]) -> (r: Scalar)
        ensures
            r@ == le_value(bytes@) % order(),
    {
        outside_from_wide(bytes)
    }

    /// Decodes a scalar from 32 bytes, most significant first. A string of
    /// another length, or one that stands for a number not below the order,
    /// decodes to nothing.
    pub fn from_bytes(bytes: &[u8]) -> (r: Option<Scalar>)
        ensures
            match r {
                Some(s) => scalar_decoding(bytes@) == Some(s@),
                None => scalar_decoding(bytes@) is None,
            },
    {
        if bytes.len() != SCALAR_BYTES {
            return None;
        }
        outside_decode(bytes)
    }

    /// Decodes a scalar as `from_bytes` does, and says what is wrong with
    /// bytes that do not decode: their length, or the number they stand for.
    pub fn decode(bytes: &[u8]) -> (r: Result<Scalar, Error>)
        ensures
            match r {
                Ok(s) => scalar_decoding(bytes@) == Some(s@),
                Err(e) => {
                    &&& scalar_decoding(bytes@) is None
                    &&& e == Error::Length <==> bytes@.len() != 32
                    &&& e == Error::Encoding <==> bytes@.len() == 32
                },
            },
    {
        if bytes.len() != SCALAR_BYTES {
            return Err(Error::Length);
        }
        match outside_decode(bytes) {
            Some(s) => Ok(s),
            None => Err(Error::Encoding),
        }
    }

    /// The 32 bytes of the scalar, most significant first.
    pub fn to_bytes(&self) -> (r: Vec<u8>)
        ensures
            r@ == scalar_encoding(self@),
            r@.len() == 32,
    {
        proof {
            use_type_invariant(self);
            lemma_order_bounds();
            lemma_pow256_32();
        }
        let r = outside_encode(self);
        proof {
            lemma_be_bytes_of_value(r@);
        }
        r
    }
}

/// A scalar survives encoding and decoding unchanged.
pub proof fn lemma_scalar_roundtrip(v: nat)
    requires
        is_elem(v),
    ensures
        scalar_decoding(scalar_encoding(v)) == Some(v),
{
    lemma_order_bounds();
    lemma_pow256_32();
    lemma_be_bytes_len(v, 32);
    lemma_be_value_of_bytes(v, 32);
}

/// Bytes that decode to a scalar are the encoding of that scalar.
pub proof fn lemma_scalar_decoding_canonical(b: Seq<u8>)
    requires
        scalar_decoding(b) is Some,
    ensures
        scalar_encoding(scalar_decoding(b)->Some_0) == b,
{
    lemma_be_bytes_of_value(b);
}

/// `Scalar + Scalar` of blsful: addition in the scalar field, that is,
/// addition of the canonical representatives modulo the group order.
#[verifier::external_body]
fn outside_add(a: &Scalar, b: &Scalar) -> (r: Scalar)
    requires
        a.wf(),
        b.wf(),
    ensures
        r.wf(),
        r@ == fadd(a@, b@),
{
    let x = blsful::inner_types::Scalar::from_raw([a.l0, a.l1, a.l2, a.l3]).unwrap();
    let y = blsful::inner_types::Scalar::from_raw([b.l0, b.l1, b.l2, b.l3]).unwrap();
    let z = (x + y).to_raw();
    Scalar { l0: z[0], l1: z[1], l2: z[2], l3: z[3] }
}

/// `Scalar - Scalar` of blsful: subtraction modulo the group order.
#[verifier::external_body]
fn outside_sub(a: &Scalar, b: &Scalar) -> (r: Scalar)
    requires
        a.wf(),
        b.wf(),
    ensures
        r.wf(),
        r@ == fsub(a@, b@),
{
    let x = blsful::inner_types::Scalar::from_raw([a.l0, a.l1, a.l2, a.l3]).unwrap();
    let y = blsful::inner_types::Scalar::from_raw([b.l0, b.l1, b.l2, b.l3]).unwrap();
    let z = (x - y).to_raw();
    Scalar { l0: z[0], l1: z[1], l2: z[2], l3: z[3] }
}

/// `Scalar * Scalar` of blsful: multiplication modulo the group order.
#[verifier::external_body]
fn outside_mul(a: &Scalar, b: &Scalar) -> (r: Scalar)
    requires
        a.wf(),
        b.wf(),
    ensures
        r.wf(),
        r@ == fmul(a@, b@),
{
    let x = blsful::inner_types::Scalar::from_raw([a.l0, a.l1, a.l2, a.l3]).unwrap();
    let y = blsful::inner_types::Scalar::from_raw([b.l0, b.l1, b.l2, b.l3]).unwrap();
    let z = (x * y).to_raw();
    Scalar { l0: z[0], l1: z[1], l2: z[2], l3: z[3] }
}

/// `-Scalar` of blsful: the additive inverse modulo the group order.
#[verifier::external_body]
fn outside_neg(a: &Scalar) -> (r: Scalar)
    requires
        a.wf(),
    ensures
        r.wf(),
        r@ == fneg(a@),
{
    let x = blsful::inner_types::Scalar::from_raw([a.l0, a.l1, a.l2, a.l3]).unwrap();
    let z = (-x).to_raw();
    Scalar { l0: z[0], l1: z[1], l2: z[2], l3: z[3] }
}

/// `Field::invert` of blsful's `Scalar`: the multiplicative inverse, which
/// the scalar field, being a field, has for every element but zero; for zero
/// the call reports that there is none.
#[verifier::external_body]
fn outside_invert(a: &Scalar) -> (r: Option<Scalar>)
    requires
        a.wf(),
    ensures
        match r {
            Some(x) => a@ != 0 && x.wf() && fmul(a@, x@) == 1,
            None => a@ == 0,
        },
{
    let x = blsful::inner_types::Scalar::from_raw([a.l0, a.l1, a.l2, a.l3]).unwrap();
    let inv: Option<blsful::inner_types::Scalar> = blsful::inner_types::Field::invert(&x).into();
    inv.map(|i| i.to_raw()).map(|z| Scalar { l0: z[0], l1: z[1], l2: z[2], l3: z[3] })
}

/// `Field::random` of blsful's `Scalar`, fed by `rand_core::OsRng`. Nothing
/// is claimed of the outcome but that it is a scalar.
#[verifier::external_body]
fn outside_random() -> (r: Scalar)
    ensures
        r.wf(),
{
    let z = <blsful::inner_types::Scalar as blsful::inner_types::Field>::random(rand_core::OsRng)
        .to_raw();
    Scalar { l0: z[0], l1: z[1], l2: z[2], l3: z[3] }
}

/// `Scalar::hash` of blsful with `ExpandMsgXmd<Sha256>`: a function of the
/// message and the tag alone, whose result is a scalar.
#[verifier::external_body]
fn outside_hash(msg: &[u8], dst: &[u8]) -> (r: Scalar)
    ensures
        r.wf(),
        r@ == hash_to_scalar(msg@, dst@),
{
    let z = blsful::inner_types::Scalar::hash::<blsful::inner_types::ExpandMsgXmd<sha2::Sha256>>(
        msg,
        dst,
    ).to_raw();
    Scalar { l0: z[0], l1: z[1], l2: z[2], l3: z[3] }
}

/// `Scalar::from_bytes_wide` of blsful: reads 64 bytes as a little-endian
/// number and reduces it modulo the group order.
#[verifier::external_body]
fn outside_from_wide(bytes: &[u8; 64]) -> (r: Scalar)
    ensures
        r.wf(),
        r@ == le_value(bytes@) % order(),
{
    let z = blsful::inner_types::Scalar::from_bytes_wide(bytes).to_raw();
    Scalar { l0: z[0], l1: z[1], l2: z[2], l3: z[3] }
}

/// `Scalar::from_be_bytes` of blsful: accepts 32 big-endian bytes exactly
/// when the number they stand for is below the group order, and then gives
/// the scalar with that value.
#[verifier::external_body]
fn outside_decode(bytes: &[u8]) -> (r: Option<Scalar>)
    requires
        bytes@.len() == 32,
    ensures
        match r {
            Some(s) => s.wf() && s@ == be_value(bytes@),
            None => be_value(bytes@) >= order(),
        },
{
    let buf: [u8; 32] = bytes.try_into().unwrap();
    let s: Option<blsful::inner_types::Scalar> =
        blsful::inner_types::Scalar::from_be_bytes(&buf).into();
    s.map(|i| i.to_raw()).map(|z| Scalar { l0: z[0], l1: z[1], l2: z[2], l3: z[3] })
}

/// `Scalar::to_be_bytes` of blsful: the 32 big-endian bytes of the
/// canonical representative.
#[verifier::external_body]
fn outside_encode(a: &Scalar) -> (r: Vec<u8>)
    requires
        a.wf(),
    ensures
        r@.len() == 32,
        be_value(r@) == a@,
{
    let x = blsful::inner_types::Scalar::from_raw([a.l0, a.l1, a.l2, a.l3]).unwrap();
    x.to_be_bytes().to_vec()
}

} // verus!
