//! Decoding of the parts of a proof.
use crate::group::{g1_decoding, g2_decoding, G1Point, G2Point};
use crate::scalar::{scalar_decoding, Scalar};
use vstd::prelude::*;

verus! {

/// What a part of a proof that does not decode is reported as.
pub const SERIALIZATION_ERROR: &'static str = "Proof serialization error";

/// Decodes a point of the first group from its 48 bytes.
pub fn g1(b: &[u8]) -> (r: Result<G1Point, &'static str>)
    ensures
        match r {
            Ok(p) => g1_decoding(b@) == Some(p) && p.encoding() == b@,
            Err(e) => g1_decoding(b@) is None && e == SERIALIZATION_ERROR,
        },
{
    match G1Point::from_bytes(b) {
        Some(p) => Ok(p),
        None => Err(SERIALIZATION_ERROR),
    }
}

/// Decodes a point of the second group from its 96 bytes.
pub fn g2(b: &[u8]) -> (r: Result<G2Point, &'static str>)
    ensures
        match r {
            Ok(p) => g2_decoding(b@) == Some(p) && p.encoding() == b@,
            Err(e) => g2_decoding(b@) is None && e == SERIALIZATION_ERROR,
        },
{
    match G2Point::from_bytes(b) {
        Some(p) => Ok(p),
        None => Err(SERIALIZATION_ERROR),
    }
}

/// Decodes a scalar from its 32 bytes, most significant first.
pub fn sc(b: &[u8]) -> (r: Result<Scalar, &'static str>)
    ensures
        match r {
            Ok(s) => scalar_decoding(b@) == Some(s@),
            Err(e) => scalar_decoding(b@) is None && e == SERIALIZATION_ERROR,
        },
{
    match Scalar::from_bytes(b) {
        Some(s) => Ok(s),
        None => Err(SERIALIZATION_ERROR),
    }
}

} // verus!
