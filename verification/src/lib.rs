//! A dynamic accumulator over BLS12-381 for anonymous credential revocation.
//!
//! An authority keeps one point, the accumulator, that commits to the set of
//! its members. Each member holds a witness, by which it can show that it
//! is a member without showing who it is. The authority adds and deletes
//! members; a member brings its witness up to date from what the authority
//! publishes of each change, or from several authorities that hold the
//! same key and the same history, among whom it shares its identifier so
//! that fewer of them than a threshold learn nothing of it.
//!
//! The arithmetic of the curve is that of blsful. The library states what it
//! relies on of it in `scalar` and `group`, and proves the rest: that the
//! accumulator does not depend on the order of its members, that a witness
//! carried over the records of change stays valid, that shares reconstruct
//! the secret and that a wrong share is found out, and that a proof made for
//! a valid witness is accepted.
pub mod accumulator;
pub mod custom_bytebuffer;
pub mod encoding;
pub mod error;
pub mod field;
pub mod group;
pub mod interpolation;
pub mod membership;
pub mod params;
pub mod scalar;
pub mod server;
pub mod shamir;
pub mod transcript;
pub mod update;
pub mod user;
pub mod utils;

pub use accumulator::{
    Accumulator, Coefficient, Element, MembershipWitness, PublicKey, SecretKey,
};
pub use custom_bytebuffer::{CustomStructForMembershipProof, CustomStructForServerUpdate};
pub use error::Error;
pub use group::{pairing_product_is_one, G1Point, G2Point};
pub use membership::{
    check_membership_proof, make_membership_proof, make_membership_proof_with, MembershipProof,
};
pub use params::{AccParams, PublicKeys, SECURITY_BYTES};
pub use scalar::Scalar;
pub use server::Server;
pub use shamir::{
    admissible, poly_evaluate, shamir_coefficients, shamir_rebuild_point,
    shamir_rebuild_scalar, shamir_reconstruct_point, shamir_reconstruct_scalar, shamir_share,
    shamir_share_with,
};
pub use update::{Delta, DeltaShare};
pub use user::{User, UserID};
pub use utils::{g1, g2, sc};
