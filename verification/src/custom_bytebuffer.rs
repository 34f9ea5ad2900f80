//! The values that cross the boundary to a caller in one piece.
use crate::group::G1Point;
use crate::membership::MembershipProof;
use crate::scalar::Scalar;
use vstd::prelude::*;

verus! {

/// What an authority answers to a request for an update: the scalars and
/// the points, as two lists.
#[derive(Debug, Clone)]
pub struct CustomStructForServerUpdate {
    /// The scalars.
    pub ds: Vec<Scalar>,
    /// The points.
    pub vs: Vec<G1Point>,
}

/// A proof of membership together with the challenge that it answers.
#[derive(Debug, Clone, Copy)]
pub struct CustomStructForMembershipProof {
    /// The proof.
    pub proof: MembershipProof,
    /// The challenge that the verifier chose.
    pub challenge: [u8; 32],
}

impl CustomStructForServerUpdate {
    /// An answer that holds nothing yet.
    pub fn new() -> (r: Self)
        ensures
            r.ds@ == Seq::<Scalar>::empty(),
            r.vs@ == Seq::<G1Point>::empty(),
    {
        CustomStructForServerUpdate { ds: Vec::new(), vs: Vec::new() }
    }

    /// Appends scalars and points to those that the answer holds.
    pub fn add_multiple(&mut self, ds: Vec<Scalar>, vs: Vec<G1Point>)
        ensures
            final(self).ds@ == old(self).ds@ + ds@,
            final(self).vs@ == old(self).vs@ + vs@,
    {
        let mut ds = ds;
        let mut vs = vs;
        self.ds.append(&mut ds);
        self.vs.append(&mut vs);
    }
}

impl CustomStructForMembershipProof {
    /// A proof with its challenge.
    pub fn new(proof: MembershipProof, challenge: [u8; 32]) -> (r: Self)
        ensures
            r.proof == proof,
            r.challenge == challenge,
    {
        CustomStructForMembershipProof { proof: proof, challenge: challenge }
    }
}

} // verus!
