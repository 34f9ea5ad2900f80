//! The proof of membership: a holder shows, without showing its identifier
//! or its witness, that it holds a witness for the accumulator.
//!
//! The holder blinds the witness `C` of its identifier `y` with a random
//! unit `r`: it sends `C' = r C` in the first group and `D = (y P + Q) / r`
//! in the second, where `P` is the generator and `Q` the authority's public
//! key. The pairing of the two is that of the accumulator with `P` exactly
//! when `C` is a witness of `y`. That `D` has this form the holder shows by
//! a proof of knowledge of `r` and `y` with `r D - y P = Q`, made
//! non-interactive by a challenge drawn from a transcript.
use crate::accumulator::{witness_valid, Accumulator, Element, MembershipWitness};
use crate::encoding::{append_bytes, le_value, lemma_be_bytes_len};
use crate::error::Error;
use crate::field::{
    fadd, finv, fmul, fneg, fsub, invertible, is_elem, lemma_fadd_elem, lemma_finv,
    lemma_fmul_assoc, lemma_fmul_comm, lemma_fmul_distrib, lemma_fmul_elem, lemma_fmul_neg,
    lemma_fmul_one, lemma_fneg_elem, lemma_fsub_elem, lemma_fsub_zero_iff, lemma_order_bounds,
    lemma_residue_add, lemma_residue_self, lemma_residue_sub, lemma_residue_unique, order,
};
use crate::group::{g1_decoding, g2_decoding, g2_point, pairing_product_is_one, G1Point, G2Point};
use crate::params::{AccParams, PublicKeys};
use crate::scalar::{
    lemma_scalar_decoding_canonical, lemma_scalar_roundtrip, scalar_decoding, scalar_encoding,
    Scalar,
};
use crate::transcript::{
    append_message, challenge_bytes, new_transcript, transcript_challenge, transcript_messages,
};
use crate::utils::{g1, g2, sc};
use vstd::slice::slice_subrange;
use vstd::prelude::*;
use vstd::string::{is_ascii_spec_bytes, StringSliceAdditionalSpecFns};

verus! {

/// A proof of membership.
#[derive(Clone, Copy, Debug, PartialEq, Eq)]
pub struct MembershipProof {
    /// The witness, blinded.
    pub blinded_witness: G1Point,
    /// The point of the identifier, blinded the other way.
    pub blinded_identifier: G2Point,
    /// The challenge that was drawn from the transcript.
    pub challenge: Scalar,
    /// The response for the blinding scalar.
    pub blind_response: Scalar,
    /// The response for the identifier.
    pub identifier_response: Scalar,
}

/// The messages of the transcript from which the challenge of a proof is
/// drawn: the parameters, the public keys, the two blinded points, the
/// commitment, and the challenge that the verifier chose.
pub open spec fn proof_messages(
    params: AccParams,
    keys: PublicKeys,
    blinded_witness: Seq<u8>,
    blinded_identifier: Seq<u8>,
    commitment: Seq<u8>,
    challenge: Seq<u8>,
) -> Seq<(Seq<u8>, Seq<u8>)> {
    seq![
        ("dom-sep".spec_bytes(), "ALLOSAUR membership proof".spec_bytes()),
        ("Proof Param K".spec_bytes(), params.k1.encoding()),
        ("Proof Param X".spec_bytes(), params.x1.encoding()),
        ("Proof Param Y".spec_bytes(), params.y1.encoding()),
        ("Proof Param Z".spec_bytes(), params.z1.encoding()),
        ("Witness Key".spec_bytes(), keys.witness_key.0.encoding()),
        ("Sign Key".spec_bytes(), keys.sign_key.0.encoding()),
        ("Blinded Witness".spec_bytes(), blinded_witness),
        ("Blinded Identifier".spec_bytes(), blinded_identifier),
        ("Commitment".spec_bytes(), commitment),
        ("Verifier Challenge".spec_bytes(), challenge),
    ]
}

/// The challenge of a proof: the 64 bytes that the transcript gives, read as
/// a number and reduced.
pub open spec fn proof_challenge(
    params: AccParams,
    keys: PublicKeys,
    blinded_witness: Seq<u8>,
    blinded_identifier: Seq<u8>,
    commitment: Seq<u8>,
    challenge: Seq<u8>,
) -> nat {
    (le_value(
        transcript_challenge(
            proof_messages(
                params,
                keys,
                blinded_witness,
                blinded_identifier,
                commitment,
                challenge,
            ),
            "Proof Challenge".spec_bytes(),
        ),
    ) % order()) as nat
}

/// The logarithm of the commitment that the verifier computes from the
/// responses: `s_r D - s_y P - c Q`.
pub open spec fn recomputed_commitment(
    identifier: nat,
    key: nat,
    challenge: nat,
    blind_response: nat,
    identifier_response: nat,
) -> nat {
    fsub(fsub(fmul(identifier, blind_response), identifier_response), fmul(key, challenge))
}

/// Whether a proof is accepted for an accumulator with logarithm `v`: the
/// challenge drawn from the transcript with the recomputed commitment must
/// be the one in the proof, and the pairing of the two blinded points must
/// be that of the accumulator with the generator.
pub open spec fn accepted(
    proof: MembershipProof,
    params: AccParams,
    keys: PublicKeys,
    v: nat,
    challenge: Seq<u8>,
) -> bool {
    &&& proof_challenge(
        params,
        keys,
        proof.blinded_witness.encoding(),
        proof.blinded_identifier.encoding(),
        g2_point(
            recomputed_commitment(
                proof.blinded_identifier@,
                keys.witness_key@,
                proof.challenge@,
                proof.blind_response@,
                proof.identifier_response@,
            ),
        ),
        challenge,
    ) == proof.challenge@
    &&& fmul(proof.blinded_witness@, proof.blinded_identifier@) == v
}

/// What the holder of the witness `w` for the identifier `y` sends, given
/// the scalars it drew: the blinding `blind` and the two nonces.
pub open spec fn proven(
    proof: MembershipProof,
    w: nat,
    y: nat,
    params: AccParams,
    keys: PublicKeys,
    challenge: Seq<u8>,
    blind: nat,
    blind_nonce: nat,
    identifier_nonce: nat,
) -> bool {
    let identifier = fmul(fadd(y, keys.witness_key@), finv(blind));
    let commitment = fsub(fmul(identifier, blind_nonce), identifier_nonce);
    &&& proof.blinded_witness@ == fmul(w, blind)
    &&& proof.blinded_identifier@ == identifier
    &&& proof.challenge@ == proof_challenge(
        params,
        keys,
        proof.blinded_witness.encoding(),
        proof.blinded_identifier.encoding(),
        g2_point(commitment),
        challenge,
    )
    &&& proof.blind_response@ == fadd(blind_nonce, fmul(proof.challenge@, blind))
    &&& proof.identifier_response@ == fadd(identifier_nonce, fmul(proof.challenge@, y))
}

/// The proof is one that the holder of the witness `w` for the identifier
/// `y` makes, for some choice of the scalars that it draws.
pub open spec fn proof_of(
    proof: MembershipProof,
    w: nat,
    y: nat,
    params: AccParams,
    keys: PublicKeys,
    challenge: Seq<u8>,
) -> bool {
    exists|blind: nat, blind_nonce: nat, identifier_nonce: nat|
        invertible(blind) && #[trigger] proven(
            proof,
            w,
            y,
            params,
            keys,
            challenge,
            blind,
            blind_nonce,
            identifier_nonce,
        )
}

/// Draws the challenge of a proof from a fresh transcript.
fn derive_challenge(
    params: &AccParams,
    keys: &PublicKeys,
    blinded_witness: &G1Point,
    blinded_identifier: &G2Point,
    commitment: &G2Point,
    challenge: &[u8; 32],
) -> (r: Scalar)
    ensures
        r@ == proof_challenge(
            *params,
            *keys,
            blinded_witness.encoding(),
            blinded_identifier.encoding(),
            commitment.encoding(),
            challenge@,
        ),
{
    proof {
        reveal_strlit("ALLOSAUR membership proof");
        is_ascii_spec_bytes("ALLOSAUR membership proof");
    }
    let mut transcript = new_transcript("ALLOSAUR membership proof");
    params.add_to_transcript(&mut transcript);
    append_message(&mut transcript, "Witness Key", keys.witness_key.0.to_bytes().as_slice());
    append_message(&mut transcript, "Sign Key", keys.sign_key.0.to_bytes().as_slice());
    append_message(&mut transcript, "Blinded Witness", blinded_witness.to_bytes().as_slice());
    append_message(
        &mut transcript,
        "Blinded Identifier",
        blinded_identifier.to_bytes().as_slice(),
    );
    append_message(&mut transcript, "Commitment", commitment.to_bytes().as_slice());
    append_message(&mut transcript, "Verifier Challenge", challenge.as_slice());
    proof {
        assert(transcript_messages(transcript) =~= proof_messages(
            *params,
            *keys,
            blinded_witness.encoding(),
            blinded_identifier.encoding(),
            commitment.encoding(),
            challenge@,
        ));
    }
    let bytes = challenge_bytes(&mut transcript, "Proof Challenge");
    Scalar::from_wide(&bytes)
}

/// Makes a proof of membership from the scalars drawn for it. There is none
/// where the blinding scalar is zero.
pub fn make_membership_proof_with(
    witness: &MembershipWitness,
    y: &Element,
    params: &AccParams,
    keys: &PublicKeys,
    challenge: &[u8; 32],
    blind: &Scalar,
    blind_nonce: &Scalar,
    identifier_nonce: &Scalar,
) -> (r: Option<MembershipProof>)
    ensures
        r is Some <==> blind@ != 0,
        r is Some <==> invertible(blind@),
        r matches Some(p) ==> proven(
            p,
            witness@,
            y@,
            *params,
            *keys,
            challenge@,
            blind@,
            blind_nonce@,
            identifier_nonce@,
        ),
{
    let inverse = match blind.invert() {
        Some(inverse) => inverse,
        None => {
            return None;
        },
    };
    let generator = G2Point::generator();
    let blinded_witness = witness.0.mul(blind);
    let blinded_identifier = generator.mul(&y.0).add(&keys.witness_key.0).mul(&inverse);
    let commitment = blinded_identifier.mul(blind_nonce).add(
        &generator.mul(&identifier_nonce.neg()),
    );
    proof {
        use_type_invariant(&y.0);
        use_type_invariant(&commitment);
        lemma_fmul_one(y@);
        lemma_fneg_elem(identifier_nonce@);
        lemma_fmul_one(fneg(identifier_nonce@));
    }
    let c = derive_challenge(
        params,
        keys,
        &blinded_witness,
        &blinded_identifier,
        &commitment,
        challenge,
    );
    let blind_response = blind_nonce.add(&c.mul(blind));
    let identifier_response = identifier_nonce.add(&c.mul(&y.0));
    Some(
        MembershipProof {
            blinded_witness,
            blinded_identifier,
            challenge: c,
            blind_response,
            identifier_response,
        },
    )
}

/// Makes a proof of membership for the witness of the identifier `y`,
/// bound to the challenge that the verifier chose. The blinding scalar and
/// the nonces are drawn at random. A blinding scalar must have an inverse,
/// so where zero is drawn, one chance in the order, one takes its place:
/// there is always a proof.
pub fn make_membership_proof(
    witness: &MembershipWitness,
    y: &Element,
    params: &AccParams,
    keys: &PublicKeys,
    challenge: &[u8; 32],
) -> (r: Option<MembershipProof>)
    ensures
        r is Some,
        r matches Some(p) ==> proof_of(p, witness@, y@, *params, *keys, challenge@),
        r matches Some(p) ==> forall|v: nat| #[trigger]
            witness_valid(witness@, y@, keys.witness_key@, v) ==> accepted(
                p,
                *params,
                *keys,
                v,
                challenge@,
            ),
{
    let drawn = Scalar::random();
    let blind = if drawn.is_zero() {
        Scalar::one()
    } else {
        drawn
    };
    let blind_nonce = Scalar::random();
    let identifier_nonce = Scalar::random();
    let r = make_membership_proof_with(
        witness,
        y,
        params,
        keys,
        challenge,
        &blind,
        &blind_nonce,
        &identifier_nonce,
    );
    proof {
        use_type_invariant(&witness.0);
        use_type_invariant(&y.0);
        use_type_invariant(&keys.witness_key.0);
        if let Some(p) = r {
            assert forall|v: nat| #[trigger]
                witness_valid(witness@, y@, keys.witness_key@, v) implies accepted(
                p,
                *params,
                *keys,
                v,
                challenge@,
            ) by {
                lemma_proof_of_is_accepted(p, witness@, y@, v, *params, *keys, challenge@);
            }
        }
    }
    r
}

/// Whether a proof of membership holds for the accumulator, under the
/// challenge that the verifier chose.
pub fn check_membership_proof(
    proof: &MembershipProof,
    params: &AccParams,
    keys: &PublicKeys,
    accumulator: &Accumulator,
    challenge: &[u8; 32],
) -> (r: bool)
    ensures
        r == accepted(*proof, *params, *keys, accumulator@, challenge@),
{
    let generator = G2Point::generator();
    let commitment = proof.blinded_identifier.mul(&proof.blind_response).add(
        &generator.mul(&proof.identifier_response.neg()),
    ).add(&keys.witness_key.0.mul(&proof.challenge.neg()));
    let negative = accumulator.0.neg();
    proof {
        use_type_invariant(&commitment);
        use_type_invariant(&negative);
        use_type_invariant(&accumulator.0);
        lemma_fneg_elem(proof.identifier_response@);
        lemma_fmul_one(fneg(proof.identifier_response@));
        lemma_fmul_neg(proof.challenge@, keys.witness_key@);
        lemma_fmul_comm(proof.challenge@, keys.witness_key@);
        lemma_fmul_one(negative@);
        lemma_fmul_elem(proof.blinded_witness@, proof.blinded_identifier@);
        lemma_fsub_zero_iff(
            fmul(proof.blinded_witness@, proof.blinded_identifier@),
            accumulator@,
        );
    }
    let c = derive_challenge(
        params,
        keys,
        &proof.blinded_witness,
        &proof.blinded_identifier,
        &commitment,
        challenge,
    );
    let drawn = c.eq(&proof.challenge);
    let paired = pairing_product_is_one(
        &proof.blinded_witness,
        &proof.blinded_identifier,
        &negative,
        &generator,
    );
    drawn && paired
}

/// `(a + (u + v)) - (k + u) - v == a - k`.
pub proof fn lemma_responses_cancel(a: nat, u: nat, v: nat, k: nat)
    ensures
        fsub(fsub(fadd(a, fadd(u, v)), fadd(k, u)), v) == fsub(a, k),
{
    let ai = a as int;
    let ui = u as int;
    let vi = v as int;
    let ki = k as int;
    lemma_residue_self(a);
    lemma_residue_self(u);
    lemma_residue_self(v);
    lemma_residue_self(k);
    lemma_residue_add(u, v, ui, vi);
    lemma_residue_add(a, fadd(u, v), ai, ui + vi);
    lemma_residue_add(k, u, ki, ui);
    lemma_residue_sub(fadd(a, fadd(u, v)), fadd(k, u), ai + (ui + vi), ki + ui);
    lemma_residue_sub(fsub(fadd(a, fadd(u, v)), fadd(k, u)), v, ai + (ui + vi) - (ki + ui), vi);
    lemma_residue_sub(a, k, ai, ki);
    lemma_fsub_elem(fsub(fadd(a, fadd(u, v)), fadd(k, u)), v);
    lemma_fsub_elem(a, k);
    lemma_residue_unique(fsub(fsub(fadd(a, fadd(u, v)), fadd(k, u)), v), fsub(a, k), ai - ki);
}

/// A proof made for a valid witness is accepted, whatever scalars the
/// holder drew.
pub proof fn lemma_proof_of_is_accepted(
    proof: MembershipProof,
    w: nat,
    y: nat,
    v: nat,
    params: AccParams,
    keys: PublicKeys,
    challenge: Seq<u8>,
)
    requires
        is_elem(w),
        is_elem(y),
        is_elem(keys.witness_key@),
        witness_valid(w, y, keys.witness_key@, v),
        proof_of(proof, w, y, params, keys, challenge),
    ensures
        accepted(proof, params, keys, v, challenge),
{
    let (blind, blind_nonce, identifier_nonce) = choose|
        blind: nat,
        blind_nonce: nat,
        identifier_nonce: nat,
    |
        invertible(blind) && #[trigger] proven(
            proof,
            w,
            y,
            params,
            keys,
            challenge,
            blind,
            blind_nonce,
            identifier_nonce,
        );
    lemma_proof_is_accepted(
        proof,
        w,
        y,
        v,
        params,
        keys,
        challenge,
        blind,
        blind_nonce,
        identifier_nonce,
    );
}

/// A proof made for a valid witness is accepted: the verifier computes the
/// commitment that the holder committed to, and the pairing holds.
pub proof fn lemma_proof_is_accepted(
    proof: MembershipProof,
    w: nat,
    y: nat,
    v: nat,
    params: AccParams,
    keys: PublicKeys,
    challenge: Seq<u8>,
    blind: nat,
    blind_nonce: nat,
    identifier_nonce: nat,
)
    requires
        is_elem(w),
        is_elem(y),
        is_elem(keys.witness_key@),
        witness_valid(w, y, keys.witness_key@, v),
        invertible(blind),
        proven(proof, w, y, params, keys, challenge, blind, blind_nonce, identifier_nonce),
    ensures
        accepted(proof, params, keys, v, challenge),
{
    lemma_order_bounds();
    let q = keys.witness_key@;
    let s = fadd(y, q);
    let d = fmul(s, finv(blind));
    let c = proof.challenge@;
    lemma_finv(blind);
    lemma_fadd_elem(y, q);
    // d * blind == y + q
    assert(fmul(d, blind) == s) by {
        lemma_fmul_assoc(s, finv(blind), blind);
        lemma_fmul_one(s);
    }
    // The pairing: (w * blind) * d == w * (y + q) == v.
    assert(fmul(fmul(w, blind), d) == v) by {
        lemma_fmul_assoc(w, blind, d);
        lemma_fmul_comm(blind, d);
    }
    // The commitment: d * (k + c * blind) == d * k + (c * y + c * q).
    let a = fmul(d, blind_nonce);
    assert(fmul(d, proof.blind_response@) == fadd(a, fadd(fmul(c, y), fmul(c, q)))) by {
        lemma_fmul_distrib(d, blind_nonce, fmul(c, blind));
        lemma_fmul_assoc(d, c, blind);
        lemma_fmul_comm(d, c);
        lemma_fmul_assoc(c, d, blind);
        lemma_fmul_distrib(c, y, q);
    }
    lemma_fmul_comm(q, c);
    lemma_responses_cancel(a, fmul(c, y), fmul(c, q), identifier_nonce);
}

/// The proof that a byte string decodes to, if it decodes to one: the two
/// points and the three scalars one after the other, each of them valid.
pub open spec fn proof_decoding(bytes: Seq<u8>) -> Option<MembershipProof> {
    if bytes.len() != 240 {
        None
    } else {
        let witness = g1_decoding(bytes.subrange(0, 48));
        let identifier = g2_decoding(bytes.subrange(48, 144));
        let challenge = scalar_decoding(bytes.subrange(144, 176));
        let blind = scalar_decoding(bytes.subrange(176, 208));
        let response = scalar_decoding(bytes.subrange(208, 240));
        if witness is Some && identifier is Some && challenge is Some && blind is Some
            && response is Some {
            Some(
                MembershipProof {
                    blinded_witness: witness->Some_0,
                    blinded_identifier: identifier->Some_0,
                    challenge: Scalar::of_value(challenge->Some_0),
                    blind_response: Scalar::of_value(blind->Some_0),
                    identifier_response: Scalar::of_value(response->Some_0),
                },
            )
        } else {
            None
        }
    }
}

impl MembershipProof {
    /// The number of bytes in the encoding of a proof.
    pub const BYTES: usize = 240;

    /// The encoding of a proof: those of its parts, one after the other.
    pub open spec fn encoding(self) -> Seq<u8> {
        self.blinded_witness.encoding() + self.blinded_identifier.encoding() + scalar_encoding(
            self.challenge@,
        ) + scalar_encoding(self.blind_response@) + scalar_encoding(self.identifier_response@)
    }

    /// All parts of the proof are valid.
    pub open spec fn wf(self) -> bool {
        &&& self.blinded_witness.wf()
        &&& self.blinded_identifier.wf()
        &&& self.challenge.wf()
        &&& self.blind_response.wf()
        &&& self.identifier_response.wf()
    }

    /// The 240 bytes of the proof.
    pub fn to_bytes(&self) -> (r: Vec<u8>)
        ensures
            r@ == self.encoding(),
            r@.len() == 240,
    {
        let mut bytes: Vec<u8> = Vec::new();
        append_bytes(&mut bytes, &self.blinded_witness.to_bytes());
        append_bytes(&mut bytes, &self.blinded_identifier.to_bytes());
        append_bytes(&mut bytes, &self.challenge.to_bytes());
        append_bytes(&mut bytes, &self.blind_response.to_bytes());
        append_bytes(&mut bytes, &self.identifier_response.to_bytes());
        assert(bytes@ =~= self.encoding());
        bytes
    }

    /// Decodes a proof from its 240 bytes. Bytes of another length are
    /// refused as such, and so are bytes of which a part is not the
    /// encoding of a point or of a scalar.
    pub fn from_bytes(bytes: &[u8]) -> (r: Result<MembershipProof, Error>)
        ensures
            match r {
                Ok(p) => proof_decoding(bytes@) == Some(p) && p.encoding() == bytes@,
                Err(e) => {
                    &&& proof_decoding(bytes@) is None
                    &&& e == Error::Length <==> bytes@.len() != 240
                    &&& e == Error::Encoding <==> bytes@.len() == 240
                },
            },
    {
        if bytes.len() != 240 {
            return Err(Error::Length);
        }
        let witness = g1(slice_subrange(bytes, 0, 48));
        let identifier = g2(slice_subrange(bytes, 48, 144));
        let challenge = sc(slice_subrange(bytes, 144, 176));
        let blind = sc(slice_subrange(bytes, 176, 208));
        let response = sc(slice_subrange(bytes, 208, 240));
        match (witness, identifier, challenge, blind, response) {
            (
                Ok(blinded_witness),
                Ok(blinded_identifier),
                Ok(challenge),
                Ok(blind_response),
                Ok(identifier_response),
            ) => {
                let r = MembershipProof {
                    blinded_witness,
                    blinded_identifier,
                    challenge,
                    blind_response,
                    identifier_response,
                };
                proof {
                    Scalar::lemma_of_value(challenge);
                    Scalar::lemma_of_value(blind_response);
                    Scalar::lemma_of_value(identifier_response);
                    lemma_scalar_decoding_canonical(bytes@.subrange(144, 176));
                    lemma_scalar_decoding_canonical(bytes@.subrange(176, 208));
                    lemma_scalar_decoding_canonical(bytes@.subrange(208, 240));
                    G1Point::lemma_of_encoding(blinded_witness);
                    G2Point::lemma_of_encoding(blinded_identifier);
                    assert(r.encoding() =~= bytes@);
                }
                Ok(r)
            },
            _ => Err(Error::Encoding),
        }
    }
}

/// A proof survives encoding and decoding unchanged.
pub proof fn lemma_proof_roundtrip(p: MembershipProof)
    requires
        p.wf(),
    ensures
        proof_decoding(p.encoding()) == Some(p),
{
    let b = p.encoding();
    lemma_be_bytes_len(p.challenge@, 32);
    lemma_be_bytes_len(p.blind_response@, 32);
    lemma_be_bytes_len(p.identifier_response@, 32);
    assert(b.subrange(0, 48) =~= p.blinded_witness.encoding());
    assert(b.subrange(48, 144) =~= p.blinded_identifier.encoding());
    assert(b.subrange(144, 176) =~= scalar_encoding(p.challenge@));
    assert(b.subrange(176, 208) =~= scalar_encoding(p.blind_response@));
    assert(b.subrange(208, 240) =~= scalar_encoding(p.identifier_response@));
    G1Point::lemma_roundtrip(p.blinded_witness);
    G2Point::lemma_roundtrip(p.blinded_identifier);
    lemma_scalar_roundtrip(p.challenge@);
    lemma_scalar_roundtrip(p.blind_response@);
    lemma_scalar_roundtrip(p.identifier_response@);
    Scalar::lemma_of_value(p.challenge);
    Scalar::lemma_of_value(p.blind_response);
    Scalar::lemma_of_value(p.identifier_response);
}

} // verus!
