//! The public parameters of the scheme and the authority's public keys.
use crate::accumulator::PublicKey;
use crate::encoding::append_bytes;
use crate::error::Error;
use crate::group::{g1_decoding, g2_decoding, hash_to_g1, hash_to_g2, G1Point, G2Point};
use crate::transcript::{append_message, transcript_messages};
use vstd::prelude::*;
use vstd::slice::slice_subrange;
use vstd::string::StringSliceAdditionalSpecFns;

verus! {

/// The security parameter of the system, in bytes.
pub const SECURITY_BYTES: usize = 16;

/// The authority's public keys.
#[derive(Copy, Clone, Debug)]
pub struct PublicKeys {
    /// The key against which witnesses are verified.
    pub witness_key: PublicKey,
    /// The key against which signatures are verified.
    pub sign_key: PublicKey,
}

/// The generators that all parties share.
#[derive(Copy, Clone, Debug, Eq, PartialEq, Hash)]
pub struct AccParams {
    /// The generator of the first group.
    pub p1: G1Point,
    /// The generator of the second group.
    pub p2: G2Point,
    /// A generator of the first group, for signatures.
    pub k0: G1Point,
    /// A generator of the first group, for signatures and proofs.
    pub k1: G1Point,
    /// A generator of the second group, for the key of signatures.
    pub k2: G2Point,
    /// A generator of the first group, for proofs.
    pub x1: G1Point,
    /// A generator of the first group, for proofs.
    pub y1: G1Point,
    /// A generator of the first group, for proofs.
    pub z1: G1Point,
}

/// The tag under which the generators of the first group are hashed.
pub open spec fn g1_tag() -> Seq<u8> {
    "BLS12381G1_XMD:SHA-256_SSWU_RO_".spec_bytes()
}

/// The tag under which the generator of the second group is hashed.
pub open spec fn g2_tag() -> Seq<u8> {
    "BLS12381G2_XMD:SHA-256_SSWU_RO_".spec_bytes()
}

/// The message from which a generator is hashed: 32 bytes, all `0xFF` but
/// the first.
pub open spec fn generator_seed(first: u8) -> Seq<u8> {
    Seq::new(32, |i: int| if i == 0 { first } else { 0xFFu8 })
}

/// The parameters that a byte string decodes to, if it decodes to any: the
/// eight generators one after the other, each of them valid.
pub open spec fn params_decoding(bytes: Seq<u8>) -> Option<AccParams> {
    if bytes.len() != 480 {
        None
    } else {
        let p1 = g1_decoding(bytes.subrange(0, 48));
        let p2 = g2_decoding(bytes.subrange(48, 144));
        let k0 = g1_decoding(bytes.subrange(144, 192));
        let k1 = g1_decoding(bytes.subrange(192, 240));
        let k2 = g2_decoding(bytes.subrange(240, 336));
        let x1 = g1_decoding(bytes.subrange(336, 384));
        let y1 = g1_decoding(bytes.subrange(384, 432));
        let z1 = g1_decoding(bytes.subrange(432, 480));
        if p1 is Some && p2 is Some && k0 is Some && k1 is Some && k2 is Some && x1 is Some
            && y1 is Some && z1 is Some {
            Some(
                AccParams {
                    p1: p1->Some_0,
                    p2: p2->Some_0,
                    k0: k0->Some_0,
                    k1: k1->Some_0,
                    k2: k2->Some_0,
                    x1: x1->Some_0,
                    y1: y1->Some_0,
                    z1: z1->Some_0,
                },
            )
        } else {
            None
        }
    }
}

/// The message with which a generator is hashed.
fn seed(first: u8) -> (r: Vec<u8>)
    ensures
        r@ == generator_seed(first),
{
    let mut out: Vec<u8> = Vec::new();
    out.push(first);
    let mut i: usize = 1;
    while i < 32
        invariant
            1 <= i <= 32,
            out@.len() == i,
            out@[0] == first,
            forall|j: int| 1 <= j < i ==> out@[j] == 0xFFu8,
        decreases 32 - i,
    {
        out.push(0xFF);
        i += 1;
    }
    assert(out@ =~= generator_seed(first));
    out
}

impl Default for AccParams {
    /// The parameters that every party uses: the fixed generators of the two
    /// groups and six more, hashed from fixed messages.
    fn default() -> (r: AccParams)
        ensures
            r.p1@ == 1,
            r.p2@ == 1,
            r.k0.encoding() == hash_to_g1(generator_seed(0xFF), g1_tag()),
            r.k1.encoding() == hash_to_g1(generator_seed(0xFE), g1_tag()),
            r.k2.encoding() == hash_to_g2(generator_seed(0xFD), g2_tag()),
            r.x1.encoding() == hash_to_g1(generator_seed(0xFC), g1_tag()),
            r.y1.encoding() == hash_to_g1(generator_seed(0xFB), g1_tag()),
            r.z1.encoding() == hash_to_g1(generator_seed(0xFA), g1_tag()),
    {
        let tag1 = "BLS12381G1_XMD:SHA-256_SSWU_RO_".as_bytes();
        let tag2 = "BLS12381G2_XMD:SHA-256_SSWU_RO_".as_bytes();
        let k0 = G1Point::hash(seed(0xFF).as_slice(), tag1);
        let k1 = G1Point::hash(seed(0xFE).as_slice(), tag1);
        let k2 = G2Point::hash(seed(0xFD).as_slice(), tag2);
        let x1 = G1Point::hash(seed(0xFC).as_slice(), tag1);
        let y1 = G1Point::hash(seed(0xFB).as_slice(), tag1);
        let z1 = G1Point::hash(seed(0xFA).as_slice(), tag1);
        AccParams { p1: G1Point::generator(), p2: G2Point::generator(), k0, k1, k2, x1, y1, z1 }
    }
}

impl AccParams {
    /// The number of bytes in the encoding of the parameters.
    pub const BYTES: usize = 480;

    /// The encoding of the parameters: those of the eight generators, one
    /// after the other.
    pub open spec fn encoding(self) -> Seq<u8> {
        self.p1.encoding() + self.p2.encoding() + self.k0.encoding() + self.k1.encoding()
            + self.k2.encoding() + self.x1.encoding() + self.y1.encoding() + self.z1.encoding()
    }

    /// All eight generators have valid encodings.
    pub open spec fn wf(self) -> bool {
        &&& self.p1.wf()
        &&& self.p2.wf()
        &&& self.k0.wf()
        &&& self.k1.wf()
        &&& self.k2.wf()
        &&& self.x1.wf()
        &&& self.y1.wf()
        &&& self.z1.wf()
    }

    /// The generator of the first group.
    pub fn get_p1(&self) -> (r: G1Point)
        ensures
            r == self.p1,
    {
        self.p1
    }

    /// The generator of the second group.
    pub fn get_p2(&self) -> (r: G2Point)
        ensures
            r == self.p2,
    {
        self.p2
    }

    /// The generator `k0`, of the first group.
    pub fn get_k0(&self) -> (r: G1Point)
        ensures
            r == self.k0,
    {
        self.k0
    }

    /// The generator `k1`, of the first group.
    pub fn get_k1(&self) -> (r: G1Point)
        ensures
            r == self.k1,
    {
        self.k1
    }

    /// The generator `k2`, of the second group.
    pub fn get_k2(&self) -> (r: G2Point)
        ensures
            r == self.k2,
    {
        self.k2
    }

    /// The generator `x1`, of the first group.
    pub fn get_x1(&self) -> (r: G1Point)
        ensures
            r == self.x1,
    {
        self.x1
    }

    /// The generator `y1`, of the first group.
    pub fn get_y1(&self) -> (r: G1Point)
        ensures
            r == self.y1,
    {
        self.y1
    }

    /// The generator `z1`, of the first group.
    pub fn get_z1(&self) -> (r: G1Point)
        ensures
            r == self.z1,
    {
        self.z1
    }

    /// Appends the four generators of the proof to a transcript, each under
    /// its label.
    pub fn add_to_transcript(&self, transcript: &mut merlin::Transcript)
        ensures
            transcript_messages(*final(transcript)) == transcript_messages(*old(transcript)).push(
                ("Proof Param K".spec_bytes(), self.k1.encoding()),
            ).push(("Proof Param X".spec_bytes(), self.x1.encoding())).push(
                ("Proof Param Y".spec_bytes(), self.y1.encoding()),
            ).push(("Proof Param Z".spec_bytes(), self.z1.encoding())),
    {
        append_message(transcript, "Proof Param K", self.k1.to_bytes().as_slice());
        append_message(transcript, "Proof Param X", self.x1.to_bytes().as_slice());
        append_message(transcript, "Proof Param Y", self.y1.to_bytes().as_slice());
        append_message(transcript, "Proof Param Z", self.z1.to_bytes().as_slice());
    }

    /// The 480 bytes of the parameters.
    pub fn to_bytes(&self) -> (r: [u8; 480])
        ensures
            r@ == self.encoding(),
    {
        let mut parts: Vec<u8> = Vec::new();
        append_bytes(&mut parts, &self.p1.to_bytes());
        append_bytes(&mut parts, &self.p2.to_bytes());
        append_bytes(&mut parts, &self.k0.to_bytes());
        append_bytes(&mut parts, &self.k1.to_bytes());
        append_bytes(&mut parts, &self.k2.to_bytes());
        append_bytes(&mut parts, &self.x1.to_bytes());
        append_bytes(&mut parts, &self.y1.to_bytes());
        append_bytes(&mut parts, &self.z1.to_bytes());
        assert(parts@ =~= self.encoding());
        let mut bytes = [0u8; 480];
        let mut i: usize = 0;
        while i < 480
            invariant
                i <= 480,
                parts@.len() == 480,
                forall|k: int| 0 <= k < i ==> bytes@[k] == parts@[k],
            decreases 480 - i,
        {
            bytes[i] = parts[i];
            i += 1;
        }
        assert(bytes@ =~= parts@);
        bytes
    }

    /// Decodes parameters from their 480 bytes. Bytes in which one of the
    /// eight parts is not the encoding of a point of its group decode to
    /// nothing.
    pub fn from_bytes(bytes: [u8; 480]) -> (r: Option<AccParams>)
        ensures
            r == params_decoding(bytes@),
            r matches Some(p) ==> p.encoding() == bytes@,
    {
        match Self::decode(bytes.as_slice()) {
            Ok(p) => Some(p),
            Err(_) => None,
        }
    }

    /// Decodes parameters from bytes of any length, and says what is wrong
    /// with bytes that do not decode: their length, or a part that is no
    /// point.
    pub fn decode(bytes: &[u8]) -> (r: Result<AccParams, Error>)
        ensures
            match r {
                Ok(p) => params_decoding(bytes@) == Some(p) && p.encoding() == bytes@,
                Err(e) => {
                    &&& params_decoding(bytes@) is None
                    &&& e == Error::Length <==> bytes@.len() != 480
                    &&& e == Error::Encoding <==> bytes@.len() == 480
                },
            },
    {
        if bytes.len() != 480 {
            return Err(Error::Length);
        }
        let p1 = G1Point::from_bytes(slice_subrange(bytes, 0, 48));
        let p2 = G2Point::from_bytes(slice_subrange(bytes, 48, 144));
        let k0 = G1Point::from_bytes(slice_subrange(bytes, 144, 192));
        let k1 = G1Point::from_bytes(slice_subrange(bytes, 192, 240));
        let k2 = G2Point::from_bytes(slice_subrange(bytes, 240, 336));
        let x1 = G1Point::from_bytes(slice_subrange(bytes, 336, 384));
        let y1 = G1Point::from_bytes(slice_subrange(bytes, 384, 432));
        let z1 = G1Point::from_bytes(slice_subrange(bytes, 432, 480));
        if p1.is_some() && p2.is_some() && k0.is_some() && k1.is_some() && k2.is_some()
            && x1.is_some() && y1.is_some() && z1.is_some() {
            let r = AccParams {
                p1: p1.unwrap(),
                p2: p2.unwrap(),
                k0: k0.unwrap(),
                k1: k1.unwrap(),
                k2: k2.unwrap(),
                x1: x1.unwrap(),
                y1: y1.unwrap(),
                z1: z1.unwrap(),
            };
            assert(r.encoding() =~= bytes@);
            Ok(r)
        } else {
            Err(Error::Encoding)
        }
    }
}

/// Parameters survive encoding and decoding unchanged.
pub proof fn lemma_params_roundtrip(p: AccParams)
    requires
        p.wf(),
    ensures
        params_decoding(p.encoding()) == Some(p),
{
    let b = p.encoding();
    assert(b.subrange(0, 48) =~= p.p1.encoding());
    assert(b.subrange(48, 144) =~= p.p2.encoding());
    assert(b.subrange(144, 192) =~= p.k0.encoding());
    assert(b.subrange(192, 240) =~= p.k1.encoding());
    assert(b.subrange(240, 336) =~= p.k2.encoding());
    assert(b.subrange(336, 384) =~= p.x1.encoding());
    assert(b.subrange(384, 432) =~= p.y1.encoding());
    assert(b.subrange(432, 480) =~= p.z1.encoding());
    G1Point::lemma_roundtrip(p.p1);
    G2Point::lemma_roundtrip(p.p2);
    G1Point::lemma_roundtrip(p.k0);
    G1Point::lemma_roundtrip(p.k1);
    G2Point::lemma_roundtrip(p.k2);
    G1Point::lemma_roundtrip(p.x1);
    G1Point::lemma_roundtrip(p.y1);
    G1Point::lemma_roundtrip(p.z1);
}

} // verus!
