//! The transcript from which the challenge of a proof is drawn.
use vstd::prelude::*;
use vstd::string::StringSliceAdditionalSpecFns;

verus! {

/// The transcript of merlin, of which nothing is seen from here but what
/// the functions below state.
#[verifier::external_type_specification]
#[verifier::external_body]
pub struct ExTranscript(merlin::Transcript);

/// The number of bytes drawn from a transcript for one challenge.
pub const CHALLENGE_BYTES: usize = 64;

/// The messages that a transcript has taken in, each with its label, in the
/// order in which they came.
pub uninterp spec fn transcript_messages(t: merlin::Transcript) -> Seq<(Seq<u8>, Seq<u8>)>;

/// The 64 bytes that a transcript gives as a challenge under a label, after
/// the messages it has taken in.
pub uninterp spec fn transcript_challenge(messages: Seq<(Seq<u8>, Seq<u8>)>, label: Seq<u8>) -> Seq<
    u8,
>;

/// A transcript for the protocol that the label names. The label goes in
/// as a message, so that it must be shorter than 2^32 bytes.
pub fn new_transcript(label: &'static str) -> (t: merlin::Transcript)
    requires
        label.spec_bytes().len() <= u32::MAX,
    ensures
        transcript_messages(t) == seq![("dom-sep".spec_bytes(), label.spec_bytes())],
{
    outside_new(label.as_bytes())
}

/// Appends a message under a label.
pub fn append_message(t: &mut merlin::Transcript, label: &'static str, message: &[u8])
    requires
        message@.len() <= u32::MAX,
    ensures
        transcript_messages(*final(t)) == transcript_messages(*old(t)).push(
            (label.spec_bytes(), message@),
        ),
{
    outside_append(t, label.as_bytes(), message)
}

/// Draws the challenge that the transcript gives under a label.
pub fn challenge_bytes(t: &mut merlin::Transcript, label: &'static str) -> (r: [u8; 64])
    ensures
        r@ == transcript_challenge(transcript_messages(*old(t)), label.spec_bytes()),
{
    outside_challenge(t, label.as_bytes())
}

/// `Transcript::new` of merlin: a fresh transcript, into which the label
/// has gone as a first message under the label `dom-sep`. As a message, the
/// label must be shorter than 2^32 bytes.
#[verifier::external_body]
fn outside_new(label: &'static [u8]) -> (t: merlin::Transcript)
    requires
        label@.len() <= u32::MAX,
    ensures
        transcript_messages(t) == seq![("dom-sep".spec_bytes(), label@)],
{
    merlin::Transcript::new(label)
}

/// `Transcript::append_message` of merlin: the labelled message joins those
/// that the transcript has taken in. A message must be shorter than 2^32
/// bytes.
#[verifier::external_body]
fn outside_append(t: &mut merlin::Transcript, label: &'static [u8], message: &[u8])
    requires
        message@.len() <= u32::MAX,
    ensures
        transcript_messages(*final(t)) == transcript_messages(*old(t)).push((label@, message@)),
{
    t.append_message(label, message);
}

/// `Transcript::challenge_bytes` of merlin, for 64 bytes: they are a
/// function of the messages taken in so far and of the label. Nothing is
/// claimed of the transcript after the call.
#[verifier::external_body]
fn outside_challenge(t: &mut merlin::Transcript, label: &'static [u8]) -> (r: [u8; 64])
    ensures
        r@ == transcript_challenge(transcript_messages(*old(t)), label@),
{
    let mut out = [0u8; 64];
    t.challenge_bytes(label, &mut out);
    out
}

} // verus!
