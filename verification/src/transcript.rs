//! Merlin transcripts for the Fiat-Shamir transformation.
//!
//! A transcript is modelled by its STROBE state. Appending a message and drawing
//! challenge bytes are deterministic functions of the state and their arguments, so they
//! are named as such.
use vstd::prelude::*;
use curve25519_dalek::ristretto::CompressedRistretto;
use curve25519_dalek::scalar::Scalar;
use merlin::Transcript;
use crate::algebra::reduce;
use crate::group::{compressed_bytes, le_bytes_value, scalar_value};

verus! {

#[verifier::external_type_specification]
#[verifier::external_body]
pub struct ExTranscript(Transcript);

/// The state of a transcript: the bytes of its STROBE-128 state (the 200-byte Keccak
/// state followed by its position, start position and current flags).
pub uninterp spec fn transcript_state(t: Transcript) -> Seq<u8>;

/// The state that `append_message(label, message)` leaves a transcript in that was in
/// `state`.
pub uninterp spec fn merlin_absorb(state: Seq<u8>, label: Seq<u8>, message: Seq<u8>) -> Seq<u8>;

/// The bytes that `challenge_bytes(label, dest)` writes into a `dest` of `len` bytes, for
/// a transcript in `state`.
pub uninterp spec fn merlin_challenge(state: Seq<u8>, label: Seq<u8>, len: nat) -> Seq<u8>;

/// The state that `challenge_bytes(label, dest)`, with a `dest` of `len` bytes, leaves a
/// transcript in that was in `state`.
pub uninterp spec fn merlin_after_challenge(state: Seq<u8>, label: Seq<u8>, len: nat) -> Seq<u8>;

/// The challenge scalar that a transcript in `state` yields under `label`: the 64
/// challenge bytes, read as a little-endian integer and reduced modulo ℓ.
pub open spec fn challenge_value(state: Seq<u8>, label: Seq<u8>) -> int {
    reduce(le_bytes_value(merlin_challenge(state, label, 64)))
}

/// The state after drawing 64 challenge bytes under `label`.
pub open spec fn challenged(state: Seq<u8>, label: Seq<u8>) -> Seq<u8> {
    merlin_after_challenge(state, label, 64)
}

/// `Transcript::append_message`: absorbs `message` under `label`. The length of the
/// message is encoded in 32 bits, and the source asserts that it fits.
pub assume_specification[ Transcript::append_message ](
    t: &mut Transcript,
    label: &'static [u8],
    message: &[u8],
)
    requires
        message@.len() <= u32::MAX,
    ensures
        transcript_state(*final(t)) == merlin_absorb(transcript_state(*old(t)), label@, message@),
;

/// `Transcript::challenge_bytes` into a 64-byte buffer: the buffer is filled with the
/// challenge for the transcript's state and label, and the state moves on.
#[verifier::external_body]
pub(crate) fn transcript_challenge_bytes(t: &mut Transcript, label: &'static [u8], dest: &mut [u8; 64])
    ensures
        final(dest)@ == merlin_challenge(transcript_state(*old(t)), label@, 64),
        transcript_state(*final(t)) == merlin_after_challenge(transcript_state(*old(t)), label@, 64),
{
    t.challenge_bytes(label, dest)
}

/// Protocol extensions for Merlin transcripts in zero-knowledge proofs: appending
/// compressed Ristretto points and drawing challenge scalars.
pub trait TranscriptProtocol {
    /// Append a compressed Ristretto point to the transcript with the given label.
    fn append_point(&mut self, label: &'static [u8], point: &CompressedRistretto);

    /// Extract a challenge scalar from the transcript with the given label.
    fn challenge_scalar(&mut self, label: &'static [u8]) -> Scalar;
}

impl TranscriptProtocol for Transcript {
    fn append_point(&mut self, label: &'static [u8], point: &CompressedRistretto)
        ensures
            transcript_state(*final(self)) == merlin_absorb(
                transcript_state(*old(self)),
                label@,
                compressed_bytes(*point),
            ),
    {
        self.append_message(label, point.as_bytes());
    }

    fn challenge_scalar(&mut self, label: &'static [u8]) -> (s: Scalar)
        ensures
            scalar_value(s) == challenge_value(transcript_state(*old(self)), label@),
            transcript_state(*final(self)) == challenged(transcript_state(*old(self)), label@),
    {
        let mut buf = [0u8; 64];
        transcript_challenge_bytes(self, label, &mut buf);
        Scalar::from_bytes_mod_order_wide(&buf)
    }
}

} // verus!
