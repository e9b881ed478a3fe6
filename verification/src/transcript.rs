//! Trusted boundary around the `merlin` Fiat-Shamir transcript.
//!
//! A transcript is modelled by its *history*: the sequence of byte strings it
//! has absorbed, labels and data alike, in order. `merlin` is a deterministic
//! duplex construction, so the bytes returned by a challenge are a function of
//! that history and of the challenge label and length alone; that function is
//! given the name [`challenge_of`].

use vstd::prelude::*;
use merlin::Transcript;

verus! {

#[verifier::external_type_specification]
#[verifier::external_body]
pub struct ExTranscript(Transcript);

/// The bytes of an ASCII string, one byte per character.
pub open spec fn label_bytes(s: Seq<char>) -> Seq<u8> {
    Seq::new(s.len(), |i: int| s[i] as u8)
}

/// The eight little-endian bytes of a 64-bit integer.
pub open spec fn u64_le_bytes(x: u64) -> Seq<u8> {
    Seq::new(8, |i: int| ((x as int) / vstd::arithmetic::power::pow(256, i as nat) % 256) as u8)
}

/// The record of starting a transcript under a domain-separation label.
///
/// Every operation contributes exactly three history entries, the first a
/// one-byte tag naming the operation, so that two transcripts with equal
/// histories have performed the same operations with the same arguments and
/// therefore hold the same state.
pub open spec fn op_domain(label: Seq<char>) -> Seq<Seq<u8>> {
    seq![seq![3u8], label_bytes(label), Seq::<u8>::empty()]
}

/// The record of absorbing a labelled byte string.
pub open spec fn op_append(label: Seq<char>, msg: Seq<u8>) -> Seq<Seq<u8>> {
    seq![seq![0u8], label_bytes(label), msg]
}

/// The record of absorbing a labelled 64-bit integer.
pub open spec fn op_append_u64(label: Seq<char>, x: u64) -> Seq<Seq<u8>> {
    seq![seq![1u8], label_bytes(label), u64_le_bytes(x)]
}

/// The record of drawing a labelled challenge of the given byte length.
pub open spec fn op_challenge(label: Seq<char>, len: nat) -> Seq<Seq<u8>> {
    seq![seq![2u8], label_bytes(label), u64_le_bytes(len as u64)]
}

/// The pseudorandom bytes that a `merlin` transcript with the absorbed
/// history `history` returns for a challenge with the given label and output
/// length: a function of those three arguments alone.
pub uninterp spec fn challenge_of(history: Seq<Seq<u8>>, label: Seq<u8>, len: nat) -> Seq<u8>;

/// A Fiat-Shamir transcript together with the ghost history of everything it
/// has absorbed.
pub struct ProofTranscript {
    pub(crate) inner: Transcript,
    pub history: Ghost<Seq<Seq<u8>>>,
}

/// Relies on `merlin::Transcript::new`: a fresh transcript that has absorbed
/// the domain-separation label and nothing else. The label is absorbed as a
/// message, and `merlin` asserts that message lengths fit in 32 bits.
#[verifier::external_body]
fn transcript_new(label: &'static str) -> Transcript
    requires
        label@.len() <= u32::MAX,
{
    Transcript::new(label.as_bytes())
}

impl ProofTranscript {
    /// Starts a transcript whose history holds exactly the
    /// domain-separation label.
    pub(crate) fn new(label: &'static str) -> (r: Self)
        requires
            vstd::string::is_ascii(label),
            label@.len() <= u32::MAX,
        ensures
            r.history@ == op_domain(label@),
    {
        let ghost h: Seq<Seq<u8>> = op_domain(label@);
        ProofTranscript { inner: transcript_new(label), history: Ghost(h) }
    }

    /// Relies on `merlin::Transcript::append_message`: absorbs the label and
    /// the message, length-prefixed, extending the history by both. `merlin`
    /// asserts that the message length fits in 32 bits.
    #[verifier::external_body]
    pub(crate) fn append(&mut self, label: &'static str, message: &[u8])
        requires
            vstd::string::is_ascii(label),
            message@.len() <= u32::MAX,
        ensures
            final(self).history@ == old(self).history@ + op_append(label@, message@),
    {
        self.inner.append_message(label.as_bytes(), message);
    }

    /// Relies on `merlin::Transcript::append_u64`: absorbs the label and the
    /// eight little-endian bytes of `x`, extending the history by both.
    #[verifier::external_body]
    pub(crate) fn append_u64(&mut self, label: &'static str, x: u64)
        requires
            vstd::string::is_ascii(label),
        ensures
            final(self).history@ == old(self).history@ + op_append_u64(label@, x),
    {
        self.inner.append_u64(label.as_bytes(), x);
    }

    /// Relies on `merlin::Transcript::challenge_bytes`: returns `len`
    /// pseudorandom bytes determined by the absorbed history, the label and
    /// the length, and absorbs the label. `merlin` asserts that the output
    /// length fits in 32 bits.
    #[verifier::external_body]
    pub(crate) fn challenge(&mut self, label: &'static str, len: usize) -> (r: Vec<u8>)
        requires
            vstd::string::is_ascii(label),
            len <= u32::MAX,
        ensures
            r@ == challenge_of(old(self).history@, label_bytes(label@), len as nat),
            r@.len() == len,
            final(self).history@ == old(self).history@ + op_challenge(label@, len as nat),
    {
        let mut buf = vec![0u8; len];
        self.inner.challenge_bytes(label.as_bytes(), &mut buf);
        buf
    }
}

} // verus!
