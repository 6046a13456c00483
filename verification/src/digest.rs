//! Content digests: the sampled digest that proposes duplicate candidates
//! and the full SHA-256 digest that proves them.
use vstd::prelude::*;
use vstd::bytes::{
    lemma_auto_spec_u64_to_from_le_bytes, spec_u64_from_le_bytes, spec_u64_to_le_bytes, u64_to_le_bytes,
};
use sha2::Digest;
use crate::text::{hex_lower, hex_string, lemma_hex_lower_len};

verus! {

/// How many bytes a sample reads from each end of a file, and the size of
/// the chunks in which a full digest reads it.
pub const SAMPLE_BYTES: usize = 1048576;

/// SHA-256 of a byte string.
pub uninterp spec fn sha256(data: Seq<u8>) -> Seq<u8>;

/// A running SHA-256 computation (sha2's `Sha256`).
#[verifier::external_body]
pub struct Sha256State {
    inner: sha2::Sha256,
}

/// The bytes that a running SHA-256 computation has absorbed so far.
pub uninterp spec fn sha256_input(state: Sha256State) -> Seq<u8>;

/// `Sha256::new`: a computation that has absorbed nothing.
#[verifier::external_body]
fn sha256_new() -> (state: Sha256State)
    ensures
        sha256_input(state) == Seq::<u8>::empty(),
{
    Sha256State { inner: sha2::Sha256::new() }
}

/// `Digest::update`: absorbs `data` after what came before.
#[verifier::external_body]
fn sha256_update(state: &mut Sha256State, data: &[u8])
    ensures
        sha256_input(*final(state)) == sha256_input(*old(state)) + data@,
{
    state.inner.update(data)
}

/// `Digest::finalize`: the 32-byte SHA-256 of everything absorbed.
#[verifier::external_body]
fn sha256_finalize(state: Sha256State) -> (digest: Vec<u8>)
    ensures
        digest@ == sha256(sha256_input(state)),
        digest@.len() == 32,
{
    state.inner.finalize().to_vec()
}

/// A full-content digest fed in chunks as a file is read.
pub struct FullHash {
    state: Sha256State,
}

impl FullHash {
    /// Everything fed so far.
    pub closed spec fn absorbed(&self) -> Seq<u8> {
        sha256_input(self.state)
    }

    pub fn new() -> (h: Self)
        ensures
            h.absorbed() == Seq::<u8>::empty(),
    {
        FullHash { state: sha256_new() }
    }

    /// Feeds the next chunk of the file.
    pub fn absorb(&mut self, chunk: &[u8])
        ensures
            final(self).absorbed() == old(self).absorbed() + chunk@,
    {
        sha256_update(&mut self.state, chunk)
    }

    /// The lower-case hexadecimal SHA-256 of everything fed.
    pub fn finish(self) -> (hex: String)
        ensures
            hex@ == hex_lower(sha256(self.absorbed())),
            hex@.len() == 64,
    {
        let d = sha256_finalize(self.state);
        proof {
            lemma_hex_lower_len(d@);
        }
        hex_string(d.as_slice())
    }
}

/// Which parts of a file of `bytes` bytes a sample reads.
#[derive(Debug, Clone, Copy, PartialEq, Eq)]
pub struct SamplePlan {
    /// How many bytes to read from the start.
    pub head_len: u64,
    /// Where to read `SAMPLE_BYTES` bytes from, near the end, for a file
    /// longer than one sample.
    pub tail_offset: Option<u64>,
}

/// The sample of a file of `bytes` bytes: its first `SAMPLE_BYTES` bytes (or
/// all of it), and, when it is longer, its last `SAMPLE_BYTES` bytes.
pub fn sample_plan(bytes: u64) -> (p: SamplePlan)
    ensures
        p.head_len == if bytes < SAMPLE_BYTES { bytes } else { SAMPLE_BYTES as u64 },
        bytes > SAMPLE_BYTES ==> p.tail_offset == Some((bytes - SAMPLE_BYTES) as u64),
        bytes <= SAMPLE_BYTES ==> p.tail_offset is None,
{
    let sample = SAMPLE_BYTES as u64;
    let head_len = if bytes < sample { bytes } else { sample };
    let tail_offset = if bytes > sample { Some(bytes - sample) } else { None };
    SamplePlan { head_len, tail_offset }
}

/// What a sampled digest covers: the size, little-endian, then the bytes read
/// from the start, then those read from the end.
pub open spec fn sample_input(bytes: u64, head: Seq<u8>, tail: Seq<u8>) -> Seq<u8> {
    spec_u64_to_le_bytes(bytes) + head + tail
}

/// What a sample hashes is made of three parts, one after the other: the
/// size as eight little-endian bytes (from which it reads back), the head,
/// then the tail.
pub proof fn lemma_sample_input_parts(bytes: u64, head: Seq<u8>, tail: Seq<u8>)
    ensures
        sample_input(bytes, head, tail).len() == 8 + head.len() + tail.len(),
        spec_u64_from_le_bytes(sample_input(bytes, head, tail).take(8)) == bytes,
        sample_input(bytes, head, tail).subrange(8, 8 + head.len() as int) == head,
        sample_input(bytes, head, tail).skip(8 + head.len() as int) == tail,
{
    lemma_auto_spec_u64_to_from_le_bytes();
    let size = spec_u64_to_le_bytes(bytes);
    let s = sample_input(bytes, head, tail);
    assert(s.take(8) =~= size);
    assert(s.subrange(8, 8 + head.len() as int) =~= head);
    assert(s.skip(8 + head.len() as int) =~= tail);
}

/// Two samples with heads of one length hash the same input only when they
/// agree on the size, the head and the tail: files that differ only near
/// their end, or only in size, are hashed from different inputs.
pub proof fn lemma_sample_inputs_differ(
    bytes1: u64,
    head1: Seq<u8>,
    tail1: Seq<u8>,
    bytes2: u64,
    head2: Seq<u8>,
    tail2: Seq<u8>,
)
    requires
        head1.len() == head2.len(),
    ensures
        sample_input(bytes1, head1, tail1) == sample_input(bytes2, head2, tail2) <==> (bytes1 == bytes2
            && head1 == head2 && tail1 == tail2),
{
    lemma_sample_input_parts(bytes1, head1, tail1);
    lemma_sample_input_parts(bytes2, head2, tail2);
}

/// The sampled digest of a file of `bytes` bytes, from the bytes that were
/// read at its start and (for a long file) at its end, in lower-case hexadecimal.
pub fn sample_hash(bytes: u64, head: &[u8], tail: &[u8]) -> (hex: String)
    ensures
        hex@ == hex_lower(sha256(sample_input(bytes, head@, tail@))),
        hex@.len() == 64,
{
    let mut state = sha256_new();
    let size = u64_to_le_bytes(bytes);
    sha256_update(&mut state, size.as_slice());
    sha256_update(&mut state, head);
    sha256_update(&mut state, tail);
    assert(sha256_input(state) =~= sample_input(bytes, head@, tail@));
    let d = sha256_finalize(state);
    proof {
        lemma_hex_lower_len(d@);
    }
    hex_string(d.as_slice())
}

} // verus!
