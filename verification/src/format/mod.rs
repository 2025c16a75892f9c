//! Container formats: reading their chunks for audio decoding, and writing
//! encoded audio into them.
use crate::byte_order::be_value;
use crate::codecs::Codec;
use crate::error::Failure;
use vstd::prelude::*;

pub mod aiff;
pub mod extended;
pub mod wave;

verus! {

/// The `n` bytes of `s` from `at`, with zeros past its end.
pub open spec fn padded(s: Seq<u8>, at: int, n: nat) -> Seq<u8> {
    Seq::new(n, |k: int| if 0 <= at + k < s.len() { s[at + k] } else { 0u8 })
}

/// Copies the `n` bytes of `bytes` from `at`, with zeros past its end; this
/// is what reading `n` bytes into a zeroed buffer leaves there.
pub fn padded_copy(bytes: &[u8], at: usize, n: usize) -> (r: Vec<u8>)
    ensures
        r@ == padded(bytes@, at as int, n as nat),
{
    let mut r: Vec<u8> = Vec::with_capacity(n);
    let mut k: usize = 0;
    while k < n
        invariant
            k <= n,
            r@.len() == k,
            forall|j: int| 0 <= j < k ==> r@[j] == padded(bytes@, at as int, n as nat)[j],
        decreases n - k,
    {
        if at < bytes.len() && k < bytes.len() - at {
            r.push(bytes[at + k]);
        } else {
            r.push(0);
        }
        k = k + 1;
    }
    assert(r@ =~= padded(bytes@, at as int, n as nat));
    r
}

/// The big-endian number of the four identifier bytes at `at`.
pub open spec fn tag_at(s: Seq<u8>, at: int) -> nat {
    be_value(s.subrange(at, at + 4))
}

/// Where the walk through the chunks ends.
pub enum ChunkWalk<F> {
    /// The audio data was found: its format, codec, and place in the buffer
    Found { format: F, codec: Codec, start: nat, len: nat },
    /// The walk failed
    Failed(Failure),
}

/// The header of the chunk at `pos`: eight bytes, padded with zeros past the
/// end of the buffer.
pub open spec fn chunk_header(buf: Seq<u8>, pos: int) -> Seq<u8> {
    padded(buf, pos, 8)
}

/// Where the body of the chunk at `pos` starts: after its header, or at the
/// end of the buffer when the header is cut short.
pub open spec fn body_start(buf: Seq<u8>, pos: int) -> int {
    if pos + 8 <= buf.len() {
        pos + 8
    } else {
        buf.len() as int
    }
}

/// Within the bytes of `s`, padding adds nothing.
pub proof fn lemma_padded_within(s: Seq<u8>, at: int, n: nat)
    requires
        0 <= at,
        at + n <= s.len(),
    ensures
        padded(s, at, n) == s.subrange(at, at + n),
{
    assert(padded(s, at, n) =~= s.subrange(at, at + n));
}

/// The header and body start of a chunk whose bytes `chunk` stand in `buf`
/// at `pos`.
pub proof fn lemma_chunk_at(buf: Seq<u8>, pos: int, chunk: Seq<u8>)
    requires
        0 <= pos,
        pos + chunk.len() <= buf.len(),
        chunk.len() >= 8,
        buf.subrange(pos, pos + chunk.len()) == chunk,
    ensures
        chunk_header(buf, pos) == chunk.subrange(0, 8),
        body_start(buf, pos) == pos + 8,
        buf.subrange(pos + 8, pos + chunk.len()) == chunk.subrange(8, chunk.len() as int),
{
    assert(chunk_header(buf, pos) =~= chunk.subrange(0, 8));
    assert(buf.subrange(pos + 8, pos + chunk.len()) =~= chunk.subrange(8, chunk.len() as int));
}

} // verus!
