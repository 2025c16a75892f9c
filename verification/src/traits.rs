//! Traits shared by multiple audio formats.
use crate::error::AudioResult;
use vstd::prelude::*;

verus! {

/// A `Chunk` contains data relevant to the audio format, such as track
/// metadata or decoding details.
pub trait Chunk: Sized {
    /// Decodes the chunk from the bytes of its body.
    fn read(buffer: &[u8]) -> AudioResult<Self>;
}

} // verus!
