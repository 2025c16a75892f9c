//! Decoding and encoding of audio in the WAVE and AIFF/AIFF-C formats.
//!
//! Terminology:
//! - Sample: a single recorded value independent of channel.
//! - Frame: a set of samples, one from each channel, to be played
//!   simultaneously. This is also called a block in some formats.
//! - Clip: a set of frames representing an interval of time within or
//!   containing the entire read sound.
//!
//! Samples are held as the integer values that their encoded bytes denote:
//! the two's complement value of the stored word, less the offset of 128 for
//! unsigned 8-bit data; floating-point data keeps its bit pattern, read as a
//! signed integer of the same width.
pub mod audio;
pub mod buffer;
pub mod byte_order;
pub mod codecs;
pub mod decoder;
pub mod encoder;
pub mod error;
pub mod format;
pub mod traits;

pub use audio::{format_of_extension, header_size_ok, load, write_as, AudioFormat};
pub use buffer::AudioBuffer;
pub use codecs::Codec;
pub use error::{AudioError, AudioResult};
