//! Encoding of samples with a codec, ready to be written into a container.
use crate::buffer::AudioBuffer;
use crate::codecs::g711::{g711_byte, g711_value, lemma_byte_stable};
use crate::codecs::lpcm::{
    clamp_all, clamp_sample, create, encode_all, half_range, lemma_decode_encode, lemma_encode_all_len,
    sample_bytes,
};
use crate::codecs::{is_lpcm, sample_size, spec_bit_depth, Codec};
use crate::decoder::{decoded_samples, is_lpcm_codec};
use crate::error::AudioResult;
use vstd::prelude::*;

verus! {

/// The bytes that encode `samples` with `codec`.
pub open spec fn encoded(samples: Seq<i64>, codec: Codec) -> Seq<u8> {
    if is_lpcm(codec) {
        encode_all(samples, codec)
    } else {
        crate::codecs::g711::encode_all(samples, codec)
    }
}

/// What decoding the encoding of `samples` with `codec` gives: the samples
/// limited to the range of an LPCM codec, or the 16-bit linear values of the
/// G.711 bytes of the samples.
pub open spec fn coded_samples(samples: Seq<i64>, codec: Codec) -> Seq<i64> {
    if is_lpcm(codec) {
        clamp_all(samples, codec)
    } else {
        Seq::new(
            samples.len(),
            |i: int| g711_value(g711_byte(samples[i] as int, codec), codec) as i64,
        )
    }
}

/// Each sample takes `sample_size` bytes.
pub proof fn lemma_encoded_len(samples: Seq<i64>, codec: Codec)
    ensures
        encoded(samples, codec).len() == samples.len() * sample_size(codec),
{
    if is_lpcm(codec) {
        lemma_encode_all_len(samples, codec);
    } else {
        assert(sample_size(codec) == 1);
        assert(samples.len() * 1 == samples.len()) by (nonlinear_arith);
    }
}

/// Decoding the encoding of samples gives `coded_samples`.
pub proof fn lemma_decode_encoded(samples: Seq<i64>, codec: Codec)
    ensures
        decoded_samples(Some(codec), encoded(samples, codec)) == coded_samples(samples, codec),
{
    if is_lpcm(codec) {
        lemma_decode_encode(samples, codec);
    } else {
        assert(decoded_samples(Some(codec), encoded(samples, codec)) =~= coded_samples(
            samples,
            codec,
        ));
    }
}

/// Limiting samples that are already limited changes nothing of their
/// encoding.
proof fn lemma_encode_clamped(samples: Seq<i64>, codec: Codec)
    requires
        is_lpcm(codec),
    ensures
        encode_all(clamp_all(samples, codec), codec) == encode_all(samples, codec),
    decreases samples.len(),
{
    if samples.len() > 0 {
        let last = samples.last() as int;
        lemma_encode_clamped(samples.drop_last(), codec);
        assert(clamp_all(samples, codec).drop_last() =~= clamp_all(samples.drop_last(), codec));
        assert(half_range(codec) <= 0x8000_0000_0000_0000);
        assert(clamp_sample(clamp_sample(last, codec) as i64 as int, codec) == clamp_sample(last, codec));
        assert(sample_bytes(clamp_sample(last, codec) as i64 as int, codec) == sample_bytes(last, codec));
    } else {
        assert(clamp_all(samples, codec) =~= samples);
    }
}

/// Encoding what decoding an encoding gives gives the same encoding.
pub proof fn lemma_encode_coded(samples: Seq<i64>, codec: Codec)
    ensures
        encoded(coded_samples(samples, codec), codec) == encoded(samples, codec),
{
    if is_lpcm(codec) {
        lemma_encode_clamped(samples, codec);
    } else {
        assert forall|i: int| 0 <= i < samples.len() implies #[trigger] g711_byte(
            coded_samples(samples, codec)[i] as int,
            codec,
        ) == g711_byte(samples[i] as int, codec) by {
            lemma_byte_stable(samples[i] as int, codec);
        }
        assert(encoded(coded_samples(samples, codec), codec) =~= encoded(samples, codec));
    }
}

/// The samples of an audio buffer together with the codec to encode them
/// with and the attributes that containers record.
#[derive(Debug)]
pub struct AudioEncoder<'a> {
    pub codec: Codec,
    pub bit_depth: u32,
    pub sample_rate: u32,
    pub channels: u32,
    pub samples: &'a [i64],
}

impl<'a> AudioEncoder<'a> {
    /// An encoder of no samples, with the 16-bit little-endian LPCM codec.
    pub fn new() -> (r: Self)
        ensures
            r.codec == Codec::LPCM_I16_LE,
            r.bit_depth == 0,
            r.sample_rate == 0,
            r.channels == 0,
            r.samples@.len() == 0,
    {
        AudioEncoder { codec: Codec::LPCM_I16_LE, bit_depth: 0, sample_rate: 0, channels: 0, samples: &[] }
    }

    /// An encoder of the samples of `audio` with `codec`.
    pub fn from_buffer(audio: &'a AudioBuffer<i64>, codec: Codec) -> (r: Self)
        ensures
            r.codec == codec,
            r.bit_depth == spec_bit_depth(codec),
            r.sample_rate == audio.sample_rate,
            r.channels == audio.channels,
            r.samples@ == audio.samples@,
    {
        AudioEncoder {
            codec: codec,
            bit_depth: codec.bit_depth() as u32,
            sample_rate: audio.sample_rate,
            channels: audio.channels,
            samples: audio.samples.as_slice(),
        }
    }

    /// Encodes the samples with the codec; each sample is first limited to
    /// the range of the codec (to 16 bits for G.711).
    pub fn encode(&mut self) -> (r: AudioResult<Vec<u8>>)
        ensures
            *final(self) == *old(self),
            r matches Ok(bytes) && bytes@ == encoded(old(self).samples@, old(self).codec),
    {
        if is_lpcm_codec(self.codec) {
            create(self.samples, self.codec)
        } else {
            crate::codecs::g711::write(self.samples, self.codec)
        }
    }
}

} // verus!
