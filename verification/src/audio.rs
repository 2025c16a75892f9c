//! Loading audio from, and writing it to, the bytes of a whole file.
use crate::buffer::AudioBuffer;
use crate::codecs::{sample_size, spec_bit_depth, Codec};
use crate::decoder::decoded_samples;
use crate::encoder::{coded_samples, AudioEncoder};
use crate::error::{AudioError, AudioResult};
use crate::format::{aiff, padded, wave};
use vstd::prelude::*;
use vstd::string::StringExecFns;

verus! {

/// All supported audio formats.
#[derive(Clone, Copy, Debug, PartialEq, Eq, Structural)]
pub enum AudioFormat {
    /// Waveform Audio File Format
    Wave,
    /// Audio Interchange File Format
    Aiff,
}

/// The format that files with the extension `ext` hold, if supported.
pub open spec fn spec_format_of_extension(ext: Seq<char>) -> Option<AudioFormat> {
    if ext == "wav"@ || ext == "wave"@ {
        Some(AudioFormat::Wave)
    } else if ext == "aif"@ || ext == "aiff"@ || ext == "aifc"@ {
        Some(AudioFormat::Aiff)
    } else {
        None
    }
}

/// Determines the audio format from a file extension.
///
/// Returns a `Format` error for an extension of no supported format.
pub fn format_of_extension(ext: &str) -> (r: AudioResult<AudioFormat>)
    ensures
        match spec_format_of_extension(ext@) {
            Some(f) => r == Ok::<AudioFormat, AudioError>(f),
            None => r matches Err(AudioError::Format(message)) && message@
                == "Did not recognize audio file format ."@ + ext@,
        },
{
    let e = String::from_str(ext);
    if e == String::from_str("wav") || e == String::from_str("wave") {
        Ok(AudioFormat::Wave)
    } else if e == String::from_str("aif") || e == String::from_str("aiff") || e == String::from_str(
        "aifc",
    ) {
        Ok(AudioFormat::Aiff)
    } else {
        let mut message = String::from_str("Did not recognize audio file format .");
        message.append(ext);
        Err(AudioError::Format(message))
    }
}

/// What loading requires of the bytes of a file: the header of a file of
/// the format does not announce fewer bytes than it counts itself.
pub open spec fn load_requires(bytes: Seq<u8>, format: AudioFormat) -> bool {
    match format {
        AudioFormat::Wave => wave::riff_size_ok(padded(bytes, 0, 12)),
        AudioFormat::Aiff => aiff::iff_size_ok(padded(bytes, 0, 12)),
    }
}

/// Whether the header of the file `bytes` in `format` can be loaded (see
/// `load_requires`).
pub fn header_size_ok(bytes: &[u8], format: AudioFormat) -> (r: bool)
    ensures
        r == load_requires(bytes@, format),
{
    let header = crate::format::padded_copy(bytes, 0, 12);
    let h = header.as_slice();
    match format {
        AudioFormat::Wave => {
            let riff = crate::byte_order::read_u32_be(h, 0) == wave::RIFF
                && crate::byte_order::read_u32_be(h, 8) == wave::WAVE;
            !riff || crate::byte_order::read_u32_le(h, 4) >= 4
        },
        AudioFormat::Aiff => {
            let form_type = crate::byte_order::read_u32_be(h, 8);
            let iff = crate::byte_order::read_u32_be(h, 0) == aiff::FORM && (form_type == aiff::AIFF
                || form_type == aiff::AIFC);
            !iff || crate::byte_order::read_i32_be(h, 4) >= 4
        },
    }
}

/// Whether loading the audio of the whole file `bytes` in `format` gives
/// `r`.
pub open spec fn load_outcome(bytes: Seq<u8>, format: AudioFormat, r: AudioResult<AudioBuffer<i64>>) -> bool {
    match format {
        AudioFormat::Wave => wave::load_outcome(bytes, r),
        AudioFormat::Aiff => aiff::load_outcome(bytes, r),
    }
}

/// Loads the audio of the whole file `bytes` in `format` into memory.
///
/// An `AudioError` is returned if an error occurred in the decoding
/// process; see `load_outcome`.
pub fn load(bytes: &[u8], format: AudioFormat) -> (r: AudioResult<AudioBuffer<i64>>)
    requires
        load_requires(bytes@, format),
    ensures
        load_outcome(bytes@, format, r),
{
    let mut decoder = match format {
        AudioFormat::Wave => match wave::read(bytes) {
            Ok(d) => d,
            Err(e) => {
                proof {
                    reveal(wave::walk_result);
                }
                return Err(e);
            },
        },
        AudioFormat::Aiff => match aiff::read(bytes) {
            Ok(d) => d,
            Err(e) => {
                proof {
                    reveal(aiff::walk_result);
                }
                return Err(e);
            },
        },
    };
    proof {
        reveal(wave::walk_result);
        reveal(aiff::walk_result);
    }
    let ghost data = decoder.data@;
    let samples = decoder.decode();
    proof {
        if data.len() == 0 {
            assert(decoded_samples(decoder.codec, data) =~= samples@);
        }
        assert(data.subrange(0, data.len() as int) =~= data);
    }
    Ok(AudioBuffer::from_samples(decoder.sample_rate, decoder.channels, samples))
}

/// What writing `audio` in `format` with `codec` requires (see the
/// `write_fits` of each format).
pub open spec fn write_requires(audio: AudioBuffer<i64>, format: AudioFormat, codec: Codec) -> bool {
    match format {
        AudioFormat::Wave => wave::write_fits(
            codec,
            audio.channels,
            audio.sample_rate,
            spec_bit_depth(codec) as u32,
            audio.samples@.len(),
        ),
        AudioFormat::Aiff => aiff::write_fits(codec, audio.channels, audio.samples@.len()),
    }
}

/// Whether writing `audio` in `format` with `codec` gives `r` (see the
/// `write_outcome` of each format).
pub open spec fn write_outcome(
    audio: AudioBuffer<i64>,
    format: AudioFormat,
    codec: Codec,
    r: AudioResult<Vec<u8>>,
) -> bool {
    match format {
        AudioFormat::Wave => wave::write_outcome(
            codec,
            audio.channels,
            audio.sample_rate,
            spec_bit_depth(codec) as u32,
            audio.samples@,
            r,
        ),
        AudioFormat::Aiff => aiff::write_outcome(
            codec,
            audio.channels,
            audio.sample_rate,
            audio.samples@,
            r,
        ),
    }
}

/// Whether writing `audio` in `format` with `codec` meets `write_requires`.
pub fn can_write(audio: &AudioBuffer<i64>, format: AudioFormat, codec: Codec) -> (r: bool)
    ensures
        r == write_requires(*audio, format, codec),
{
    let len = audio.samples.len() as u128;
    let size = (codec.bit_depth() / 8) as u128;
    proof {
        assert(len * size <= 0xFFFF_FFFF_FFFF_FFFFu128 * 8) by (nonlinear_arith)
            requires
                len <= 0xFFFF_FFFF_FFFF_FFFF,
                size <= 8,
        ;
    }
    let n: u128 = len * size;
    let channels = audio.channels as u128;
    match format {
        AudioFormat::Wave => {
            let needs_fact = match wave::is_supported(codec) {
                Ok(b) => b,
                Err(_) => return true,
            };
            let rate = audio.sample_rate as u128;
            let bit_depth = codec.bit_depth() as u128;
            proof {
                assert(rate * channels * bit_depth <= 0xFFFF_FFFFu128 * 0xFFFF_FFFFu128 * 64
                    && rate * channels <= 0xFFFF_FFFFu128 * 0xFFFF_FFFFu128 && channels
                    * bit_depth <= 0xFFFF_FFFFu128 * 64) by (nonlinear_arith)
                    requires
                        rate <= 0xFFFF_FFFF,
                        channels <= 0xFFFF_FFFF,
                        bit_depth <= 64,
                ;
            }
            channels * bit_depth <= 0xFFFF_FFFF && rate * channels <= 0xFFFF_FFFF && rate
                * channels * bit_depth <= 0xFFFF_FFFF && n <= 0xFFFF_FFFF - 80 && (!needs_fact
                || channels > 0)
        },
        AudioFormat::Aiff => {
            match aiff::is_aifc(codec) {
                Ok(_) => {},
                Err(_) => return true,
            }
            n <= 0xFFFF_FFFF - 88 && channels > 0
        },
    }
}

/// The codec that each format writes by default: 16-bit LPCM in the byte
/// order of the format.
pub open spec fn default_codec(format: AudioFormat) -> Codec {
    match format {
        AudioFormat::Wave => Codec::LPCM_I16_LE,
        AudioFormat::Aiff => Codec::LPCM_I16_BE,
    }
}

/// Writes `audio` as the bytes of a whole file in `format`, with the
/// default codec of the format.
pub fn write(audio: &AudioBuffer<i64>, format: AudioFormat) -> (r: AudioResult<Vec<u8>>)
    requires
        write_requires(*audio, format, default_codec(format)),
    ensures
        write_outcome(*audio, format, default_codec(format), r),
{
    match format {
        AudioFormat::Wave => {
            let mut encoder = AudioEncoder::from_buffer(audio, Codec::LPCM_I16_LE);
            wave::write(&mut encoder)
        },
        AudioFormat::Aiff => {
            let mut encoder = AudioEncoder::from_buffer(audio, Codec::LPCM_I16_BE);
            aiff::write(&mut encoder)
        },
    }
}

/// Writing with the default codec is writing with 16-bit LPCM in the byte
/// order of the format (little-endian for WAVE, big-endian for AIFF): the
/// results that `write` and `write_as` with that codec may give are one and
/// the same file.
pub proof fn lemma_write_is_write_as_default(
    audio: AudioBuffer<i64>,
    format: AudioFormat,
    by_default: AudioResult<Vec<u8>>,
    by_codec: AudioResult<Vec<u8>>,
)
    requires
        write_outcome(audio, format, default_codec(format), by_default),
        format is Wave ==> write_outcome(audio, format, Codec::LPCM_I16_LE, by_codec),
        format is Aiff ==> write_outcome(audio, format, Codec::LPCM_I16_BE, by_codec),
    ensures
        by_default matches Ok(a) && by_codec matches Ok(b) && a@ == b@,
{
}

/// Writes `audio` as the bytes of a whole file in `format`, with `codec`.
///
/// An `Unsupported` error is returned if the format does not support the
/// codec.
pub fn write_as(audio: &AudioBuffer<i64>, format: AudioFormat, codec: Codec) -> (r: AudioResult<Vec<u8>>)
    requires
        write_requires(*audio, format, codec),
    ensures
        write_outcome(*audio, format, codec, r),
{
    let mut encoder = AudioEncoder::from_buffer(audio, codec);
    match format {
        AudioFormat::Wave => wave::write(&mut encoder),
        AudioFormat::Aiff => aiff::write(&mut encoder),
    }
}

/// The conditions under which written audio loads back unchanged: the
/// format records the channel count (16 bits for WAVE, a signed 16-bit
/// count for AIFF), and for AIFF the sizes fit the signed 32-bit sizes of
/// its chunks.
pub open spec fn round_trips(audio: AudioBuffer<i64>, format: AudioFormat, codec: Codec) -> bool {
    match format {
        AudioFormat::Wave => audio.channels <= 0xFFFF,
        AudioFormat::Aiff => {
            let n = audio.samples@.len() * sample_size(codec);
            &&& audio.channels <= 0x7FFF
            &&& n + 100 < 0x8000_0000
        },
    }
}

/// Audio that was written in a format with a codec loads back with the same
/// channels and sample rate, and with the samples that decoding their
/// encoding gives (`coded_samples`: for LPCM, the samples limited to the
/// range of the codec, so that samples in range come back unchanged), under
/// the conditions of `round_trips`.
pub proof fn lemma_write_load(
    audio: AudioBuffer<i64>,
    format: AudioFormat,
    codec: Codec,
    written: AudioResult<Vec<u8>>,
    r: AudioResult<AudioBuffer<i64>>,
)
    requires
        write_requires(audio, format, codec),
        round_trips(audio, format, codec),
        write_outcome(audio, format, codec, written),
        written matches Ok(bytes) && load_outcome(bytes@, format, r),
    ensures
        r matches Ok(a) && a.channels == audio.channels && a.sample_rate == audio.sample_rate
            && a.samples@ == coded_samples(audio.samples@, codec),
{
    match format {
        AudioFormat::Wave => wave::lemma_write_load(
            codec,
            audio.channels,
            audio.sample_rate,
            audio.samples@,
            written,
            r,
        ),
        AudioFormat::Aiff => aiff::lemma_write_load(
            codec,
            audio.channels,
            audio.sample_rate,
            audio.samples@,
            written,
            r,
        ),
    }
}

/// Writing the audio loaded from a file that writing audio produced, in the
/// same format with the same codec, reproduces the file byte for byte, under
/// the conditions of `round_trips`.
pub proof fn lemma_load_write(
    audio: AudioBuffer<i64>,
    format: AudioFormat,
    codec: Codec,
    written: AudioResult<Vec<u8>>,
    r: AudioResult<AudioBuffer<i64>>,
    rewritten: AudioResult<Vec<u8>>,
)
    requires
        write_requires(audio, format, codec),
        round_trips(audio, format, codec),
        write_outcome(audio, format, codec, written),
        written matches Ok(bytes) && load_outcome(bytes@, format, r),
        r matches Ok(a) ==> write_outcome(a, format, codec, rewritten),
    ensures
        written matches Ok(first) && rewritten matches Ok(second) && second@ == first@,
{
    lemma_write_load(audio, format, codec, written, r);
    crate::encoder::lemma_encode_coded(audio.samples@, codec);
}

} // verus!
