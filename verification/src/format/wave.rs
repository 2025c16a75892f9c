//! The Waveform Audio File Format
//!
//! WAVE files use the Resource Interchange File Format (RIFF), a generic
//! file container format that uses chunks to store data. All integers are
//! stored in little-endian format, but identifier bytes are in ASCII,
//! big-endian.
//!
//! References
//! - [McGill University](http://www-mmsp.ece.mcgill.ca/Documents/AudioFormats/WAVE/WAVE.html)
//! - [RIFF/WAVE format](http://www-mmsp.ece.mcgill.ca/Documents/AudioFormats/WAVE/Docs/riffmci.pdf)
//! - [ksmedia.h](http://www-mmsp.ece.mcgill.ca/documents/audioformats/wave/Docs/ksmedia.h)
use crate::byte_order::{
    be_bytes, be_value, le_bytes, le_value, lemma_be_bytes_len, lemma_be_round_trip,
    lemma_le_bytes_len, lemma_le_bytes_truncate, lemma_le_round_trip, lemma_le_value_bound,
    pow256, read_u16_le, read_u32_be, read_u32_le, write_u16_le, write_u32_be, write_u32_le,
};
use crate::codecs::{codec_name, sample_size, spec_bit_depth, Codec};
use crate::encoder::{coded_samples, encoded, lemma_decode_encoded, lemma_encoded_len, AudioEncoder};
use crate::buffer::AudioBuffer;
use crate::decoder::{decoded_samples, AudioDecoder};
use crate::error::{is_failure, AudioError, AudioResult, Failure};
use crate::format::{body_start, chunk_header, padded, padded_copy, tag_at, ChunkWalk};
use crate::traits::Chunk;
use vstd::prelude::*;
use vstd::slice::{slice_subrange, slice_to_vec};
use vstd::string::StringExecFns;

verus! {

/// WAVE chunk identifiers, read as big-endian numbers.
pub const RIFF: u32 = 0x5249_4646;

pub const WAVE: u32 = 0x5741_5645;

pub const FMT: u32 = 0x666D_7420;

pub const DATA: u32 = 0x6461_7461;

pub const FACT: u32 = 0x6661_6374;

/// Format tag for the wave extensible format. Unlike chunk identifiers, this
/// is read as little endian data since it is within the chunk.
pub const WAVE_FORMAT_EXTENSIBLE_TAG: u16 = 0xFFFE;

/// The WAVE chunks that audio decoding uses.
#[derive(Clone, Copy, Debug, PartialEq, Eq, Structural)]
pub enum WaveChunk {
    Format,
    Fact,
    Data,
}

/// Supported compression codes in the WAVE format chunk. These also
/// correspond to wave format tags.
#[derive(Clone, Copy, Debug, PartialEq, Eq, Structural)]
pub enum FormatTag {
    Unknown,
    Pcm,
    Float,
    ALaw,
    MuLaw,
}

/// The numeric value of a format tag.
pub open spec fn spec_format_tag_value(tag: FormatTag) -> u16 {
    match tag {
        FormatTag::Unknown => 0x0000,
        FormatTag::Pcm => 0x0001,
        FormatTag::Float => 0x0003,
        FormatTag::ALaw => 0x0006,
        FormatTag::MuLaw => 0x0007,
    }
}

/// The format tag of a numeric value; unknown values give `Unknown`.
pub open spec fn spec_format_tag(value: nat) -> FormatTag {
    if value == 0x0001 {
        FormatTag::Pcm
    } else if value == 0x0003 {
        FormatTag::Float
    } else if value == 0x0006 {
        FormatTag::ALaw
    } else if value == 0x0007 {
        FormatTag::MuLaw
    } else {
        FormatTag::Unknown
    }
}

impl FormatTag {
    /// The numeric value of the tag.
    pub fn value(&self) -> (r: u16)
        ensures
            r == spec_format_tag_value(*self),
    {
        match *self {
            FormatTag::Unknown => 0x0000,
            FormatTag::Pcm => 0x0001,
            FormatTag::Float => 0x0003,
            FormatTag::ALaw => 0x0006,
            FormatTag::MuLaw => 0x0007,
        }
    }
}

/// The WAVE Format Chunk.
///
/// This chunk provides most of the information required to decode the
/// sampled data.
///
/// The format chunk can be of three different sizes: 16, 18, and 40 bytes. If
/// the data is encoded as LPCM, then the chunk will be 16 bytes long. If the
/// data is encoded using any other codec, then the chunk will be 18 bytes
/// long. Non-LPCM data also requires the presence of a fact chunk within the
/// file. The extensible format requires the chunk to be 40 bytes long, and
/// moves the compression type information later in the chunk.
#[derive(Clone, Copy, Debug, PartialEq, Eq, Structural)]
pub struct FormatChunk {
    pub format_tag: FormatTag,
    pub num_channels: u16,
    pub sample_rate: u32,
    pub data_rate: u32,
    pub block_size: u16,
    pub bit_depth: u16,
}

/// The little-endian number of the two bytes at `at`.
pub open spec fn u16_at(s: Seq<u8>, at: int) -> nat {
    le_value(s.subrange(at, at + 2))
}

/// The little-endian number of the four bytes at `at`.
pub open spec fn u32_at(s: Seq<u8>, at: int) -> nat {
    le_value(s.subrange(at, at + 4))
}

/// The format chunk whose body is `s`, or `None` when `s` is too short.
pub open spec fn parse_format_chunk(s: Seq<u8>) -> Option<FormatChunk> {
    if s.len() < 16 || (u16_at(s, 0) == 0xFFFE && s.len() < 26) {
        None
    } else {
        let value = if u16_at(s, 0) == 0xFFFE {
            u16_at(s, 24)
        } else {
            u16_at(s, 0)
        };
        Some(
            FormatChunk {
                format_tag: spec_format_tag(value),
                num_channels: u16_at(s, 2) as u16,
                sample_rate: u32_at(s, 4) as u32,
                data_rate: u32_at(s, 8) as u32,
                block_size: u16_at(s, 12) as u16,
                bit_depth: u16_at(s, 14) as u16,
            },
        )
    }
}

impl Chunk for FormatChunk {
    /// Decodes the format chunk from the bytes of its body.
    ///
    /// Returns `AudioEnd` when the body is too short for the fields it
    /// announces.
    fn read(buffer: &[u8]) -> (r: AudioResult<FormatChunk>)
        ensures
            match parse_format_chunk(buffer@) {
                Some(chunk) => r == Ok::<FormatChunk, AudioError>(chunk),
                None => r matches Err(AudioError::AudioEnd),
            },
    {
        if buffer.len() < 16 {
            return Err(AudioError::AudioEnd);
        }
        let mut format_value: u16 = read_u16_le(buffer, 0);
        if format_value == WAVE_FORMAT_EXTENSIBLE_TAG {
            if buffer.len() < 26 {
                return Err(AudioError::AudioEnd);
            }
            format_value = read_u16_le(buffer, 24);
        }
        let format_tag = match format_value {
            0x0001 => FormatTag::Pcm,
            0x0003 => FormatTag::Float,
            0x0006 => FormatTag::ALaw,
            0x0007 => FormatTag::MuLaw,
            _ => FormatTag::Unknown,
        };
        Ok(
            FormatChunk {
                format_tag: format_tag,
                num_channels: read_u16_le(buffer, 2),
                sample_rate: read_u32_le(buffer, 4),
                data_rate: read_u32_le(buffer, 8),
                block_size: read_u16_le(buffer, 12),
                bit_depth: read_u16_le(buffer, 14),
            },
        )
    }
}

/// The codec of audio with the given format tag and bit depth, if supported.
pub open spec fn spec_determine_codec(format_tag: FormatTag, bit_depth: u16) -> Option<Codec> {
    match (format_tag, bit_depth) {
        (FormatTag::Pcm, 8) => Some(Codec::LPCM_U8),
        (FormatTag::Pcm, 16) => Some(Codec::LPCM_I16_LE),
        (FormatTag::Pcm, 24) => Some(Codec::LPCM_I24_LE),
        (FormatTag::Pcm, 32) => Some(Codec::LPCM_I32_LE),
        (FormatTag::ALaw, 8) => Some(Codec::G711_ALAW),
        (FormatTag::MuLaw, 8) => Some(Codec::G711_ULAW),
        (FormatTag::Float, 32) => Some(Codec::LPCM_F32_LE),
        (FormatTag::Float, 64) => Some(Codec::LPCM_F64_LE),
        _ => None,
    }
}

/// Returns the `Codec` used by the read audio attributes.
pub fn determine_codec(format_tag: FormatTag, bit_depth: u16) -> (r: AudioResult<Codec>)
    ensures
        match spec_determine_codec(format_tag, bit_depth) {
            Some(c) => r == Ok::<Codec, AudioError>(c),
            None => r matches Err(AudioError::Unsupported(message)) && message@
                == "Audio encoded with unsupported codec"@,
        },
{
    match (format_tag, bit_depth) {
        (FormatTag::Pcm, 8) => Ok(Codec::LPCM_U8),
        (FormatTag::Pcm, 16) => Ok(Codec::LPCM_I16_LE),
        (FormatTag::Pcm, 24) => Ok(Codec::LPCM_I24_LE),
        (FormatTag::Pcm, 32) => Ok(Codec::LPCM_I32_LE),
        (FormatTag::ALaw, 8) => Ok(Codec::G711_ALAW),
        (FormatTag::MuLaw, 8) => Ok(Codec::G711_ULAW),
        (FormatTag::Float, 32) => Ok(Codec::LPCM_F32_LE),
        (FormatTag::Float, 64) => Ok(Codec::LPCM_F64_LE),
        (_, _) => Err(
            AudioError::Unsupported(String::from_str("Audio encoded with unsupported codec")),
        ),
    }
}

/// The chunk with the given identifier, if audio decoding uses it.
pub open spec fn spec_identify_chunk(id: nat) -> Option<WaveChunk> {
    if id == FMT {
        Some(WaveChunk::Format)
    } else if id == FACT {
        Some(WaveChunk::Fact)
    } else if id == DATA {
        Some(WaveChunk::Data)
    } else {
        None
    }
}

/// Identifies a chunk by its identifier.
pub fn identify_chunk(id: u32) -> (r: Option<WaveChunk>)
    ensures
        r == spec_identify_chunk(id as nat),
{
    if id == FMT {
        Some(WaveChunk::Format)
    } else if id == FACT {
        Some(WaveChunk::Fact)
    } else if id == DATA {
        Some(WaveChunk::Data)
    } else {
        None
    }
}

/// Whether the first 12 bytes are a RIFF header of a WAVE file.
pub open spec fn is_riff_header(header: Seq<u8>) -> bool {
    tag_at(header, 0) == RIFF && tag_at(header, 8) == WAVE
}

/// The RIFF header does not announce a size below the four bytes of the
/// form type that it counts.
pub open spec fn riff_size_ok(header: Seq<u8>) -> bool {
    is_riff_header(header) ==> u32_at(header, 4) >= 4
}

/// Validates the 12-byte RIFF header and returns the number of bytes of
/// chunks that follow it.
pub fn read_riff_header(header: &[u8]) -> (r: AudioResult<u32>)
    requires
        header.len() >= 12,
        riff_size_ok(header@),
    ensures
        is_riff_header(header@) ==> r == Ok::<u32, AudioError>((u32_at(header@, 4) - 4) as u32),
        !is_riff_header(header@) ==> (r matches Err(AudioError::Format(message)) && message@
            == "Not valid WAVE"@),
{
    if read_u32_be(header, 0) != RIFF || read_u32_be(header, 8) != WAVE {
        return Err(AudioError::Format(String::from_str("Not valid WAVE")));
    }
    let file_size = read_u32_le(header, 4) - 4;
    Ok(file_size)
}

/// The walk through the chunks of a WAVE buffer from the chunk at `pos`,
/// given the format chunk read so far and whether the fact requirement is
/// met. Chunks other than the format, fact and data chunks are skipped; the
/// walk ends at the data chunk. Running past the end of the buffer is a
/// failure.
#[verifier::opaque]
pub open spec fn wave_walk(
    buf: Seq<u8>,
    pos: int,
    format: Option<(FormatChunk, Codec)>,
    fact: bool,
) -> ChunkWalk<FormatChunk>
    decreases buf.len() - pos,
{
    if pos < 0 || pos >= buf.len() {
        ChunkWalk::Failed(Failure::End)
    } else {
        let header = chunk_header(buf, pos);
        let id = tag_at(header, 0);
        let size = u32_at(header, 4) as int;
        let after = body_start(buf, pos);
        let next = after + size;
        if next > buf.len() {
            if id == DATA && format is None {
                ChunkWalk::Failed(Failure::Format)
            } else {
                ChunkWalk::Failed(Failure::End)
            }
        } else if id == FMT {
            match parse_format_chunk(buf.subrange(after, next)) {
                None => ChunkWalk::Failed(Failure::End),
                Some(chunk) => match spec_determine_codec(chunk.format_tag, chunk.bit_depth) {
                    None => ChunkWalk::Failed(Failure::Unsupported),
                    Some(c) => wave_walk(
                        buf,
                        next,
                        Some((chunk, c)),
                        fact || chunk.format_tag == FormatTag::Pcm,
                    ),
                },
            }
        } else if id == DATA {
            match format {
                None => ChunkWalk::Failed(Failure::Format),
                Some((chunk, c)) => if fact {
                    ChunkWalk::Found { format: chunk, codec: c, start: after as nat, len: size as nat }
                } else {
                    ChunkWalk::Failed(Failure::Format)
                },
            }
        } else {
            wave_walk(buf, next, format, fact || id == FACT)
        }
    }
}

/// Whether decoding `buf` as the chunks of a WAVE file gives `r`.
#[verifier::opaque]
pub open spec fn walk_result(walk: ChunkWalk<FormatChunk>, buf: Seq<u8>, r: AudioResult<AudioDecoder>) -> bool {
    match walk {
        ChunkWalk::Found { format, codec, start, len } => match r {
            Ok(d) => {
                &&& d.codec == Some(codec)
                &&& d.bit_depth == format.bit_depth as u32
                &&& d.sample_rate == format.sample_rate
                &&& d.channels == format.num_channels as u32
                &&& d.data@ == buf.subrange(start as int, (start + len) as int)
                &&& d.index == 0
            },
            Err(_) => false,
        },
        ChunkWalk::Failed(f) => match r {
            Ok(_) => false,
            Err(e) => is_failure(e, f),
        },
    }
}

/// Reads the identifier and size of the chunk at `pos`, and where its body
/// starts.
fn read_chunk_header(buffer: &[u8], pos: usize) -> (r: (u32, u32, usize))
    requires
        pos < buffer.len(),
    ensures
        r.0 == tag_at(chunk_header(buffer@, pos as int), 0),
        r.1 == u32_at(chunk_header(buffer@, pos as int), 4),
        r.2 == body_start(buffer@, pos as int),
{
    if buffer.len() - pos >= 8 {
        proof {
            let h = chunk_header(buffer@, pos as int);
            assert(h.subrange(0, 4) =~= buffer@.subrange(pos as int, pos + 4));
            assert(h.subrange(4, 8) =~= buffer@.subrange(pos + 4, pos + 8));
        }
        (read_u32_be(buffer, pos), read_u32_le(buffer, pos + 4), pos + 8)
    } else {
        let header = padded_copy(buffer, pos, 8);
        proof {
            let h = chunk_header(buffer@, pos as int);
            assert(header@.subrange(0, 4) =~= h.subrange(0, 4));
            assert(header@.subrange(4, 8) =~= h.subrange(4, 8));
        }
        (read_u32_be(header.as_slice(), 0), read_u32_le(header.as_slice(), 4), buffer.len())
    }
}

/// Walks through the chunks of a WAVE buffer, the bytes after the RIFF
/// header, to find the required chunks for audio decoding; all other chunks
/// are ignored and skipped.
///
/// Fails with `AudioEnd` when the walk runs past the end of the buffer, with
/// `Format` when the data chunk comes before the format chunk or a fact chunk
/// required by non-PCM data is missing, and with `Unsupported` for an
/// unsupported codec.
pub fn read_chunks_for_audio(buffer: &[u8]) -> (r: AudioResult<AudioDecoder>)
    ensures
        walk_result(wave_walk(buffer@, 0, None, false), buffer@, r),
{
    reveal(walk_result);
    let mut format: Option<(FormatChunk, Codec)> = None;
    let mut read_fact_chunk = false;
    let mut pos: usize = 0;
    loop
        invariant
            pos <= buffer.len(),
            wave_walk(buffer@, 0, None, false) == wave_walk(buffer@, pos as int, format, read_fact_chunk),
        decreases buffer.len() - pos,
    {
        reveal(walk_result);
        reveal(wave_walk);
        if pos >= buffer.len() {
            return Err(AudioError::AudioEnd);
        }
        let (id, size, after) = read_chunk_header(buffer, pos);
        let chunk = identify_chunk(id);
        let remaining = buffer.len() - after;
        if size as usize > remaining {
            if chunk == Some(WaveChunk::Data) && format.is_none() {
                return Err(
                    AudioError::Format(
                        String::from_str(
                            "File is not valid WAVE (Format chunk does not occur before Data chunk)",
                        ),
                    ),
                );
            }
            return Err(AudioError::AudioEnd);
        }
        let next = after + size as usize;
        match chunk {
            Some(WaveChunk::Format) => {
                let bytes = slice_subrange(buffer, after, next);
                let chunk = match FormatChunk::read(bytes) {
                    Ok(c) => c,
                    Err(e) => return Err(e),
                };
                let codec = match determine_codec(chunk.format_tag, chunk.bit_depth) {
                    Ok(c) => c,
                    Err(e) => return Err(e),
                };
                if chunk.format_tag == FormatTag::Pcm {
                    // Don't need to check for Fact chunk
                    read_fact_chunk = true;
                }
                format = Some((chunk, codec));
            },
            Some(WaveChunk::Fact) => {
                read_fact_chunk = true;
            },
            Some(WaveChunk::Data) => {
                match format {
                    None => {
                        return Err(
                            AudioError::Format(
                                String::from_str(
                                    "File is not valid WAVE (Format chunk does not occur before Data chunk)",
                                ),
                            ),
                        );
                    },
                    Some((chunk, codec)) => {
                        if !read_fact_chunk {
                            return Err(
                                AudioError::Format(
                                    String::from_str(
                                        "File is not valid WAVE (Missing Fact chunk for non-PCM data)",
                                    ),
                                ),
                            );
                        }
                        let data = slice_to_vec(slice_subrange(buffer, after, next));
                        return Ok(
                            AudioDecoder::with_data(
                                Some(codec),
                                chunk.bit_depth as u32,
                                chunk.sample_rate,
                                chunk.num_channels as u32,
                                data,
                            ),
                        );
                    },
                }
            },
            None => {},
        }
        pos = next;
    }
}

/// Whether reading the whole WAVE file `bytes` gives `r`: the chunks after
/// a valid RIFF header are walked; anything else is a `Format` error.
pub open spec fn read_outcome(bytes: Seq<u8>, r: AudioResult<AudioDecoder>) -> bool {
    let header = padded(bytes, 0, 12);
    if is_riff_header(header) {
        let buffer = padded(bytes, 12, (u32_at(header, 4) - 4) as nat);
        walk_result(wave_walk(buffer, 0, None, false), buffer, r)
    } else {
        r matches Err(AudioError::Format(message)) && message@ == "Not valid WAVE"@
    }
}

/// Reads the chunks of a whole WAVE file for audio decoding.
///
/// As when reading a file, the header takes the first 12 bytes and the
/// chunks the number of bytes that the header announces, with zeros past the
/// end of `bytes`.
pub fn read(bytes: &[u8]) -> (r: AudioResult<AudioDecoder>)
    requires
        riff_size_ok(padded(bytes@, 0, 12)),
    ensures
        read_outcome(bytes@, r),
{
    let header = padded_copy(bytes, 0, 12);
    let hs = header.as_slice();
    assert(hs@ == padded(bytes@, 0, 12));
    let file_size = match read_riff_header(hs) {
        Ok(size) => size,
        Err(e) => return Err(e),
    };
    assert(is_riff_header(hs@));
    let buffer = padded_copy(bytes, 12, file_size as usize);
    let ghost n = (u32_at(hs@, 4) - 4) as nat;
    proof {
        lemma_le_value_bound(hs@.subrange(4, 8));
        reveal_with_fuel(pow256, 5);
    }
    assert(file_size as nat == n);
    assert(buffer@ == padded(bytes@, 12, n));
    let bs = buffer.as_slice();
    let r = read_chunks_for_audio(bs);
    assert(walk_result(wave_walk(bs@, 0, None, false), bs@, r));
    assert(bs@ == padded(bytes@, 12, n));
    r
}

/// The variants of the format chunk.
#[derive(Clone, Copy, Debug, PartialEq, Eq, Structural)]
pub enum FormatChunkVariant {
    WaveFormatPcm,
    WaveFormatNonPcm,
    WaveFormatExtensible,
}

/// The size of the body of each variant of the format chunk.
pub open spec fn spec_variant_size(variant: FormatChunkVariant) -> u32 {
    match variant {
        FormatChunkVariant::WaveFormatPcm => 16,
        FormatChunkVariant::WaveFormatNonPcm => 18,
        FormatChunkVariant::WaveFormatExtensible => 40,
    }
}

impl FormatChunkVariant {
    /// The size of the body of the chunk.
    pub fn size(&self) -> (r: u32)
        ensures
            r == spec_variant_size(*self),
    {
        match *self {
            FormatChunkVariant::WaveFormatPcm => 16,
            FormatChunkVariant::WaveFormatNonPcm => 18,
            FormatChunkVariant::WaveFormatExtensible => 40,
        }
    }
}

/// The variant of the format chunk for audio with `channels` channels
/// encoded with `codec`: extensible for more than two channels, otherwise
/// the PCM variant for integer LPCM and the non-PCM variant for the rest.
pub open spec fn spec_determine_variant(channels: u32, codec: Codec) -> FormatChunkVariant {
    if channels > 2 {
        FormatChunkVariant::WaveFormatExtensible
    } else {
        match codec {
            Codec::LPCM_U8 | Codec::LPCM_I16_LE | Codec::LPCM_I24_LE | Codec::LPCM_I32_LE => FormatChunkVariant::WaveFormatPcm,
            _ => FormatChunkVariant::WaveFormatNonPcm,
        }
    }
}

/// The format tag that WAVE records for a codec, if WAVE supports it.
pub open spec fn spec_determine_format_tag(codec: Codec) -> Option<FormatTag> {
    match codec {
        Codec::LPCM_U8 | Codec::LPCM_I16_LE | Codec::LPCM_I24_LE | Codec::LPCM_I32_LE => Some(FormatTag::Pcm),
        Codec::G711_ALAW => Some(FormatTag::ALaw),
        Codec::G711_ULAW => Some(FormatTag::MuLaw),
        Codec::LPCM_F32_LE | Codec::LPCM_F64_LE => Some(FormatTag::Float),
        _ => None,
    }
}

/// Whether a WAVE file with data of `codec` must include a fact chunk.
pub open spec fn needs_fact_chunk(codec: Codec) -> bool {
    match codec {
        Codec::G711_ALAW | Codec::G711_ULAW | Codec::LPCM_F32_LE | Codec::LPCM_F64_LE => true,
        _ => false,
    }
}

/// The message of the error that WAVE gives for a codec it does not
/// support.
pub open spec fn unsupported_message(codec: Codec) -> Seq<char> {
    "Wave does not support the "@ + codec_name(codec) + " codec"@
}

/// The error that WAVE gives for a codec it does not support.
fn unsupported_codec(codec: Codec) -> (r: AudioError)
    ensures
        r matches AudioError::Unsupported(message) && message@ == unsupported_message(codec),
{
    let mut message = String::from_str("Wave does not support the ");
    let name = codec.to_string();
    message.append(name.as_str());
    message.append(" codec");
    AudioError::Unsupported(message)
}

/// Determines if the codec is supported by the container and if its data is
/// non-PCM, which requires a fact chunk.
pub fn is_supported(codec: Codec) -> (r: AudioResult<bool>)
    ensures
        spec_determine_format_tag(codec) is Some ==> r == Ok::<bool, AudioError>(
            needs_fact_chunk(codec),
        ),
        spec_determine_format_tag(codec) is None ==> (r matches Err(
            AudioError::Unsupported(message),
        ) && message@ == unsupported_message(codec)),
{
    match codec {
        Codec::LPCM_U8 | Codec::LPCM_I16_LE | Codec::LPCM_I24_LE | Codec::LPCM_I32_LE => Ok(false),
        Codec::G711_ALAW | Codec::G711_ULAW | Codec::LPCM_F32_LE | Codec::LPCM_F64_LE => Ok(true),
        c => Err(unsupported_codec(c)),
    }
}

/// Returns the format tag that WAVE records for a codec.
pub fn determine_format_tag(codec: Codec) -> (r: AudioResult<FormatTag>)
    ensures
        match spec_determine_format_tag(codec) {
            Some(tag) => r == Ok::<FormatTag, AudioError>(tag),
            None => r matches Err(AudioError::Unsupported(message)) && message@
                == unsupported_message(codec),
        },
{
    match codec {
        Codec::LPCM_U8 | Codec::LPCM_I16_LE | Codec::LPCM_I24_LE | Codec::LPCM_I32_LE => Ok(FormatTag::Pcm),
        Codec::G711_ALAW => Ok(FormatTag::ALaw),
        Codec::G711_ULAW => Ok(FormatTag::MuLaw),
        Codec::LPCM_F32_LE | Codec::LPCM_F64_LE => Ok(FormatTag::Float),
        c => Err(unsupported_codec(c)),
    }
}

/// GUID suffix for the extensible format. All GUIDs are simply the file's
/// format tag followed by this suffix.
pub open spec fn guid_suffix() -> Seq<u8> {
    seq![0x00u8, 0x00, 0x00, 0x00, 0x10, 0x00, 0x80, 0x00, 0x00, 0xAA, 0x00, 0x38, 0x9B, 0x71]
}

fn write_guid_suffix(out: &mut Vec<u8>)
    ensures
        final(out)@ == old(out)@ + guid_suffix(),
{
    let suffix: [u8; 14] = [
        0x00, 0x00, 0x00, 0x00, 0x10, 0x00, 0x80, 0x00, 0x00, 0xAA, 0x00, 0x38, 0x9B, 0x71,
    ];
    out.extend_from_slice(&suffix);
    assert(final(out)@ =~= old(out)@ + guid_suffix());
}

/// The speaker position mask that the extensible format records.
pub open spec fn speaker_mask(channels: u32) -> u32 {
    if channels == 1 {
        0x4
    } else if channels == 2 {
        0x3
    } else {
        0x0
    }
}

/// The fields of the format chunk that every variant records: channels,
/// sample rate, data rate, block size and bit depth.
pub open spec fn format_common_bytes(channels: u32, sample_rate: u32, bit_depth: u32) -> Seq<u8> {
    le_bytes(channels as int, 2) + le_bytes(sample_rate as int, 4) + le_bytes(
        sample_rate * channels * bit_depth / 8,
        4,
    ) + le_bytes(channels * bit_depth / 8, 2) + le_bytes(bit_depth as int, 2)
}

/// The bytes of the body of a format chunk, after its format tag and the
/// common fields.
pub open spec fn format_extra_bytes(
    variant: FormatChunkVariant,
    format_tag: FormatTag,
    channels: u32,
    bit_depth: u32,
) -> Seq<u8> {
    match variant {
        FormatChunkVariant::WaveFormatPcm => Seq::empty(),
        FormatChunkVariant::WaveFormatNonPcm => le_bytes(0, 2),
        FormatChunkVariant::WaveFormatExtensible => le_bytes(22, 2) + le_bytes(bit_depth as int, 2)
            + le_bytes(speaker_mask(channels) as int, 4) + le_bytes(
            spec_format_tag_value(format_tag) as int,
            2,
        ) + guid_suffix(),
    }
}

/// The format tag value that the head of each variant of the format chunk
/// records.
pub open spec fn variant_tag_value(variant: FormatChunkVariant, format_tag: FormatTag) -> u16 {
    match variant {
        FormatChunkVariant::WaveFormatPcm => 1,
        FormatChunkVariant::WaveFormatNonPcm => spec_format_tag_value(format_tag),
        FormatChunkVariant::WaveFormatExtensible => 0xFFFE,
    }
}

/// The bytes of a format chunk, header included, for audio with the given
/// attributes encoded with a codec of the given format tag.
pub open spec fn format_chunk_bytes(
    variant: FormatChunkVariant,
    format_tag: FormatTag,
    channels: u32,
    sample_rate: u32,
    bit_depth: u32,
) -> Seq<u8> {
    be_bytes(FMT as int, 4) + le_bytes(spec_variant_size(variant) as int, 4) + le_bytes(
        variant_tag_value(variant, format_tag) as int,
        2,
    ) + format_common_bytes(channels, sample_rate, bit_depth) + format_extra_bytes(
        variant,
        format_tag,
        channels,
        bit_depth,
    )
}

/// Writes the fields of the format chunk that every variant records.
fn write_format_common(out: &mut Vec<u8>, channels: u32, sample_rate: u32, bit_depth: u32)
    requires
        format_fields_fit(channels, sample_rate, bit_depth),
    ensures
        final(out)@ == old(out)@ + format_common_bytes(channels, sample_rate, bit_depth),
{
    write_u16_le(out, (channels % 0x1_0000) as u16);
    write_u32_le(out, sample_rate);
    write_u32_le(out, sample_rate * channels * bit_depth / 8);
    write_u16_le(out, ((channels * bit_depth / 8) % 0x1_0000) as u16);
    write_u16_le(out, (bit_depth % 0x1_0000) as u16);
    proof {
        assert(pow256(2) == 0x1_0000) by {
            reveal_with_fuel(pow256, 3);
        }
        lemma_le_bytes_truncate(channels as int, 2);
        lemma_le_bytes_truncate((channels * bit_depth / 8) as int, 2);
        lemma_le_bytes_truncate(bit_depth as int, 2);
    }
    assert(final(out)@ =~= old(out)@ + format_common_bytes(channels, sample_rate, bit_depth));
}

/// Writes the fields of the format chunk that follow the common ones.
fn write_format_extra(
    out: &mut Vec<u8>,
    variant: FormatChunkVariant,
    format_tag: FormatTag,
    channels: u32,
    bit_depth: u32,
)
    ensures
        final(out)@ == old(out)@ + format_extra_bytes(variant, format_tag, channels, bit_depth),
{
    match variant {
        FormatChunkVariant::WaveFormatPcm => {
            assert(final(out)@ =~= old(out)@ + format_extra_bytes(
                variant,
                format_tag,
                channels,
                bit_depth,
            ));
        },
        FormatChunkVariant::WaveFormatNonPcm => {
            write_u16_le(out, 0);
        },
        FormatChunkVariant::WaveFormatExtensible => {
            write_u16_le(out, 22);
            // Note this is supposed to be the actual bit depth of the data,
            // not the container size of the encoded data.
            write_u16_le(out, (bit_depth % 0x1_0000) as u16);
            // Speaker position mask
            let mask: u32 = if channels == 1 {
                0x4
            } else if channels == 2 {
                // front left and front right
                0x3
            } else {
                0x0
            };
            write_u32_le(out, mask);
            // GUID
            write_u16_le(out, format_tag.value());
            write_guid_suffix(out);
            proof {
                assert(pow256(2) == 0x1_0000) by {
                    reveal_with_fuel(pow256, 3);
                }
                lemma_le_bytes_truncate(bit_depth as int, 2);
            }
            assert(final(out)@ =~= old(out)@ + format_extra_bytes(
                variant,
                format_tag,
                channels,
                bit_depth,
            ));
        },
    }
}

/// The products that the format chunk records fit in 32 bits.
pub open spec fn format_fields_fit(channels: u32, sample_rate: u32, bit_depth: u32) -> bool {
    &&& channels * bit_depth <= u32::MAX
    &&& sample_rate * channels <= u32::MAX
    &&& sample_rate * channels * bit_depth <= u32::MAX
}

impl FormatChunk {
    /// Determines which variant of the format chunk records audio with
    /// `codec`.
    pub fn determine_variant(encoder: &AudioEncoder, codec: Codec) -> (r: FormatChunkVariant)
        ensures
            r == spec_determine_variant(encoder.channels, codec),
    {
        if encoder.channels > 2 {
            FormatChunkVariant::WaveFormatExtensible
        } else {
            match codec {
                Codec::LPCM_U8 | Codec::LPCM_I16_LE | Codec::LPCM_I24_LE | Codec::LPCM_I32_LE => FormatChunkVariant::WaveFormatPcm,
                _ => FormatChunkVariant::WaveFormatNonPcm,
            }
        }
    }

    /// The size of the body of the format chunk that records audio with
    /// `codec`.
    pub fn calculate_size(encoder: &AudioEncoder, codec: Codec) -> (r: u32)
        ensures
            r == spec_variant_size(spec_determine_variant(encoder.channels, codec)),
    {
        FormatChunk::determine_variant(encoder, codec).size()
    }

    /// Writes the format chunk, header included, for the encoder's audio
    /// encoded with `codec`.
    pub fn write(out: &mut Vec<u8>, encoder: &AudioEncoder, codec: Codec) -> (r: AudioResult<()>)
        requires
            format_fields_fit(encoder.channels, encoder.sample_rate, encoder.bit_depth),
        ensures
            match spec_determine_format_tag(codec) {
                Some(tag) => r is Ok && final(out)@ == old(out)@ + format_chunk_bytes(
                    spec_determine_variant(encoder.channels, codec),
                    tag,
                    encoder.channels,
                    encoder.sample_rate,
                    encoder.bit_depth,
                ),
                None => r matches Err(AudioError::Unsupported(message)) && message@
                    == unsupported_message(codec),
            },
    {
        let format_tag = match determine_format_tag(codec) {
            Ok(t) => t,
            Err(e) => return Err(e),
        };
        let ghost start = out@;
        let variant = FormatChunk::determine_variant(encoder, codec);
        write_u32_be(out, FMT);
        write_u32_le(out, variant.size());
        let tag_value: u16 = match variant {
            FormatChunkVariant::WaveFormatPcm => FormatTag::Pcm.value(),
            FormatChunkVariant::WaveFormatNonPcm => format_tag.value(),
            FormatChunkVariant::WaveFormatExtensible => WAVE_FORMAT_EXTENSIBLE_TAG,
        };
        write_u16_le(out, tag_value);
        write_format_common(out, encoder.channels, encoder.sample_rate, encoder.bit_depth);
        write_format_extra(out, variant, format_tag, encoder.channels, encoder.bit_depth);
        assert(final(out)@ =~= start + format_chunk_bytes(
            variant,
            format_tag,
            encoder.channels,
            encoder.sample_rate,
            encoder.bit_depth,
        ));
        Ok(())
    }
}

/// The bytes of the fact chunk for `num_samples` samples over `channels`
/// channels.
pub open spec fn fact_chunk_bytes(num_samples: nat, channels: u32) -> Seq<u8> {
    be_bytes(FACT as int, 4) + le_bytes(4, 4) + le_bytes(
        ((num_samples % 0x1_0000_0000) / (channels as nat)) as int,
        4,
    )
}

/// The fact chunk, which records the number of frames of non-PCM data.
pub struct FactChunk;

impl FactChunk {
    /// Writes the fact chunk, header included, for the encoder's audio.
    pub fn write(out: &mut Vec<u8>, encoder: &AudioEncoder) -> (r: AudioResult<()>)
        requires
            encoder.channels > 0,
        ensures
            r is Ok,
            final(out)@ == old(out)@ + fact_chunk_bytes(encoder.samples@.len(), encoder.channels),
            ({
                let f = le_value(final(out)@.subrange(old(out)@.len() + 8int, old(out)@.len() + 12int));
                f * encoder.channels <= encoder.samples@.len() % 0x1_0000_0000 < (f + 1)
                    * encoder.channels
            }),
    {
        write_u32_be(out, FACT);
        write_u32_le(out, 4);
        let num_samples = (encoder.samples.len() as u64 % 0x1_0000_0000) as u32;
        write_u32_le(out, num_samples / encoder.channels);
        proof {
            let b = fact_chunk_bytes(encoder.samples@.len(), encoder.channels);
            lemma_fact_chunk_frames(encoder.samples@.len(), encoder.channels);
            let k = old(out)@.len() as int;
            assert(final(out)@.subrange(k + 8, k + 12) =~= b.subrange(8, 12));
        }
        Ok(())
    }
}

/// The bytes of the data chunk that holds `data`.
pub open spec fn data_chunk_bytes(data: Seq<u8>) -> Seq<u8> {
    be_bytes(DATA as int, 4) + le_bytes(data.len() as int, 4) + data
}

/// The data chunk, which holds the encoded audio data.
pub struct DataChunk;

impl DataChunk {
    /// Writes the data chunk, header included, holding `data`.
    pub fn write(out: &mut Vec<u8>, data: &[u8]) -> (r: AudioResult<()>)
        requires
            data.len() <= u32::MAX,
        ensures
            r is Ok,
            final(out)@ == old(out)@ + data_chunk_bytes(data@),
    {
        write_u32_be(out, DATA);
        write_u32_le(out, data.len() as u32);
        out.extend_from_slice(data);
        assert(final(out)@ =~= old(out)@ + data_chunk_bytes(data@));
        Ok(())
    }
}

/// The bytes of a WAVE file with the given attributes and encoded data.
pub open spec fn wave_file_bytes(
    codec: Codec,
    format_tag: FormatTag,
    channels: u32,
    sample_rate: u32,
    bit_depth: u32,
    num_samples: nat,
    data: Seq<u8>,
) -> Seq<u8> {
    let variant = spec_determine_variant(channels, codec);
    let fact = if needs_fact_chunk(codec) {
        fact_chunk_bytes(num_samples, channels)
    } else {
        Seq::empty()
    };
    let total = 12 + (8 + spec_variant_size(variant)) + (8 + data.len()) + if needs_fact_chunk(
        codec,
    ) {
        12int
    } else {
        0int
    };
    be_bytes(RIFF as int, 4) + le_bytes(total - 8, 4) + be_bytes(WAVE as int, 4)
        + format_chunk_bytes(variant, format_tag, channels, sample_rate, bit_depth) + fact
        + data_chunk_bytes(data)
}

/// What `write` requires of an encoder (see `write_fits`).
pub open spec fn wave_encoder_ok(encoder: AudioEncoder) -> bool {
    write_fits(
        encoder.codec,
        encoder.channels,
        encoder.sample_rate,
        encoder.bit_depth,
        encoder.samples@.len(),
    )
}

/// What writing audio with the given attributes requires: the sizes and
/// products that the file records fit in 32 bits, and frames can be counted
/// for a fact chunk. Only a codec that WAVE supports gets this far.
pub open spec fn write_fits(
    codec: Codec,
    channels: u32,
    sample_rate: u32,
    bit_depth: u32,
    num_samples: nat,
) -> bool {
    spec_determine_format_tag(codec) is Some ==> {
        &&& format_fields_fit(channels, sample_rate, bit_depth)
        &&& num_samples * sample_size(codec) <= u32::MAX - 80
        &&& needs_fact_chunk(codec) ==> channels > 0
    }
}

/// Whether writing `samples` as a WAVE file with the given attributes gives
/// `r`: the file's bytes for a codec that WAVE supports, an `Unsupported`
/// error otherwise.
pub open spec fn write_outcome(
    codec: Codec,
    channels: u32,
    sample_rate: u32,
    bit_depth: u32,
    samples: Seq<i64>,
    r: AudioResult<Vec<u8>>,
) -> bool {
    match spec_determine_format_tag(codec) {
        Some(tag) => r matches Ok(bytes) && bytes@ == wave_file_bytes(
            codec,
            tag,
            channels,
            sample_rate,
            bit_depth,
            samples.len(),
            encoded(samples, codec),
        ),
        None => r matches Err(AudioError::Unsupported(message)) && message@
            == unsupported_message(codec),
    }
}

/// Writes the encoder's audio as a WAVE file.
///
/// Returns an `Unsupported` error when WAVE does not support the codec.
pub fn write(encoder: &mut AudioEncoder) -> (r: AudioResult<Vec<u8>>)
    requires
        wave_encoder_ok(*old(encoder)),
    ensures
        *final(encoder) == *old(encoder),
        write_outcome(
            old(encoder).codec,
            old(encoder).channels,
            old(encoder).sample_rate,
            old(encoder).bit_depth,
            old(encoder).samples@,
            r,
        ),
{
    // Determine if codec is supported by container and if data is non-PCM.
    let data_non_pcm = match is_supported(encoder.codec) {
        Ok(b) => b,
        Err(e) => return Err(e),
    };
    // Encode audio samples using codec.
    let data = match encoder.encode() {
        Ok(d) => d,
        Err(e) => return Err(e),
    };
    proof {
        lemma_encoded_len(encoder.samples@, encoder.codec);
    }
    let fmt_chunk_size = FormatChunk::calculate_size(encoder, encoder.codec);
    let mut total_bytes: u32 = 12 + (8 + fmt_chunk_size) + (8 + data.len() as u32);
    // Files encoded with non-PCM data must include a fact chunk.
    if data_non_pcm {
        total_bytes = total_bytes + 12;
    }
    let mut out: Vec<u8> = Vec::new();
    // Write the riff header.
    write_u32_be(&mut out, RIFF);
    write_u32_le(&mut out, total_bytes - 8);
    write_u32_be(&mut out, WAVE);
    // Write fmt chunk.
    match FormatChunk::write(&mut out, encoder, encoder.codec) {
        Ok(()) => {},
        Err(e) => return Err(e),
    }
    // Write fact chunk if data is non-PCM.
    if data_non_pcm {
        match FactChunk::write(&mut out, encoder) {
            Ok(()) => {},
            Err(e) => return Err(e),
        }
    }
    // Write data chunk.
    match DataChunk::write(&mut out, data.as_slice()) {
        Ok(()) => {},
        Err(e) => return Err(e),
    }
    Ok(out)
}

/// The identifier and size that the header of a written chunk gives back.
proof fn lemma_written_header(id: u32, size: int, body: Seq<u8>)
    requires
        0 <= size < 0x1_0000_0000,
    ensures
        ({
            let c = be_bytes(id as int, 4) + le_bytes(size, 4) + body;
            &&& c.len() == 8 + body.len()
            &&& tag_at(c.subrange(0, 8), 0) == id
            &&& u32_at(c.subrange(0, 8), 4) == size
            &&& c.subrange(8, c.len() as int) == body
        }),
{
    let c = be_bytes(id as int, 4) + le_bytes(size, 4) + body;
    lemma_be_bytes_len(id as int, 4);
    lemma_le_bytes_len(size, 4);
    lemma_be_round_trip(id as int, 4);
    lemma_le_round_trip(size, 4);
    assert(pow256(4) == 0x1_0000_0000) by {
        reveal_with_fuel(pow256, 5);
    }
    assert(c.subrange(0, 8).subrange(0, 4) =~= be_bytes(id as int, 4));
    assert(c.subrange(0, 8).subrange(4, 8) =~= le_bytes(size, 4));
    assert(c.subrange(8, c.len() as int) =~= body);
}

/// The little-endian value of `n` bytes written for `w`.
proof fn lemma_le_field(w: int, n: nat)
    requires
        0 <= w < pow256(n),
    ensures
        le_value(le_bytes(w, n)) == w,
        le_bytes(w, n).len() == n,
{
    lemma_le_round_trip(w, n);
    lemma_le_bytes_len(w, n);
    vstd::arithmetic::div_mod::lemma_small_mod(w as nat, pow256(n));
}

/// The body of a written format chunk reads back as the attributes that
/// were written.
proof fn lemma_parse_written_format(codec: Codec, channels: u32, sample_rate: u32, bit_depth: u32)
    requires
        spec_determine_format_tag(codec) is Some,
        bit_depth == spec_bit_depth(codec),
        channels <= 0xFFFF,
        format_fields_fit(channels, sample_rate, bit_depth),
    ensures
        ({
            let tag = spec_determine_format_tag(codec).unwrap();
            let variant = spec_determine_variant(channels, codec);
            let body = le_bytes(variant_tag_value(variant, tag) as int, 2) + format_common_bytes(
                channels,
                sample_rate,
                bit_depth,
            ) + format_extra_bytes(variant, tag, channels, bit_depth);
            &&& format_chunk_bytes(variant, tag, channels, sample_rate, bit_depth) == be_bytes(
                FMT as int,
                4,
            ) + le_bytes(spec_variant_size(variant) as int, 4) + body
            &&& body.len() == spec_variant_size(variant)
            &&& parse_format_chunk(body) matches Some(chunk) && chunk.format_tag == tag
                && chunk.num_channels == channels && chunk.sample_rate == sample_rate
                && chunk.bit_depth == bit_depth
            &&& spec_determine_codec(tag, bit_depth as u16) == Some(codec)
        }),
{
    let tag = spec_determine_format_tag(codec).unwrap();
    let variant = spec_determine_variant(channels, codec);
    let head = le_bytes(variant_tag_value(variant, tag) as int, 2);
    let common = format_common_bytes(channels, sample_rate, bit_depth);
    let extra = format_extra_bytes(variant, tag, channels, bit_depth);
    let body = head + common + extra;
    assert(pow256(2) == 0x1_0000 && pow256(4) == 0x1_0000_0000) by {
        reveal_with_fuel(pow256, 5);
    }
    let data_rate = sample_rate * channels * bit_depth / 8;
    let block_size = channels * bit_depth / 8;
    assert(0 <= data_rate <= u32::MAX) by (nonlinear_arith)
        requires
            data_rate == sample_rate * channels * bit_depth / 8,
            sample_rate * channels * bit_depth <= u32::MAX,
            0 <= sample_rate * channels * bit_depth,
    ;
    assert(0 <= block_size <= u32::MAX) by (nonlinear_arith)
        requires
            block_size == channels * bit_depth / 8,
            channels * bit_depth <= u32::MAX,
            0 <= channels * bit_depth,
    ;
    assert(0 <= channels * bit_depth) by (nonlinear_arith);
    assert(0 <= sample_rate * channels * bit_depth) by (nonlinear_arith);
    lemma_le_field(variant_tag_value(variant, tag) as int, 2);
    lemma_le_field(channels as int, 2);
    lemma_le_field(sample_rate as int, 4);
    lemma_le_field(data_rate, 4);
    lemma_le_bytes_len(block_size, 2);
    lemma_le_field(bit_depth as int, 2);
    assert(body.subrange(0, 2) =~= head);
    assert(body.subrange(2, 4) =~= le_bytes(channels as int, 2));
    assert(body.subrange(4, 8) =~= le_bytes(sample_rate as int, 4));
    assert(body.subrange(14, 16) =~= le_bytes(bit_depth as int, 2));
    match variant {
        FormatChunkVariant::WaveFormatPcm => {
            assert(extra.len() == 0);
        },
        FormatChunkVariant::WaveFormatNonPcm => {
            lemma_le_bytes_len(0, 2);
        },
        FormatChunkVariant::WaveFormatExtensible => {
            lemma_le_bytes_len(22, 2);
            lemma_le_bytes_len(bit_depth as int, 2);
            lemma_le_bytes_len(speaker_mask(channels) as int, 4);
            lemma_le_field(spec_format_tag_value(tag) as int, 2);
            assert(body.subrange(24, 26) =~= le_bytes(spec_format_tag_value(tag) as int, 2));
        },
    }
    assert(format_chunk_bytes(variant, tag, channels, sample_rate, bit_depth) =~= be_bytes(
        FMT as int,
        4,
    ) + le_bytes(spec_variant_size(variant) as int, 4) + body);
}

/// The RIFF header of a written file, and the chunks that follow it.
proof fn lemma_written_riff_header(bytes: Seq<u8>, buffer: Seq<u8>)
    requires
        4 <= buffer.len() + 4 <= u32::MAX,
        bytes == be_bytes(RIFF as int, 4) + le_bytes(buffer.len() + 4int, 4) + be_bytes(
            WAVE as int,
            4,
        ) + buffer,
    ensures
        riff_size_ok(padded(bytes, 0, 12)),
        is_riff_header(padded(bytes, 0, 12)),
        padded(bytes, 12, (u32_at(padded(bytes, 0, 12), 4) - 4) as nat) == buffer,
{
    assert(pow256(4) == 0x1_0000_0000) by {
        reveal_with_fuel(pow256, 5);
    }
    lemma_be_bytes_len(RIFF as int, 4);
    lemma_be_bytes_len(WAVE as int, 4);
    lemma_le_field(buffer.len() + 4int, 4);
    let header = padded(bytes, 0, 12);
    crate::format::lemma_padded_within(bytes, 0, 12);
    assert(header.subrange(0, 4) =~= be_bytes(RIFF as int, 4));
    assert(header.subrange(4, 8) =~= le_bytes(buffer.len() + 4int, 4));
    assert(header.subrange(8, 12) =~= be_bytes(WAVE as int, 4));
    lemma_be_round_trip(RIFF as int, 4);
    lemma_be_round_trip(WAVE as int, 4);
    crate::format::lemma_padded_within(bytes, 12, buffer.len());
    assert(bytes.subrange(12, 12 + buffer.len() as int) =~= buffer);
}

/// The length of a written fact chunk.
proof fn lemma_fact_chunk_len(num_samples: nat, channels: u32)
    ensures
        fact_chunk_bytes(num_samples, channels).len() == 12,
{
    lemma_be_bytes_len(FACT as int, 4);
    lemma_le_bytes_len(4, 4);
    lemma_le_bytes_len(((num_samples % 0x1_0000_0000) / (channels as nat)) as int, 4);
}

/// A walk over a written fact chunk skips it and notes it.
proof fn lemma_walk_fact(
    buffer: Seq<u8>,
    pos: int,
    num_samples: nat,
    channels: u32,
    format: Option<(FormatChunk, Codec)>,
)
    requires
        channels > 0,
        0 <= pos,
        pos + 12 <= buffer.len(),
        buffer.subrange(pos, pos + 12) == fact_chunk_bytes(num_samples, channels),
    ensures
        wave_walk(buffer, pos, format, false) == wave_walk(buffer, pos + 12, format, true),
{
    reveal(wave_walk);
    let fbody = le_bytes(((num_samples % 0x1_0000_0000) / (channels as nat)) as int, 4);
    lemma_le_bytes_len(((num_samples % 0x1_0000_0000) / (channels as nat)) as int, 4);
    lemma_written_header(FACT, 4, fbody);
    let fact = fact_chunk_bytes(num_samples, channels);
    assert(fact =~= be_bytes(FACT as int, 4) + le_bytes(4, 4) + fbody);
    crate::format::lemma_chunk_at(buffer, pos, fact);
}

/// A walk over a written data chunk finds its data, once the format chunk
/// and the fact requirement are met.
proof fn lemma_walk_data(buffer: Seq<u8>, pos: int, data: Seq<u8>, chunk: FormatChunk, codec: Codec)
    requires
        data.len() < 0x1_0000_0000,
        0 <= pos,
        pos + 8 + data.len() <= buffer.len(),
        buffer.subrange(pos, pos + 8 + data.len()) == data_chunk_bytes(data),
    ensures
        wave_walk(buffer, pos, Some((chunk, codec)), true) == (ChunkWalk::Found {
            format: chunk,
            codec: codec,
            start: (pos + 8) as nat,
            len: data.len(),
        }),
        buffer.subrange(pos + 8, pos + 8 + data.len()) == data,
{
    reveal(wave_walk);
    lemma_written_header(DATA, data.len() as int, data);
    crate::format::lemma_chunk_at(buffer, pos, data_chunk_bytes(data));
}

/// A walk over a written format chunk reads it.
proof fn lemma_walk_format(buffer: Seq<u8>, rest: Seq<u8>, codec: Codec, channels: u32, sample_rate: u32, bit_depth: u32)
    requires
        spec_determine_format_tag(codec) is Some,
        bit_depth == spec_bit_depth(codec),
        channels <= 0xFFFF,
        format_fields_fit(channels, sample_rate, bit_depth),
        buffer == format_chunk_bytes(
            spec_determine_variant(channels, codec),
            spec_determine_format_tag(codec).unwrap(),
            channels,
            sample_rate,
            bit_depth,
        ) + rest,
    ensures
        ({
            let variant = spec_determine_variant(channels, codec);
            let fmt = format_chunk_bytes(
                variant,
                spec_determine_format_tag(codec).unwrap(),
                channels,
                sample_rate,
                bit_depth,
            );
            &&& fmt.len() == 8 + spec_variant_size(variant)
            &&& exists|chunk: FormatChunk|
                {
                    &&& chunk.num_channels == channels
                    &&& chunk.sample_rate == sample_rate
                    &&& chunk.bit_depth == bit_depth
                    &&& #[trigger] wave_walk(buffer, 0, None, false) == wave_walk(
                        buffer,
                        fmt.len() as int,
                        Some((chunk, codec)),
                        chunk.format_tag == FormatTag::Pcm,
                    )
                    &&& (chunk.format_tag == FormatTag::Pcm <==> !needs_fact_chunk(codec))
                }
        }),
{
    reveal(wave_walk);
    let tag = spec_determine_format_tag(codec).unwrap();
    let variant = spec_determine_variant(channels, codec);
    let vs = spec_variant_size(variant);
    lemma_parse_written_format(codec, channels, sample_rate, bit_depth);
    let fmt = format_chunk_bytes(variant, tag, channels, sample_rate, bit_depth);
    let body = le_bytes(variant_tag_value(variant, tag) as int, 2) + format_common_bytes(
        channels,
        sample_rate,
        bit_depth,
    ) + format_extra_bytes(variant, tag, channels, bit_depth);
    lemma_written_header(FMT, vs as int, body);
    assert(buffer.subrange(0, fmt.len() as int) =~= fmt);
    crate::format::lemma_chunk_at(buffer, 0, fmt);
    let chunk = parse_format_chunk(body).unwrap();
    assert(wave_walk(buffer, 0, None, false) == wave_walk(
        buffer,
        fmt.len() as int,
        Some((chunk, codec)),
        chunk.format_tag == FormatTag::Pcm,
    ));
}

/// The walk over the chunks of a written WAVE file finds the written data
/// with the written attributes.
proof fn lemma_walk_written(
    buffer: Seq<u8>,
    codec: Codec,
    channels: u32,
    sample_rate: u32,
    bit_depth: u32,
    num_samples: nat,
    data: Seq<u8>,
)
    requires
        spec_determine_format_tag(codec) is Some,
        bit_depth == spec_bit_depth(codec),
        channels <= 0xFFFF,
        needs_fact_chunk(codec) ==> channels > 0,
        format_fields_fit(channels, sample_rate, bit_depth),
        data.len() < 0x1_0000_0000,
        buffer == format_chunk_bytes(
            spec_determine_variant(channels, codec),
            spec_determine_format_tag(codec).unwrap(),
            channels,
            sample_rate,
            bit_depth,
        ) + (if needs_fact_chunk(codec) {
            fact_chunk_bytes(num_samples, channels)
        } else {
            Seq::empty()
        }) + data_chunk_bytes(data),
    ensures
        wave_walk(buffer, 0, None, false) matches ChunkWalk::Found { format, codec: c, start, len }
            && c == codec && format.num_channels == channels && format.sample_rate == sample_rate
            && format.bit_depth == bit_depth && buffer.subrange(start as int, (start + len) as int)
            == data,
{
    let tag = spec_determine_format_tag(codec).unwrap();
    let variant = spec_determine_variant(channels, codec);
    let fmt = format_chunk_bytes(variant, tag, channels, sample_rate, bit_depth);
    let fact = if needs_fact_chunk(codec) {
        fact_chunk_bytes(num_samples, channels)
    } else {
        Seq::empty()
    };
    lemma_fact_chunk_len(num_samples, channels);
    let dat = data_chunk_bytes(data);
    lemma_be_bytes_len(DATA as int, 4);
    lemma_le_bytes_len(data.len() as int, 4);
    assert(buffer =~= fmt + (fact + dat));
    lemma_walk_format(buffer, fact + dat, codec, channels, sample_rate, bit_depth);
    let chunk = choose|chunk: FormatChunk|
        {
            &&& chunk.num_channels == channels
            &&& chunk.sample_rate == sample_rate
            &&& chunk.bit_depth == bit_depth
            &&& #[trigger] wave_walk(buffer, 0, None, false) == wave_walk(
                buffer,
                fmt.len() as int,
                Some((chunk, codec)),
                chunk.format_tag == FormatTag::Pcm,
            )
            &&& (chunk.format_tag == FormatTag::Pcm <==> !needs_fact_chunk(codec))
        };
    let p2 = fmt.len() + fact.len();
    assert(buffer.subrange(p2 as int, buffer.len() as int) =~= dat);
    lemma_walk_data(buffer, p2 as int, data, chunk, codec);
    if needs_fact_chunk(codec) {
        assert(buffer.subrange(fmt.len() as int, p2 as int) =~= fact);
        lemma_walk_fact(buffer, fmt.len() as int, num_samples, channels, Some((chunk, codec)));
    }
}

/// The data chunk holds exactly the bytes that its header announces: for a
/// format chunk, the fact chunk where the codec needs one, then a data chunk
/// announcing `data.len()` bytes, the decoder that reading the chunks gives
/// holds `data` and nothing of the chunks that follow it (`rest`).
pub proof fn lemma_data_chunk_exact(
    codec: Codec,
    channels: u32,
    sample_rate: u32,
    num_samples: nat,
    data: Seq<u8>,
    rest: Seq<u8>,
    r: AudioResult<AudioDecoder>,
)
    requires
        spec_determine_format_tag(codec) is Some,
        channels <= 0xFFFF,
        needs_fact_chunk(codec) ==> channels > 0,
        format_fields_fit(channels, sample_rate, spec_bit_depth(codec) as u32),
        data.len() < 0x1_0000_0000,
        walk_result(
            wave_walk(
                format_chunk_bytes(
                    spec_determine_variant(channels, codec),
                    spec_determine_format_tag(codec).unwrap(),
                    channels,
                    sample_rate,
                    spec_bit_depth(codec) as u32,
                ) + (if needs_fact_chunk(codec) {
                    fact_chunk_bytes(num_samples, channels)
                } else {
                    Seq::empty()
                }) + be_bytes(DATA as int, 4) + le_bytes(data.len() as int, 4) + data + rest,
                0,
                None,
                false,
            ),
            format_chunk_bytes(
                spec_determine_variant(channels, codec),
                spec_determine_format_tag(codec).unwrap(),
                channels,
                sample_rate,
                spec_bit_depth(codec) as u32,
            ) + (if needs_fact_chunk(codec) {
                fact_chunk_bytes(num_samples, channels)
            } else {
                Seq::empty()
            }) + be_bytes(DATA as int, 4) + le_bytes(data.len() as int, 4) + data + rest,
            r,
        ),
    ensures
        r matches Ok(d) && d.data@ == data && d.codec == Some(codec) && d.channels == channels
            && d.sample_rate == sample_rate && d.bit_depth == spec_bit_depth(codec) && d.index == 0,
{
    let bit_depth = spec_bit_depth(codec) as u32;
    let tag = spec_determine_format_tag(codec).unwrap();
    let variant = spec_determine_variant(channels, codec);
    let fmt = format_chunk_bytes(variant, tag, channels, sample_rate, bit_depth);
    let fact = if needs_fact_chunk(codec) {
        fact_chunk_bytes(num_samples, channels)
    } else {
        Seq::empty()
    };
    let dat = data_chunk_bytes(data);
    let buffer = fmt + fact + be_bytes(DATA as int, 4) + le_bytes(data.len() as int, 4) + data + rest;
    lemma_fact_chunk_len(num_samples, channels);
    lemma_be_bytes_len(DATA as int, 4);
    lemma_le_bytes_len(data.len() as int, 4);
    assert(buffer =~= fmt + (fact + dat + rest));
    lemma_walk_format(buffer, fact + dat + rest, codec, channels, sample_rate, bit_depth);
    let chunk = choose|chunk: FormatChunk|
        {
            &&& chunk.num_channels == channels
            &&& chunk.sample_rate == sample_rate
            &&& chunk.bit_depth == bit_depth
            &&& #[trigger] wave_walk(buffer, 0, None, false) == wave_walk(
                buffer,
                fmt.len() as int,
                Some((chunk, codec)),
                chunk.format_tag == FormatTag::Pcm,
            )
            &&& (chunk.format_tag == FormatTag::Pcm <==> !needs_fact_chunk(codec))
        };
    let p2 = fmt.len() + fact.len();
    assert(buffer.subrange(p2 as int, p2 + 8 + data.len() as int) =~= dat);
    lemma_walk_data(buffer, p2 as int, data, chunk, codec);
    if needs_fact_chunk(codec) {
        assert(buffer.subrange(fmt.len() as int, p2 as int) =~= fact);
        lemma_walk_fact(buffer, fmt.len() as int, num_samples, channels, Some((chunk, codec)));
    }
    reveal(walk_result);
}

/// A fact chunk records the number of sample frames: its last four bytes,
/// little-endian, hold the number `f` of whole frames of `channels` samples
/// in the sample count (cut to 32 bits), so that `f` frames fit in it and
/// `f + 1` do not.
pub proof fn lemma_fact_chunk_frames(num_samples: nat, channels: u32)
    requires
        channels > 0,
    ensures
        ({
            let b = fact_chunk_bytes(num_samples, channels);
            let f = le_value(b.subrange(8, 12));
            &&& b.len() == 12
            &&& b.subrange(0, 4) == be_bytes(FACT as int, 4)
            &&& le_value(b.subrange(4, 8)) == 4
            &&& f * channels <= num_samples % 0x1_0000_0000 < (f + 1) * channels
        }),
{
    let b = fact_chunk_bytes(num_samples, channels);
    let n = num_samples % 0x1_0000_0000;
    let q = (n / (channels as nat)) as int;
    assert(pow256(4) == 0x1_0000_0000) by {
        reveal_with_fuel(pow256, 5);
    }
    assert(0 <= q < 0x1_0000_0000 && q * channels <= n < (q + 1) * channels) by (nonlinear_arith)
        requires
            q == n / (channels as nat),
            0 <= n < 0x1_0000_0000,
            channels >= 1,
    ;
    lemma_fact_chunk_len(num_samples, channels);
    lemma_be_bytes_len(FACT as int, 4);
    lemma_le_field(4, 4);
    lemma_le_field(q, 4);
    assert(b.subrange(0, 4) =~= be_bytes(FACT as int, 4));
    assert(b.subrange(4, 8) =~= le_bytes(4, 4));
    assert(b.subrange(8, 12) =~= le_bytes(q, 4));
}

/// The extensible format chunk names its codec by the GUID
/// {0000TTTT-0000-0010-8000-00AA00389B71} of its format tag T: from offset
/// 24 of the body, Data1 (32 bits), Data2 and Data3 (16 bits each)
/// little-endian, then the eight bytes of Data4.
pub proof fn lemma_extensible_guid(format_tag: FormatTag, channels: u32, sample_rate: u32, bit_depth: u32)
    ensures
        ({
            let b = format_chunk_bytes(
                FormatChunkVariant::WaveFormatExtensible,
                format_tag,
                channels,
                sample_rate,
                bit_depth,
            );
            &&& b.len() == 48
            &&& le_value(b.subrange(24, 26)) == 22
            &&& le_value(b.subrange(26, 28)) == bit_depth % 0x1_0000
            &&& le_value(b.subrange(28, 32)) == speaker_mask(channels)
            &&& le_value(b.subrange(32, 36)) == spec_format_tag_value(format_tag)
            &&& le_value(b.subrange(36, 38)) == 0
            &&& le_value(b.subrange(38, 40)) == 0x0010
            &&& b.subrange(40, 48) == seq![0x80u8, 0x00, 0x00, 0xAA, 0x00, 0x38, 0x9B, 0x71]
        }),
{
    let variant = FormatChunkVariant::WaveFormatExtensible;
    let b = format_chunk_bytes(variant, format_tag, channels, sample_rate, bit_depth);
    lemma_format_chunk_len(variant, format_tag, channels, sample_rate, bit_depth);
    assert(pow256(2) == 0x1_0000 && pow256(4) == 0x1_0000_0000) by {
        reveal_with_fuel(pow256, 5);
    }
    let tag = spec_format_tag_value(format_tag) as int;
    lemma_le_field(22, 2);
    lemma_le_round_trip(bit_depth as int, 2);
    lemma_le_bytes_len(bit_depth as int, 2);
    lemma_le_field(speaker_mask(channels) as int, 4);
    lemma_le_field(tag, 2);
    assert(b.subrange(24, 26) =~= le_bytes(22, 2));
    assert(b.subrange(26, 28) =~= le_bytes(bit_depth as int, 2));
    assert(b.subrange(28, 32) =~= le_bytes(speaker_mask(channels) as int, 4));
    assert(b.subrange(32, 36) =~= le_bytes(tag, 2) + seq![0u8, 0u8]);
    assert(b.subrange(36, 38) =~= seq![0u8, 0u8]);
    assert(b.subrange(38, 40) =~= seq![0x10u8, 0u8]);
    assert(b.subrange(40, 48) =~= seq![0x80u8, 0x00, 0x00, 0xAA, 0x00, 0x38, 0x9B, 0x71]);
    let t = b.subrange(32, 36);
    assert(le_value(t) == t[0] + 256 * (t[1] + 256 * (t[2] + 256 * (t[3] + 256 * 0)))) by {
        reveal_with_fuel(le_value, 5);
        assert(t.drop_first().drop_first().drop_first().drop_first().len() == 0);
    }
    let l = le_bytes(tag, 2);
    assert(le_value(l) == l[0] + 256 * (l[1] + 256 * 0)) by {
        reveal_with_fuel(le_value, 3);
        assert(l.drop_first().drop_first().len() == 0);
    }
    reveal_with_fuel(le_value, 3);
}

/// The length of a written format chunk.
proof fn lemma_format_chunk_len(
    variant: FormatChunkVariant,
    format_tag: FormatTag,
    channels: u32,
    sample_rate: u32,
    bit_depth: u32,
)
    ensures
        format_chunk_bytes(variant, format_tag, channels, sample_rate, bit_depth).len() == 8
            + spec_variant_size(variant),
{
    lemma_be_bytes_len(FMT as int, 4);
    lemma_le_bytes_len(spec_variant_size(variant) as int, 4);
    lemma_le_bytes_len(variant_tag_value(variant, format_tag) as int, 2);
    lemma_le_bytes_len(channels as int, 2);
    lemma_le_bytes_len(sample_rate as int, 4);
    lemma_le_bytes_len(sample_rate * channels * bit_depth / 8, 4);
    lemma_le_bytes_len(channels * bit_depth / 8, 2);
    lemma_le_bytes_len(bit_depth as int, 2);
    lemma_le_bytes_len(0, 2);
    lemma_le_bytes_len(22, 2);
    lemma_le_bytes_len(speaker_mask(channels) as int, 4);
    lemma_le_bytes_len(spec_format_tag_value(format_tag) as int, 2);
}

/// Where the fields of a format chunk stand: its identifier, its size, the
/// format tag of its variant, the channel count (16 bits), the sample rate,
/// the data rate, the block size and the bit depth, each little-endian and
/// cut to its width.
pub proof fn lemma_format_chunk_fields(
    variant: FormatChunkVariant,
    format_tag: FormatTag,
    channels: u32,
    sample_rate: u32,
    bit_depth: u32,
)
    ensures
        ({
            let b = format_chunk_bytes(variant, format_tag, channels, sample_rate, bit_depth);
            &&& b.len() == 8 + spec_variant_size(variant)
            &&& b.subrange(0, 4) == be_bytes(FMT as int, 4)
            &&& le_value(b.subrange(4, 8)) == spec_variant_size(variant)
            &&& le_value(b.subrange(8, 10)) == variant_tag_value(variant, format_tag)
            &&& le_value(b.subrange(10, 12)) == channels % 0x1_0000
            &&& le_value(b.subrange(12, 16)) == sample_rate
            &&& le_value(b.subrange(16, 20)) == (sample_rate * channels * bit_depth / 8)
                % 0x1_0000_0000
            &&& le_value(b.subrange(20, 22)) == (channels * bit_depth / 8) % 0x1_0000
            &&& le_value(b.subrange(22, 24)) == bit_depth % 0x1_0000
        }),
{
    let b = format_chunk_bytes(variant, format_tag, channels, sample_rate, bit_depth);
    lemma_format_chunk_len(variant, format_tag, channels, sample_rate, bit_depth);
    assert(pow256(2) == 0x1_0000 && pow256(4) == 0x1_0000_0000) by {
        reveal_with_fuel(pow256, 5);
    }
    let data_rate = sample_rate * channels * bit_depth / 8;
    let block_size = channels * bit_depth / 8;
    lemma_be_bytes_len(FMT as int, 4);
    lemma_le_field(spec_variant_size(variant) as int, 4);
    lemma_le_field(variant_tag_value(variant, format_tag) as int, 2);
    lemma_le_round_trip(channels as int, 2);
    lemma_le_bytes_len(channels as int, 2);
    lemma_le_field(sample_rate as int, 4);
    lemma_le_round_trip(data_rate, 4);
    lemma_le_bytes_len(data_rate, 4);
    lemma_le_round_trip(block_size, 2);
    lemma_le_bytes_len(block_size, 2);
    lemma_le_round_trip(bit_depth as int, 2);
    lemma_le_bytes_len(bit_depth as int, 2);
    assert(b.subrange(0, 4) =~= be_bytes(FMT as int, 4));
    assert(b.subrange(4, 8) =~= le_bytes(spec_variant_size(variant) as int, 4));
    assert(b.subrange(8, 10) =~= le_bytes(variant_tag_value(variant, format_tag) as int, 2));
    assert(b.subrange(10, 12) =~= le_bytes(channels as int, 2));
    assert(b.subrange(12, 16) =~= le_bytes(sample_rate as int, 4));
    assert(b.subrange(16, 20) =~= le_bytes(data_rate, 4));
    assert(b.subrange(20, 22) =~= le_bytes(block_size, 2));
    assert(b.subrange(22, 24) =~= le_bytes(bit_depth as int, 2));
}

/// The layout of a written WAVE file: the RIFF header, then the format,
/// fact and data chunks.
proof fn lemma_wave_file_layout(
    codec: Codec,
    channels: u32,
    sample_rate: u32,
    bit_depth: u32,
    num_samples: nat,
    data: Seq<u8>,
)
    requires
        spec_determine_format_tag(codec) is Some,
        bit_depth == spec_bit_depth(codec),
        channels <= 0xFFFF,
        format_fields_fit(channels, sample_rate, bit_depth),
        data.len() <= u32::MAX - 80,
    ensures
        ({
            let buffer = format_chunk_bytes(
                spec_determine_variant(channels, codec),
                spec_determine_format_tag(codec).unwrap(),
                channels,
                sample_rate,
                bit_depth,
            ) + (if needs_fact_chunk(codec) {
                fact_chunk_bytes(num_samples, channels)
            } else {
                Seq::empty()
            }) + data_chunk_bytes(data);
            &&& buffer.len() + 4 <= u32::MAX
            &&& wave_file_bytes(
                codec,
                spec_determine_format_tag(codec).unwrap(),
                channels,
                sample_rate,
                bit_depth,
                num_samples,
                data,
            ) == be_bytes(RIFF as int, 4) + le_bytes(buffer.len() + 4int, 4) + be_bytes(
                WAVE as int,
                4,
            ) + buffer
        }),
{
    let tag = spec_determine_format_tag(codec).unwrap();
    let variant = spec_determine_variant(channels, codec);
    let fmt = format_chunk_bytes(variant, tag, channels, sample_rate, bit_depth);
    lemma_format_chunk_len(variant, tag, channels, sample_rate, bit_depth);
    lemma_fact_chunk_len(num_samples, channels);
    lemma_be_bytes_len(DATA as int, 4);
    lemma_le_bytes_len(data.len() as int, 4);
    let buffer = fmt + (if needs_fact_chunk(codec) {
        fact_chunk_bytes(num_samples, channels)
    } else {
        Seq::empty()
    }) + data_chunk_bytes(data);
    assert(wave_file_bytes(codec, tag, channels, sample_rate, bit_depth, num_samples, data)
        =~= be_bytes(RIFF as int, 4) + le_bytes(buffer.len() + 4int, 4) + be_bytes(WAVE as int, 4)
        + buffer);
}

/// Reading the WAVE file that writing samples with a codec produced gives
/// back the codec, channels, sample rate and bit depth, and the encoded
/// samples; this holds for at most 65535 channels (the format chunk records
/// 16 bits of the channel count).
pub proof fn lemma_write_read(
    codec: Codec,
    channels: u32,
    sample_rate: u32,
    samples: Seq<i64>,
    written: AudioResult<Vec<u8>>,
    r: AudioResult<AudioDecoder>,
)
    requires
        write_fits(codec, channels, sample_rate, spec_bit_depth(codec) as u32, samples.len()),
        channels <= 0xFFFF,
        write_outcome(codec, channels, sample_rate, spec_bit_depth(codec) as u32, samples, written),
        written matches Ok(bytes) && read_outcome(bytes@, r),
    ensures
        r matches Ok(d) && d.codec == Some(codec) && d.channels == channels && d.sample_rate
            == sample_rate && d.bit_depth == spec_bit_depth(codec) && d.data@ == encoded(
            samples,
            codec,
        ) && d.index == 0,
{
    let bd = spec_bit_depth(codec) as u32;
    let n = samples.len();
    let data = encoded(samples, codec);
    lemma_encoded_len(samples, codec);
    let buffer = format_chunk_bytes(
        spec_determine_variant(channels, codec),
        spec_determine_format_tag(codec).unwrap(),
        channels,
        sample_rate,
        bd,
    ) + (if needs_fact_chunk(codec) {
        fact_chunk_bytes(n, channels)
    } else {
        Seq::empty()
    }) + data_chunk_bytes(data);
    lemma_wave_file_layout(codec, channels, sample_rate, bd, n, data);
    let bytes = wave_file_bytes(
        codec,
        spec_determine_format_tag(codec).unwrap(),
        channels,
        sample_rate,
        bd,
        n,
        data,
    );
    lemma_written_riff_header(bytes, buffer);
    lemma_walk_written(buffer, codec, channels, sample_rate, bd, n, data);
    reveal(walk_result);
}

/// Whether the audio of the chunks in `buf` that the walk `walk` went
/// through is `r`: the decoded samples of the data found, with the sample
/// rate and channels of the format, or an error of the kind of failure.
pub open spec fn buffer_outcome(walk: ChunkWalk<FormatChunk>, buf: Seq<u8>, r: AudioResult<AudioBuffer<i64>>) -> bool {
    match walk {
        ChunkWalk::Found { format, codec, start, len } => r matches Ok(a) && a.sample_rate
            == format.sample_rate && a.channels == format.num_channels as u32 && a.samples@ == decoded_samples(
            Some(codec),
            buf.subrange(start as int, (start + len) as int),
        ),
        ChunkWalk::Failed(f) => r matches Err(e) && is_failure(e, f),
    }
}

/// Whether loading the audio of the whole file `bytes` gives `r`.
pub open spec fn load_outcome(bytes: Seq<u8>, r: AudioResult<AudioBuffer<i64>>) -> bool {
    let header = padded(bytes, 0, 12);
    if is_riff_header(header) {
        let buffer = padded(bytes, 12, (u32_at(header, 4) - 4) as nat);
        buffer_outcome(wave_walk(buffer, 0, None, false), buffer, r)
    } else {
        r matches Err(AudioError::Format(message)) && message@ == "Not valid WAVE"@
    }
}

/// Loading the WAVE file that writing samples with a codec produced gives
/// back the channels and sample rate, and the samples limited to the range
/// of the codec; this holds for at most 65535 channels (the format chunk
/// records 16 bits of the channel count).
pub proof fn lemma_write_load(
    codec: Codec,
    channels: u32,
    sample_rate: u32,
    samples: Seq<i64>,
    written: AudioResult<Vec<u8>>,
    r: AudioResult<AudioBuffer<i64>>,
)
    requires
        write_fits(codec, channels, sample_rate, spec_bit_depth(codec) as u32, samples.len()),
        channels <= 0xFFFF,
        write_outcome(codec, channels, sample_rate, spec_bit_depth(codec) as u32, samples, written),
        written matches Ok(bytes) && load_outcome(bytes@, r),
    ensures
        r matches Ok(a) && a.channels == channels && a.sample_rate == sample_rate && a.samples@
            == coded_samples(samples, codec),
{
    let bd = spec_bit_depth(codec) as u32;
    let n = samples.len();
    let data = encoded(samples, codec);
    lemma_encoded_len(samples, codec);
    lemma_decode_encoded(samples, codec);
    let buffer = format_chunk_bytes(
        spec_determine_variant(channels, codec),
        spec_determine_format_tag(codec).unwrap(),
        channels,
        sample_rate,
        bd,
    ) + (if needs_fact_chunk(codec) {
        fact_chunk_bytes(n, channels)
    } else {
        Seq::empty()
    }) + data_chunk_bytes(data);
    lemma_wave_file_layout(codec, channels, sample_rate, bd, n, data);
    let bytes = wave_file_bytes(
        codec,
        spec_determine_format_tag(codec).unwrap(),
        channels,
        sample_rate,
        bd,
        n,
        data,
    );
    lemma_written_riff_header(bytes, buffer);
    lemma_walk_written(buffer, codec, channels, sample_rate, bd, n, data);
}

} // verus!
