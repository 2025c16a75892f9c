//! The Audio Interchange File Format
//!
//! AIFF files use the Interchange File Format (IFF), a generic file container
//! format that uses chunks to store data. All bytes are stored in big-endian
//! format.
//!
//! References
//! - [McGill University](http://www-mmsp.ece.mcgill.ca/Documents/AudioFormats/AIFF/AIFF.html)
//! - [AIFF 1.3 format](http://www-mmsp.ece.mcgill.ca/Documents/AudioFormats/AIFF/Docs/AIFF-1.3.pdf)
//! - [AIFF/AIFF-C format, from Apple](http://www-mmsp.ece.mcgill.ca/Documents/AudioFormats/AIFF/Docs/MacOS_Sound-extract.pdf)
use crate::byte_order::{
    be_bytes, be_value, lemma_be_bytes_len, lemma_be_bytes_periodic, lemma_be_round_trip,
    lemma_be_value_bound, pow256, read_i16_be, read_i32_be, read_u32_be, twos_complement,
    write_i16_be, write_i32_be, write_u32_be, write_u64_be,
};
use crate::codecs::{codec_name, sample_size, Codec};
use crate::buffer::AudioBuffer;
use crate::decoder::{decoded_samples, AudioDecoder};
use crate::encoder::{coded_samples, encoded, lemma_decode_encoded, lemma_encoded_len, AudioEncoder};
use crate::error::{is_failure, AudioError, AudioResult, Failure};
use crate::format::extended::{
    ext_is_special, extended_as_u32, extended_from_sample_rate, extended_of_u32,
    lemma_extended_of_u32_len, lemma_sample_rate_round_trip, sample_rate_from_extended,
};
use crate::format::{body_start, chunk_header, padded, padded_copy, tag_at, ChunkWalk};
use crate::traits::Chunk;
use vstd::prelude::*;
use vstd::slice::{slice_subrange, slice_to_vec};
use vstd::string::StringExecFns;

verus! {

/// Aiff/Aifc chunk identifiers, read as big-endian numbers.
pub const FORM: u32 = 0x464F_524D;

pub const AIFF: u32 = 0x4149_4646;

pub const AIFC: u32 = 0x4149_4643;

pub const FVER: u32 = 0x4656_4552;

pub const COMM: u32 = 0x434F_4D4D;

pub const SSND: u32 = 0x5353_4E44;

/// Aiff-C Version 1 timestamp for the FVER chunk.
pub const AIFC_VERSION_1: u32 = 0xA280_5140;

/// AIFC compression type tags, read as big-endian numbers.
pub const NONE_TAG: u32 = 0x4E4F_4E45;

pub const RAW_TAG: u32 = 0x7261_7720;

pub const ULAW_TAG: u32 = 0x756C_6177;

pub const ALAW_TAG: u32 = 0x616C_6177;

pub const FL32_TAG: u32 = 0x666C_3332;

pub const FL32_UPPER_TAG: u32 = 0x464C_3332;

pub const FL64_TAG: u32 = 0x666C_3634;

pub const FL64_UPPER_TAG: u32 = 0x464C_3634;

/// Supported compression codes in the AIFC common chunk.
///
/// In traditional AIFF files there is no option for compression; such files
/// read as `Pcm`.
#[derive(Clone, Copy, Debug, PartialEq, Eq, Structural)]
pub enum CompressionType {
    Pcm,
    Raw,
    ALaw,
    MuLaw,
    Float32,
    Float64,
}

/// The AIFF Common Chunk.
///
/// This chunk provides most of the information required to decode the sampled
/// data. In AIFC files, bit_depth represents the number of bits per sample of
/// the uncompressed audio data: although the uLaw and aLaw codecs compress
/// 16-bit audio to 8 bits, the bit_depth is 16.
///
/// The sample rate, an 80-bit extended number in the file, is held as the
/// `u32` that a conversion through a double gives (see `extended_as_u32`).
#[derive(Clone, Copy, Debug, PartialEq, Eq, Structural)]
pub struct CommonChunk {
    pub num_channels: i16,
    pub num_frames: u32,
    pub bit_depth: i16,
    pub sample_rate: u32,
    pub compression_type: CompressionType,
}

/// The signed big-endian number of the two bytes at `at`.
pub open spec fn i16_at(s: Seq<u8>, at: int) -> int {
    twos_complement(be_value(s.subrange(at, at + 2)) as int, 0x8000)
}

/// The signed big-endian number of the four bytes at `at`.
pub open spec fn i32_at(s: Seq<u8>, at: int) -> int {
    twos_complement(be_value(s.subrange(at, at + 4)) as int, 0x8000_0000)
}

/// The compression type with the given tag, if supported.
pub open spec fn spec_compression_type(tag: nat) -> Option<CompressionType> {
    if tag == NONE_TAG {
        Some(CompressionType::Pcm)
    } else if tag == RAW_TAG {
        Some(CompressionType::Raw)
    } else if tag == FL32_TAG || tag == FL32_UPPER_TAG {
        Some(CompressionType::Float32)
    } else if tag == FL64_TAG || tag == FL64_UPPER_TAG {
        Some(CompressionType::Float64)
    } else if tag == ALAW_TAG {
        Some(CompressionType::ALaw)
    } else if tag == ULAW_TAG {
        Some(CompressionType::MuLaw)
    } else {
        None
    }
}

/// The common chunk whose body is `s`, or the kind of failure of reading it:
/// `End` when the body is too short for the fields it holds, `Unsupported`
/// for an unknown compression type, `Format` for a sample rate that is not
/// a number.
pub open spec fn parse_common_chunk(s: Seq<u8>) -> Result<CommonChunk, Failure> {
    if s.len() < 18 || (s.len() > 18 && s.len() < 22) {
        Err(Failure::End)
    } else {
        let compression = if s.len() > 18 {
            spec_compression_type(tag_at(s, 18))
        } else {
            Some(CompressionType::Pcm)
        };
        match compression {
            None => Err(Failure::Unsupported),
            Some(compression_type) => if ext_is_special(s.subrange(8, 18)) {
                Err(Failure::Format)
            } else {
                Ok(
                    CommonChunk {
                        num_channels: i16_at(s, 0) as i16,
                        num_frames: be_value(s.subrange(2, 6)) as u32,
                        bit_depth: i16_at(s, 6) as i16,
                        sample_rate: extended_as_u32(s.subrange(8, 18)),
                        compression_type: compression_type,
                    },
                )
            },
        }
    }
}

/// Whether the result `r` of reading matches `p`: the same value, or an
/// error of the same kind.
pub open spec fn matches_parse<T>(p: Result<T, Failure>, r: AudioResult<T>) -> bool {
    match p {
        Ok(v) => r == Ok::<T, AudioError>(v),
        Err(f) => r matches Err(e) && is_failure(e, f),
    }
}

/// Reads the compression type with the given tag.
fn read_compression_type(tag: u32) -> (r: AudioResult<CompressionType>)
    ensures
        match spec_compression_type(tag as nat) {
            Some(c) => r == Ok::<CompressionType, AudioError>(c),
            None => r matches Err(AudioError::Unsupported(message)) && message@
                == "Unknown compression type"@,
        },
{
    if tag == NONE_TAG {
        Ok(CompressionType::Pcm)
    } else if tag == RAW_TAG {
        Ok(CompressionType::Raw)
    } else if tag == FL32_TAG || tag == FL32_UPPER_TAG {
        Ok(CompressionType::Float32)
    } else if tag == FL64_TAG || tag == FL64_UPPER_TAG {
        Ok(CompressionType::Float64)
    } else if tag == ALAW_TAG {
        Ok(CompressionType::ALaw)
    } else if tag == ULAW_TAG {
        Ok(CompressionType::MuLaw)
    } else {
        Err(AudioError::Unsupported(String::from_str("Unknown compression type")))
    }
}

impl Chunk for CommonChunk {
    /// Decodes the common chunk from the bytes of its body.
    ///
    /// Returns `AudioEnd` when the body is too short for the fields it
    /// holds, `Unsupported` for an unknown compression type, and `Format`
    /// for a sample rate that is not a number.
    fn read(buffer: &[u8]) -> (r: AudioResult<CommonChunk>)
        ensures
            matches_parse(parse_common_chunk(buffer@), r),
    {
        if buffer.len() < 18 || (buffer.len() > 18 && buffer.len() < 22) {
            return Err(AudioError::AudioEnd);
        }
        let compression_type = if buffer.len() > 18 {
            match read_compression_type(read_u32_be(buffer, 18)) {
                Ok(c) => c,
                Err(e) => return Err(e),
            }
        } else {
            CompressionType::Pcm
        };
        let rate_bytes = slice_subrange(buffer, 8, 18);
        assert(rate_bytes@ == buffer@.subrange(8, 18));
        let sample_rate = match sample_rate_from_extended(rate_bytes) {
            Ok(rate) => rate,
            Err(e) => return Err(e),
        };
        Ok(
            CommonChunk {
                num_channels: read_i16_be(buffer, 0),
                num_frames: read_u32_be(buffer, 2),
                bit_depth: read_i16_be(buffer, 6),
                sample_rate: sample_rate,
                compression_type: compression_type,
            },
        )
    }
}

/// The codec of audio with the given compression type and bit depth, if
/// supported.
pub open spec fn spec_determine_codec(compression_type: CompressionType, bit_depth: i16) -> Option<Codec> {
    match (compression_type, bit_depth) {
        // AIFC supports:
        (CompressionType::Raw, 8) => Some(Codec::LPCM_U8),
        (CompressionType::ALaw, 16) => Some(Codec::G711_ALAW),
        (CompressionType::MuLaw, 16) => Some(Codec::G711_ULAW),
        (CompressionType::Float32, 32) => Some(Codec::LPCM_F32_BE),
        (CompressionType::Float64, 64) => Some(Codec::LPCM_F64_BE),
        // AIFF supports:
        (CompressionType::Pcm, 8) => Some(Codec::LPCM_I8),
        (CompressionType::Pcm, 16) => Some(Codec::LPCM_I16_BE),
        (CompressionType::Pcm, 24) => Some(Codec::LPCM_I24_BE),
        (CompressionType::Pcm, 32) => Some(Codec::LPCM_I32_BE),
        _ => None,
    }
}

/// Returns the `Codec` used by the read audio attributes.
pub fn determine_codec(compression_type: CompressionType, bit_depth: i16) -> (r: AudioResult<Codec>)
    ensures
        match spec_determine_codec(compression_type, bit_depth) {
            Some(c) => r == Ok::<Codec, AudioError>(c),
            None => r matches Err(AudioError::Unsupported(message)) && message@
                == "Audio encoded with unsupported codec"@,
        },
{
    match (compression_type, bit_depth) {
        // AIFC supports:
        (CompressionType::Raw, 8) => Ok(Codec::LPCM_U8),
        (CompressionType::ALaw, 16) => Ok(Codec::G711_ALAW),
        (CompressionType::MuLaw, 16) => Ok(Codec::G711_ULAW),
        (CompressionType::Float32, 32) => Ok(Codec::LPCM_F32_BE),
        (CompressionType::Float64, 64) => Ok(Codec::LPCM_F64_BE),
        // AIFF supports:
        (CompressionType::Pcm, 8) => Ok(Codec::LPCM_I8),
        (CompressionType::Pcm, 16) => Ok(Codec::LPCM_I16_BE),
        (CompressionType::Pcm, 24) => Ok(Codec::LPCM_I24_BE),
        (CompressionType::Pcm, 32) => Ok(Codec::LPCM_I32_BE),
        (_, _) => Err(
            AudioError::Unsupported(String::from_str("Audio encoded with unsupported codec")),
        ),
    }
}

/// Whether a codec is stored in AIFF-C rather than plain AIFF, for the
/// codecs that this format supports.
pub open spec fn spec_is_aifc(codec: Codec) -> Option<bool> {
    match codec {
        Codec::LPCM_U8 | Codec::G711_ALAW | Codec::G711_ULAW | Codec::LPCM_F32_BE
        | Codec::LPCM_F64_BE => Some(true),
        Codec::LPCM_I8 | Codec::LPCM_I16_BE | Codec::LPCM_I24_BE | Codec::LPCM_I32_BE => Some(false),
        _ => None,
    }
}

/// The message of the error that AIFF gives for a codec it does not
/// support.
pub open spec fn unsupported_message(codec: Codec) -> Seq<char> {
    "Aiff does not support the "@ + codec_name(codec) + " codec"@
}

/// The error that AIFF gives for a codec it does not support.
fn unsupported_codec(codec: Codec) -> (r: AudioError)
    ensures
        r matches AudioError::Unsupported(message) && message@ == unsupported_message(codec),
{
    let mut message = String::from_str("Aiff does not support the ");
    let name = codec.to_string();
    message.append(name.as_str());
    message.append(" codec");
    AudioError::Unsupported(message)
}

/// Determines whether the codec is stored in AIFF-C rather than plain AIFF.
///
/// Returns an `Unsupported` error for a codec that neither supports.
pub fn is_aifc(codec: Codec) -> (r: AudioResult<bool>)
    ensures
        match spec_is_aifc(codec) {
            Some(b) => r == Ok::<bool, AudioError>(b),
            None => r matches Err(AudioError::Unsupported(message)) && message@
                == unsupported_message(codec),
        },
{
    match codec {
        Codec::LPCM_U8 | Codec::G711_ALAW | Codec::G711_ULAW | Codec::LPCM_F32_BE
        | Codec::LPCM_F64_BE => Ok(true),
        Codec::LPCM_I8 | Codec::LPCM_I16_BE | Codec::LPCM_I24_BE | Codec::LPCM_I32_BE => Ok(false),
        c => Err(unsupported_codec(c)),
    }
}

/// The AIFF chunks that audio decoding uses.
#[derive(Clone, Copy, Debug, PartialEq, Eq, Structural)]
pub enum AiffChunk {
    FormatVersion,
    Common,
    SoundData,
}

/// The chunk with the given identifier, if audio decoding uses it.
pub open spec fn spec_identify_chunk(id: nat) -> Option<AiffChunk> {
    if id == FVER {
        Some(AiffChunk::FormatVersion)
    } else if id == COMM {
        Some(AiffChunk::Common)
    } else if id == SSND {
        Some(AiffChunk::SoundData)
    } else {
        None
    }
}

/// Identifies a chunk by its identifier.
pub fn identify_chunk(id: u32) -> (r: Option<AiffChunk>)
    ensures
        r == spec_identify_chunk(id as nat),
{
    if id == FVER {
        Some(AiffChunk::FormatVersion)
    } else if id == COMM {
        Some(AiffChunk::Common)
    } else if id == SSND {
        Some(AiffChunk::SoundData)
    } else {
        None
    }
}

/// Whether the first 12 bytes are an IFF header of an AIFF or AIFF-C file.
pub open spec fn is_iff_header(header: Seq<u8>) -> bool {
    tag_at(header, 0) == FORM && (tag_at(header, 8) == AIFF || tag_at(header, 8) == AIFC)
}

/// The IFF header does not announce a size below the four bytes of the form
/// type that it counts.
pub open spec fn iff_size_ok(header: Seq<u8>) -> bool {
    is_iff_header(header) ==> i32_at(header, 4) >= 4
}

/// The message of the error for a header that is not one of an AIFF or
/// AIFF-C file.
pub open spec fn header_message(header: Seq<u8>) -> Seq<char> {
    if tag_at(header, 0) != FORM {
        "Not valid IFF"@
    } else {
        "Not valid AIFF or AIFF-C"@
    }
}

/// Validates the 12-byte IFF header and returns the number of bytes of
/// chunks that follow it.
pub fn read_iff_header(header: &[u8]) -> (r: AudioResult<i32>)
    requires
        header.len() >= 12,
        iff_size_ok(header@),
    ensures
        is_iff_header(header@) ==> r == Ok::<i32, AudioError>((i32_at(header@, 4) - 4) as i32),
        tag_at(header@, 0) != FORM ==> (r matches Err(AudioError::Format(message)) && message@
            == "Not valid IFF"@),
        tag_at(header@, 0) == FORM && !is_iff_header(header@) ==> (r matches Err(
            AudioError::Format(message),
        ) && message@ == "Not valid AIFF or AIFF-C"@),
{
    if read_u32_be(header, 0) != FORM {
        return Err(AudioError::Format(String::from_str("Not valid IFF")));
    }
    // Determine if container is AIFF or AIFF-C
    let form_type = read_u32_be(header, 8);
    if form_type != AIFF && form_type != AIFC {
        return Err(AudioError::Format(String::from_str("Not valid AIFF or AIFF-C")));
    }
    let file_size = read_i32_be(header, 4) - 4;
    Ok(file_size)
}

/// The size of the chunk whose header announces `raw`: chunk sizes must
/// always be even, and the announced size may leave out the trailing pad
/// byte.
pub open spec fn padded_size(raw: int) -> int {
    if raw % 2 != 0 {
        raw + 1
    } else {
        raw
    }
}

/// Where the walk ends at a sound data chunk whose body starts at `after`
/// and whose header announces `raw` bytes, given the common chunk, the codec
/// it names, and whether a format version chunk was read: the audio data
/// follows the offset and block size, eight bytes that decoding skips, and
/// ends where the announced size ends; a pad byte after it is not data.
pub open spec fn sound_data_walk(
    after: int,
    raw: int,
    chunk: CommonChunk,
    codec: Option<Codec>,
    fver: bool,
) -> ChunkWalk<CommonChunk> {
    if raw < 8 {
        ChunkWalk::Failed(Failure::End)
    } else {
        match codec {
            None => ChunkWalk::Failed(Failure::Unsupported),
            Some(c) => if spec_is_aifc(c) == Some(true) && !fver {
                ChunkWalk::Failed(Failure::Format)
            } else {
                ChunkWalk::Found {
                    format: chunk,
                    codec: c,
                    start: (after + 8) as nat,
                    len: (raw - 8) as nat,
                }
            },
        }
    }
}

/// The walk through the chunks of an AIFF buffer from the chunk at `pos`,
/// given the common chunk read so far with the codec it names, and whether a
/// format version chunk was read. Chunks other than these and the sound data
/// chunk are skipped; the walk ends at the sound data chunk. Running past the
/// end of the buffer is a failure, and so is a chunk of negative size.
#[verifier::opaque]
pub open spec fn aiff_walk(
    buf: Seq<u8>,
    pos: int,
    comm: Option<(CommonChunk, Option<Codec>)>,
    fver: bool,
) -> ChunkWalk<CommonChunk>
    decreases buf.len() - pos,
{
    if pos < 0 || pos >= buf.len() {
        ChunkWalk::Failed(Failure::End)
    } else {
        let header = chunk_header(buf, pos);
        let id = tag_at(header, 0);
        let size = padded_size(i32_at(header, 4));
        let after = body_start(buf, pos);
        let next = after + size;
        if size < 0 {
            ChunkWalk::Failed(Failure::Format)
        } else if next > buf.len() {
            if id == SSND && comm is None {
                ChunkWalk::Failed(Failure::Format)
            } else {
                ChunkWalk::Failed(Failure::End)
            }
        } else if id == COMM {
            match parse_common_chunk(buf.subrange(after, next)) {
                Err(f) => ChunkWalk::Failed(f),
                Ok(chunk) => aiff_walk(
                    buf,
                    next,
                    Some((chunk, spec_determine_codec(chunk.compression_type, chunk.bit_depth))),
                    fver,
                ),
            }
        } else if id == SSND {
            match comm {
                None => ChunkWalk::Failed(Failure::Format),
                Some((chunk, codec)) => sound_data_walk(
                    after,
                    i32_at(header, 4),
                    chunk,
                    codec,
                    fver,
                ),
            }
        } else {
            aiff_walk(buf, next, comm, fver || id == FVER)
        }
    }
}

/// Whether decoding `buf` as the chunks of an AIFF file gives `r`.
#[verifier::opaque]
pub open spec fn walk_result(walk: ChunkWalk<CommonChunk>, buf: Seq<u8>, r: AudioResult<AudioDecoder>) -> bool {
    match walk {
        ChunkWalk::Found { format, codec, start, len } => match r {
            Ok(d) => {
                &&& d.codec == Some(codec)
                &&& d.bit_depth == format.bit_depth as u32
                &&& d.sample_rate == format.sample_rate
                &&& d.channels == format.num_channels as u32
                &&& d.data@ == buf.subrange(start as int, (start + len) as int)
                &&& d.index == 0
            },
            Err(_) => false,
        },
        ChunkWalk::Failed(f) => match r {
            Ok(_) => false,
            Err(e) => is_failure(e, f),
        },
    }
}

/// Reads the identifier and the announced size of the chunk at `pos`, and
/// where its body starts.
fn read_chunk_header(buffer: &[u8], pos: usize) -> (r: (u32, i32, usize))
    requires
        pos < buffer.len(),
    ensures
        r.0 == tag_at(chunk_header(buffer@, pos as int), 0),
        r.1 == i32_at(chunk_header(buffer@, pos as int), 4),
        r.2 == body_start(buffer@, pos as int),
{
    if buffer.len() - pos >= 8 {
        proof {
            let h = chunk_header(buffer@, pos as int);
            assert(h.subrange(0, 4) =~= buffer@.subrange(pos as int, pos + 4));
            assert(h.subrange(4, 8) =~= buffer@.subrange(pos + 4, pos + 8));
        }
        (read_u32_be(buffer, pos), read_i32_be(buffer, pos + 4), pos + 8)
    } else {
        let header = padded_copy(buffer, pos, 8);
        proof {
            let h = chunk_header(buffer@, pos as int);
            assert(header@.subrange(0, 4) =~= h.subrange(0, 4));
            assert(header@.subrange(4, 8) =~= h.subrange(4, 8));
        }
        (read_u32_be(header.as_slice(), 0), read_i32_be(header.as_slice(), 4), buffer.len())
    }
}

/// The size of the chunk whose header announces `raw`, with the trailing
/// pad byte that an odd size leaves out.
fn padded_chunk_size(raw: i32) -> (r: i64)
    ensures
        r == padded_size(raw as int),
{
    if raw % 2 != 0 {
        raw as i64 + 1
    } else {
        raw as i64
    }
}

/// Reads the audio data of the sound data chunk whose body starts at
/// `after` and whose header announces `raw` bytes, given the common chunk,
/// the codec it names, and whether a format version chunk was read.
fn read_sound_data(
    buffer: &[u8],
    after: usize,
    raw: i64,
    chunk: CommonChunk,
    codec: Option<Codec>,
    read_fver_chunk: bool,
) -> (r: AudioResult<AudioDecoder>)
    requires
        after <= buffer.len(),
        raw >= 0 ==> after + raw <= buffer.len(),
        codec matches Some(c) ==> spec_is_aifc(c) is Some,
    ensures
        walk_result(
            sound_data_walk(after as int, raw as int, chunk, codec, read_fver_chunk),
            buffer@,
            r,
        ),
{
    reveal(walk_result);
    // First 8 bytes are offset and block_size, skip them
    if raw < 8 {
        return Err(AudioError::AudioEnd);
    }
    let codec = match codec {
        Some(c) => c,
        None => {
            return Err(
                AudioError::Unsupported(String::from_str("Audio encoded with unsupported codec")),
            );
        },
    };
    // Check if required chunks were read
    let aifc = match is_aifc(codec) {
        Ok(b) => b,
        Err(e) => return Err(e),
    };
    if aifc && !read_fver_chunk {
        return Err(
            AudioError::Format(
                String::from_str("File is not valid AIFC (Missing required FormatVersion chunk)"),
            ),
        );
    }
    let data = slice_to_vec(slice_subrange(buffer, after + 8, after + raw as usize));
    Ok(
        AudioDecoder::with_data(
            Some(codec),
            #[verifier::truncate]
            (chunk.bit_depth as u32),
            chunk.sample_rate,
            #[verifier::truncate]
            (chunk.num_channels as u32),
            data,
        ),
    )
}

/// Walks through the chunks of an AIFF buffer, the bytes after the IFF
/// header, to find the required chunks for audio decoding; all other chunks
/// are ignored and skipped.
///
/// Fails with `AudioEnd` when the walk runs past the end of the buffer; with
/// `Format` for a chunk of negative size, a sound data chunk before the common
/// chunk, or AIFF-C data without a format version chunk before it; and with
/// `Unsupported` for an unsupported codec.
pub fn read_chunks_for_audio(buffer: &[u8]) -> (r: AudioResult<AudioDecoder>)
    ensures
        walk_result(aiff_walk(buffer@, 0, None, false), buffer@, r),
{
    reveal(walk_result);
    let mut comm: Option<(CommonChunk, Option<Codec>)> = None;
    let mut read_fver_chunk = false;
    let mut pos: usize = 0;
    loop
        invariant
            pos <= buffer.len(),
            aiff_walk(buffer@, 0, None, false) == aiff_walk(buffer@, pos as int, comm, read_fver_chunk),
            comm matches Some((_, Some(c))) ==> spec_is_aifc(c) is Some,
        decreases buffer.len() - pos,
    {
        reveal(walk_result);
        reveal(aiff_walk);
        // If no sound data chunk is found, the end of the data is reached.
        if pos >= buffer.len() {
            return Err(AudioError::AudioEnd);
        }
        let (id, raw_size, after) = read_chunk_header(buffer, pos);
        let chunk = identify_chunk(id);
        // AIFF chunk sizes must always be even and may not specify the
        // trailing byte in the read chunk size.
        let size = padded_chunk_size(raw_size);
        if size < 0 {
            return Err(AudioError::Format(String::from_str("Chunk of negative size")));
        }
        let remaining = buffer.len() - after;
        if size as u64 > remaining as u64 {
            if chunk == Some(AiffChunk::SoundData) && comm.is_none() {
                return Err(
                    AudioError::Format(
                        String::from_str(
                            "File is not valid AIFF (Common chunk must occur before SoundData chunk)",
                        ),
                    ),
                );
            }
            return Err(AudioError::AudioEnd);
        }
        let next = after + size as usize;
        match chunk {
            Some(AiffChunk::FormatVersion) => {
                read_fver_chunk = true;
            },
            Some(AiffChunk::Common) => {
                let bytes = slice_subrange(buffer, after, next);
                let chunk = match CommonChunk::read(bytes) {
                    Ok(c) => c,
                    Err(e) => return Err(e),
                };
                let codec = match determine_codec(chunk.compression_type, chunk.bit_depth) {
                    Ok(c) => Some(c),
                    Err(_) => None,
                };
                comm = Some((chunk, codec));
            },
            Some(AiffChunk::SoundData) => {
                match comm {
                    None => {
                        return Err(
                            AudioError::Format(
                                String::from_str(
                                    "File is not valid AIFF (Common chunk must occur before SoundData chunk)",
                                ),
                            ),
                        );
                    },
                    Some((chunk, codec)) => {
                        return read_sound_data(
                            buffer,
                            after,
                            raw_size as i64,
                            chunk,
                            codec,
                            read_fver_chunk,
                        );
                    },
                }
            },
            // Skip all other chunks unnecessary for audio decoding
            None => {},
        }
        pos = next;
    }
}

/// Whether reading the whole AIFF file `bytes` gives `r`: the chunks after
/// a valid IFF header are walked; anything else is a `Format` error.
pub open spec fn read_outcome(bytes: Seq<u8>, r: AudioResult<AudioDecoder>) -> bool {
    let header = padded(bytes, 0, 12);
    if is_iff_header(header) {
        let buffer = padded(bytes, 12, (i32_at(header, 4) - 4) as nat);
        walk_result(aiff_walk(buffer, 0, None, false), buffer, r)
    } else {
        r matches Err(AudioError::Format(message)) && message@ == header_message(header)
    }
}

/// Reads the chunks of a whole AIFF file for audio decoding.
///
/// As when reading a file, the header takes the first 12 bytes and the
/// chunks the number of bytes that the header announces, with zeros past the
/// end of `bytes`.
pub fn read(bytes: &[u8]) -> (r: AudioResult<AudioDecoder>)
    requires
        iff_size_ok(padded(bytes@, 0, 12)),
    ensures
        read_outcome(bytes@, r),
{
    let header = padded_copy(bytes, 0, 12);
    let hs = header.as_slice();
    assert(hs@ == padded(bytes@, 0, 12));
    let file_size = match read_iff_header(hs) {
        Ok(size) => size,
        Err(e) => return Err(e),
    };
    assert(is_iff_header(hs@));
    proof {
        lemma_be_value_bound(hs@.subrange(4, 8));
        reveal_with_fuel(pow256, 5);
    }
    assert(file_size >= 0);
    let buffer = padded_copy(bytes, 12, file_size as usize);
    let bs = buffer.as_slice();
    let r = read_chunks_for_audio(bs);
    assert(bs@ == padded(bytes@, 12, (i32_at(hs@, 4) - 4) as nat));
    r
}

/// The size of the body of the common chunk for audio encoded with `codec`,
/// if AIFF supports it.
pub open spec fn spec_common_chunk_size(codec: Codec) -> Option<i32> {
    match codec {
        Codec::LPCM_U8 => Some(24),
        Codec::G711_ALAW | Codec::G711_ULAW => Some(32),
        Codec::LPCM_F32_BE | Codec::LPCM_F64_BE => Some(40),
        Codec::LPCM_I8 | Codec::LPCM_I16_BE | Codec::LPCM_I24_BE | Codec::LPCM_I32_BE => Some(18),
        _ => None,
    }
}

/// The bit depth that the common chunk records for `codec`, if AIFF supports
/// it.
pub open spec fn spec_common_bit_depth(codec: Codec) -> Option<i16> {
    match codec {
        Codec::LPCM_U8 | Codec::LPCM_I8 => Some(8),
        Codec::G711_ALAW | Codec::G711_ULAW | Codec::LPCM_I16_BE => Some(16),
        Codec::LPCM_I24_BE => Some(24),
        Codec::LPCM_I32_BE | Codec::LPCM_F32_BE => Some(32),
        Codec::LPCM_F64_BE => Some(64),
        _ => None,
    }
}

/// The compression type tag that AIFF-C records for `codec`.
pub open spec fn compression_tag(codec: Codec) -> u32 {
    match codec {
        Codec::LPCM_U8 => RAW_TAG,
        Codec::G711_ALAW => ALAW_TAG,
        Codec::G711_ULAW => ULAW_TAG,
        Codec::LPCM_F32_BE => FL32_TAG,
        _ => FL64_TAG,
    }
}

/// The compression name that AIFF-C records for `codec`.
pub open spec fn compression_name(codec: Codec) -> Seq<u8> {
    match codec {
        // ""
        Codec::LPCM_U8 => Seq::empty(),
        // "ALaw 2:1"
        Codec::G711_ALAW => seq![0x41u8, 0x4C, 0x61, 0x77, 0x20, 0x32, 0x3A, 0x31],
        // "µLaw 2:1", with the µ in Mac OS Roman
        Codec::G711_ULAW => seq![0xB5u8, 0x6C, 0x61, 0x77, 0x20, 0x32, 0x3A, 0x31],
        // "IEEE 32-bit float"
        Codec::LPCM_F32_BE => seq![
            0x49u8, 0x45, 0x45, 0x45, 0x20, 0x33, 0x32, 0x2D, 0x62, 0x69, 0x74, 0x20, 0x66, 0x6C,
            0x6F, 0x61, 0x74,
        ],
        // "IEEE 64-bit float"
        _ => seq![
            0x49u8, 0x45, 0x45, 0x45, 0x20, 0x36, 0x34, 0x2D, 0x62, 0x69, 0x74, 0x20, 0x66, 0x6C,
            0x6F, 0x61, 0x74,
        ],
    }
}

/// A Pascal-style string as the common chunk records it: an empty string
/// is two zero bytes; otherwise a count byte, the text, and a pad byte that
/// keeps the whole even.
pub open spec fn pascal_string(text: Seq<u8>) -> Seq<u8> {
    if text.len() == 0 {
        seq![0u8, 0u8]
    } else if (text.len() + 1) % 2 == 1 {
        seq![text.len() as u8] + text + seq![0u8]
    } else {
        seq![text.len() as u8] + text
    }
}

/// The AIFF-C fields of the common chunk for `codec`: its compression tag
/// and name. Plain AIFF records neither.
pub open spec fn compression_bytes(codec: Codec) -> Seq<u8> {
    if spec_is_aifc(codec) == Some(true) {
        be_bytes(compression_tag(codec) as int, 4) + pascal_string(compression_name(codec))
    } else {
        Seq::empty()
    }
}

/// The bytes of a common chunk, header included, for audio with the given
/// attributes encoded with `codec`, which AIFF supports.
pub open spec fn common_chunk_bytes(codec: Codec, channels: u32, num_samples: nat, sample_rate: u32) -> Seq<u8> {
    be_bytes(COMM as int, 4) + be_bytes(spec_common_chunk_size(codec).unwrap() as int, 4)
        + be_bytes(channels as int, 2) + be_bytes(
        ((num_samples % 0x1_0000_0000) / (channels as nat)) as int,
        4,
    ) + be_bytes(spec_common_bit_depth(codec).unwrap() as int, 2) + extended_of_u32(sample_rate)
        + compression_bytes(codec)
}

/// The `i16` with the same low 16 bits as `n`.
fn wrap_i16(n: u32) -> (r: i16)
    ensures
        be_bytes(r as int, 2) == be_bytes(n as int, 2),
{
    let low: u32 = n % 0x1_0000;
    proof {
        assert(pow256(2) == 0x1_0000) by {
            reveal_with_fuel(pow256, 3);
        }
        lemma_be_bytes_periodic(low as int, (n / 0x1_0000) as int, 2);
        if low >= 0x8000 {
            lemma_be_bytes_periodic(low - 0x1_0000, 1, 2);
        }
    }
    if low >= 0x8000 {
        (low as i32 - 0x1_0000) as i16
    } else {
        low as i16
    }
}

/// The `i32` with the same low 32 bits as `n`.
fn wrap_i32(n: u64) -> (r: i32)
    ensures
        be_bytes(r as int, 4) == be_bytes(n as int, 4),
{
    let low: u64 = n % 0x1_0000_0000;
    proof {
        assert(pow256(4) == 0x1_0000_0000) by {
            reveal_with_fuel(pow256, 5);
        }
        lemma_be_bytes_periodic(low as int, (n / 0x1_0000_0000) as int, 4);
        if low >= 0x8000_0000 {
            lemma_be_bytes_periodic(low - 0x1_0000_0000, 1, 4);
        }
    }
    if low >= 0x8000_0000 {
        (low as i64 - 0x1_0000_0000) as i32
    } else {
        low as i32
    }
}

impl CommonChunk {
    /// Returns the size of the body of the chunk based on the codec to be
    /// used to encode the relevant audio samples.
    pub fn calculate_size(codec: Codec) -> (r: AudioResult<i32>)
        ensures
            match spec_common_chunk_size(codec) {
                Some(n) => r == Ok::<i32, AudioError>(n),
                None => r matches Err(AudioError::Unsupported(message)) && message@
                    == unsupported_message(codec),
            },
    {
        match codec {
            Codec::LPCM_U8 => Ok(24),
            Codec::G711_ALAW | Codec::G711_ULAW => Ok(32),
            Codec::LPCM_F32_BE | Codec::LPCM_F64_BE => Ok(40),
            Codec::LPCM_I8 | Codec::LPCM_I16_BE | Codec::LPCM_I24_BE | Codec::LPCM_I32_BE => Ok(18),
            c => Err(unsupported_codec(c)),
        }
    }

    /// Returns the bit depth corresponding to the given codec used in this
    /// format.
    fn get_bit_depth(codec: Codec) -> (r: AudioResult<i16>)
        ensures
            match spec_common_bit_depth(codec) {
                Some(n) => r == Ok::<i16, AudioError>(n),
                None => r matches Err(AudioError::Unsupported(message)) && message@
                    == unsupported_message(codec),
            },
    {
        match codec {
            Codec::LPCM_U8 | Codec::LPCM_I8 => Ok(8),
            Codec::G711_ALAW | Codec::G711_ULAW | Codec::LPCM_I16_BE => Ok(16),
            Codec::LPCM_I24_BE => Ok(24),
            Codec::LPCM_I32_BE | Codec::LPCM_F32_BE => Ok(32),
            Codec::LPCM_F64_BE => Ok(64),
            c => Err(unsupported_codec(c)),
        }
    }
}

/// Writes the AIFF-C fields of the common chunk for `codec`: its compression
/// tag and name.
fn write_compression(out: &mut Vec<u8>, codec: Codec) -> (r: AudioResult<()>)
    requires
        spec_is_aifc(codec) == Some(true),
    ensures
        r is Ok,
        final(out)@ == old(out)@ + compression_bytes(codec),
{
    let ghost start = out@;
    match codec {
        Codec::LPCM_U8 => {
            write_u32_be(out, RAW_TAG);
            write_i16_be(out, 0);
            assert(be_bytes(0, 2) =~= seq![0u8, 0u8]) by {
                reveal_with_fuel(be_bytes, 3);
            }
        },
        Codec::G711_ALAW => {
            write_u32_be(out, ALAW_TAG);
            let name: [u8; 10] = [8, 0x41, 0x4C, 0x61, 0x77, 0x20, 0x32, 0x3A, 0x31, 0];
            out.extend_from_slice(&name);
        },
        Codec::G711_ULAW => {
            write_u32_be(out, ULAW_TAG);
            let name: [u8; 10] = [8, 0xB5, 0x6C, 0x61, 0x77, 0x20, 0x32, 0x3A, 0x31, 0];
            out.extend_from_slice(&name);
        },
        Codec::LPCM_F32_BE => {
            write_u32_be(out, FL32_TAG);
            let name: [u8; 18] = [
                17, 0x49, 0x45, 0x45, 0x45, 0x20, 0x33, 0x32, 0x2D, 0x62, 0x69, 0x74, 0x20, 0x66,
                0x6C, 0x6F, 0x61, 0x74,
            ];
            out.extend_from_slice(&name);
        },
        _ => {
            write_u32_be(out, FL64_TAG);
            let name: [u8; 18] = [
                17, 0x49, 0x45, 0x45, 0x45, 0x20, 0x36, 0x34, 0x2D, 0x62, 0x69, 0x74, 0x20, 0x66,
                0x6C, 0x6F, 0x61, 0x74,
            ];
            out.extend_from_slice(&name);
        },
    }
    assert(final(out)@ =~= start + compression_bytes(codec));
    Ok(())
}

impl CommonChunk {
    /// Writes the common chunk, header included, for the encoder's audio
    /// encoded with its codec.
    ///
    /// Returns an `Unsupported` error for a codec that AIFF does not
    /// support.
    pub fn write(out: &mut Vec<u8>, encoder: &AudioEncoder) -> (r: AudioResult<()>)
        requires
            encoder.channels > 0,
        ensures
            match spec_common_chunk_size(encoder.codec) {
                Some(_) => r is Ok && final(out)@ == old(out)@ + common_chunk_bytes(
                    encoder.codec,
                    encoder.channels,
                    encoder.samples@.len(),
                    encoder.sample_rate,
                ),
                None => r matches Err(AudioError::Unsupported(message)) && message@
                    == unsupported_message(encoder.codec) && final(out)@ == old(out)@,
            },
    {
        let codec = encoder.codec;
        let chunk_size = match CommonChunk::calculate_size(codec) {
            Ok(n) => n,
            Err(e) => return Err(e),
        };
        let aifc = match is_aifc(codec) {
            Ok(b) => b,
            Err(e) => return Err(e),
        };
        let bit_depth = match CommonChunk::get_bit_depth(codec) {
            Ok(n) => n,
            Err(e) => return Err(e),
        };
        let ghost start = out@;
        write_u32_be(out, COMM);
        write_i32_be(out, chunk_size);
        write_i16_be(out, wrap_i16(encoder.channels));
        let num_samples = (encoder.samples.len() as u64 % 0x1_0000_0000) as u32;
        write_u32_be(out, num_samples / encoder.channels);
        write_i16_be(out, bit_depth);
        let rate = extended_from_sample_rate(encoder.sample_rate);
        out.extend_from_slice(rate.as_slice());
        // Write additional AIFF-C information
        if aifc {
            match write_compression(out, codec) {
                Ok(()) => {},
                Err(e) => return Err(e),
            }
        }
        assert(final(out)@ =~= start + common_chunk_bytes(
            codec,
            encoder.channels,
            encoder.samples@.len(),
            encoder.sample_rate,
        ));
        Ok(())
    }
}

/// The bytes of the sound data chunk that holds `data`: the offset and block
/// size, both zero, the data, and a pad byte after data of odd length.
pub open spec fn sound_data_chunk_bytes(data: Seq<u8>) -> Seq<u8> {
    be_bytes(SSND as int, 4) + be_bytes(data.len() + 8int, 4) + be_bytes(0, 8) + data + if data.len()
        % 2 != 0 {
        seq![0u8]
    } else {
        Seq::empty()
    }
}

/// The AIFF Sound Data Chunk.
///
/// This chunk contains the encoded sound data, which cannot be read without
/// the information from the Common Chunk. This chunk also contains offset
/// and block size values within 8 bytes prior to the actual sound data.
pub struct SoundDataChunk;

impl SoundDataChunk {
    /// Writes the sound data chunk, header included, holding `data`. The
    /// offset and block size values are always written as zero. A pad byte
    /// is added if the encoded data is not of even size.
    pub fn write(out: &mut Vec<u8>, data: &[u8]) -> (r: AudioResult<()>)
        requires
            data.len() + 8 <= usize::MAX,
        ensures
            r is Ok,
            final(out)@ == old(out)@ + sound_data_chunk_bytes(data@),
    {
        let ghost start = out@;
        write_u32_be(out, SSND);
        write_i32_be(out, wrap_i32((data.len() + 8) as u64));
        // offset and block_size. Both 0
        write_u64_be(out, 0);
        out.extend_from_slice(data);
        // IFF chunks must be of even size
        if data.len() % 2 != 0 {
            out.push(0);
        }
        assert(final(out)@ =~= start + sound_data_chunk_bytes(data@));
        Ok(())
    }
}

/// The bytes of the header of an AIFF file whose chunks take `total` bytes
/// in all: the IFF header and, for AIFF-C, the format version chunk.
pub open spec fn iff_header_bytes(aifc: bool, total: int) -> Seq<u8> {
    be_bytes(FORM as int, 4) + be_bytes(total - 8, 4) + if aifc {
        be_bytes(AIFC as int, 4) + be_bytes(FVER as int, 4) + be_bytes(4, 4) + be_bytes(
            AIFC_VERSION_1 as int,
            4,
        )
    } else {
        be_bytes(AIFF as int, 4)
    }
}

/// The bytes of an AIFF file with the given attributes and encoded data,
/// for a codec that AIFF supports.
pub open spec fn aiff_file_bytes(
    codec: Codec,
    channels: u32,
    sample_rate: u32,
    num_samples: nat,
    data: Seq<u8>,
) -> Seq<u8> {
    let aifc = spec_is_aifc(codec) == Some(true);
    let pad = if data.len() % 2 != 0 {
        1int
    } else {
        0int
    };
    let total = 12 + (8 + spec_common_chunk_size(codec).unwrap()) + (8 + (8 + data.len() + pad))
        + if aifc {
        12int
    } else {
        0int
    };
    iff_header_bytes(aifc, total) + common_chunk_bytes(codec, channels, num_samples, sample_rate)
        + sound_data_chunk_bytes(data)
}

/// What `write` requires of an encoder (see `write_fits`).
pub open spec fn aiff_encoder_ok(encoder: AudioEncoder) -> bool {
    write_fits(encoder.codec, encoder.channels, encoder.samples@.len())
}

/// What writing audio with the given attributes requires: the sizes that
/// the file records fit in 32 bits, and frames can be counted for the
/// common chunk. Only a codec that AIFF supports gets this far.
pub open spec fn write_fits(codec: Codec, channels: u32, num_samples: nat) -> bool {
    spec_is_aifc(codec) is Some ==> {
        &&& num_samples * sample_size(codec) <= u32::MAX - 88
        &&& channels > 0
    }
}

/// Whether writing `samples` as an AIFF file with the given attributes gives
/// `r`: the file's bytes for a codec that AIFF supports, an `Unsupported`
/// error otherwise.
pub open spec fn write_outcome(
    codec: Codec,
    channels: u32,
    sample_rate: u32,
    samples: Seq<i64>,
    r: AudioResult<Vec<u8>>,
) -> bool {
    if spec_is_aifc(codec) is Some {
        r matches Ok(bytes) && bytes@ == aiff_file_bytes(
            codec,
            channels,
            sample_rate,
            samples.len(),
            encoded(samples, codec),
        )
    } else {
        r matches Err(AudioError::Unsupported(message)) && message@ == unsupported_message(codec)
    }
}

/// Writes the encoder's audio as an AIFF file, or an AIFF-C file for the
/// codecs that plain AIFF does not hold.
///
/// Returns an `Unsupported` error when AIFF does not support the codec.
pub fn write(encoder: &mut AudioEncoder) -> (r: AudioResult<Vec<u8>>)
    requires
        aiff_encoder_ok(*old(encoder)),
    ensures
        *final(encoder) == *old(encoder),
        write_outcome(
            old(encoder).codec,
            old(encoder).channels,
            old(encoder).sample_rate,
            old(encoder).samples@,
            r,
        ),
{
    // Determine if codec is supported by container and if it's supported by
    // aiff or aiff-c.
    let aifc = match is_aifc(encoder.codec) {
        Ok(b) => b,
        Err(e) => return Err(e),
    };
    // Encode audio samples using codec.
    let data = match encoder.encode() {
        Ok(d) => d,
        Err(e) => return Err(e),
    };
    proof {
        lemma_encoded_len(encoder.samples@, encoder.codec);
    }
    let comm_chunk_size = match CommonChunk::calculate_size(encoder.codec) {
        Ok(n) => n as u32,
        Err(e) => return Err(e),
    };
    // The ssnd chunk contains 8 additional bytes besides the audio data.
    let ssnd_chunk_size: u32 = 8 + data.len() as u32;
    let mut total_bytes: u32 = 12 + (8 + comm_chunk_size) + (8 + ssnd_chunk_size);
    // The pad byte after data of odd length belongs to the sound data chunk.
    if data.len() % 2 != 0 {
        total_bytes = total_bytes + 1;
    }
    // Aiff-c files must include a format version chunk.
    if aifc {
        total_bytes = total_bytes + 12;
    }
    let mut out: Vec<u8> = Vec::new();
    // Write the iff header.
    write_u32_be(&mut out, FORM);
    write_u32_be(&mut out, total_bytes - 8);
    if aifc {
        write_u32_be(&mut out, AIFC);
        // Write form version chunk. Required by aiff-c.
        write_u32_be(&mut out, FVER);
        write_u32_be(&mut out, 4);
        write_u32_be(&mut out, AIFC_VERSION_1);
    } else {
        write_u32_be(&mut out, AIFF);
    }
    let ghost header = out@;
    // Write comm chunk.
    match CommonChunk::write(&mut out, encoder) {
        Ok(()) => {},
        Err(e) => return Err(e),
    }
    // Write ssnd chunk.
    match SoundDataChunk::write(&mut out, data.as_slice()) {
        Ok(()) => {},
        Err(e) => return Err(e),
    }
    assert(header =~= iff_header_bytes(aifc, total_bytes as int));
    Ok(out)
}

/// The big-endian value of `n` bytes written for `w`.
proof fn lemma_be_field(w: int, n: nat)
    requires
        0 <= w < pow256(n),
    ensures
        be_value(be_bytes(w, n)) == w,
        be_bytes(w, n).len() == n,
{
    lemma_be_round_trip(w, n);
    lemma_be_bytes_len(w, n);
    vstd::arithmetic::div_mod::lemma_small_mod(w as nat, pow256(n));
}

/// The identifier and size that the header of a written chunk gives back.
proof fn lemma_written_header(id: u32, size: int, body: Seq<u8>)
    requires
        0 <= size < 0x8000_0000,
    ensures
        ({
            let c = be_bytes(id as int, 4) + be_bytes(size, 4) + body;
            &&& c.len() == 8 + body.len()
            &&& tag_at(c.subrange(0, 8), 0) == id
            &&& i32_at(c.subrange(0, 8), 4) == size
            &&& c.subrange(8, c.len() as int) == body
        }),
{
    let c = be_bytes(id as int, 4) + be_bytes(size, 4) + body;
    assert(pow256(4) == 0x1_0000_0000) by {
        reveal_with_fuel(pow256, 5);
    }
    lemma_be_field(id as int, 4);
    lemma_be_field(size, 4);
    assert(c.subrange(0, 8).subrange(0, 4) =~= be_bytes(id as int, 4));
    assert(c.subrange(0, 8).subrange(4, 8) =~= be_bytes(size, 4));
    assert(c.subrange(8, c.len() as int) =~= body);
}

/// The body of a written common chunk: channels, frames, bit depth, sample
/// rate, and the AIFF-C fields.
pub open spec fn common_body(codec: Codec, channels: u32, num_samples: nat, sample_rate: u32) -> Seq<u8> {
    be_bytes(channels as int, 2) + be_bytes(((num_samples % 0x1_0000_0000) / (channels as nat)) as int, 4)
        + be_bytes(spec_common_bit_depth(codec).unwrap() as int, 2) + extended_of_u32(sample_rate)
        + compression_bytes(codec)
}

/// The length of the AIFF-C fields of a written common chunk.
proof fn lemma_compression_bytes_len(codec: Codec)
    requires
        spec_is_aifc(codec) is Some,
    ensures
        compression_bytes(codec).len() + 18 == spec_common_chunk_size(codec).unwrap(),
        spec_is_aifc(codec) == Some(true) ==> compression_bytes(codec).subrange(0, 4) == be_bytes(
            compression_tag(codec) as int,
            4,
        ),
{
    lemma_be_bytes_len(compression_tag(codec) as int, 4);
    if spec_is_aifc(codec) == Some(true) {
        assert(compression_bytes(codec).subrange(0, 4) =~= be_bytes(compression_tag(codec) as int, 4));
    }
}

/// The body of a written common chunk reads back as the attributes that
/// were written.
proof fn lemma_parse_written_common(codec: Codec, channels: u32, num_samples: nat, sample_rate: u32)
    requires
        spec_is_aifc(codec) is Some,
        0 < channels <= 0x7FFF,
    ensures
        ({
            let body = common_body(codec, channels, num_samples, sample_rate);
            &&& common_chunk_bytes(codec, channels, num_samples, sample_rate) == be_bytes(
                COMM as int,
                4,
            ) + be_bytes(spec_common_chunk_size(codec).unwrap() as int, 4) + body
            &&& body.len() == spec_common_chunk_size(codec).unwrap()
            &&& parse_common_chunk(body) matches Ok(chunk) && chunk.num_channels as u32 == channels
                && chunk.bit_depth as u32 == spec_common_bit_depth(codec).unwrap() as u32 && chunk.sample_rate == sample_rate
                && spec_determine_codec(chunk.compression_type, chunk.bit_depth) == Some(codec)
        }),
{
    let body = common_body(codec, channels, num_samples, sample_rate);
    let frames = ((num_samples % 0x1_0000_0000) / (channels as nat)) as int;
    let bd = spec_common_bit_depth(codec).unwrap() as int;
    assert(pow256(2) == 0x1_0000 && pow256(4) == 0x1_0000_0000) by {
        reveal_with_fuel(pow256, 5);
    }
    lemma_be_field(channels as int, 2);
    lemma_be_bytes_len(frames, 4);
    lemma_be_field(bd, 2);
    lemma_extended_of_u32_len(sample_rate);
    lemma_compression_bytes_len(codec);
    lemma_sample_rate_round_trip(sample_rate);
    assert(body.subrange(0, 2) =~= be_bytes(channels as int, 2));
    assert(body.subrange(6, 8) =~= be_bytes(bd, 2));
    assert(body.subrange(8, 18) =~= extended_of_u32(sample_rate));
    if spec_is_aifc(codec) == Some(true) {
        assert(body.subrange(18, 22) =~= compression_bytes(codec).subrange(0, 4));
        lemma_be_field(compression_tag(codec) as int, 4);
    }
    assert(common_chunk_bytes(codec, channels, num_samples, sample_rate) =~= be_bytes(COMM as int, 4)
        + be_bytes(spec_common_chunk_size(codec).unwrap() as int, 4) + body);
}

/// Where the fields of a common chunk stand: its identifier, its size, the
/// channel count (16 bits), the frame count (the sample count, cut to 32
/// bits, over the channels), the bit depth, the sample rate as an extended
/// number that reads back as the rate, and then the AIFF-C fields; each
/// number big-endian.
pub proof fn lemma_common_chunk_fields(codec: Codec, channels: u32, num_samples: nat, sample_rate: u32)
    requires
        spec_is_aifc(codec) is Some,
        channels > 0,
    ensures
        ({
            let b = common_chunk_bytes(codec, channels, num_samples, sample_rate);
            &&& b.len() == 8 + spec_common_chunk_size(codec).unwrap()
            &&& b.subrange(0, 4) == be_bytes(COMM as int, 4)
            &&& be_value(b.subrange(4, 8)) == spec_common_chunk_size(codec).unwrap()
            &&& be_value(b.subrange(8, 10)) == channels % 0x1_0000
            &&& be_value(b.subrange(10, 14)) == (num_samples % 0x1_0000_0000) / (channels as nat)
            &&& be_value(b.subrange(14, 16)) == spec_common_bit_depth(codec).unwrap()
            &&& b.subrange(16, 26) == extended_of_u32(sample_rate)
            &&& extended_as_u32(b.subrange(16, 26)) == sample_rate
            &&& b.subrange(26, b.len() as int) == compression_bytes(codec)
        }),
{
    let b = common_chunk_bytes(codec, channels, num_samples, sample_rate);
    let size = spec_common_chunk_size(codec).unwrap() as int;
    let frames = ((num_samples % 0x1_0000_0000) / (channels as nat)) as int;
    let bd = spec_common_bit_depth(codec).unwrap() as int;
    assert(pow256(2) == 0x1_0000 && pow256(4) == 0x1_0000_0000) by {
        reveal_with_fuel(pow256, 5);
    }
    assert(0 <= frames < 0x1_0000_0000) by (nonlinear_arith)
        requires
            frames == (num_samples % 0x1_0000_0000) / (channels as nat),
            channels >= 1,
    ;
    lemma_be_bytes_len(COMM as int, 4);
    lemma_be_field(size, 4);
    lemma_be_round_trip(channels as int, 2);
    lemma_be_bytes_len(channels as int, 2);
    lemma_be_field(frames, 4);
    lemma_be_field(bd, 2);
    lemma_extended_of_u32_len(sample_rate);
    lemma_compression_bytes_len(codec);
    lemma_sample_rate_round_trip(sample_rate);
    assert(b.subrange(0, 4) =~= be_bytes(COMM as int, 4));
    assert(b.subrange(4, 8) =~= be_bytes(size, 4));
    assert(b.subrange(8, 10) =~= be_bytes(channels as int, 2));
    assert(b.subrange(10, 14) =~= be_bytes(frames, 4));
    assert(b.subrange(14, 16) =~= be_bytes(bd, 2));
    assert(b.subrange(16, 26) =~= extended_of_u32(sample_rate));
    assert(b.subrange(26, b.len() as int) =~= compression_bytes(codec));
}

/// A walk that ends at the same chunks as `w`, with the data found `k`
/// bytes further on.
pub open spec fn shifted_walk(w: ChunkWalk<CommonChunk>, k: nat) -> ChunkWalk<CommonChunk> {
    match w {
        ChunkWalk::Found { format, codec, start, len } => ChunkWalk::Found {
            format,
            codec,
            start: start + k,
            len,
        },
        ChunkWalk::Failed(f) => ChunkWalk::Failed(f),
    }
}

/// Walking the chunks of `r` after the bytes `p` is walking `r` itself, with
/// every position moved by the length of `p`; data that a walk finds lies
/// within the buffer.
proof fn lemma_walk_shift(
    p: Seq<u8>,
    r: Seq<u8>,
    pos: int,
    comm: Option<(CommonChunk, Option<Codec>)>,
    fver: bool,
)
    requires
        0 <= pos,
    ensures
        aiff_walk(p + r, p.len() + pos, comm, fver) == shifted_walk(aiff_walk(r, pos, comm, fver), p.len()),
        aiff_walk(r, pos, comm, fver) matches ChunkWalk::Found { start, len, .. } ==> start + len
            <= r.len(),
    decreases r.len() - pos,
{
    reveal(aiff_walk);
    let b = p + r;
    let k = p.len() as int;
    if pos < r.len() {
        let header = chunk_header(r, pos);
        assert(chunk_header(b, k + pos) =~= header);
        let id = tag_at(header, 0);
        let size = padded_size(i32_at(header, 4));
        let after = body_start(r, pos);
        let next = after + size;
        assert(body_start(b, k + pos) == k + after);
        if size >= 0 && next <= r.len() {
            assert(b.subrange(k + after, k + next) =~= r.subrange(after, next));
            if id == COMM {
                match parse_common_chunk(r.subrange(after, next)) {
                    Err(f) => {},
                    Ok(chunk) => {
                        lemma_walk_shift(
                            p,
                            r,
                            next,
                            Some((chunk, spec_determine_codec(chunk.compression_type, chunk.bit_depth))),
                            fver,
                        );
                    },
                }
            } else if id != SSND {
                lemma_walk_shift(p, r, next, comm, fver || id == FVER);
            }
        }
    }
}

/// The bytes of a chunk with identifier `id` and body `body`, followed by
/// the pad byte `pad` when the body has an odd length.
pub open spec fn chunk_with_pad(id: u32, body: Seq<u8>, pad: u8) -> Seq<u8> {
    be_bytes(id as int, 4) + be_bytes(body.len() as int, 4) + body + if body.len() % 2 == 1 {
        seq![pad]
    } else {
        Seq::empty()
    }
}

/// A chunk that decoding does not use, odd-sized or not, is skipped together
/// with its pad byte: reading the chunks with it in front of `rest` gives
/// what reading `rest` alone gives (the same decoder, or an error of the
/// same kind).
pub proof fn lemma_unused_chunk_skipped(
    id: u32,
    body: Seq<u8>,
    pad: u8,
    rest: Seq<u8>,
    r1: AudioResult<AudioDecoder>,
    r2: AudioResult<AudioDecoder>,
)
    requires
        id != COMM && id != SSND && id != FVER,
        body.len() < 0x8000_0000,
        walk_result(
            aiff_walk(chunk_with_pad(id, body, pad) + rest, 0, None, false),
            chunk_with_pad(id, body, pad) + rest,
            r1,
        ),
        walk_result(aiff_walk(rest, 0, None, false), rest, r2),
    ensures
        r1 is Ok <==> r2 is Ok,
        r1 matches Ok(d1) ==> (r2 matches Ok(d2) && d1.codec == d2.codec && d1.bit_depth
            == d2.bit_depth && d1.sample_rate == d2.sample_rate && d1.channels == d2.channels
            && d1.data@ == d2.data@ && d1.index == d2.index),
        r1 matches Err(e1) ==> (r2 matches Err(e2) && (e1 is Format <==> e2 is Format) && (
        e1 is Unsupported <==> e2 is Unsupported) && (e1 is AudioEnd <==> e2 is AudioEnd)),
{
    reveal(aiff_walk);
    reveal(walk_result);
    let u = chunk_with_pad(id, body, pad);
    let b = u + rest;
    let tail = body + if body.len() % 2 == 1 {
        seq![pad]
    } else {
        Seq::<u8>::empty()
    };
    lemma_written_header(id, body.len() as int, tail);
    assert(u =~= be_bytes(id as int, 4) + be_bytes(body.len() as int, 4) + tail);
    assert(b.subrange(0, u.len() as int) =~= u);
    crate::format::lemma_chunk_at(b, 0, u);
    assert(padded_size(body.len() as int) == tail.len());
    assert(aiff_walk(b, 0, None, false) == aiff_walk(b, u.len() as int, None, false));
    lemma_walk_shift(u, rest, 0, None, false);
    match aiff_walk(rest, 0, None, false) {
        ChunkWalk::Found { format, codec, start, len } => {
            assert(b.subrange(u.len() + start as int, u.len() + start + len as int) =~= rest.subrange(
                start as int,
                start + len as int,
            ));
        },
        ChunkWalk::Failed(f) => {},
    }
}

/// The bytes of the format version chunk that AIFF-C files hold.
pub open spec fn fver_chunk_bytes() -> Seq<u8> {
    be_bytes(FVER as int, 4) + be_bytes(4, 4) + be_bytes(AIFC_VERSION_1 as int, 4)
}

/// A walk over a written format version chunk skips it and notes it.
proof fn lemma_walk_fver(
    buffer: Seq<u8>,
    pos: int,
    comm: Option<(CommonChunk, Option<Codec>)>,
    fver: bool,
)
    requires
        0 <= pos,
        pos + 12 <= buffer.len(),
        buffer.subrange(pos, pos + 12) == fver_chunk_bytes(),
    ensures
        fver_chunk_bytes().len() == 12,
        aiff_walk(buffer, pos, comm, fver) == aiff_walk(buffer, pos + 12, comm, true),
{
    reveal(aiff_walk);
    lemma_be_bytes_len(AIFC_VERSION_1 as int, 4);
    lemma_written_header(FVER, 4, be_bytes(AIFC_VERSION_1 as int, 4));
    crate::format::lemma_chunk_at(buffer, pos, fver_chunk_bytes());
}

/// A walk over a written common chunk reads it.
proof fn lemma_walk_common(
    buffer: Seq<u8>,
    pos: int,
    codec: Codec,
    channels: u32,
    num_samples: nat,
    sample_rate: u32,
    fver: bool,
)
    requires
        spec_is_aifc(codec) is Some,
        0 < channels <= 0x7FFF,
        0 <= pos,
        pos + common_chunk_bytes(codec, channels, num_samples, sample_rate).len() <= buffer.len(),
        buffer.subrange(
            pos,
            pos + common_chunk_bytes(codec, channels, num_samples, sample_rate).len(),
        ) == common_chunk_bytes(codec, channels, num_samples, sample_rate),
    ensures
        common_chunk_bytes(codec, channels, num_samples, sample_rate).len() == 8
            + spec_common_chunk_size(codec).unwrap(),
        exists|chunk: CommonChunk|
            {
                &&& chunk.num_channels as u32 == channels
                &&& chunk.bit_depth as u32 == spec_common_bit_depth(codec).unwrap() as u32
                &&& chunk.sample_rate == sample_rate
                &&& #[trigger] aiff_walk(buffer, pos, None, fver) == aiff_walk(
                    buffer,
                    pos + 8 + spec_common_chunk_size(codec).unwrap(),
                    Some((chunk, Some(codec))),
                    fver,
                )
            },
{
    reveal(aiff_walk);
    let c = common_chunk_bytes(codec, channels, num_samples, sample_rate);
    let size = spec_common_chunk_size(codec).unwrap();
    let body = common_body(codec, channels, num_samples, sample_rate);
    lemma_parse_written_common(codec, channels, num_samples, sample_rate);
    lemma_written_header(COMM, size as int, body);
    crate::format::lemma_chunk_at(buffer, pos, c);
    let chunk = parse_common_chunk(body)->Ok_0;
    assert(aiff_walk(buffer, pos, None, fver) == aiff_walk(
        buffer,
        pos + 8 + size,
        Some((chunk, Some(codec))),
        fver,
    ));
}

/// A walk over a written sound data chunk finds its data, once the common
/// chunk and, for AIFF-C, the format version chunk are read.
proof fn lemma_walk_sound_data(
    buffer: Seq<u8>,
    pos: int,
    data: Seq<u8>,
    chunk: CommonChunk,
    codec: Codec,
    fver: bool,
)
    requires
        data.len() + 8 < 0x8000_0000,
        spec_is_aifc(codec) is Some,
        spec_is_aifc(codec) == Some(true) ==> fver,
        0 <= pos,
        pos + sound_data_chunk_bytes(data).len() == buffer.len(),
        buffer.subrange(pos, buffer.len() as int) == sound_data_chunk_bytes(data),
    ensures
        aiff_walk(buffer, pos, Some((chunk, Some(codec))), fver) == (ChunkWalk::Found {
            format: chunk,
            codec: codec,
            start: (pos + 16) as nat,
            len: data.len(),
        }),
        buffer.subrange(pos + 16, pos + 16 + data.len()) == data,
{
    reveal(aiff_walk);
    let pad: Seq<u8> = if data.len() % 2 != 0 {
        seq![0u8]
    } else {
        Seq::empty()
    };
    let body = be_bytes(0, 8) + data + pad;
    lemma_be_bytes_len(0, 8);
    lemma_written_header(SSND, data.len() + 8int, body);
    assert(sound_data_chunk_bytes(data) =~= be_bytes(SSND as int, 4) + be_bytes(data.len() + 8int, 4)
        + body);
    crate::format::lemma_chunk_at(buffer, pos, sound_data_chunk_bytes(data));
    assert(buffer.subrange(pos + 16, pos + 16 + data.len()) =~= body.subrange(
        8,
        8 + data.len() as int,
    ));
}

/// The IFF header of a written file, and the chunks that follow it.
proof fn lemma_written_iff_header(bytes: Seq<u8>, form_type: u32, buffer: Seq<u8>)
    requires
        form_type == AIFF || form_type == AIFC,
        buffer.len() + 4 < 0x8000_0000,
        bytes == be_bytes(FORM as int, 4) + be_bytes(buffer.len() + 4int, 4) + be_bytes(
            form_type as int,
            4,
        ) + buffer,
    ensures
        iff_size_ok(padded(bytes, 0, 12)),
        is_iff_header(padded(bytes, 0, 12)),
        padded(bytes, 12, (i32_at(padded(bytes, 0, 12), 4) - 4) as nat) == buffer,
{
    assert(pow256(4) == 0x1_0000_0000) by {
        reveal_with_fuel(pow256, 5);
    }
    lemma_be_field(FORM as int, 4);
    lemma_be_field(form_type as int, 4);
    lemma_be_field(buffer.len() + 4int, 4);
    let header = padded(bytes, 0, 12);
    crate::format::lemma_padded_within(bytes, 0, 12);
    assert(header.subrange(0, 4) =~= be_bytes(FORM as int, 4));
    assert(header.subrange(4, 8) =~= be_bytes(buffer.len() + 4int, 4));
    assert(header.subrange(8, 12) =~= be_bytes(form_type as int, 4));
    crate::format::lemma_padded_within(bytes, 12, buffer.len());
    assert(bytes.subrange(12, 12 + buffer.len() as int) =~= buffer);
}

/// The chunks of a written AIFF file: for AIFF-C the format version chunk,
/// then the common and sound data chunks.
pub open spec fn aiff_chunks_bytes(codec: Codec, channels: u32, sample_rate: u32, num_samples: nat, data: Seq<u8>) -> Seq<u8> {
    (if spec_is_aifc(codec) == Some(true) {
        fver_chunk_bytes()
    } else {
        Seq::empty()
    }) + common_chunk_bytes(codec, channels, num_samples, sample_rate) + sound_data_chunk_bytes(data)
}

/// The layout of a written AIFF file: the IFF header, then the chunks.
proof fn lemma_aiff_file_layout(codec: Codec, channels: u32, sample_rate: u32, num_samples: nat, data: Seq<u8>)
    requires
        spec_is_aifc(codec) is Some,
        0 < channels <= 0x7FFF,
        data.len() + 100 < 0x8000_0000,
    ensures
        ({
            let buffer = aiff_chunks_bytes(codec, channels, sample_rate, num_samples, data);
            &&& buffer.len() + 4 < 0x8000_0000
            &&& aiff_file_bytes(codec, channels, sample_rate, num_samples, data) == be_bytes(
                FORM as int,
                4,
            ) + be_bytes(buffer.len() + 4int, 4) + be_bytes(
                (if spec_is_aifc(codec) == Some(true) {
                    AIFC
                } else {
                    AIFF
                }) as int,
                4,
            ) + buffer
        }),
{
    let aifc = spec_is_aifc(codec) == Some(true);
    lemma_be_bytes_len(FVER as int, 4);
    lemma_be_bytes_len(4, 4);
    lemma_be_bytes_len(AIFC_VERSION_1 as int, 4);
    lemma_be_bytes_len(SSND as int, 4);
    lemma_be_bytes_len(data.len() + 8int, 4);
    lemma_be_bytes_len(0, 8);
    lemma_be_bytes_len(COMM as int, 4);
    lemma_be_bytes_len(spec_common_chunk_size(codec).unwrap() as int, 4);
    lemma_parse_written_common(codec, channels, num_samples, sample_rate);
    let buffer = aiff_chunks_bytes(codec, channels, sample_rate, num_samples, data);
    assert(aiff_file_bytes(codec, channels, sample_rate, num_samples, data) =~= be_bytes(
        FORM as int,
        4,
    ) + be_bytes(buffer.len() + 4int, 4) + be_bytes(
        (if aifc {
            AIFC
        } else {
            AIFF
        }) as int,
        4,
    ) + buffer);
}

/// The walk over the chunks of a written AIFF file finds the written data
/// with the written attributes.
proof fn lemma_walk_written(
    buffer: Seq<u8>,
    codec: Codec,
    channels: u32,
    sample_rate: u32,
    num_samples: nat,
    data: Seq<u8>,
)
    requires
        spec_is_aifc(codec) is Some,
        0 < channels <= 0x7FFF,
        data.len() + 100 < 0x8000_0000,
        buffer == aiff_chunks_bytes(codec, channels, sample_rate, num_samples, data),
    ensures
        aiff_walk(buffer, 0, None, false) matches ChunkWalk::Found { format, codec: c, start, len }
            && c == codec && format.num_channels as u32 == channels && format.sample_rate
            == sample_rate && format.bit_depth as u32 == spec_common_bit_depth(codec).unwrap() as u32 && buffer.subrange(
            start as int,
            (start + len) as int,
        ) == data,
{
    let aifc = spec_is_aifc(codec) == Some(true);
    let head = if aifc {
        fver_chunk_bytes()
    } else {
        Seq::empty()
    };
    let comm = common_chunk_bytes(codec, channels, num_samples, sample_rate);
    let ssnd = sound_data_chunk_bytes(data);
    lemma_be_bytes_len(FVER as int, 4);
    lemma_be_bytes_len(4, 4);
    lemma_be_bytes_len(AIFC_VERSION_1 as int, 4);
    lemma_be_bytes_len(SSND as int, 4);
    lemma_be_bytes_len(data.len() + 8int, 4);
    lemma_be_bytes_len(0, 8);
    let p1 = head.len() as int;
    if aifc {
        assert(buffer.subrange(0, 12) =~= fver_chunk_bytes());
        lemma_walk_fver(buffer, 0, None, false);
    }
    assert(buffer.subrange(p1, p1 + comm.len()) =~= comm);
    lemma_walk_common(buffer, p1, codec, channels, num_samples, sample_rate, aifc);
    let chunk = choose|chunk: CommonChunk|
        {
            &&& chunk.num_channels as u32 == channels
            &&& chunk.bit_depth as u32 == spec_common_bit_depth(codec).unwrap() as u32
            &&& chunk.sample_rate == sample_rate
            &&& #[trigger] aiff_walk(buffer, p1, None, aifc) == aiff_walk(
                buffer,
                p1 + 8 + spec_common_chunk_size(codec).unwrap(),
                Some((chunk, Some(codec))),
                aifc,
            )
        };
    let p2 = p1 + comm.len();
    assert(buffer.subrange(p2, buffer.len() as int) =~= ssnd);
    lemma_walk_sound_data(buffer, p2, data, chunk, codec, aifc);
}

/// Reading the AIFF file that writing samples with a codec produced gives
/// back the codec, channels and sample rate, the bit depth that the common
/// chunk records for the codec, and the encoded samples.
///
/// This holds for at most 32767 channels (the common chunk records a signed
/// 16-bit count) and sizes that fit the signed 32-bit sizes of the chunks.
pub proof fn lemma_write_read(
    codec: Codec,
    channels: u32,
    sample_rate: u32,
    samples: Seq<i64>,
    written: AudioResult<Vec<u8>>,
    r: AudioResult<AudioDecoder>,
)
    requires
        channels <= 0x7FFF,
        samples.len() * sample_size(codec) + 100 < 0x8000_0000,
        write_fits(codec, channels, samples.len()),
        write_outcome(codec, channels, sample_rate, samples, written),
        written matches Ok(bytes) && read_outcome(bytes@, r),
    ensures
        r matches Ok(d) && d.codec == Some(codec) && d.channels == channels && d.sample_rate
            == sample_rate && d.bit_depth == spec_common_bit_depth(codec).unwrap() as u32 && d.data@ == encoded(
            samples,
            codec,
        ) && d.index == 0,
{
    let n = samples.len();
    let data = encoded(samples, codec);
    lemma_encoded_len(samples, codec);
    let buffer = aiff_chunks_bytes(codec, channels, sample_rate, n, data);
    lemma_aiff_file_layout(codec, channels, sample_rate, n, data);
    let bytes = aiff_file_bytes(codec, channels, sample_rate, n, data);
    let form_type = if spec_is_aifc(codec) == Some(true) {
        AIFC
    } else {
        AIFF
    };
    lemma_written_iff_header(bytes, form_type, buffer);
    lemma_walk_written(buffer, codec, channels, sample_rate, n, data);
    reveal(walk_result);
}

/// Whether the audio of the chunks in `buf` that the walk `walk` went
/// through is `r`: the decoded samples of the data found, with the sample
/// rate and channels of the format, or an error of the kind of failure.
pub open spec fn buffer_outcome(walk: ChunkWalk<CommonChunk>, buf: Seq<u8>, r: AudioResult<AudioBuffer<i64>>) -> bool {
    match walk {
        ChunkWalk::Found { format, codec, start, len } => r matches Ok(a) && a.sample_rate
            == format.sample_rate && a.channels == format.num_channels as u32 && a.samples@ == decoded_samples(
            Some(codec),
            buf.subrange(start as int, (start + len) as int),
        ),
        ChunkWalk::Failed(f) => r matches Err(e) && is_failure(e, f),
    }
}

/// Whether loading the audio of the whole file `bytes` gives `r`.
pub open spec fn load_outcome(bytes: Seq<u8>, r: AudioResult<AudioBuffer<i64>>) -> bool {
    let header = padded(bytes, 0, 12);
    if is_iff_header(header) {
        let buffer = padded(bytes, 12, (i32_at(header, 4) - 4) as nat);
        buffer_outcome(aiff_walk(buffer, 0, None, false), buffer, r)
    } else {
        r matches Err(AudioError::Format(message)) && message@ == header_message(header)
    }
}

/// Loading the AIFF file that writing samples with a codec produced gives
/// back the channels and sample rate, and the samples limited to the range
/// of the codec; this holds under the conditions of `lemma_write_read`.
pub proof fn lemma_write_load(
    codec: Codec,
    channels: u32,
    sample_rate: u32,
    samples: Seq<i64>,
    written: AudioResult<Vec<u8>>,
    r: AudioResult<AudioBuffer<i64>>,
)
    requires
        channels <= 0x7FFF,
        samples.len() * sample_size(codec) + 100 < 0x8000_0000,
        write_fits(codec, channels, samples.len()),
        write_outcome(codec, channels, sample_rate, samples, written),
        written matches Ok(bytes) && load_outcome(bytes@, r),
    ensures
        r matches Ok(a) && a.channels == channels && a.sample_rate == sample_rate && a.samples@
            == coded_samples(samples, codec),
{
    let n = samples.len();
    let data = encoded(samples, codec);
    lemma_encoded_len(samples, codec);
    lemma_decode_encoded(samples, codec);
    let buffer = aiff_chunks_bytes(codec, channels, sample_rate, n, data);
    lemma_aiff_file_layout(codec, channels, sample_rate, n, data);
    let bytes = aiff_file_bytes(codec, channels, sample_rate, n, data);
    let form_type = if spec_is_aifc(codec) == Some(true) {
        AIFC
    } else {
        AIFF
    };
    lemma_written_iff_header(bytes, form_type, buffer);
    lemma_walk_written(buffer, codec, channels, sample_rate, n, data);
}

} // verus!
