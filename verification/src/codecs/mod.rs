//! Audio codecs.
use vstd::prelude::*;
use vstd::string::StringExecFns;


pub mod g711;
pub mod lpcm;

verus! {

/// All supported audio codecs.
///
/// Any codec where endianess, sample ordering, or type influence coding is
/// represented with a separate variant. If not specified, the codec is for
/// interleaved sample data.
#[allow(non_camel_case_types)]
#[derive(Clone, Copy, Debug, PartialEq, Eq, Structural)]
pub enum Codec {
    /// Unsigned 8-bit linear PCM
    LPCM_U8,
    /// Signed 8-bit linear PCM
    LPCM_I8,
    /// Signed 16-bit linear PCM in little endian format
    LPCM_I16_LE,
    /// Signed 16-bit linear PCM in big endian format
    LPCM_I16_BE,
    /// Signed 24-bit linear PCM in little endian format
    LPCM_I24_LE,
    /// Signed 24-bit linear PCM in big endian format
    LPCM_I24_BE,
    /// Signed 32-bit linear PCM in little endian format
    LPCM_I32_LE,
    /// Signed 32-bit linear PCM in big endian format
    LPCM_I32_BE,
    /// 32-bit floating-point linear PCM in little endian format
    LPCM_F32_LE,
    /// 32-bit floating-point linear PCM in big endian format
    LPCM_F32_BE,
    /// 64-bit floating-point linear PCM in little endian format
    LPCM_F64_LE,
    /// 64-bit floating-point linear PCM in big endian format
    LPCM_F64_BE,
    /// G.711 8-bit A-law
    G711_ALAW,
    /// G.711 8-bit µ-law
    G711_ULAW,
}

/// The number of bits of one encoded sample.
pub open spec fn spec_bit_depth(codec: Codec) -> nat {
    match codec {
        Codec::G711_ALAW | Codec::G711_ULAW | Codec::LPCM_U8 | Codec::LPCM_I8 => 8,
        Codec::LPCM_I16_LE | Codec::LPCM_I16_BE => 16,
        Codec::LPCM_I24_LE | Codec::LPCM_I24_BE => 24,
        Codec::LPCM_I32_LE | Codec::LPCM_I32_BE | Codec::LPCM_F32_LE | Codec::LPCM_F32_BE => 32,
        Codec::LPCM_F64_LE | Codec::LPCM_F64_BE => 64,
    }
}

/// The number of bytes of one encoded sample.
pub open spec fn sample_size(codec: Codec) -> nat {
    spec_bit_depth(codec) / 8
}

/// Codecs that store samples least significant byte first (single-byte
/// codecs count as both).
pub open spec fn is_little_endian(codec: Codec) -> bool {
    match codec {
        Codec::LPCM_I16_BE | Codec::LPCM_I24_BE | Codec::LPCM_I32_BE | Codec::LPCM_F32_BE
        | Codec::LPCM_F64_BE => false,
        _ => true,
    }
}

/// Linear PCM codecs, as opposed to the G.711 companding codecs.
pub open spec fn is_lpcm(codec: Codec) -> bool {
    !(codec is G711_ALAW || codec is G711_ULAW)
}

/// The human readable description of a codec.
pub open spec fn codec_name(codec: Codec) -> Seq<char> {
    match codec {
        Codec::LPCM_U8 => "Unsigned 8-bit PCM"@,
        Codec::LPCM_I8 => "Signed 8-bit PCM"@,
        Codec::LPCM_I16_LE => "Signed 16-bit little endian PCM"@,
        Codec::LPCM_I16_BE => "Signed 16-bit big endian PCM"@,
        Codec::LPCM_I24_LE => "Signed 24-bit little endian PCM"@,
        Codec::LPCM_I24_BE => "Signed 24-bit big endian PCM"@,
        Codec::LPCM_I32_LE => "Signed 32-bit little endian PCM"@,
        Codec::LPCM_I32_BE => "Signed 32-bit big endian PCM"@,
        Codec::LPCM_F32_LE => "32-bit little endian floating-point PCM"@,
        Codec::LPCM_F32_BE => "32-bit big endian floating-point PCM"@,
        Codec::LPCM_F64_LE => "64-bit little endian floating-point PCM"@,
        Codec::LPCM_F64_BE => "64-bit big endian floating-point PCM"@,
        Codec::G711_ALAW => "G.711 8-bit A-law"@,
        Codec::G711_ULAW => "G.711 8-bit µ-law"@,
    }
}

impl Codec {
    /// Returns the bit depth of the encoded audio output by a codec.
    pub fn bit_depth(&self) -> (r: usize)
        ensures
            r == spec_bit_depth(*self),
    {
        match *self {
            Codec::G711_ALAW | Codec::G711_ULAW | Codec::LPCM_U8 | Codec::LPCM_I8 => 8,
            Codec::LPCM_I16_LE | Codec::LPCM_I16_BE => 16,
            Codec::LPCM_I24_LE | Codec::LPCM_I24_BE => 24,
            Codec::LPCM_I32_LE | Codec::LPCM_I32_BE | Codec::LPCM_F32_LE | Codec::LPCM_F32_BE => 32,
            Codec::LPCM_F64_LE | Codec::LPCM_F64_BE => 64,
        }
    }

    /// A human readable description of the codec.
    pub fn to_string(&self) -> (r: String)
        ensures
            r@ == codec_name(*self),
    {
        match *self {
            Codec::LPCM_U8 => String::from_str("Unsigned 8-bit PCM"),
            Codec::LPCM_I8 => String::from_str("Signed 8-bit PCM"),
            Codec::LPCM_I16_LE => String::from_str("Signed 16-bit little endian PCM"),
            Codec::LPCM_I16_BE => String::from_str("Signed 16-bit big endian PCM"),
            Codec::LPCM_I24_LE => String::from_str("Signed 24-bit little endian PCM"),
            Codec::LPCM_I24_BE => String::from_str("Signed 24-bit big endian PCM"),
            Codec::LPCM_I32_LE => String::from_str("Signed 32-bit little endian PCM"),
            Codec::LPCM_I32_BE => String::from_str("Signed 32-bit big endian PCM"),
            Codec::LPCM_F32_LE => String::from_str("32-bit little endian floating-point PCM"),
            Codec::LPCM_F32_BE => String::from_str("32-bit big endian floating-point PCM"),
            Codec::LPCM_F64_LE => String::from_str("64-bit little endian floating-point PCM"),
            Codec::LPCM_F64_BE => String::from_str("64-bit big endian floating-point PCM"),
            Codec::G711_ALAW => String::from_str("G.711 8-bit A-law"),
            Codec::G711_ULAW => String::from_str("G.711 8-bit µ-law"),
        }
    }
}

} // verus!
