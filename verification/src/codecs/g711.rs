//! G.711
//!
//! The A-law and µ-law companding codecs of ITU-T G.711: each sample is one
//! byte that holds a sign, a segment (a power-of-two range of magnitudes)
//! and a step within the segment. Samples decode to 16-bit linear values.
use crate::codecs::Codec;
use crate::error::{AudioError, AudioResult};
use vstd::prelude::*;
use vstd::string::StringExecFns;

verus! {

/// The segment of an A-law magnitude (the linear magnitude divided by 8):
/// the first segment whose end it does not pass; 8 past the last.
pub open spec fn alaw_segment(p: u16) -> u16 {
    if p <= 0x1F {
        0
    } else if p <= 0x3F {
        1
    } else if p <= 0x7F {
        2
    } else if p <= 0xFF {
        3
    } else if p <= 0x1FF {
        4
    } else if p <= 0x3FF {
        5
    } else if p <= 0x7FF {
        6
    } else if p <= 0xFFF {
        7
    } else {
        8
    }
}

/// The segment of a biased µ-law magnitude (the linear magnitude divided
/// by 4, plus 33): the first segment whose end it does not pass; 8 past the
/// last.
pub open spec fn ulaw_segment(p: u16) -> u16 {
    if p <= 0x3F {
        0
    } else if p <= 0x7F {
        1
    } else if p <= 0xFF {
        2
    } else if p <= 0x1FF {
        3
    } else if p <= 0x3FF {
        4
    } else if p <= 0x7FF {
        5
    } else if p <= 0xFFF {
        6
    } else if p <= 0x1FFF {
        7
    } else {
        8
    }
}

/// The magnitude of the linear value of an A-law byte whose even bits are
/// already inverted: the middle of the step that bits 0-3 select in the
/// segment that bits 4-6 select.
pub open spec fn alaw_magnitude(a: u8) -> u16 {
    let step = (a & 0x0F) as u16;
    let segment = ((a & 0x70) >> 4u8) as u16;
    if segment == 0 {
        ((step << 4u16) | 8u16) as u16
    } else {
        (((step << 4u16) + 0x108u16) as u16) << ((segment - 1) as u16)
    }
}

/// The 16-bit linear value of an A-law byte: the even bits are inverted,
/// then bit 7 is set for positive values.
pub open spec fn alaw_to_linear(b: u8) -> i16 {
    let a = b ^ 0x55u8;
    let t = alaw_magnitude(a);
    if a & 0x80u8 != 0 {
        t as i16
    } else {
        (0 - t) as i16
    }
}

/// The A-law byte of a 16-bit linear value.
pub open spec fn linear_to_alaw(v: i16) -> u8 {
    let negative = v < 0;
    let x: u16 = if negative {
        !(v as u16)
    } else {
        v as u16
    };
    let p: u16 = x >> 3u16;
    let segment = alaw_segment(p);
    let mask: u8 = if negative {
        0x55
    } else {
        0xD5
    };
    let step: u16 = if segment < 2 {
        (p >> 1u16) & 0x0F
    } else {
        (p >> segment) & 0x0F
    };
    if segment >= 8 {
        0x7Fu8 ^ mask
    } else {
        (((segment << 4u16) | step) as u8) ^ mask
    }
}

/// The magnitude, biased by 0x84, of the linear value of a µ-law byte whose
/// bits are already inverted.
pub open spec fn ulaw_biased_magnitude(u: u8) -> u16 {
    (((((u & 0x0F) as u16) << 3u16) + 0x84u16) as u16) << (((u & 0x70) >> 4u8) as u16)
}

/// The 16-bit linear value of a µ-law byte: all bits are inverted, then bit
/// 7 is set for negative values.
pub open spec fn ulaw_to_linear(b: u8) -> i16 {
    let u = !b;
    let t = ulaw_biased_magnitude(u);
    if u & 0x80u8 != 0 {
        (0x84 - t) as i16
    } else {
        (t - 0x84) as i16
    }
}

/// The µ-law byte of a 16-bit linear value.
pub open spec fn linear_to_ulaw(v: i16) -> u8 {
    let negative = v < 0;
    let magnitude: u16 = if negative {
        (((!(v as u16)) >> 2u16) + 1) as u16
    } else {
        (v as u16) >> 2u16
    };
    let clipped: u16 = if magnitude > 8159 {
        8159
    } else {
        magnitude
    };
    let p: u16 = (clipped + 0x21) as u16;
    let segment = ulaw_segment(p);
    let mask: u8 = if negative {
        0x7F
    } else {
        0xFF
    };
    if segment >= 8 {
        0x7Fu8 ^ mask
    } else {
        (((segment << 4u16) | ((p >> ((segment + 1) as u16)) & 0x0F)) as u8) ^ mask
    }
}

/// Encoding the value of an A-law byte gives the byte back.
pub proof fn lemma_alaw_round_trip(b: u8)
    ensures
        linear_to_alaw(alaw_to_linear(b)) == b,
{
    assert(linear_to_alaw(alaw_to_linear(b)) == b) by (bit_vector);
}

/// Encoding the value of a µ-law byte gives the byte back, except for 0x7F,
/// the negative zero, which encodes as the positive zero 0xFF.
pub proof fn lemma_ulaw_round_trip(b: u8)
    requires
        b != 0x7F,
    ensures
        linear_to_ulaw(ulaw_to_linear(b)) == b,
{
    assert(linear_to_ulaw(ulaw_to_linear(b)) == b) by (bit_vector)
        requires
            b != 0x7F,
    ;
}

/// Decodes an A-law byte.
pub fn alaw_decode(b: u8) -> (r: i16)
    ensures
        r == alaw_to_linear(b),
{
    let a = b ^ 0x55u8;
    let step = (a & 0x0F) as u16;
    let segment = ((a & 0x70) >> 4u8) as u16;
    assert(step <= 15 && segment <= 7 && (step << 4u16) <= 240) by (bit_vector)
        requires
            step == (a & 0x0F) as u16,
            segment == ((a & 0x70) >> 4u8) as u16,
    ;
    let base: u16 = step << 4u16;
    let t: u16 = if segment == 0 {
        base | 8u16
    } else {
        (base + 0x108u16) << (segment - 1)
    };
    assert(t == alaw_magnitude(a) && t <= 32256) by (bit_vector)
        requires
            step == (a & 0x0F) as u16,
            segment == ((a & 0x70) >> 4u8) as u16,
            base == step << 4u16,
            base <= 240,
            segment == 0 ==> t == base | 8u16,
            segment != 0 ==> t == ((base + 0x108u16) as u16) << ((segment - 1) as u16),
    ;
    if a & 0x80u8 != 0 {
        t as i16
    } else {
        0 - t as i16
    }
}

/// Decodes a µ-law byte.
pub fn ulaw_decode(b: u8) -> (r: i16)
    ensures
        r == ulaw_to_linear(b),
{
    let u = !b;
    let step = (u & 0x0F) as u16;
    let segment = ((u & 0x70) >> 4u8) as u16;
    assert(step <= 15 && segment <= 7 && (step << 3u16) <= 120) by (bit_vector)
        requires
            step == (u & 0x0F) as u16,
            segment == ((u & 0x70) >> 4u8) as u16,
    ;
    let base: u16 = (step << 3u16) + 0x84u16;
    let t: u16 = base << segment;
    assert(t == ulaw_biased_magnitude(u) && 0x84 <= t <= 32256) by (bit_vector)
        requires
            step == (u & 0x0F) as u16,
            segment == ((u & 0x70) >> 4u8) as u16,
            step <= 15,
            segment <= 7,
            base == ((step << 3u16) + 0x84u16) as u16,
            t == base << segment,
    ;
    if u & 0x80u8 != 0 {
        0x84 - t as i16
    } else {
        t as i16 - 0x84
    }
}

/// Encodes a 16-bit linear value as an A-law byte.
pub fn alaw_encode(v: i16) -> (r: u8)
    ensures
        r == linear_to_alaw(v),
{
    let negative = v < 0;
    let x: u16 = if negative {
        !(v as u16)
    } else {
        v as u16
    };
    let p: u16 = x >> 3u16;
    let segment: u16 = if p <= 0x1F {
        0
    } else if p <= 0x3F {
        1
    } else if p <= 0x7F {
        2
    } else if p <= 0xFF {
        3
    } else if p <= 0x1FF {
        4
    } else if p <= 0x3FF {
        5
    } else if p <= 0x7FF {
        6
    } else if p <= 0xFFF {
        7
    } else {
        8
    };
    let mask: u8 = if negative {
        0x55
    } else {
        0xD5
    };
    if segment >= 8 {
        return 0x7Fu8 ^ mask;
    }
    let step: u16 = if segment < 2 {
        (p >> 1u16) & 0x0F
    } else {
        (p >> segment) & 0x0F
    };
    (((segment << 4u16) | step) as u8) ^ mask
}

/// Encodes a 16-bit linear value as a µ-law byte.
pub fn ulaw_encode(v: i16) -> (r: u8)
    ensures
        r == linear_to_ulaw(v),
{
    let negative = v < 0;
    let magnitude: u16 = if negative {
        assert(((!(v as u16)) >> 2u16) < 0xFFFF) by (bit_vector);
        ((!(v as u16)) >> 2u16) + 1
    } else {
        (v as u16) >> 2u16
    };
    let clipped: u16 = if magnitude > 8159 {
        8159
    } else {
        magnitude
    };
    let p: u16 = clipped + 0x21;
    let segment: u16 = if p <= 0x3F {
        0
    } else if p <= 0x7F {
        1
    } else if p <= 0xFF {
        2
    } else if p <= 0x1FF {
        3
    } else if p <= 0x3FF {
        4
    } else if p <= 0x7FF {
        5
    } else if p <= 0xFFF {
        6
    } else if p <= 0x1FFF {
        7
    } else {
        8
    };
    let mask: u8 = if negative {
        0x7F
    } else {
        0xFF
    };
    if segment >= 8 {
        return 0x7Fu8 ^ mask;
    }
    (((segment << 4u16) | ((p >> (segment + 1)) & 0x0F)) as u8) ^ mask
}

/// The G.711 codecs, as opposed to the linear PCM codecs.
pub open spec fn is_g711(codec: Codec) -> bool {
    codec is G711_ALAW || codec is G711_ULAW
}

/// `v` limited to the range of 16-bit linear values.
pub open spec fn clamp_i16(v: int) -> i16 {
    if v < -0x8000 {
        -0x8000i16
    } else if v > 0x7FFF {
        0x7FFFi16
    } else {
        v as i16
    }
}

/// The linear value of byte `b` of a G.711 codec.
pub open spec fn g711_value(b: u8, codec: Codec) -> i16 {
    if codec is G711_ALAW {
        alaw_to_linear(b)
    } else {
        ulaw_to_linear(b)
    }
}

/// The byte of a G.711 codec that encodes `v`, after limiting it to 16 bits.
pub open spec fn g711_byte(v: int, codec: Codec) -> u8 {
    if codec is G711_ALAW {
        linear_to_alaw(clamp_i16(v))
    } else {
        linear_to_ulaw(clamp_i16(v))
    }
}

/// The samples that the bytes of a G.711 codec encode, one per byte.
pub open spec fn decode_all(bytes: Seq<u8>, codec: Codec) -> Seq<i64> {
    Seq::new(bytes.len(), |i: int| g711_value(bytes[i], codec) as i64)
}

/// The bytes of a G.711 codec that encode `samples`, one per sample.
pub open spec fn encode_all(samples: Seq<i64>, codec: Codec) -> Seq<u8> {
    Seq::new(samples.len(), |i: int| g711_byte(samples[i] as int, codec))
}

/// Decodes one byte of a G.711 codec.
pub fn decode_byte(b: u8, codec: Codec) -> (r: i64)
    requires
        is_g711(codec),
    ensures
        r == g711_value(b, codec),
{
    match codec {
        Codec::G711_ALAW => alaw_decode(b) as i64,
        _ => ulaw_decode(b) as i64,
    }
}

/// Encodes one sample with a G.711 codec, after limiting it to 16 bits.
pub fn encode_sample(v: i64, codec: Codec) -> (r: u8)
    requires
        is_g711(codec),
    ensures
        r == g711_byte(v as int, codec),
{
    let linear: i16 = if v < -0x8000 {
        -0x8000
    } else if v > 0x7FFF {
        0x7FFF
    } else {
        v as i16
    };
    match codec {
        Codec::G711_ALAW => alaw_encode(linear),
        _ => ulaw_encode(linear),
    }
}

/// The error for a codec that is not G.711.
fn not_g711() -> (r: AudioError)
    ensures
        r matches AudioError::Unsupported(message) && message@
            == "Unsupported codec was passed into the G.711 coder"@,
{
    AudioError::Unsupported(String::from_str("Unsupported codec was passed into the G.711 coder"))
}

/// Decodes the sample at the start of `bytes`.
///
/// Returns an `Unsupported` error for codecs other than G.711, and
/// `AudioEnd` for no bytes.
pub fn read_sample(bytes: &[u8], codec: Codec) -> (r: AudioResult<i64>)
    ensures
        !is_g711(codec) ==> (r matches Err(AudioError::Unsupported(message)) && message@
            == "Unsupported codec was passed into the G.711 coder"@),
        is_g711(codec) && bytes.len() == 0 ==> r matches Err(AudioError::AudioEnd),
        is_g711(codec) && bytes.len() > 0 ==> r == Ok::<i64, AudioError>(
            g711_value(bytes[0], codec) as i64,
        ),
{
    match codec {
        Codec::G711_ALAW | Codec::G711_ULAW => {},
        _ => return Err(not_g711()),
    }
    if bytes.len() == 0 {
        return Err(AudioError::AudioEnd);
    }
    Ok(decode_byte(bytes[0], codec))
}

/// Decodes every byte of `bytes` with a G.711 codec.
///
/// Returns an `Unsupported` error for codecs other than G.711.
pub fn read(bytes: &[u8], codec: Codec) -> (r: AudioResult<Vec<i64>>)
    ensures
        is_g711(codec) ==> (r matches Ok(samples) && samples@ == decode_all(bytes@, codec)),
        !is_g711(codec) ==> (r matches Err(AudioError::Unsupported(message)) && message@
            == "Unsupported codec was passed into the G.711 coder"@),
{
    match codec {
        Codec::G711_ALAW | Codec::G711_ULAW => {},
        _ => return Err(not_g711()),
    }
    let mut samples: Vec<i64> = Vec::with_capacity(bytes.len());
    let mut i: usize = 0;
    while i < bytes.len()
        invariant
            is_g711(codec),
            i <= bytes.len(),
            samples@ =~= decode_all(bytes@, codec).take(i as int),
        decreases bytes.len() - i,
    {
        samples.push(decode_byte(bytes[i], codec));
        i = i + 1;
    }
    Ok(samples)
}

/// Encodes the samples with a G.711 codec, one byte each; each sample is
/// first limited to 16 bits.
///
/// Returns an `Unsupported` error for codecs other than G.711.
pub fn write(samples: &[i64], codec: Codec) -> (r: AudioResult<Vec<u8>>)
    ensures
        is_g711(codec) ==> (r matches Ok(bytes) && bytes@ == encode_all(samples@, codec)),
        !is_g711(codec) ==> (r matches Err(AudioError::Unsupported(message)) && message@
            == "Unsupported codec was passed into the G.711 coder"@),
{
    match codec {
        Codec::G711_ALAW | Codec::G711_ULAW => {},
        _ => return Err(not_g711()),
    }
    let mut bytes: Vec<u8> = Vec::with_capacity(samples.len());
    let mut i: usize = 0;
    while i < samples.len()
        invariant
            is_g711(codec),
            i <= samples.len(),
            bytes@ =~= encode_all(samples@, codec).take(i as int),
        decreases samples.len() - i,
    {
        bytes.push(encode_sample(samples[i], codec));
        i = i + 1;
    }
    Ok(bytes)
}

/// Encoding the decoded samples of G.711 bytes gives back the bytes; for
/// µ-law, this holds of bytes without the negative zero 0x7F.
pub proof fn lemma_encode_decode(bytes: Seq<u8>, codec: Codec)
    requires
        is_g711(codec),
        codec is G711_ULAW ==> forall|i: int| 0 <= i < bytes.len() ==> bytes[i] != 0x7F,
    ensures
        encode_all(decode_all(bytes, codec), codec) == bytes,
{
    assert forall|i: int| 0 <= i < bytes.len() implies #[trigger] g711_byte(
        g711_value(bytes[i], codec) as int,
        codec,
    ) == bytes[i] by {
        if codec is G711_ALAW {
            lemma_alaw_round_trip(bytes[i]);
        } else {
            lemma_ulaw_round_trip(bytes[i]);
        }
    }
    assert(encode_all(decode_all(bytes, codec), codec) =~= bytes);
}

/// µ-law encoding never gives the negative zero 0x7F.
pub proof fn lemma_ulaw_not_negative_zero(v: i16)
    ensures
        linear_to_ulaw(v) != 0x7F,
{
    assert(linear_to_ulaw(v) != 0x7F) by (bit_vector);
}

/// Encoding the decoded value of an encoded sample gives the same byte.
pub proof fn lemma_byte_stable(v: int, codec: Codec)
    requires
        is_g711(codec),
    ensures
        g711_byte(g711_value(g711_byte(v, codec), codec) as int, codec) == g711_byte(v, codec),
{
    let b = g711_byte(v, codec);
    if codec is G711_ALAW {
        lemma_alaw_round_trip(b);
    } else {
        lemma_ulaw_not_negative_zero(clamp_i16(v));
        lemma_ulaw_round_trip(b);
    }
}

/// Decoding what G.711 encodes stays within half a step of the largest
/// segment of the sample limited to 16 bits: 512 for A-law, and 644 for
/// µ-law, whose largest magnitudes are clipped.
pub proof fn lemma_quantization_error(v: i16)
    ensures
        -512 <= alaw_to_linear(linear_to_alaw(v)) - v <= 512,
        -644 <= ulaw_to_linear(linear_to_ulaw(v)) - v <= 644,
{
    assert(-512 <= alaw_to_linear(linear_to_alaw(v)) - v <= 512) by (bit_vector);
    assert(-644 <= ulaw_to_linear(linear_to_ulaw(v)) - v <= 644) by (bit_vector);
}

} // verus!
