//! LPCM
//!
//! Linear pulse code modulation.
//!
//! A sample is handled here as the integer that its encoding denotes: the
//! two's complement value of the stored word, or for unsigned 8-bit PCM the
//! stored byte minus 128. For floating-point codecs this is the bit pattern
//! of the float read as a two's complement integer of the same width.
use crate::byte_order::{
    be_bytes, be_value, lemma_be_bytes_len, lemma_be_bytes_of_value, lemma_be_bytes_periodic,
    lemma_be_round_trip, lemma_be_value_bound, lemma_le_bytes_len, lemma_le_bytes_of_value,
    lemma_le_bytes_periodic, lemma_le_round_trip, lemma_le_value_bound, le_bytes, le_value,
    pow256, read_i16_be, read_i16_le, read_i32_be, read_i32_le, read_i64_be, read_i64_le,
    twos_complement, write_i16_be, write_i16_le, write_i32_be, write_i32_le, write_i64_be,
    write_i64_le,
};
use crate::codecs::{codec_name, is_little_endian, is_lpcm, sample_size, spec_bit_depth, Codec};
use crate::error::{AudioError, AudioResult};
use vstd::arithmetic::div_mod::lemma_fundamental_div_mod_converse_mod;
use vstd::prelude::*;
use vstd::string::StringExecFns;

verus! {

/// The weight of the top bit of a sample word: samples of `codec` range over
/// `-half_range(codec) .. half_range(codec)`.
pub open spec fn half_range(codec: Codec) -> int {
    let bits = spec_bit_depth(codec);
    if bits == 8 {
        0x80
    } else if bits == 16 {
        0x8000
    } else if bits == 24 {
        0x80_0000
    } else if bits == 32 {
        0x8000_0000
    } else {
        0x8000_0000_0000_0000
    }
}

/// The unsigned word stored in `s`, in the byte order of `codec`.
pub open spec fn word_value(s: Seq<u8>, codec: Codec) -> int {
    if is_little_endian(codec) {
        le_value(s) as int
    } else {
        be_value(s) as int
    }
}

/// The sample that the `sample_size(codec)` bytes `s` encode.
pub open spec fn sample_value(s: Seq<u8>, codec: Codec) -> int {
    if codec is LPCM_U8 {
        word_value(s, codec) - 0x80
    } else {
        twos_complement(word_value(s, codec), half_range(codec))
    }
}

/// The `i`-th sample of `bytes`.
pub open spec fn sample_at(bytes: Seq<u8>, codec: Codec, i: int) -> int {
    let w = sample_size(codec) as int;
    sample_value(bytes.subrange(w * i, w * i + w), codec)
}

/// All whole samples of `bytes`; trailing bytes that do not make up a whole
/// sample are ignored.
pub open spec fn decode_all(bytes: Seq<u8>, codec: Codec) -> Seq<i64> {
    Seq::new(bytes.len() / sample_size(codec), |i: int| sample_at(bytes, codec, i) as i64)
}

/// `v` limited to the range of samples of `codec`.
pub open spec fn clamp_sample(v: int, codec: Codec) -> int {
    if v < -half_range(codec) {
        -half_range(codec)
    } else if v >= half_range(codec) {
        half_range(codec) - 1
    } else {
        v
    }
}

/// Every sample limited to the range of samples of `codec`.
pub open spec fn clamp_all(samples: Seq<i64>, codec: Codec) -> Seq<i64> {
    Seq::new(samples.len(), |i: int| clamp_sample(samples[i] as int, codec) as i64)
}

/// The bytes that encode `v` (after clamping) with `codec`.
pub open spec fn sample_bytes(v: int, codec: Codec) -> Seq<u8> {
    let c = clamp_sample(v, codec);
    let word = if codec is LPCM_U8 { c + 0x80 } else { c };
    if is_little_endian(codec) {
        le_bytes(word, sample_size(codec))
    } else {
        be_bytes(word, sample_size(codec))
    }
}

/// The encoding of all `samples`, one after the other.
pub open spec fn encode_all(samples: Seq<i64>, codec: Codec) -> Seq<u8>
    decreases samples.len(),
{
    if samples.len() == 0 {
        Seq::empty()
    } else {
        encode_all(samples.drop_last(), codec) + sample_bytes(samples.last() as int, codec)
    }
}

/// The message of the error for a codec that is not LPCM.
pub open spec fn unsupported_message(codec: Codec) -> Seq<char> {
    "Unsupported codec "@ + codec_name(codec) + " was passed into the LPCM decoder"@
}

/// Returns the bit depth of an LPCM codec, or an `Unsupported` error for the
/// other codecs.
pub fn get_bit_depth(codec: Codec) -> (r: AudioResult<usize>)
    ensures
        is_lpcm(codec) ==> r == Ok::<usize, AudioError>(spec_bit_depth(codec) as usize),
        !is_lpcm(codec) ==> (r matches Err(AudioError::Unsupported(message)) && message@
            == unsupported_message(codec)),
{
    match codec {
        Codec::LPCM_U8 | Codec::LPCM_I8 => Ok(8),
        Codec::LPCM_I16_LE | Codec::LPCM_I16_BE => Ok(16),
        Codec::LPCM_I24_LE | Codec::LPCM_I24_BE => Ok(24),
        Codec::LPCM_I32_LE | Codec::LPCM_I32_BE | Codec::LPCM_F32_LE | Codec::LPCM_F32_BE => Ok(32),
        Codec::LPCM_F64_LE | Codec::LPCM_F64_BE => Ok(64),
        c => {
            let mut message = String::from_str("Unsupported codec ");
            let name = c.to_string();
            message.append(name.as_str());
            message.append(" was passed into the LPCM decoder");
            Err(AudioError::Unsupported(message))
        },
    }
}

proof fn lemma_le_value_1(s: Seq<u8>)
    requires
        s.len() == 1,
    ensures
        le_value(s) == s[0],
        be_value(s) == s[0],
{
    reveal_with_fuel(le_value, 2);
    reveal_with_fuel(be_value, 2);
}

proof fn lemma_le_value_3(s: Seq<u8>)
    requires
        s.len() == 3,
    ensures
        le_value(s) == s[0] + 256 * s[1] + 65536 * s[2],
        be_value(s) == s[2] + 256 * s[1] + 65536 * s[0],
{
    reveal_with_fuel(le_value, 4);
    reveal_with_fuel(be_value, 4);
    assert(s.drop_first().drop_first().drop_first().len() == 0);
    assert(s.drop_last().drop_last().drop_last().len() == 0);
}

/// Sign extension of a 24-bit word given as three bytes, most significant
/// last.
fn extend_i24(b0: u8, b1: u8, b2: u8) -> (r: i64)
    ensures
        r == twos_complement(b0 + 256 * b1 + 65536 * b2, 0x80_0000),
{
    let mut tmp: i32 = 0;
    tmp = tmp | ((b2 as i32) << 16u32);
    tmp = tmp | ((b1 as i32) << 8u32);
    tmp = tmp | (b0 as i32);
    assert(tmp == b0 + 256 * b1 + 65536 * b2) by (bit_vector)
        requires
            tmp == ((0i32 | ((b2 as i32) << 16u32)) | ((b1 as i32) << 8u32)) | (b0 as i32),
    ;
    // Handle for sign
    if (tmp & 0x80_0000) >> 23u32 == 1 {
        let t0 = tmp;
        tmp = tmp | !0xff_ffff;
        assert(t0 >= 0x80_0000 && tmp == t0 - 0x100_0000) by (bit_vector)
            requires
                0 <= t0 < 0x100_0000,
                (t0 & 0x80_0000) >> 23u32 == 1,
                tmp == t0 | !0xff_ffffi32,
        ;
    } else {
        let t0 = tmp;
        assert(t0 < 0x80_0000) by (bit_vector)
            requires
                0 <= t0 < 0x100_0000,
                (t0 & 0x80_0000) >> 23u32 != 1,
        ;
    }
    tmp as i64
}

/// Decodes the sample whose bytes start at `at`.
pub fn decode_at(bytes: &[u8], at: usize, codec: Codec) -> (r: i64)
    requires
        is_lpcm(codec),
        at + sample_size(codec) <= bytes.len(),
    ensures
        r == sample_value(bytes@.subrange(at as int, at + sample_size(codec)), codec),
{
    let ghost s = bytes@.subrange(at as int, at + sample_size(codec));
    match codec {
        Codec::LPCM_U8 => {
            proof {
                lemma_le_value_1(s);
            }
            bytes[at] as i64 - 128
        },
        Codec::LPCM_I8 => {
            proof {
                lemma_le_value_1(s);
            }
            let b = bytes[at];
            if b >= 128 {
                b as i64 - 256
            } else {
                b as i64
            }
        },
        Codec::LPCM_I16_LE => read_i16_le(bytes, at) as i64,
        Codec::LPCM_I16_BE => read_i16_be(bytes, at) as i64,
        Codec::LPCM_I24_LE => {
            proof {
                lemma_le_value_3(s);
            }
            extend_i24(bytes[at], bytes[at + 1], bytes[at + 2])
        },
        Codec::LPCM_I24_BE => {
            proof {
                lemma_le_value_3(s);
            }
            extend_i24(bytes[at + 2], bytes[at + 1], bytes[at])
        },
        Codec::LPCM_I32_LE | Codec::LPCM_F32_LE => read_i32_le(bytes, at) as i64,
        Codec::LPCM_I32_BE | Codec::LPCM_F32_BE => read_i32_be(bytes, at) as i64,
        Codec::LPCM_F64_LE => read_i64_le(bytes, at),
        Codec::LPCM_F64_BE => read_i64_be(bytes, at),
        _ => {
            assert(false);
            0
        },
    }
}

/// Decodes one sample from the start of `bytes`.
///
/// Returns an `Unsupported` error for codecs other than LPCM and `AudioEnd`
/// when `bytes` is shorter than one sample.
pub fn read_sample(bytes: &[u8], codec: Codec) -> (r: AudioResult<i64>)
    ensures
        !is_lpcm(codec) ==> (r matches Err(AudioError::Unsupported(message)) && message@
            == unsupported_message(codec)),
        is_lpcm(codec) && bytes.len() < sample_size(codec) ==> r matches Err(AudioError::AudioEnd),
        is_lpcm(codec) && bytes.len() >= sample_size(codec) ==> (r matches Ok(v) && v
            == sample_value(bytes@.subrange(0, sample_size(codec) as int), codec)),
{
    let bit_depth = match get_bit_depth(codec) {
        Ok(d) => d,
        Err(e) => return Err(e),
    };
    if bytes.len() < bit_depth / 8 {
        return Err(AudioError::AudioEnd);
    }
    Ok(decode_at(bytes, 0, codec))
}

/// Decodes all whole samples of `bytes` with an LPCM codec.
///
/// Returns an `Unsupported` error for codecs other than LPCM.
pub fn read(bytes: &[u8], codec: Codec) -> (r: AudioResult<Vec<i64>>)
    ensures
        is_lpcm(codec) ==> (r matches Ok(samples) && samples@ == decode_all(bytes@, codec)),
        !is_lpcm(codec) ==> (r matches Err(AudioError::Unsupported(message)) && message@
            == unsupported_message(codec)),
{
    let bit_depth = match get_bit_depth(codec) {
        Ok(d) => d,
        Err(e) => return Err(e),
    };
    let width = bit_depth / 8;
    let num_samples = bytes.len() / width;
    let mut samples: Vec<i64> = Vec::with_capacity(num_samples);
    let mut i: usize = 0;
    let mut at: usize = 0;
    while i < num_samples
        invariant
            is_lpcm(codec),
            width == sample_size(codec),
            1 <= width <= 8,
            num_samples == bytes.len() / width,
            i <= num_samples,
            at == width * i,
            samples@.len() == i,
            forall|j: int| 0 <= j < i ==> samples@[j] == sample_at(bytes@, codec, j) as i64,
        decreases num_samples - i,
    {
        assert(at + width <= bytes.len()) by (nonlinear_arith)
            requires
                at == width * i,
                i < num_samples,
                num_samples == bytes.len() / width,
                1 <= width,
        ;
        let v = decode_at(bytes, at, codec);
        samples.push(v);
        proof {
            assert(width * (i + 1) == at + width) by (nonlinear_arith)
                requires
                    at == width * i,
            ;
        }
        at = at + width;
        i = i + 1;
    }
    assert(samples@ =~= decode_all(bytes@, codec));
    Ok(samples)
}

/// Appends the three bytes of a 24-bit word, least significant first when
/// `little_endian`.
fn push_u24(out: &mut Vec<u8>, w: u32, little_endian: bool)
    requires
        w < 0x100_0000,
    ensures
        little_endian ==> final(out)@ == old(out)@ + le_bytes(w as int, 3),
        !little_endian ==> final(out)@ == old(out)@ + be_bytes(w as int, 3),
{
    reveal_with_fuel(le_bytes, 4);
    reveal_with_fuel(be_bytes, 4);
    let b0 = (w % 256) as u8;
    let w1 = w / 256;
    let b1 = (w1 % 256) as u8;
    let w2 = w1 / 256;
    let b2 = (w2 % 256) as u8;
    if little_endian {
        out.push(b0);
        out.push(b1);
        out.push(b2);
        assert(final(out)@ =~= old(out)@ + le_bytes(w as int, 3));
    } else {
        out.push(b2);
        out.push(b1);
        out.push(b0);
        assert(final(out)@ =~= old(out)@ + be_bytes(w as int, 3));
    }
}

/// Appends the encoding of `v`, clamped to the range of `codec`.
fn write_sample(out: &mut Vec<u8>, v: i64, codec: Codec)
    requires
        is_lpcm(codec),
    ensures
        final(out)@ == old(out)@ + sample_bytes(v as int, codec),
{
    match codec {
        Codec::LPCM_F64_LE => {
            write_i64_le(out, v);
            return;
        },
        Codec::LPCM_F64_BE => {
            write_i64_be(out, v);
            return;
        },
        _ => {},
    }
    let half: i64 = match codec {
        Codec::LPCM_U8 | Codec::LPCM_I8 => 0x80,
        Codec::LPCM_I16_LE | Codec::LPCM_I16_BE => 0x8000,
        Codec::LPCM_I24_LE | Codec::LPCM_I24_BE => 0x80_0000,
        _ => 0x8000_0000,
    };
    let c: i64 = if v < -half {
        -half
    } else if v >= half {
        half - 1
    } else {
        v
    };
    assert(c == clamp_sample(v as int, codec));
    match codec {
        Codec::LPCM_U8 => {
            reveal_with_fuel(le_bytes, 2);
            out.push((c + 128) as u8);
            assert(final(out)@ =~= old(out)@ + sample_bytes(v as int, codec));
        },
        Codec::LPCM_I8 => {
            reveal_with_fuel(le_bytes, 2);
            let b: u8 = if c < 0 {
                (c + 256) as u8
            } else {
                c as u8
            };
            out.push(b);
            assert(final(out)@ =~= old(out)@ + sample_bytes(v as int, codec));
        },
        Codec::LPCM_I16_LE => write_i16_le(out, c as i16),
        Codec::LPCM_I16_BE => write_i16_be(out, c as i16),
        Codec::LPCM_I24_LE | Codec::LPCM_I24_BE => {
            let w: u32 = if c < 0 {
                (c + 0x100_0000) as u32
            } else {
                c as u32
            };
            proof {
                assert(pow256(3) == 0x100_0000) by {
                    reveal_with_fuel(pow256, 4);
                }
                if c < 0 {
                    lemma_le_bytes_periodic(c as int, 1, 3);
                    lemma_be_bytes_periodic(c as int, 1, 3);
                }
            }
            push_u24(out, w, codec == Codec::LPCM_I24_LE);
        },
        Codec::LPCM_I32_LE | Codec::LPCM_F32_LE => write_i32_le(out, c as i32),
        _ => write_i32_be(out, c as i32),
    }
}

/// Encodes the samples with an LPCM codec; each sample is first clamped to
/// the range of the codec.
///
/// Returns an `Unsupported` error for codecs other than LPCM.
pub fn create(samples: &[i64], codec: Codec) -> (r: AudioResult<Vec<u8>>)
    ensures
        is_lpcm(codec) ==> (r matches Ok(bytes) && bytes@ == encode_all(samples@, codec)),
        !is_lpcm(codec) ==> (r matches Err(AudioError::Unsupported(message)) && message@
            == unsupported_message(codec)),
{
    match get_bit_depth(codec) {
        Ok(_) => {},
        Err(e) => return Err(e),
    }
    let mut bytes: Vec<u8> = Vec::new();
    let mut i: usize = 0;
    while i < samples.len()
        invariant
            is_lpcm(codec),
            i <= samples.len(),
            bytes@ == encode_all(samples@.take(i as int), codec),
        decreases samples.len() - i,
    {
        write_sample(&mut bytes, samples[i], codec);
        assert(samples@.take(i + 1).drop_last() =~= samples@.take(i as int));
        i = i + 1;
    }
    assert(samples@.take(samples.len() as int) =~= samples@);
    Ok(bytes)
}

/// Arithmetic facts about the sample widths of the LPCM codecs.
proof fn lemma_codec_width(codec: Codec)
    requires
        is_lpcm(codec),
    ensures
        1 <= sample_size(codec) <= 8,
        pow256(sample_size(codec)) == 2 * half_range(codec),
        codec is LPCM_U8 ==> sample_size(codec) == 1,
{
    reveal_with_fuel(pow256, 9);
}

proof fn lemma_sample_bytes_len(v: int, codec: Codec)
    ensures
        sample_bytes(v, codec).len() == sample_size(codec),
{
    let c = clamp_sample(v, codec);
    let word = if codec is LPCM_U8 { c + 0x80 } else { c };
    lemma_le_bytes_len(word, sample_size(codec));
    lemma_be_bytes_len(word, sample_size(codec));
}

/// Decoding the encoding of one sample gives back the sample, clamped to the
/// range of the codec.
pub proof fn lemma_sample_round_trip(v: int, codec: Codec)
    requires
        is_lpcm(codec),
    ensures
        sample_value(sample_bytes(v, codec), codec) == clamp_sample(v, codec),
{
    lemma_codec_width(codec);
    let n = sample_size(codec);
    let c = clamp_sample(v, codec);
    let word = if codec is LPCM_U8 { c + 0x80 } else { c };
    lemma_le_round_trip(word, n);
    lemma_be_round_trip(word, n);
    let m = pow256(n) as int;
    if word < 0 {
        assert(word % m == word + m) by {
            lemma_fundamental_div_mod_converse_mod(word, m, -1, word + m);
        }
    } else {
        assert(word % m == word) by {
            lemma_fundamental_div_mod_converse_mod(word, m, 0, word);
        }
    }
}

/// Encoding the value of the bytes of one sample gives back those bytes.
pub proof fn lemma_sample_bytes_of_value(s: Seq<u8>, codec: Codec)
    requires
        is_lpcm(codec),
        s.len() == sample_size(codec),
    ensures
        -half_range(codec) <= sample_value(s, codec) < half_range(codec),
        sample_bytes(sample_value(s, codec), codec) == s,
{
    lemma_codec_width(codec);
    let n = sample_size(codec);
    let u = word_value(s, codec);
    lemma_le_value_bound(s);
    lemma_be_value_bound(s);
    lemma_le_bytes_of_value(s);
    lemma_be_bytes_of_value(s);
    let v = sample_value(s, codec);
    if !(codec is LPCM_U8) && u >= half_range(codec) {
        lemma_le_bytes_periodic(v, 1, n);
        lemma_be_bytes_periodic(v, 1, n);
    }
}

/// The encoding of a sequence of samples has one sample's width per sample.
pub proof fn lemma_encode_all_len(samples: Seq<i64>, codec: Codec)
    ensures
        encode_all(samples, codec).len() == samples.len() * sample_size(codec),
    decreases samples.len(),
{
    if samples.len() > 0 {
        lemma_encode_all_len(samples.drop_last(), codec);
        lemma_sample_bytes_len(samples.last() as int, codec);
        let w = sample_size(codec) as int;
        assert((samples.len() - 1) * w + w == samples.len() * w) by (nonlinear_arith);
    }
}

/// The bytes of the `i`-th sample in the encoding of a sequence of samples.
pub proof fn lemma_encode_all_at(samples: Seq<i64>, codec: Codec, i: int)
    requires
        0 <= i < samples.len(),
    ensures
        ({
            let w = sample_size(codec) as int;
            encode_all(samples, codec).subrange(w * i, w * i + w) == sample_bytes(
                samples[i] as int,
                codec,
            )
        }),
    decreases samples.len(),
{
    let w = sample_size(codec) as int;
    let n = samples.len() as int;
    let prefix = encode_all(samples.drop_last(), codec);
    let last = sample_bytes(samples.last() as int, codec);
    lemma_encode_all_len(samples.drop_last(), codec);
    lemma_sample_bytes_len(samples.last() as int, codec);
    assert(encode_all(samples, codec) == prefix + last);
    if i == n - 1 {
        assert(w * i == (n - 1) * w) by (nonlinear_arith)
            requires
                i == n - 1,
        ;
        assert((prefix + last).subrange(w * i, w * i + w) =~= last);
    } else {
        lemma_encode_all_at(samples.drop_last(), codec, i);
        assert(w * i + w <= (n - 1) * w) by (nonlinear_arith)
            requires
                i < n - 1,
                w >= 0,
        ;
        assert((prefix + last).subrange(w * i, w * i + w) =~= prefix.subrange(w * i, w * i + w));
    }
}

/// Decoding what `create` encodes gives back every sample, clamped to the
/// range of the codec.
pub proof fn lemma_decode_encode(samples: Seq<i64>, codec: Codec)
    requires
        is_lpcm(codec),
    ensures
        decode_all(encode_all(samples, codec), codec) == clamp_all(samples, codec),
{
    lemma_codec_width(codec);
    let w = sample_size(codec) as int;
    let bytes = encode_all(samples, codec);
    lemma_encode_all_len(samples, codec);
    assert(bytes.len() as int / w == samples.len()) by (nonlinear_arith)
        requires
            bytes.len() == samples.len() * w,
            w >= 1,
    ;
    assert forall|i: int| 0 <= i < samples.len() implies sample_at(bytes, codec, i)
        == clamp_sample(samples[i] as int, codec) by {
        lemma_encode_all_at(samples, codec, i);
        lemma_sample_round_trip(samples[i] as int, codec);
    }
    assert(decode_all(bytes, codec) =~= clamp_all(samples, codec));
}

/// Encoding the first `m` decoded samples gives back the bytes they came from.
proof fn lemma_encode_decode_prefix(bytes: Seq<u8>, codec: Codec, m: int)
    requires
        is_lpcm(codec),
        0 <= m <= bytes.len() / sample_size(codec),
    ensures
        encode_all(decode_all(bytes, codec).take(m), codec) == bytes.take(
            m * sample_size(codec) as int,
        ),
    decreases m,
{
    lemma_codec_width(codec);
    let w = sample_size(codec) as int;
    let d = decode_all(bytes, codec);
    if m == 0 {
        assert(d.take(0) =~= Seq::<i64>::empty());
        assert(bytes.take(0) =~= Seq::<u8>::empty());
        assert(encode_all(d.take(m), codec) == Seq::<u8>::empty());
        assert(m * w == 0) by (nonlinear_arith)
            requires
                m == 0,
        ;
    } else {
        lemma_encode_decode_prefix(bytes, codec, m - 1);
        assert(d.take(m).drop_last() =~= d.take(m - 1));
        assert((m - 1) * w + w == m * w && m * w <= bytes.len()) by (nonlinear_arith)
            requires
                1 <= m <= bytes.len() as int / w,
                w >= 1,
        ;
        let chunk = bytes.subrange((m - 1) * w, (m - 1) * w + w);
        assert(w * (m - 1) == (m - 1) * w) by (nonlinear_arith);
        lemma_sample_bytes_of_value(chunk, codec);
        assert(d.take(m).last() == sample_value(chunk, codec) as i64);
        assert(encode_all(d.take(m), codec) == encode_all(d.take(m - 1), codec) + sample_bytes(
            d.take(m).last() as int,
            codec,
        ));
        assert(sample_bytes(d.take(m).last() as int, codec) == chunk);
        assert(bytes.take(m * w) =~= bytes.take((m - 1) * w) + chunk);
        assert(encode_all(d.take(m), codec) == bytes.take(m * w));
    }
}

/// Encoding the decoded samples of `bytes` gives back `bytes`, up to the
/// trailing bytes that do not make up a whole sample.
pub proof fn lemma_encode_decode(bytes: Seq<u8>, codec: Codec)
    requires
        is_lpcm(codec),
    ensures
        encode_all(decode_all(bytes, codec), codec) == bytes.take(
            (bytes.len() / sample_size(codec) * sample_size(codec)) as int,
        ),
{
    lemma_codec_width(codec);
    let n = bytes.len() / sample_size(codec);
    lemma_encode_decode_prefix(bytes, codec, n as int);
    assert(decode_all(bytes, codec).take(n as int) =~= decode_all(bytes, codec));
}

/// The codecs that differ only in byte order: `le` stores each sample
/// least significant byte first, `be` most significant byte first.
pub open spec fn byte_order_pair(le: Codec, be: Codec) -> bool {
    ||| le is LPCM_I16_LE && be is LPCM_I16_BE
    ||| le is LPCM_I24_LE && be is LPCM_I24_BE
    ||| le is LPCM_I32_LE && be is LPCM_I32_BE
    ||| le is LPCM_F32_LE && be is LPCM_F32_BE
    ||| le is LPCM_F64_LE && be is LPCM_F64_BE
}

/// The encodings of samples with the two byte orders of a codec differ only
/// by reversing the bytes of each sample.
pub proof fn lemma_byte_orders(samples: Seq<i64>, le: Codec, be: Codec)
    requires
        byte_order_pair(le, be),
    ensures
        sample_size(le) == sample_size(be),
        encode_all(samples, le).len() == encode_all(samples, be).len(),
        forall|i: int, j: int|
            #![trigger encode_all(samples, le)[sample_size(le) * i + j]]
            0 <= i < samples.len() && 0 <= j < sample_size(le) ==> encode_all(samples, le)[sample_size(
                le,
            ) * i + j] == encode_all(samples, be)[sample_size(le) * i + sample_size(le) - 1 - j],
{
    let w = sample_size(le) as int;
    lemma_codec_width(le);
    lemma_encode_all_len(samples, le);
    lemma_encode_all_len(samples, be);
    assert forall|i: int, j: int|
        0 <= i < samples.len() && 0 <= j < w implies #[trigger] encode_all(samples, le)[w * i + j]
        == encode_all(samples, be)[w * i + w - 1 - j] by {
        lemma_encode_all_at(samples, le, i);
        lemma_encode_all_at(samples, be, i);
        let n = samples.len() as int;
        assert(0 <= w * i && w * i + w <= n * w) by (nonlinear_arith)
            requires
                0 <= i < n,
                w >= 1,
        ;
        let c = clamp_sample(samples[i] as int, le);
        assert(c == clamp_sample(samples[i] as int, be));
        assert(encode_all(samples, le)[w * i + j] == encode_all(samples, le).subrange(w * i, w * i + w)[j]);
        assert(encode_all(samples, be)[w * i + w - 1 - j] == encode_all(samples, be).subrange(
            w * i,
            w * i + w,
        )[w - 1 - j]);
        crate::byte_order::lemma_be_le_reverse(c, w as nat, w - 1 - j);
    }
}

} // verus!
