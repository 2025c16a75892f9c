use audio::Codec;
use audio::encoder::AudioEncoder;
use audio::format::wave::{determine_codec, FormatChunk, FormatTag};
use audio::traits::Chunk;
use audio::{header_size_ok, load, write_as, AudioBuffer, AudioError, AudioFormat};

fn wave_header(size: u32) -> Vec<u8> {
    let mut bytes = b"RIFF".to_vec();
    bytes.extend_from_slice(&size.to_le_bytes());
    bytes.extend_from_slice(b"WAVE");
    bytes
}

fn chunk(id: &[u8; 4], body: &[u8]) -> Vec<u8> {
    let mut bytes = id.to_vec();
    bytes.extend_from_slice(&(body.len() as u32).to_le_bytes());
    bytes.extend_from_slice(body);
    bytes
}

fn fmt_body(tag: u16, channels: u16, rate: u32, bit_depth: u16) -> Vec<u8> {
    let mut body = tag.to_le_bytes().to_vec();
    body.extend_from_slice(&channels.to_le_bytes());
    body.extend_from_slice(&rate.to_le_bytes());
    body.extend_from_slice(&(rate * channels as u32 * bit_depth as u32 / 8).to_le_bytes());
    body.extend_from_slice(&(channels * bit_depth / 8).to_le_bytes());
    body.extend_from_slice(&bit_depth.to_le_bytes());
    body
}

fn file(chunks: &[Vec<u8>]) -> Vec<u8> {
    let body: Vec<u8> = chunks.concat();
    let mut bytes = wave_header(body.len() as u32 + 4);
    bytes.extend_from_slice(&body);
    bytes
}

#[test]
fn write_16_bit_wave_bytes() {
    let audio = AudioBuffer::from_samples(44100, 1, vec![1i64, -1]);
    let bytes = audio::audio::write(&audio, AudioFormat::Wave).unwrap();
    let expected: Vec<u8> = vec![
        0x52, 0x49, 0x46, 0x46, 0x28, 0x00, 0x00, 0x00, 0x57, 0x41, 0x56, 0x45, // RIFF header
        0x66, 0x6D, 0x74, 0x20, 0x10, 0x00, 0x00, 0x00, // fmt chunk header
        0x01, 0x00, 0x01, 0x00, 0x44, 0xAC, 0x00, 0x00, 0x88, 0x58, 0x01, 0x00, 0x02, 0x00,
        0x10, 0x00, // fmt chunk body
        0x64, 0x61, 0x74, 0x61, 0x04, 0x00, 0x00, 0x00, 0x01, 0x00, 0xFF, 0xFF, // data chunk
    ];
    assert_eq!(expected, bytes);
}

#[test]
fn write_then_load_wave() {
    let audio = AudioBuffer::from_samples(22050, 2, vec![0i64, 100, -100, 32767, -32768, 5]);
    let bytes = audio::audio::write(&audio, AudioFormat::Wave).unwrap();
    let loaded = load(&bytes, AudioFormat::Wave).unwrap();
    assert_eq!(audio.sample_rate, loaded.sample_rate);
    assert_eq!(audio.channels, loaded.channels);
    assert_eq!(audio.samples, loaded.samples);
}

#[test]
fn write_then_load_clamps_samples() {
    let audio = AudioBuffer::from_samples(8000, 1, vec![1000i64, -1000, 10]);
    let bytes = write_as(&audio, AudioFormat::Wave, Codec::LPCM_U8).unwrap();
    let loaded = load(&bytes, AudioFormat::Wave).unwrap();
    assert_eq!(vec![127i64, -128, 10], loaded.samples);
}

#[test]
fn floating_point_wave_has_a_fact_chunk() {
    let sample = 0.25f32.to_bits() as i64;
    let audio = AudioBuffer::from_samples(48000, 1, vec![sample]);
    let bytes = write_as(&audio, AudioFormat::Wave, Codec::LPCM_F32_LE).unwrap();
    assert_eq!(62, bytes.len());
    assert_eq!(&54u32.to_le_bytes(), &bytes[4..8]);
    assert_eq!(&18u32.to_le_bytes(), &bytes[16..20]);
    assert_eq!(&3u16.to_le_bytes(), &bytes[20..22]);
    assert_eq!(b"fact", &bytes[38..42]);
    assert_eq!(&1u32.to_le_bytes(), &bytes[46..50]);
    let loaded = load(&bytes, AudioFormat::Wave).unwrap();
    assert_eq!(vec![sample], loaded.samples);
}

#[test]
fn many_channels_use_the_extensible_format() {
    let audio = AudioBuffer::from_samples(44100, 3, vec![1i64, 2, 3, 4, 5, 6]);
    let bytes = write_as(&audio, AudioFormat::Wave, Codec::LPCM_I24_LE).unwrap();
    assert_eq!(&40u32.to_le_bytes(), &bytes[16..20]);
    assert_eq!(&0xFFFEu16.to_le_bytes(), &bytes[20..22]);
    assert_eq!(&1u16.to_le_bytes(), &bytes[44..46]);
    let loaded = load(&bytes, AudioFormat::Wave).unwrap();
    assert_eq!(3, loaded.channels);
    assert_eq!(audio.samples, loaded.samples);
}

#[test]
fn wave_refuses_unsupported_codecs() {
    let audio = AudioBuffer::from_samples(44100, 1, vec![0i64]);
    assert!(matches!(write_as(&audio, AudioFormat::Wave, Codec::LPCM_I16_BE), Err(AudioError::Unsupported(_))));
    assert!(matches!(write_as(&audio, AudioFormat::Wave, Codec::LPCM_I8), Err(AudioError::Unsupported(_))));

}

#[test]
fn not_a_wave_file() {
    let mut bytes = file(&[chunk(b"fmt ", &fmt_body(1, 1, 8000, 8))]);
    bytes[0] = b'X';
    assert!(matches!(load(&bytes, AudioFormat::Wave), Err(AudioError::Format(_))));
}

#[test]
fn missing_data_chunk_ends_early() {
    let bytes = file(&[chunk(b"fmt ", &fmt_body(1, 1, 8000, 8))]);
    assert!(matches!(load(&bytes, AudioFormat::Wave), Err(AudioError::AudioEnd)));
}

#[test]
fn data_before_format_is_invalid() {
    let bytes = file(&[chunk(b"data", &[1, 2]), chunk(b"fmt ", &fmt_body(1, 1, 8000, 8))]);
    assert!(matches!(load(&bytes, AudioFormat::Wave), Err(AudioError::Format(_))));
}

#[test]
fn unknown_chunks_are_skipped() {
    let bytes = file(&[
        chunk(b"LIST", &[1, 2, 3, 4]),
        chunk(b"fmt ", &fmt_body(1, 1, 8000, 8)),
        chunk(b"data", &[0x80, 0x81]),
    ]);
    let loaded = load(&bytes, AudioFormat::Wave).unwrap();
    assert_eq!(vec![0i64, 1], loaded.samples);
}

#[test]
fn unsupported_format_tag() {
    let bytes = file(&[chunk(b"fmt ", &fmt_body(2, 1, 8000, 4)), chunk(b"data", &[0])]);
    assert!(matches!(load(&bytes, AudioFormat::Wave), Err(AudioError::Unsupported(_))));
}

#[test]
fn non_pcm_data_needs_a_fact_chunk() {
    let bytes = file(&[chunk(b"fmt ", &fmt_body(3, 1, 8000, 32)), chunk(b"data", &[0, 0, 0, 0])]);
    assert!(matches!(load(&bytes, AudioFormat::Wave), Err(AudioError::Format(_))));
    let with_fact = file(&[
        chunk(b"fmt ", &fmt_body(3, 1, 8000, 32)),
        chunk(b"fact", &[1, 0, 0, 0]),
        chunk(b"data", &[0, 0, 0x80, 0x3F]),
    ]);
    let loaded = load(&with_fact, AudioFormat::Wave).unwrap();
    assert_eq!(vec![1.0f32.to_bits() as i64], loaded.samples);
}

#[test]
fn g711_wave_data() {
    let bytes = file(&[
        chunk(b"fmt ", &fmt_body(6, 1, 8000, 8)),
        chunk(b"fact", &[2, 0, 0, 0]),
        chunk(b"data", &[0xD5, 0x55]),
    ]);
    let loaded = load(&bytes, AudioFormat::Wave).unwrap();
    assert_eq!(vec![8i64, -8], loaded.samples);
}

#[test]
fn write_then_load_g711_wave() {
    let audio = AudioBuffer::from_samples(8000, 1, vec![0i64, 1000, -1000, 40000]);
    let alaw = write_as(&audio, AudioFormat::Wave, Codec::G711_ALAW).unwrap();
    assert_eq!(&6u16.to_le_bytes(), &alaw[20..22]);
    assert_eq!(vec![8i64, 1008, -1008, 32256], load(&alaw, AudioFormat::Wave).unwrap().samples);
    let ulaw = write_as(&audio, AudioFormat::Wave, Codec::G711_ULAW).unwrap();
    assert_eq!(&7u16.to_le_bytes(), &ulaw[20..22]);
    assert_eq!(vec![0i64, 988, -988, 32124], load(&ulaw, AudioFormat::Wave).unwrap().samples);
}

#[test]
fn wave_header_announcing_too_little() {
    let bytes = wave_header(2);
    assert!(!header_size_ok(&bytes, AudioFormat::Wave));
    assert!(header_size_ok(&wave_header(4), AudioFormat::Wave));
    assert!(matches!(load(&wave_header(4), AudioFormat::Wave), Err(AudioError::AudioEnd)));
}

#[test]
fn read_format_chunk() {
    let chunk = FormatChunk::read(&fmt_body(1, 2, 44100, 16)).unwrap();
    assert_eq!(FormatTag::Pcm, chunk.format_tag);
    assert_eq!(2, chunk.num_channels);
    assert_eq!(44100, chunk.sample_rate);
    assert_eq!(176400, chunk.data_rate);
    assert_eq!(4, chunk.block_size);
    assert_eq!(16, chunk.bit_depth);
    assert!(matches!(FormatChunk::read(&[1, 0, 1]), Err(AudioError::AudioEnd)));
}

#[test]
fn determine_wave_codecs() {
    assert_eq!(Codec::LPCM_U8, determine_codec(FormatTag::Pcm, 8).unwrap());
    assert_eq!(Codec::LPCM_I24_LE, determine_codec(FormatTag::Pcm, 24).unwrap());
    assert_eq!(Codec::LPCM_F64_LE, determine_codec(FormatTag::Float, 64).unwrap());
    assert_eq!(Codec::G711_ULAW, determine_codec(FormatTag::MuLaw, 8).unwrap());
    assert!(matches!(determine_codec(FormatTag::Float, 16), Err(AudioError::Unsupported(_))));
}

#[test]
fn format_chunk_fields_stand_in_place() {
    let samples: Vec<i64> = vec![0; 6];
    let audio = AudioBuffer::from_samples(44100, 2, samples);
    let encoder = AudioEncoder::from_buffer(&audio, Codec::LPCM_I16_LE);
    let mut w: Vec<u8> = Vec::new();
    assert!(FormatChunk::write(&mut w, &encoder, Codec::LPCM_I16_LE).is_ok());
    let size = FormatChunk::calculate_size(&encoder, Codec::LPCM_I16_LE);
    assert_eq!(16, size);
    assert_eq!(8 + size as usize, w.len());
    assert_eq!(b"fmt ", &w[0..4]);
    assert_eq!(size, u32::from_le_bytes([w[4], w[5], w[6], w[7]]));
    assert_eq!(1, u16::from_le_bytes([w[8], w[9]]));
    assert_eq!(2, u16::from_le_bytes([w[10], w[11]]));
    assert_eq!(44100, u32::from_le_bytes([w[12], w[13], w[14], w[15]]));
    assert_eq!(176400, u32::from_le_bytes([w[16], w[17], w[18], w[19]]));
    assert_eq!(4, u16::from_le_bytes([w[20], w[21]]));
    assert_eq!(16, u16::from_le_bytes([w[22], w[23]]));
}

#[test]
fn write_uses_16_bit_little_endian_for_wave() {
    let audio = AudioBuffer::from_samples(8000, 1, vec![1, -2, 300]);
    assert_eq!(
        write_as(&audio, AudioFormat::Wave, Codec::LPCM_I16_LE).unwrap(),
        audio::audio::write(&audio, AudioFormat::Wave).unwrap()
    );
}
