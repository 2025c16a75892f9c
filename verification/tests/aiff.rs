use audio::Codec;
use audio::encoder::AudioEncoder;
use audio::format::aiff::{determine_codec, is_aifc, CommonChunk, CompressionType};
use audio::format::extended::{extended_from_sample_rate, sample_rate_from_extended};
use audio::traits::Chunk;
use audio::{header_size_ok, load, write_as, AudioBuffer, AudioError, AudioFormat};

const RATE_44100: [u8; 10] = [0x40, 0x0E, 0xAC, 0x44, 0x00, 0x00, 0x00, 0x00, 0x00, 0x00];

fn chunk(id: &[u8; 4], body: &[u8]) -> Vec<u8> {
    let mut bytes = id.to_vec();
    bytes.extend_from_slice(&(body.len() as i32).to_be_bytes());
    bytes.extend_from_slice(body);
    bytes
}

fn comm_body(channels: i16, frames: u32, bit_depth: i16, compression: &[u8]) -> Vec<u8> {
    let mut body = channels.to_be_bytes().to_vec();
    body.extend_from_slice(&frames.to_be_bytes());
    body.extend_from_slice(&bit_depth.to_be_bytes());
    body.extend_from_slice(&RATE_44100);
    body.extend_from_slice(compression);
    body
}

fn ssnd_body(data: &[u8]) -> Vec<u8> {
    let mut body = vec![0u8; 8];
    body.extend_from_slice(data);
    body
}

fn file(form_type: &[u8; 4], chunks: &[Vec<u8>]) -> Vec<u8> {
    let body: Vec<u8> = chunks.concat();
    let mut bytes = b"FORM".to_vec();
    bytes.extend_from_slice(&(body.len() as i32 + 4).to_be_bytes());
    bytes.extend_from_slice(form_type);
    bytes.extend_from_slice(&body);
    bytes
}

fn fver() -> Vec<u8> {
    chunk(b"FVER", &0xA2805140u32.to_be_bytes())
}

#[test]
fn extended_to_sample_rate() {
    let result = sample_rate_from_extended(&RATE_44100).unwrap();
    assert_eq!(44100u32, result);
}

#[test]
fn sample_rate_to_extended() {
    let result = extended_from_sample_rate(44100);
    assert_eq!(RATE_44100.to_vec(), result);
}

#[test]
fn extended_sample_rates() {
    assert_eq!(vec![0u8; 10], extended_from_sample_rate(0));
    assert_eq!(0, sample_rate_from_extended(&[0u8; 10]).unwrap());
    let rate_8000 = extended_from_sample_rate(8000);
    assert_eq!(vec![0x40, 0x0B, 0xFA, 0x00, 0, 0, 0, 0, 0, 0], rate_8000);
    assert_eq!(8000, sample_rate_from_extended(&rate_8000).unwrap());
    // A power of two has the top mantissa bit alone.
    let rate_32768 = extended_from_sample_rate(32768);
    assert_eq!(vec![0x40, 0x0E, 0x80, 0, 0, 0, 0, 0, 0, 0], rate_32768);
    assert_eq!(32768, sample_rate_from_extended(&rate_32768).unwrap());
    assert_eq!(vec![0x3F, 0xFF, 0x80, 0, 0, 0, 0, 0, 0, 0], extended_from_sample_rate(1));
    // Infinity is not a sample rate.
    let infinity = [0x7F, 0xFF, 0, 0, 0, 0, 0, 0, 0, 0];
    assert!(matches!(sample_rate_from_extended(&infinity), Err(AudioError::Format(_))));
    // Negative rates convert to zero, fractions are cut off.
    assert_eq!(0, sample_rate_from_extended(&[0xC0, 0x0E, 0xAC, 0x44, 0, 0, 0, 0, 0, 0]).unwrap());
    assert_eq!(1, sample_rate_from_extended(&[0x3F, 0xFF, 0xC0, 0, 0, 0, 0, 0, 0, 0]).unwrap());
}

#[test]
fn write_16_bit_aiff_bytes() {
    let audio = AudioBuffer::from_samples(44100, 1, vec![1i64, -1]);
    let bytes = audio::audio::write(&audio, AudioFormat::Aiff).unwrap();
    let mut expected: Vec<u8> = vec![
        0x46, 0x4F, 0x52, 0x4D, 0x00, 0x00, 0x00, 0x32, 0x41, 0x49, 0x46, 0x46, // FORM header
        0x43, 0x4F, 0x4D, 0x4D, 0x00, 0x00, 0x00, 0x12, // COMM chunk header
        0x00, 0x01, 0x00, 0x00, 0x00, 0x02, 0x00, 0x10, // channels, frames, bit depth
    ];
    expected.extend_from_slice(&RATE_44100);
    expected.extend_from_slice(&[
        0x53, 0x53, 0x4E, 0x44, 0x00, 0x00, 0x00, 0x0C, // SSND chunk header
        0, 0, 0, 0, 0, 0, 0, 0, // offset and block size
        0x00, 0x01, 0xFF, 0xFF, // data
    ]);
    assert_eq!(expected, bytes);
}

#[test]
fn write_then_load_aiff() {
    let odd = AudioBuffer::from_samples(32768, 1, vec![1i64, -1, 7]);
    let bytes = write_as(&odd, AudioFormat::Aiff, Codec::LPCM_I24_BE).unwrap();
    let loaded = load(&bytes, AudioFormat::Aiff).unwrap();
    assert_eq!(32768, loaded.sample_rate);
    assert_eq!(odd.samples, loaded.samples);
    let audio = AudioBuffer::from_samples(44100, 2, vec![0i64, 100, -100, 32767, -32768, 5]);
    for codec in [Codec::LPCM_I16_BE, Codec::LPCM_I24_BE, Codec::LPCM_I32_BE] {
        let bytes = write_as(&audio, AudioFormat::Aiff, codec).unwrap();
        let loaded = load(&bytes, AudioFormat::Aiff).unwrap();
        assert_eq!(audio.sample_rate, loaded.sample_rate);
        assert_eq!(audio.channels, loaded.channels);
        assert_eq!(audio.samples, loaded.samples);
    }
}

#[test]
fn aifc_codecs_write_a_format_version_chunk() {
    let audio = AudioBuffer::from_samples(44100, 1, vec![5i64, -5]);
    let bytes = write_as(&audio, AudioFormat::Aiff, Codec::LPCM_U8).unwrap();
    assert_eq!(b"AIFC", &bytes[8..12]);
    assert_eq!(fver(), bytes[12..24].to_vec());
    assert_eq!(b"COMM", &bytes[24..28]);
    assert_eq!(&24i32.to_be_bytes(), &bytes[28..32]);
    assert_eq!(b"raw ", &bytes[50..54]);
    assert_eq!(&[0u8, 0u8], &bytes[54..56]);
    let loaded = load(&bytes, AudioFormat::Aiff).unwrap();
    assert_eq!(audio.samples, loaded.samples);

    let float = AudioBuffer::from_samples(44100, 1, vec![(-2.5f64).to_bits() as i64]);
    let bytes = write_as(&float, AudioFormat::Aiff, Codec::LPCM_F64_BE).unwrap();
    assert_eq!(&40i32.to_be_bytes(), &bytes[28..32]);
    assert_eq!(b"fl64", &bytes[50..54]);
    assert_eq!(17, bytes[54]);
    assert_eq!(b"IEEE 64-bit float", &bytes[55..72]);
    let loaded = load(&bytes, AudioFormat::Aiff).unwrap();
    assert_eq!(float.samples, loaded.samples);
}

#[test]
fn odd_data_is_padded() {
    let audio = AudioBuffer::from_samples(44100, 1, vec![1i64, 2, 3]);
    let bytes = write_as(&audio, AudioFormat::Aiff, Codec::LPCM_I8).unwrap();
    // The pad byte follows the data, and the header counts it.
    assert_eq!(&[1u8, 2, 3, 0], &bytes[bytes.len() - 4..]);
    assert_eq!(&(bytes.len() as i32 - 8).to_be_bytes(), &bytes[4..8]);
    assert_eq!(&11i32.to_be_bytes(), &bytes[bytes.len() - 16..bytes.len() - 12]);
    let loaded = load(&bytes, AudioFormat::Aiff).unwrap();
    assert_eq!(audio.samples, loaded.samples);
    let rewritten = write_as(&loaded, AudioFormat::Aiff, Codec::LPCM_I8).unwrap();
    assert_eq!(bytes, rewritten);
}

#[test]
fn odd_sized_chunks_skip_their_pad_byte() {
    let bytes = file(b"AIFF", &[
        chunk(b"COMM", &comm_body(1, 3, 8, &[])),
        chunk(b"SSND", &ssnd_body(&[1, 2, 3])),
        vec![0],
    ]);
    let loaded = load(&bytes, AudioFormat::Aiff).unwrap();
    assert_eq!(vec![1i64, 2, 3], loaded.samples);
}

#[test]
fn read_aifc_format() {
    let data: Vec<u8> = vec![0x12, 0x34, 0xFE, 0xDC, 0x00, 0x01];
    let aiff = file(b"AIFF", &[chunk(b"COMM", &comm_body(1, 3, 16, &[])), chunk(b"SSND", &ssnd_body(&data))]);
    let mut none = b"NONE".to_vec();
    none.push(14);
    none.extend_from_slice(b"not compressed");
    none.push(0);
    let aifc = file(b"AIFC", &[
        fver(),
        chunk(b"COMM", &comm_body(1, 3, 16, &none)),
        chunk(b"SSND", &ssnd_body(&data)),
    ]);
    let aiff = load(&aiff, AudioFormat::Aiff).unwrap();
    let aifc = load(&aifc, AudioFormat::Aiff).unwrap();
    assert_eq!(aiff.channels, aifc.channels);
    assert_eq!(aiff.sample_rate, aifc.sample_rate);
    assert_eq!(aiff.samples.len(), aifc.samples.len());
    for (aiff_sample, aifc_sample) in aiff.samples.iter().zip(&aifc.samples) {
        assert_eq!(aiff_sample, aifc_sample);
    }
    assert_eq!(vec![0x1234i64, -292, 1], aiff.samples);
}

#[test]
fn not_an_aiff_file() {
    let mut bytes = file(b"AIFF", &[]);
    bytes[0] = b'X';
    assert!(matches!(load(&bytes, AudioFormat::Aiff), Err(AudioError::Format(_))));
    let other = file(b"WAVE", &[]);
    assert!(matches!(load(&other, AudioFormat::Aiff), Err(AudioError::Format(_))));
}

#[test]
fn sound_data_before_common_is_invalid() {
    let bytes = file(b"AIFF", &[chunk(b"SSND", &ssnd_body(&[1, 2])), chunk(b"COMM", &comm_body(1, 2, 8, &[]))]);
    assert!(matches!(load(&bytes, AudioFormat::Aiff), Err(AudioError::Format(_))));
}

#[test]
fn aifc_data_needs_a_format_version_chunk() {
    let mut raw = b"raw ".to_vec();
    raw.extend_from_slice(&[0, 0]);
    let bytes = file(b"AIFC", &[chunk(b"COMM", &comm_body(1, 2, 8, &raw)), chunk(b"SSND", &ssnd_body(&[1, 2]))]);
    assert!(matches!(load(&bytes, AudioFormat::Aiff), Err(AudioError::Format(_))));
}

#[test]
fn unknown_compression_is_unsupported() {
    let mut unknown = b"ima4".to_vec();
    unknown.extend_from_slice(&[0, 0]);
    let bytes = file(b"AIFC", &[fver(), chunk(b"COMM", &comm_body(1, 2, 16, &unknown)), chunk(b"SSND", &ssnd_body(&[1, 2]))]);
    assert!(matches!(load(&bytes, AudioFormat::Aiff), Err(AudioError::Unsupported(_))));
}

#[test]
fn unsupported_bit_depth_is_unsupported() {
    let bytes = file(b"AIFF", &[chunk(b"COMM", &comm_body(1, 2, 12, &[])), chunk(b"SSND", &ssnd_body(&[1, 2, 3, 4]))]);
    assert!(matches!(load(&bytes, AudioFormat::Aiff), Err(AudioError::Unsupported(_))));
}

#[test]
fn negative_chunk_size_is_invalid() {
    let mut bogus = b"JUNK".to_vec();
    bogus.extend_from_slice(&(-8i32).to_be_bytes());
    let bytes = file(b"AIFF", &[bogus, chunk(b"COMM", &comm_body(1, 2, 8, &[]))]);
    assert!(matches!(load(&bytes, AudioFormat::Aiff), Err(AudioError::Format(_))));
}

#[test]
fn missing_sound_data_ends_early() {
    let bytes = file(b"AIFF", &[chunk(b"COMM", &comm_body(1, 2, 8, &[]))]);
    assert!(matches!(load(&bytes, AudioFormat::Aiff), Err(AudioError::AudioEnd)));
}

#[test]
fn aiff_header_announcing_too_little() {
    let mut bytes = b"FORM".to_vec();
    bytes.extend_from_slice(&(-1i32).to_be_bytes());
    bytes.extend_from_slice(b"AIFF");
    assert!(!header_size_ok(&bytes, AudioFormat::Aiff));
    assert!(header_size_ok(&file(b"AIFF", &[]), AudioFormat::Aiff));
    // A FORM header of another form type is refused before its size counts.
    let mut other = b"FORM".to_vec();
    other.extend_from_slice(&0i32.to_be_bytes());
    other.extend_from_slice(b"WAVE");
    assert!(header_size_ok(&other, AudioFormat::Aiff));
    match load(&other, AudioFormat::Aiff) {
        Err(AudioError::Format(message)) => assert_eq!("Not valid AIFF or AIFF-C", message),
        _ => panic!("not an AIFF file"),
    }
}

#[test]
fn aiff_refuses_unsupported_codecs() {
    let audio = AudioBuffer::from_samples(44100, 1, vec![0i64, 0]);
    assert!(matches!(write_as(&audio, AudioFormat::Aiff, Codec::LPCM_I16_LE), Err(AudioError::Unsupported(_))));
    let ulaw = write_as(&audio, AudioFormat::Aiff, Codec::G711_ULAW).unwrap();
    assert_eq!(b"ulaw", &ulaw[50..54]);
    let loaded = load(&ulaw, AudioFormat::Aiff).unwrap();
    assert_eq!(vec![0i64, 0], loaded.samples);
    assert!(matches!(is_aifc(Codec::LPCM_F32_LE), Err(AudioError::Unsupported(_))));
    assert!(is_aifc(Codec::LPCM_F32_BE).unwrap());
    assert!(!is_aifc(Codec::LPCM_I24_BE).unwrap());
}

#[test]
fn read_common_chunk() {
    let mut fl32 = b"fl32".to_vec();
    fl32.extend_from_slice(&[0, 0]);
    let chunk = CommonChunk::read(&comm_body(2, 1000, 32, &fl32)).unwrap();
    assert_eq!(2, chunk.num_channels);
    assert_eq!(1000, chunk.num_frames);
    assert_eq!(32, chunk.bit_depth);
    assert_eq!(44100, chunk.sample_rate);
    assert_eq!(CompressionType::Float32, chunk.compression_type);
    assert!(matches!(CommonChunk::read(&[0u8; 17]), Err(AudioError::AudioEnd)));
    assert!(matches!(CommonChunk::read(&[0u8; 20]), Err(AudioError::AudioEnd)));
}

#[test]
fn determine_aiff_codecs() {
    assert_eq!(Codec::LPCM_U8, determine_codec(CompressionType::Raw, 8).unwrap());
    assert_eq!(Codec::LPCM_I8, determine_codec(CompressionType::Pcm, 8).unwrap());
    assert_eq!(Codec::G711_ALAW, determine_codec(CompressionType::ALaw, 16).unwrap());
    assert_eq!(Codec::LPCM_F32_BE, determine_codec(CompressionType::Float32, 32).unwrap());
    assert!(matches!(determine_codec(CompressionType::Raw, 16), Err(AudioError::Unsupported(_))));
}

#[test]
fn common_chunk_fields_stand_in_place() {
    let samples: Vec<i64> = vec![0; 7];
    let audio = AudioBuffer::from_samples(44100, 2, samples);
    let encoder = AudioEncoder::from_buffer(&audio, Codec::LPCM_I16_BE);
    let mut w: Vec<u8> = Vec::new();
    assert!(CommonChunk::write(&mut w, &encoder).is_ok());
    let size = CommonChunk::calculate_size(Codec::LPCM_I16_BE).unwrap();
    assert_eq!(18, size);
    assert_eq!(8 + size as usize, w.len());
    assert_eq!(b"COMM", &w[0..4]);
    assert_eq!(size, i32::from_be_bytes([w[4], w[5], w[6], w[7]]));
    assert_eq!(2, i16::from_be_bytes([w[8], w[9]]));
    assert_eq!(3, u32::from_be_bytes([w[10], w[11], w[12], w[13]]));
    assert_eq!(16, i16::from_be_bytes([w[14], w[15]]));
    assert_eq!(RATE_44100.to_vec(), w[16..26].to_vec());
}

#[test]
fn write_uses_16_bit_big_endian_for_aiff() {
    let audio = AudioBuffer::from_samples(8000, 1, vec![1, -2, 300]);
    assert_eq!(
        write_as(&audio, AudioFormat::Aiff, Codec::LPCM_I16_BE).unwrap(),
        audio::audio::write(&audio, AudioFormat::Aiff).unwrap()
    );
}
