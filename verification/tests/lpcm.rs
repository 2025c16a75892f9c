use audio::decoder::AudioDecoder;
use audio::Codec;
use audio::codecs::lpcm::{create, get_bit_depth, read, read_sample};
use audio::AudioError;

#[test]
fn read_unsigned_8_bit() {
    assert_eq!(vec![-128, 0, 127], read(&[0x00, 0x80, 0xFF], Codec::LPCM_U8).unwrap());
}

#[test]
fn read_signed_8_bit() {
    assert_eq!(vec![-128, 0, 127], read(&[0x80, 0x00, 0x7F], Codec::LPCM_I8).unwrap());
}

#[test]
fn read_16_bit_in_both_byte_orders() {
    assert_eq!(vec![22942, -32768], read(&[0x9E, 0x59, 0x00, 0x80], Codec::LPCM_I16_LE).unwrap());
    assert_eq!(vec![22942, -32768], read(&[0x59, 0x9E, 0x80, 0x00], Codec::LPCM_I16_BE).unwrap());
}

#[test]
fn read_24_bit_in_both_byte_orders() {
    assert_eq!(vec![197121, -8388608], read(&[1, 2, 3, 0, 0, 0x80], Codec::LPCM_I24_LE).unwrap());
    assert_eq!(vec![197121, -8388608], read(&[3, 2, 1, 0x80, 0, 0], Codec::LPCM_I24_BE).unwrap());
    assert_eq!(vec![-1], read(&[0xFF, 0xFF, 0xFF], Codec::LPCM_I24_BE).unwrap());
}

#[test]
fn read_32_bit_in_both_byte_orders() {
    assert_eq!(vec![-2147483648], read(&[0, 0, 0, 0x80], Codec::LPCM_I32_LE).unwrap());
    assert_eq!(vec![2147483647], read(&[0x7F, 0xFF, 0xFF, 0xFF], Codec::LPCM_I32_BE).unwrap());
}

#[test]
fn read_floating_point_keeps_the_bit_pattern() {
    let one = 1.0f32.to_bits() as i32 as i64;
    assert_eq!(vec![one], read(&1.0f32.to_le_bytes(), Codec::LPCM_F32_LE).unwrap());
    assert_eq!(vec![one], read(&1.0f32.to_be_bytes(), Codec::LPCM_F32_BE).unwrap());
    let minus_half = (-0.5f64).to_bits() as i64;
    assert_eq!(vec![minus_half], read(&(-0.5f64).to_le_bytes(), Codec::LPCM_F64_LE).unwrap());
    assert_eq!(vec![minus_half], read(&(-0.5f64).to_be_bytes(), Codec::LPCM_F64_BE).unwrap());
}

#[test]
fn read_ignores_trailing_bytes() {
    assert_eq!(vec![1], read(&[1, 0, 7], Codec::LPCM_I16_LE).unwrap());
    assert_eq!(Vec::<i64>::new(), read(&[1, 0], Codec::LPCM_I24_LE).unwrap());
}

#[test]
fn read_of_g711_is_unsupported() {
    assert!(matches!(read(&[0x55], Codec::G711_ALAW), Err(AudioError::Unsupported(_))));
    assert!(matches!(read(&[0x55], Codec::G711_ULAW), Err(AudioError::Unsupported(_))));
}

#[test]
fn read_sample_values_and_errors() {
    assert_eq!(-1, read_sample(&[0xFF, 0xFF, 0x00], Codec::LPCM_I16_BE).unwrap());
    assert!(matches!(read_sample(&[0xFF], Codec::LPCM_I16_BE), Err(AudioError::AudioEnd)));
    assert!(matches!(read_sample(&[0xFF], Codec::G711_ULAW), Err(AudioError::Unsupported(_))));
}

#[test]
fn create_in_each_byte_order() {
    assert_eq!(vec![0x00, 0x80, 0xFF], create(&[-128, 0, 127], Codec::LPCM_U8).unwrap());
    assert_eq!(vec![0x9E, 0x59], create(&[22942], Codec::LPCM_I16_LE).unwrap());
    assert_eq!(vec![0x59, 0x9E], create(&[22942], Codec::LPCM_I16_BE).unwrap());
    assert_eq!(vec![1, 2, 3], create(&[197121], Codec::LPCM_I24_LE).unwrap());
    assert_eq!(vec![3, 2, 1], create(&[197121], Codec::LPCM_I24_BE).unwrap());
    assert_eq!(vec![0xFF, 0xFF, 0xFF, 0xFF], create(&[-1], Codec::LPCM_I32_BE).unwrap());
    assert_eq!(1.0f32.to_le_bytes().to_vec(), create(&[1.0f32.to_bits() as i64], Codec::LPCM_F32_LE).unwrap());
}

#[test]
fn create_clamps_to_the_range_of_the_codec() {
    assert_eq!(vec![0xFF, 0x00], create(&[300, -300], Codec::LPCM_U8).unwrap());
    assert_eq!(vec![0x7F, 0x80], create(&[300, -300], Codec::LPCM_I8).unwrap());
    assert_eq!(vec![0xFF, 0x7F, 0x00, 0x80], create(&[40000, -40000], Codec::LPCM_I16_LE).unwrap());
    assert_eq!(vec![0x7F, 0xFF, 0xFF], create(&[1 << 30], Codec::LPCM_I24_BE).unwrap());
}

#[test]
fn create_of_g711_is_unsupported() {
    assert!(matches!(create(&[0], Codec::G711_ALAW), Err(AudioError::Unsupported(_))));
}

#[test]
fn create_then_read_gives_the_samples_back() {
    let samples: Vec<i64> = vec![-32768, -1, 0, 1, 12345, 32767];
    for codec in [Codec::LPCM_I16_LE, Codec::LPCM_I16_BE, Codec::LPCM_I24_LE, Codec::LPCM_I24_BE, Codec::LPCM_I32_LE, Codec::LPCM_I32_BE] {
        assert_eq!(samples, read(&create(&samples, codec).unwrap(), codec).unwrap());
    }
    let bytes: Vec<u8> = vec![9, 8, 7, 6, 5, 4, 3];
    let decoded = read(&bytes, Codec::LPCM_I24_LE).unwrap();
    assert_eq!(bytes[0..6].to_vec(), create(&decoded, Codec::LPCM_I24_LE).unwrap());
}

#[test]
fn decoder_counts_the_samples_still_to_come() {
    let mut d = AudioDecoder::with_data(Some(Codec::LPCM_I16_LE), 16, 8000, 1, vec![0, 0, 0xff, 0x7f, 9]);
    assert_eq!(2, d.len());
    assert_eq!(Some(0), d.next_sample());
    assert_eq!(1, d.len());
    assert_eq!(Some(32767), d.next_sample());
    assert_eq!(0, d.len());
    assert_eq!(None, d.next_sample());
    assert_eq!(None, d.next_sample());
    assert_eq!(0, AudioDecoder::new().len());
}

#[test]
fn byte_orders_differ_by_reversing_each_sample() {
    let samples: Vec<i64> = vec![-8388608, -2, 0, 77, 123456, 8388607];
    let pairs = [
        (Codec::LPCM_I16_LE, Codec::LPCM_I16_BE),
        (Codec::LPCM_I24_LE, Codec::LPCM_I24_BE),
        (Codec::LPCM_I32_LE, Codec::LPCM_I32_BE),
        (Codec::LPCM_F32_LE, Codec::LPCM_F32_BE),
        (Codec::LPCM_F64_LE, Codec::LPCM_F64_BE),
    ];
    for (le, be) in pairs {
        let w = (le.bit_depth() / 8) as usize;
        let x = create(&samples, le).unwrap();
        let y = create(&samples, be).unwrap();
        assert_eq!(x.len(), y.len());
        assert_eq!(x.len(), samples.len() * w);
        for i in 0..samples.len() {
            for j in 0..w {
                assert_eq!(x[i * w + j], y[i * w + (w - 1 - j)]);
            }
        }
    }
}

#[test]
fn bit_depth_of_each_codec() {
    assert_eq!(8, get_bit_depth(Codec::LPCM_U8).unwrap());
    assert_eq!(8, get_bit_depth(Codec::LPCM_I8).unwrap());
    assert_eq!(16, get_bit_depth(Codec::LPCM_I16_BE).unwrap());
    assert_eq!(24, get_bit_depth(Codec::LPCM_I24_LE).unwrap());
    assert_eq!(32, get_bit_depth(Codec::LPCM_F32_BE).unwrap());
    assert_eq!(64, get_bit_depth(Codec::LPCM_F64_LE).unwrap());
    match get_bit_depth(Codec::G711_ALAW) {
        Err(AudioError::Unsupported(m)) => assert_eq!("Unsupported codec G.711 8-bit A-law was passed into the LPCM decoder", m),
        _ => panic!("expected an unsupported codec"),
    }
    assert!(matches!(get_bit_depth(Codec::G711_ULAW), Err(AudioError::Unsupported(_))));
}

#[test]
fn decoder_steps_through_the_samples_then_stops() {
    let data: Vec<u8> = vec![1, 0, 2, 0, 3, 0, 4];
    let mut d = AudioDecoder::with_data(Some(Codec::LPCM_I16_LE), 16, 8000, 1, data.clone());
    let mut got = Vec::new();
    for _ in 0..6 {
        got.push(d.next_sample());
    }
    assert_eq!(vec![Some(1), Some(2), Some(3), None, None, None], got);
    let expected: Vec<i64> = (0..data.len() / 2).map(|k| read_sample(&data[k * 2..k * 2 + 2], Codec::LPCM_I16_LE).unwrap()).collect();
    assert_eq!(vec![1, 2, 3], expected);
}
