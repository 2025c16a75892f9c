use audio::codecs::g711::{alaw_decode, alaw_encode, read, read_sample, ulaw_decode, ulaw_encode};
use audio::{AudioError, Codec};

#[test]
fn alaw_values() {
    assert_eq!(8, alaw_decode(0xD5));
    assert_eq!(-8, alaw_decode(0x55));
    assert_eq!(32256, alaw_decode(0xAA));
    assert_eq!(-32256, alaw_decode(0x2A));
    assert_eq!(0xD5, alaw_encode(0));
    assert_eq!(0x55, alaw_encode(-1));
    assert_eq!(0xAA, alaw_encode(32767));
    assert_eq!(0x2A, alaw_encode(-32768));
}

#[test]
fn ulaw_values() {
    assert_eq!(0, ulaw_decode(0xFF));
    assert_eq!(0, ulaw_decode(0x7F));
    assert_eq!(32124, ulaw_decode(0x80));
    assert_eq!(-32124, ulaw_decode(0x00));
    assert_eq!(0xFF, ulaw_encode(0));
    assert_eq!(0x80, ulaw_encode(32767));
    assert_eq!(0x00, ulaw_encode(-32768));
}

#[test]
fn every_byte_round_trips() {
    for b in 0..=255u8 {
        assert_eq!(b, alaw_encode(alaw_decode(b)));
        if b != 0x7F {
            assert_eq!(b, ulaw_encode(ulaw_decode(b)));
        }
    }
    assert_eq!(0xFF, ulaw_encode(ulaw_decode(0x7F)));
}

#[test]
fn quantization_error_is_bounded() {
    for v in i16::MIN..=i16::MAX {
        let a = alaw_decode(alaw_encode(v)) as i32 - v as i32;
        let u = ulaw_decode(ulaw_encode(v)) as i32 - v as i32;
        assert!(-512 <= a && a <= 512);
        assert!(-644 <= u && u <= 644);
    }
}

#[test]
fn read_and_write_g711() {
    assert_eq!(vec![8i64, -8], read(&[0xD5, 0x55], Codec::G711_ALAW).unwrap());
    assert_eq!(vec![0xD5u8, 0xAA, 0x2A], audio::codecs::g711::write(&[0, 100000, -100000], Codec::G711_ALAW).unwrap());
    assert_eq!(vec![0xFFu8, 0x80], audio::codecs::g711::write(&[0, 32767], Codec::G711_ULAW).unwrap());
    assert!(matches!(read(&[1], Codec::LPCM_U8), Err(AudioError::Unsupported(_))));
    assert!(matches!(audio::codecs::g711::write(&[1], Codec::LPCM_I16_LE), Err(AudioError::Unsupported(_))));
    assert_eq!(-32124, read_sample(&[0x00, 0xFF], Codec::G711_ULAW).unwrap());
    assert!(matches!(read_sample(&[], Codec::G711_ULAW), Err(AudioError::AudioEnd)));
}
