use audio::Codec;

fn all_codecs() -> Vec<Codec> {
    vec![
        Codec::LPCM_U8,
        Codec::LPCM_I8,
        Codec::LPCM_I16_LE,
        Codec::LPCM_I16_BE,
        Codec::LPCM_I24_LE,
        Codec::LPCM_I24_BE,
        Codec::LPCM_I32_LE,
        Codec::LPCM_I32_BE,
        Codec::LPCM_F32_LE,
        Codec::LPCM_F32_BE,
        Codec::LPCM_F64_LE,
        Codec::LPCM_F64_BE,
        Codec::G711_ALAW,
        Codec::G711_ULAW,
    ]
}

#[test]
fn display() {
    let formatted_strs = vec![
        "Unsigned 8-bit PCM",
        "Signed 8-bit PCM",
        "Signed 16-bit little endian PCM",
        "Signed 16-bit big endian PCM",
        "Signed 24-bit little endian PCM",
        "Signed 24-bit big endian PCM",
        "Signed 32-bit little endian PCM",
        "Signed 32-bit big endian PCM",
        "32-bit little endian floating-point PCM",
        "32-bit big endian floating-point PCM",
        "64-bit little endian floating-point PCM",
        "64-bit big endian floating-point PCM",
        "G.711 8-bit A-law",
        "G.711 8-bit µ-law",
    ];
    for (expected_str, codec) in formatted_strs.iter().zip(all_codecs().iter()) {
        assert_eq!(*expected_str, codec.to_string());
    }
}

#[test]
fn debug() {
    let debug_strs = vec![
        "LPCM_U8",
        "LPCM_I8",
        "LPCM_I16_LE",
        "LPCM_I16_BE",
        "LPCM_I24_LE",
        "LPCM_I24_BE",
        "LPCM_I32_LE",
        "LPCM_I32_BE",
        "LPCM_F32_LE",
        "LPCM_F32_BE",
        "LPCM_F64_LE",
        "LPCM_F64_BE",
        "G711_ALAW",
        "G711_ULAW",
    ];
    for (expected_str, codec) in debug_strs.iter().zip(all_codecs().iter()) {
        assert_eq!(*expected_str, format!("{:?}", codec));
    }
}

#[test]
fn bit_depths() {
    let depths = vec![8, 8, 16, 16, 24, 24, 32, 32, 32, 32, 64, 64, 8, 8];
    for (depth, codec) in depths.iter().zip(all_codecs().iter()) {
        assert_eq!(*depth, codec.bit_depth());
    }
}
