use audio::{load, write_as, AudioBuffer, AudioFormat, Codec};

/// A 440 Hz sine at 16 bits.
fn sine() -> Vec<i32> {
    (0..400)
        .map(|i| ((i as f64 * 440.0 * 2.0 * std::f64::consts::PI / 8000.0).sin() * 30000.0) as i32)
        .collect()
}

/// The sine in the sample values of `codec`.
fn samples_for(codec: Codec, sine: &[i32]) -> Vec<i64> {
    sine.iter()
        .map(|&v| match codec {
            Codec::LPCM_U8 | Codec::LPCM_I8 => (v >> 8) as i64,
            Codec::LPCM_I24_LE | Codec::LPCM_I24_BE => (v << 8) as i64,
            Codec::LPCM_I32_LE | Codec::LPCM_I32_BE => (v << 16) as i64,
            Codec::LPCM_F32_LE | Codec::LPCM_F32_BE => (v as f32 / 32768.0).to_bits() as i32 as i64,
            Codec::LPCM_F64_LE | Codec::LPCM_F64_BE => (v as f64 / 32768.0).to_bits() as i64,
            _ => v as i64,
        })
        .collect()
}

/// A sample of `codec` on the scale of 8-bit samples.
fn to_8_bit(codec: Codec, sample: i64) -> i64 {
    match codec {
        Codec::LPCM_U8 | Codec::LPCM_I8 => sample,
        Codec::LPCM_I16_LE | Codec::LPCM_I16_BE => sample >> 8,
        Codec::LPCM_I24_LE | Codec::LPCM_I24_BE => sample >> 16,
        Codec::LPCM_I32_LE | Codec::LPCM_I32_BE => sample >> 24,
        Codec::LPCM_F32_LE | Codec::LPCM_F32_BE => (f32::from_bits(sample as u32) * 128.0).floor() as i64,
        _ => (f64::from_bits(sample as u64) * 128.0).floor() as i64,
    }
}

/// Writes the sine with each codec, loads each file back, and compares the
/// hundredth sample of each on the 8-bit scale; files that cannot be written
/// are left out.
fn transcode(format: AudioFormat, codecs: &[Codec], channels: u32) {
    let sine = sine();
    let mut samples: Vec<i64> = Vec::new();
    for &codec in codecs.iter() {
        let audio = AudioBuffer::from_samples(8000, channels, samples_for(codec, &sine));
        if let Ok(bytes) = write_as(&audio, format, codec) {
            if let Ok(loaded) = load(&bytes, format) {
                samples.push(to_8_bit(codec, loaded.samples[100]));
            }
        }
    }
    assert!(samples.len() > 1);
    let sample_8_bit = samples[0];
    for s in samples.iter().skip(1) {
        assert_eq!(sample_8_bit, *s);
    }
}

const WAVE_CODECS: [Codec; 8] = [
    Codec::LPCM_U8, Codec::LPCM_I16_LE, Codec::LPCM_I24_LE, Codec::LPCM_I32_LE, Codec::LPCM_F32_LE, Codec::LPCM_F64_LE, Codec::G711_ALAW, Codec::G711_ULAW,
];

const AIFF_CODECS: [Codec; 9] = [
    Codec::LPCM_I8, Codec::LPCM_I16_BE, Codec::LPCM_I24_BE, Codec::LPCM_I32_BE, Codec::LPCM_U8, Codec::LPCM_F32_BE, Codec::LPCM_F64_BE, Codec::G711_ALAW,
    Codec::G711_ULAW,
];

#[test]
fn transcoding_wave() {
    transcode(AudioFormat::Wave, &WAVE_CODECS, 1);
    // wave extensible formats
    transcode(AudioFormat::Wave, &WAVE_CODECS, 4);
}

#[test]
fn transcoding_aiff() {
    transcode(AudioFormat::Aiff, &AIFF_CODECS, 1);
}

#[test]
fn lib_wave() {
    transcode(AudioFormat::Wave, &WAVE_CODECS, 2);
}

#[test]
fn lib_aiff() {
    transcode(AudioFormat::Aiff, &AIFF_CODECS, 2);
}

#[test]
fn rewriting_a_loaded_file_reproduces_it() {
    let sine = sine();
    for (format, codecs) in [(AudioFormat::Wave, WAVE_CODECS.to_vec()), (AudioFormat::Aiff, AIFF_CODECS.to_vec())] {
        for codec in codecs {
            let audio = AudioBuffer::from_samples(44100, 2, samples_for(codec, &sine));
            let first = write_as(&audio, format, codec).unwrap();
            let loaded = load(&first, format).unwrap();
            let second = write_as(&loaded, format, codec).unwrap();
            assert_eq!(first, second);
        }
    }
}
