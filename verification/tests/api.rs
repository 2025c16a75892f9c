use audio::{format_of_extension, load, AudioBuffer, AudioError, AudioFormat, AudioResult};
use std::path::Path;

/// The part of opening a file that does not touch the file system: the
/// format from the extension, then the audio from the file's bytes.
fn open_bytes(path: &str, bytes: &[u8]) -> AudioResult<AudioBuffer<i64>> {
    match Path::new(path).extension().and_then(|s| s.to_str()) {
        Some(ext) => {
            let format = format_of_extension(ext)?;
            load(bytes, format)
        },
        None => Err(AudioError::Format(format!("Did not recognize file {}", path))),
    }
}

fn wave_file() -> Vec<u8> {
    let samples: Vec<i64> = (0..200).map(|i| (i * 100 - 10000) as i64).collect();
    audio::audio::write(&AudioBuffer::from_samples(8000, 1, samples), AudioFormat::Wave).unwrap()
}

fn check_open() {
    let err_cases = vec![
        // Path::extension cases
        //  - No file name
        //  - No embedded `.`
        //  - File name begins with `.` and has no other `.`s within
        "tests/wav/",
        "tests/wav",
        ".gitignore",
        // Unsupported audio or file format
        "Cargo.toml",
    ];
    let bytes = wave_file();
    for path in err_cases.iter() {
        let result = open_bytes(path, &bytes);
        assert!(result.is_err());
    }
    // Not a file of the format that the extension names
    assert!(open_bytes("does/not/exist.wav", b"not audio").is_err());
    // Valid path
    let result = open_bytes("tests/wav/M1F1-int16-AFsp.wav", &bytes);
    assert!(result.is_ok());
}

#[test]
fn api_open() {
    check_open();
}

#[test]
fn lib_open() {
    check_open();
}

#[test]
fn extensions() {
    for ext in ["wav", "wave"] {
        assert_eq!(AudioFormat::Wave, format_of_extension(ext).unwrap());
    }
    for ext in ["aif", "aiff", "aifc"] {
        assert_eq!(AudioFormat::Aiff, format_of_extension(ext).unwrap());
    }
    match format_of_extension("mp2") {
        Err(AudioError::Format(message)) => {
            assert_eq!("Did not recognize audio file format .mp2", message)
        },
        _ => panic!("mp2 is not a supported format"),
    }
    assert!(matches!(format_of_extension("WAV"), Err(AudioError::Format(_))));
}
