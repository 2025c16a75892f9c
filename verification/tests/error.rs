use audio::AudioError;
use std::error::Error;
use std::io;

#[test]
#[allow(deprecated)]
fn from_io() {
    let io_error = io::Error::new(io::ErrorKind::Other, "other");
    let io_description = io_error.description().to_owned();
    let error = AudioError::from(io_error);
    assert!(error.cause().is_some());
    assert_eq!(error.cause().unwrap().description(), io_description);
    assert_eq!(error.description(), io_description);
}

#[test]
fn descriptions_of_the_other_errors() {
    let format = AudioError::Format("Not valid WAVE".to_string());
    assert_eq!("Not valid WAVE", format.description());
    assert!(format.cause().is_none());
    let unsupported = AudioError::Unsupported("Unknown compression type".to_string());
    assert_eq!("Unknown compression type", unsupported.description());
    assert!(unsupported.cause().is_none());
    assert_eq!("Unexpected end of audio", AudioError::AudioEnd.description());
    assert!(AudioError::AudioEnd.cause().is_none());
}
