//! Errors reported by the audio encoding and decoding processes.
use vstd::prelude::*;
use vstd::string::StringExecFns;

verus! {

#[verifier::external_type_specification]
#[verifier::external_body]
pub struct ExIoError(std::io::Error);

/// Result type of an audio encoding or decoding process.
pub type AudioResult<T> = Result<T, AudioError>;

/// An enumeration for reporting audio errors.
#[derive(Debug)]
pub enum AudioError {
    /// An audio file does not follow its format
    Format(String),
    /// Any underlying IO error occurred during an audio process
    Io(std::io::Error),
    /// An audio process requires use of an unsupported feature
    Unsupported(String),
    /// The end of the audio file was reached
    AudioEnd,
}

/// `std::error::Error::description` of an I/O error, as an owned string.
/// Nothing is stated of the text.
#[verifier::external_body]
fn io_error_description(error: &std::io::Error) -> String {
    #[allow(deprecated)]
    std::error::Error::description(error).to_string()
}

/// The kind of failure of a decoding process, as contracts speak of it.
pub enum Failure {
    /// A violation of the file format: `AudioError::Format`
    Format,
    /// An unsupported feature: `AudioError::Unsupported`
    Unsupported,
    /// Data ended early: `AudioError::AudioEnd`
    End,
}

/// Whether `e` reports a failure of kind `f`.
pub open spec fn is_failure(e: AudioError, f: Failure) -> bool {
    match f {
        Failure::Format => e is Format,
        Failure::Unsupported => e is Unsupported,
        Failure::End => e is AudioEnd,
    }
}

impl AudioError {
    /// A short description of the error.
    pub fn description(&self) -> (r: String)
        ensures
            match self {
                AudioError::Format(s) => r@ == s@,
                AudioError::Unsupported(s) => r@ == s@,
                AudioError::AudioEnd => r@ == "Unexpected end of audio"@,
                AudioError::Io(_) => true,
            },
    {
        match self {
            AudioError::Format(s) => s.clone(),
            AudioError::Unsupported(s) => s.clone(),
            AudioError::Io(e) => io_error_description(e),
            AudioError::AudioEnd => String::from_str("Unexpected end of audio"),
        }
    }

    /// The underlying error, for errors that wrap an I/O error.
    pub fn cause(&self) -> (r: Option<&std::io::Error>)
        ensures
            match self {
                AudioError::Io(e) => r == Some(e),
                _ => r is None,
            },
    {
        match self {
            AudioError::Io(e) => Some(e),
            _ => None,
        }
    }
}

impl From<std::io::Error> for AudioError {
    fn from(err: std::io::Error) -> (r: AudioError) {
        AudioError::Io(err)
    }
}

impl vstd::std_specs::convert::FromSpecImpl<std::io::Error> for AudioError {
    open spec fn obeys_from_spec() -> bool {
        true
    }

    open spec fn from_spec(err: std::io::Error) -> AudioError {
        AudioError::Io(err)
    }
}

} // verus!
