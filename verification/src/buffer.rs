//! A container for audio samples.
use vstd::prelude::*;

verus! {

/// A container for audio samples and important attributes.
///
/// The sample type is a parameter: the decoders of this library produce the
/// integer values that the encoded bytes denote.
#[derive(Clone, Debug)]
pub struct AudioBuffer<S> {
    /// Number of samples per second
    pub sample_rate: u32,
    /// Number of channels
    pub channels: u32,
    /// Decoded audio samples
    pub samples: Vec<S>,
}

/// The duration in milliseconds of `num_samples` samples spread over
/// `channels` channels at `sample_rate` samples per second.
pub open spec fn spec_duration(num_samples: nat, channels: nat, sample_rate: nat) -> nat {
    num_samples / channels * 1000 / sample_rate
}

/// The duration is the number of whole milliseconds that the whole frames
/// (samples over all channels) last: `d` milliseconds fit in the frames'
/// time and `d + 1` do not.
pub proof fn lemma_duration_bounds(num_samples: nat, channels: nat, sample_rate: nat)
    requires
        channels > 0,
        sample_rate > 0,
    ensures
        ({
            let d = spec_duration(num_samples, channels, sample_rate);
            let frames = num_samples / channels;
            &&& frames * channels <= num_samples < (frames + 1) * channels
            &&& d * sample_rate <= frames * 1000 < (d + 1) * sample_rate
        }),
{
    let d = spec_duration(num_samples, channels, sample_rate);
    let frames = num_samples / channels;
    assert(frames * channels <= num_samples < (frames + 1) * channels) by (nonlinear_arith)
        requires
            frames == num_samples / channels,
            channels > 0,
    ;
    assert(d * sample_rate <= frames * 1000 < (d + 1) * sample_rate) by (nonlinear_arith)
        requires
            d == frames * 1000 / sample_rate,
            sample_rate > 0,
    ;
}

impl<S> AudioBuffer<S> {
    /// Creates a new, empty `AudioBuffer`.
    pub fn new(sample_rate: u32, channels: u32) -> (r: Self)
        ensures
            r.sample_rate == sample_rate,
            r.channels == channels,
            r.samples@.len() == 0,
    {
        AudioBuffer { sample_rate: sample_rate, channels: channels, samples: Vec::new() }
    }

    /// Creates a new `AudioBuffer` using the given samples.
    pub fn from_samples(sample_rate: u32, channels: u32, samples: Vec<S>) -> (r: Self)
        ensures
            r.sample_rate == sample_rate,
            r.channels == channels,
            r.samples@ == samples@,
    {
        AudioBuffer { sample_rate: sample_rate, channels: channels, samples: samples }
    }

    /// The duration of the audio in milliseconds.
    pub fn duration(&self) -> (r: usize)
        requires
            self.channels > 0,
            self.sample_rate > 0,
            self.samples@.len() / (self.channels as nat) * 1000 <= usize::MAX,
        ensures
            r == spec_duration(self.samples@.len(), self.channels as nat, self.sample_rate as nat),
            r * self.sample_rate <= self.samples@.len() / (self.channels as nat) * 1000 < (r + 1)
                * self.sample_rate,
    {
        proof {
            lemma_duration_bounds(self.samples@.len(), self.channels as nat, self.sample_rate as nat);
        }
        self.samples.len() / self.channels as usize * 1000 / self.sample_rate as usize
    }
}

} // verus!
