use audio::AudioBuffer;

#[test]
fn new() {
    let audio: AudioBuffer<f32> = AudioBuffer::new(192000, 6);
    assert_eq!(192000, audio.sample_rate);
    assert_eq!(6, audio.channels);
    assert_eq!(0, audio.samples.len());
}

#[test]
fn from_samples() {
    let samples = vec![0f32, 1f32, 0f32, -1f32];
    let audio = AudioBuffer::from_samples(48000, 1, samples);
    assert_eq!(48000, audio.sample_rate);
    assert_eq!(1, audio.channels);
    assert_eq!(4, audio.samples.len());
    assert!((0f32 - audio.samples[0]).abs() < 1e-4);
    assert!((1f32 - audio.samples[1]).abs() < 1e-4);
    assert!((0f32 - audio.samples[2]).abs() < 1e-4);
    assert!((-1f32 - audio.samples[3]).abs() < 1e-4);
}

#[test]
fn duration() {
    let mut audio = AudioBuffer::from_samples(44100, 1, vec![0f32; 48000]);
    assert_eq!(1088, audio.duration());

    audio.samples = vec![0f32; 44200];
    assert_eq!(1002, audio.duration());

    audio.channels = 2;
    assert_eq!(501, audio.duration());

    audio.samples = vec![0f32; 44100];
    assert_eq!(500, audio.duration());

    audio.channels = 5;
    audio.samples = vec![0f32; 48000];
    assert_eq!(217, audio.duration());
}

#[test]
fn duration_of_raw_samples() {
    let audio: AudioBuffer<i64> = AudioBuffer::from_samples(8000, 2, vec![0i64; 16000]);
    assert_eq!(1000, audio.duration());
}
