# audio

Decoding and encoding of audio in the WAVE and AIFF/AIFF-C formats, with
linear PCM (8 to 64 bits, integer and floating point) and G.711 A-law and
µ-law data, verified with Verus.

Samples are the integers that their encoded bytes denote; conversion to
floating-point samples, and files and streams, live in `app/`.

Layout of `src/`:

- `byte_order.rs`: the models of little- and big-endian integers, and the
  readers and writers of the `byteorder` crate, whose contracts are stated
  over those models.
- `codecs/`: the codecs (`lpcm.rs`, `g711.rs`) with what decoding what was
  encoded gives back.
- `decoder.rs`, `encoder.rs`: sample-by-sample decoding of a file's data,
  and encoding of a buffer's samples.
- `format/`: the chunk walks that read WAVE and AIFF files, the writers of
  both, the 80-bit extended sample rate of AIFF, and the proofs that reading
  what was written gives back the codec, attributes and encoded data.
- `audio.rs`: loading and writing whole files, and the laws that loading
  what was written gives back the audio and that writing it again
  reproduces the file.
