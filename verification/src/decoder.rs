//! Sample-by-sample decoding of encoded audio data.
use crate::codecs::g711::{decode_byte, g711_value};
use crate::codecs::lpcm::{decode_all, decode_at, sample_value};
use crate::codecs::{is_lpcm, sample_size, Codec};
use vstd::prelude::*;

verus! {

/// The encoded audio data of a file together with what is needed to decode
/// it. Samples are handed out one at a time, from the start of the data.
#[derive(Debug)]
pub struct AudioDecoder {
    pub codec: Option<Codec>,
    pub bit_depth: u32,
    pub sample_rate: u32,
    pub channels: u32,
    pub data: Vec<u8>,
    /// The offset in `data` of the next sample to decode
    pub index: usize,
}

/// The sample that the `sample_size(codec)` bytes `s` encode with `codec`.
pub open spec fn codec_sample(s: Seq<u8>, codec: Codec) -> int {
    if is_lpcm(codec) {
        sample_value(s, codec)
    } else {
        g711_value(s[0], codec) as int
    }
}

/// The samples that a decoder with `codec` gives for `data`: all whole
/// samples, or none without a codec.
pub open spec fn decoded_samples(codec: Option<Codec>, data: Seq<u8>) -> Seq<i64> {
    match codec {
        Some(c) => if is_lpcm(c) {
            decode_all(data, c)
        } else {
            crate::codecs::g711::decode_all(data, c)
        },
        None => Seq::empty(),
    }
}

/// A decoder gives one sample for each whole `sample_size` bytes.
pub proof fn lemma_decoded_len(codec: Codec, data: Seq<u8>)
    ensures
        decoded_samples(Some(codec), data).len() == data.len() / sample_size(codec),
{
    if !is_lpcm(codec) {
        assert(sample_size(codec) == 1);
        assert(data.len() / 1 == data.len()) by (nonlinear_arith);
    }
}

/// The number of samples that a decoder still gives: the whole samples in
/// its data from its position, or none without a codec.
pub open spec fn remaining_samples(d: AudioDecoder) -> nat {
    match d.codec {
        Some(c) => if d.index < d.data@.len() {
            ((d.data@.len() - d.index) as nat) / sample_size(c)
        } else {
            0
        },
        None => 0,
    }
}

/// Whether one step of decoding takes the decoder `before` to `after` and
/// gives `r`: the sample at the position, which moves past it; or `None`,
/// without moving, when no whole sample remains or no codec is set.
pub open spec fn next_outcome(before: AudioDecoder, after: AudioDecoder, r: Option<i64>) -> bool {
    &&& after.codec == before.codec
    &&& after.bit_depth == before.bit_depth
    &&& after.sample_rate == before.sample_rate
    &&& after.channels == before.channels
    &&& after.data@ == before.data@
    &&& ({
        let pos = before.index;
        let len = before.data@.len();
        match before.codec {
            None => r is None && after.index == pos,
            Some(c) => if pos + sample_size(c) > len {
                r is None && after.index == pos
            } else {
                &&& after.index == pos + sample_size(c)
                &&& r == Some(
                    codec_sample(before.data@.subrange(pos as int, (pos + sample_size(c)) as int), c)
                        as i64,
                )
            },
        }
    })
}

/// Each step of decoding gives a sample exactly while samples remain, and
/// then one fewer remains; the sample is the first of the decoded samples
/// of the rest of the data. So stepping a decoder gives exactly its
/// `remaining_samples`, in order, and then `None` on every later step.
pub proof fn lemma_next_counts_down(before: AudioDecoder, after: AudioDecoder, r: Option<i64>)
    requires
        next_outcome(before, after, r),
    ensures
        r is Some <==> remaining_samples(before) > 0,
        r is Some ==> remaining_samples(after) + 1 == remaining_samples(before) && r == Some(
            decoded_samples(
                before.codec,
                before.data@.subrange(before.index as int, before.data@.len() as int),
            )[0],
        ),
        r is None ==> after.index == before.index && remaining_samples(after) == remaining_samples(
            before,
        ),
{
    if let Some(c) = before.codec {
        let w = sample_size(c) as int;
        let len = before.data@.len() as int;
        let pos = before.index as int;
        assert(1 <= w <= 8);
        if pos < len {
            let rest = before.data@.subrange(pos, len);
            lemma_decoded_len(c, rest);
            if pos + w <= len {
                assert((len - pos) / w >= 1) by (nonlinear_arith)
                    requires
                        len - pos >= w,
                        w >= 1,
                ;
                assert(((len - pos) - w) / w + 1 == (len - pos) / w) by (nonlinear_arith)
                    requires
                        len - pos >= w,
                        w >= 1,
                ;
                assert(rest.subrange(0, w) =~= before.data@.subrange(pos, pos + w));
                if !is_lpcm(c) {
                    assert(rest[0] == before.data@.subrange(pos, pos + w)[0]);
                } else {
                    assert(w * 0 == 0);
                    assert(rest.subrange(w * 0, w * 0 + w) =~= rest.subrange(0, w));
                }
            } else {
                assert((len - pos) / w == 0) by (nonlinear_arith)
                    requires
                        0 < len - pos < w,
                ;
            }
        }
    }
}

/// The samples that a decoder still gives, in order: the decoded samples of
/// its data from its position, or none past the end or without a codec.
pub open spec fn pending_samples(d: AudioDecoder) -> Seq<i64> {
    match d.codec {
        Some(c) => if d.index < d.data@.len() {
            decoded_samples(d.codec, d.data@.subrange(d.index as int, d.data@.len() as int))
        } else {
            Seq::empty()
        },
        None => Seq::empty(),
    }
}

/// Dropping the first `w` bytes of whole samples drops the first sample.
proof fn lemma_decoded_drop_first(c: Codec, rest: Seq<u8>)
    requires
        sample_size(c) <= rest.len(),
    ensures
        decoded_samples(Some(c), rest.subrange(sample_size(c) as int, rest.len() as int))
            == decoded_samples(Some(c), rest).drop_first(),
{
    let w = sample_size(c) as int;
    let tail = rest.subrange(w, rest.len() as int);
    assert(1 <= w <= 8);
    lemma_decoded_len(c, rest);
    lemma_decoded_len(c, tail);
    let m = rest.len() as int;
    assert((m - w) / w + 1 == m / w) by (nonlinear_arith)
        requires
            m >= w,
            w >= 1,
    ;
    let a = decoded_samples(Some(c), tail);
    let b = decoded_samples(Some(c), rest).drop_first();
    assert forall|i: int| 0 <= i < a.len() implies a[i] == b[i] by {
        if is_lpcm(c) {
            assert(w * i + w == w * (i + 1) && w * (i + 1) + w <= m && 0 <= w * i) by (
            nonlinear_arith)
                requires
                    0 <= i,
                    i + 1 < m / w,
                    w >= 1,
            ;
            assert(tail.subrange(w * i, w * i + w) =~= rest.subrange(w * (i + 1), w * (i + 1) + w));
        } else {
            assert(w == 1);
            assert(tail[i] == rest[i + 1]);
        }
    }
    assert(a =~= b);
}

/// One step of decoding gives the first of the samples still to come and
/// leaves the others; or, when none is to come, gives `None` and leaves the
/// decoder where it was.
pub proof fn lemma_next_takes_first(before: AudioDecoder, after: AudioDecoder, r: Option<i64>)
    requires
        next_outcome(before, after, r),
    ensures
        pending_samples(before).len() > 0 ==> r == Some(pending_samples(before)[0])
            && pending_samples(after) == pending_samples(before).drop_first(),
        pending_samples(before).len() == 0 ==> r is None && after.index == before.index
            && pending_samples(after).len() == 0,
{
    lemma_next_counts_down(before, after, r);
    if let Some(c) = before.codec {
        let w = sample_size(c) as int;
        let len = before.data@.len() as int;
        let pos = before.index as int;
        assert(1 <= w <= 8);
        if pos < len {
            let rest = before.data@.subrange(pos, len);
            lemma_decoded_len(c, rest);
            if pos + w <= len {
                lemma_decoded_drop_first(c, rest);
                assert(rest.subrange(w, rest.len() as int) =~= before.data@.subrange(pos + w, len));
                if pos + w == len {
                    lemma_decoded_len(c, before.data@.subrange(pos + w, len));
                    assert(0int / w == 0) by (nonlinear_arith)
                        requires
                            w >= 1,
                    ;
                }
            } else {
                assert((len - pos) / w == 0) by (nonlinear_arith)
                    requires
                        0 < len - pos < w,
                ;
            }
        }
    }
}

/// Stepping a decoder again and again gives exactly the samples that were
/// still to come at the start, in order, and then `None` on every later
/// step: `states[k]` steps to `states[k + 1]` giving `results[k]`.
pub proof fn lemma_steps_give_pending(states: Seq<AudioDecoder>, results: Seq<Option<i64>>)
    requires
        states.len() == results.len() + 1,
        forall|k: int|
            0 <= k < results.len() ==> #[trigger] next_outcome(states[k], states[k + 1], results[k]),
    ensures
        forall|k: int|
            0 <= k < results.len() ==> #[trigger] results[k] == if k < pending_samples(
                states[0],
            ).len() {
                Some(pending_samples(states[0])[k])
            } else {
                None
            },
        results.len() <= pending_samples(states[0]).len() ==> pending_samples(
            states[results.len() as int],
        ) == pending_samples(states[0]).skip(results.len() as int),
        results.len() > pending_samples(states[0]).len() ==> pending_samples(
            states[results.len() as int],
        ).len() == 0,
    decreases results.len(),
{
    let n = results.len() as int;
    if n > 0 {
        let fewer = results.drop_last();
        let earlier = states.drop_last();
        assert forall|k: int| 0 <= k < fewer.len() implies #[trigger] next_outcome(
            earlier[k],
            earlier[k + 1],
            fewer[k],
        ) by {
            assert(next_outcome(states[k], states[k + 1], results[k]));
        }
        lemma_steps_give_pending(earlier, fewer);
        assert(earlier[0] == states[0]);
        assert(earlier[n - 1] == states[n - 1]);
        assert(next_outcome(states[n - 1], states[n], results[n - 1]));
        lemma_next_takes_first(states[n - 1], states[n], results[n - 1]);
        let p = pending_samples(states[0]);
        if n - 1 < p.len() {
            assert(p.skip(n - 1).drop_first() =~= p.skip(n));
        }
        assert forall|k: int| 0 <= k < n implies #[trigger] results[k] == if k < p.len() {
            Some(p[k])
        } else {
            None
        } by {
            if k < n - 1 {
                assert(fewer[k] == results[k]);
            }
        }
    } else {
        assert(pending_samples(states[0]).skip(0) =~= pending_samples(states[0]));
    }
}

impl AudioDecoder {
    /// A decoder without codec and without data.
    pub fn new() -> (r: Self)
        ensures
            r.codec is None,
            r.bit_depth == 0,
            r.sample_rate == 0,
            r.channels == 0,
            r.data@.len() == 0,
            r.index == 0,
    {
        AudioDecoder {
            index: 0,
            codec: None,
            bit_depth: 0,
            sample_rate: 0,
            channels: 0,
            data: Vec::new(),
        }
    }

    /// A decoder of `data` with the given attributes, positioned at the start
    /// of `data`.
    pub fn with_data(
        codec: Option<Codec>,
        bit_depth: u32,
        sample_rate: u32,
        channels: u32,
        data: Vec<u8>,
    ) -> (r: Self)
        ensures
            r.codec == codec,
            r.bit_depth == bit_depth,
            r.sample_rate == sample_rate,
            r.channels == channels,
            r.data@ == data@,
            r.index == 0,
    {
        AudioDecoder {
            index: 0,
            codec: codec,
            bit_depth: bit_depth,
            sample_rate: sample_rate,
            channels: channels,
            data: data,
        }
    }

    /// The number of samples still to come: the whole samples in the data
    /// from the current position, or none without a codec.
    pub fn len(&self) -> (r: usize)
        ensures
            r == remaining_samples(*self),
    {
        match self.codec {
            Some(codec) => {
                if self.index >= self.data.len() {
                    0
                } else {
                    (self.data.len() - self.index) / (codec.bit_depth() / 8)
                }
            },
            None => 0,
        }
    }

    /// Decodes the next sample.
    ///
    /// Returns `None`, without moving on, at the end of the data, when fewer
    /// bytes than one sample remain, or when no codec is set.
    pub fn next_sample(&mut self) -> (r: Option<i64>)
        ensures
            next_outcome(*old(self), *final(self), r),
    {
        // Has reached end of the data
        if self.index >= self.data.len() {
            return None;
        }
        match self.codec {
            Some(codec) => {
                let remaining_bytes = self.data.len() - self.index;
                let sample_size = codec.bit_depth() / 8;
                // Not enough bytes left to decode a sample
                if remaining_bytes < sample_size {
                    return None;
                }
                let at = self.index;
                self.index = self.index + sample_size;
                if is_lpcm_codec(codec) {
                    Some(decode_at(&self.data, at, codec))
                } else {
                    Some(decode_byte(self.data[at], codec))
                }
            },
            // Codec hasn't been set
            None => None,
        }
    }

    /// Decodes all remaining whole samples.
    pub fn decode(&mut self) -> (r: Vec<i64>)
        ensures
            final(self).data@ == old(self).data@,
            final(self).codec == old(self).codec,
            final(self).bit_depth == old(self).bit_depth,
            final(self).sample_rate == old(self).sample_rate,
            final(self).channels == old(self).channels,
            old(self).index >= old(self).data@.len() ==> r@.len() == 0 && final(self).index == old(
                self,
            ).index,
            old(self).index < old(self).data@.len() ==> final(self).index == old(self).index + match old(
                self,
            ).codec {
                Some(c) => sample_size(c) * r@.len(),
                None => 0,
            },
            old(self).index < old(self).data@.len() ==> r@ == decoded_samples(
                old(self).codec,
                old(self).data@.subrange(old(self).index as int, old(self).data@.len() as int),
            ),
    {
        let mut samples: Vec<i64> = Vec::new();
        if self.index >= self.data.len() {
            return samples;
        }
        let ghost start = self.index;
        let ghost data = self.data@;
        let ghost rest = data.subrange(start as int, data.len() as int);
        loop
            invariant
                self.data@ == data,
                data == old(self).data@,
                self.codec == old(self).codec,
                self.bit_depth == old(self).bit_depth,
                self.sample_rate == old(self).sample_rate,
                self.channels == old(self).channels,
                start == old(self).index,
                start < data.len(),
                rest == data.subrange(start as int, data.len() as int),
                match self.codec {
                    Some(c) => {
                        &&& self.index == start + sample_size(c) * samples@.len()
                        &&& self.index <= data.len()
                        &&& samples@.len() <= decoded_samples(self.codec, rest).len()
                        &&& samples@ == decoded_samples(self.codec, rest).take(
                            samples@.len() as int,
                        )
                    },
                    None => samples@.len() == 0 && self.index == start,
                },
            decreases data.len() - self.index,
        {
            let ghost before = self.index;
            let ghost n = samples@.len();
            match self.next_sample() {
                Some(v) => {
                    samples.push(v);
                    proof {
                        let c = self.codec.unwrap();
                        let w = sample_size(c) as int;
                        assert(before == start + w * n);
                        assert(w * n + w == w * (n + 1)) by (nonlinear_arith);
                        assert(rest.subrange(w * n, w * n + w) =~= data.subrange(
                            before as int,
                            before + w,
                        ));
                        assert((w * (n + 1)) <= rest.len() as int);
                        assert((n + 1) <= rest.len() as int / w) by (nonlinear_arith)
                            requires
                                w * (n + 1) <= rest.len() as int,
                                w >= 1,
                        ;
                        lemma_decoded_len(c, rest);
                        if is_lpcm(c) {
                            assert(decoded_samples(self.codec, rest)[n as int] == v);
                        } else {
                            assert(w == 1);
                            assert(before == start + n) by (nonlinear_arith)
                                requires
                                    before == start + w * n,
                                    w == 1,
                            ;
                            assert(rest[n as int] == data[before as int]);
                            assert(data.subrange(before as int, before + w)[0] == data[before as int]);
                            assert(decoded_samples(self.codec, rest)[n as int] == v);
                        }
                        assert(samples@ =~= decoded_samples(self.codec, rest).take(n + 1 as int));
                    }
                },
                None => {
                    proof {
                        if let Some(c) = self.codec {
                            let w = sample_size(c) as int;
                            assert(before + w > data.len());
                            assert(rest.len() as int / w <= n) by (nonlinear_arith)
                                requires
                                    start + w * n + w > start + rest.len(),
                                    w >= 1,
                            ;
                            lemma_decoded_len(c, rest);
                            assert(decoded_samples(self.codec, rest).take(n as int) =~= decoded_samples(
                                self.codec,
                                rest,
                            ));
                        }
                    }
                    return samples;
                },
            }
        }
    }
}

/// Whether `codec` is a linear PCM codec.
pub fn is_lpcm_codec(codec: Codec) -> (r: bool)
    ensures
        r == is_lpcm(codec),
{
    match codec {
        Codec::G711_ALAW | Codec::G711_ULAW => false,
        _ => true,
    }
}

} // verus!
