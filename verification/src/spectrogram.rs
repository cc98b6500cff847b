//! Framing: from a stream of samples to the windows that are transformed.
//!
//! Samples are 16-bit signed values; full scale is 32767. The stream is
//! shaped by a crude low-pass stage, thinned to a quarter of its rate, and cut
//! into overlapping windows of 1024 samples. What follows (weighting each
//! window, transforming it and taking magnitudes) works on real numbers and
//! is done by the caller.

use vstd::prelude::*;

verus! {

/// The sample rate that recordings are taken to have, in samples a second.
pub const SAMPLE_RATE: usize = 44100;

/// The frequency, in Hz, from which the low-pass stage is derived.
pub const MAX_FREQ: usize = 5000;

/// The number of samples in a window, and of bins in its transform.
pub const FREQ_BIN_SIZE: usize = 1024;

/// The distance between the starts of two windows that follow each other.
pub const HOP_SIZE: usize = 512;

/// The factor by which the sample rate is reduced before framing.
pub const DSP_RATIO: usize = 4;

/// The largest sample value: the amplitude 1.
pub const FULL_SCALE: usize = 32767;

/// Whether the low-pass stage keeps a sample: its amplitude, the sample
/// divided by full scale, must not exceed `max_freq / sample_rate`.
pub open spec fn passes(sample: i16, max_freq: int, sample_rate: int) -> bool {
    sample * sample_rate <= max_freq * FULL_SCALE
}

/// The samples after the low-pass stage: a sample that does not pass is
/// replaced by silence.
pub open spec fn filtered(samples: Seq<i16>, max_freq: int, sample_rate: int) -> Seq<i16> {
    Seq::new(
        samples.len(),
        |i: int|
            if passes(samples[i], max_freq, sample_rate) {
                samples[i]
            } else {
                0i16
            },
    )
}

/// The number of samples that are left when every `ratio`-th is kept,
/// starting with the first.
pub open spec fn decimated_len(len: int, ratio: int) -> int {
    if len % ratio == 0 {
        len / ratio
    } else {
        len / ratio + 1
    }
}

/// Every `ratio`-th sample, starting with the first.
pub open spec fn decimated(samples: Seq<i16>, ratio: int) -> Seq<i16> {
    Seq::new(decimated_len(samples.len() as int, ratio) as nat, |i: int| samples[i * ratio])
}

/// The number of windows cut from `len` samples: `len / (1024 - 512)`.
pub open spec fn window_count(len: int) -> int {
    len / (FREQ_BIN_SIZE - HOP_SIZE)
}

/// The window with index `w`: the 1024 samples from position `w * 512` on,
/// with silence where the samples have ended.
pub open spec fn window_at(samples: Seq<i16>, w: int) -> Seq<i16> {
    Seq::new(
        FREQ_BIN_SIZE as nat,
        |j: int|
            if w * HOP_SIZE + j < samples.len() {
                samples[w * HOP_SIZE + j]
            } else {
                0i16
            },
    )
}

/// Whether `frames` are the windows of `samples`, in order.
pub open spec fn is_framing_of(frames: Seq<Vec<i16>>, samples: Seq<i16>) -> bool {
    &&& frames.len() == window_count(samples.len() as int)
    &&& forall|w: int| 0 <= w < frames.len() ==> (#[trigger] frames[w])@ == window_at(samples, w)
}

/// The samples from which the windows of a recording are cut: after the
/// low-pass stage and the reduction of the sample rate.
pub open spec fn prepared(samples: Seq<i16>) -> Seq<i16> {
    decimated(filtered(samples, MAX_FREQ as int, SAMPLE_RATE as int), DSP_RATIO as int)
}

/// The low-pass stage. It is no filter in the usual sense: it silences each
/// sample whose amplitude exceeds `max_freq / sample_rate`, and leaves the
/// others, one that equals the ratio among them, as they are.
pub fn low_pass_filter(samples: &Vec<i16>, max_freq: usize, sample_rate: usize) -> (out: Vec<i16>)
    ensures
        out@ == filtered(samples@, max_freq as int, sample_rate as int),
{
    let mut out: Vec<i16> = Vec::new();
    let mut i: usize = 0;
    while i < samples.len()
        invariant
            i <= samples@.len(),
            out@.len() == i,
            forall|h: int|
                0 <= h < i ==> out@[h] == filtered(samples@, max_freq as int, sample_rate as int)[h],
        decreases samples@.len() - i,
    {
        let sample: i16 = samples[i];
        proof {
            assert(-0x8000 * 0xffff_ffff_ffff_ffff <= sample * sample_rate <= 0x7fff
                * 0xffff_ffff_ffff_ffff) by (nonlinear_arith)
                requires
                    -0x8000 <= sample <= 0x7fff,
                    0 <= sample_rate <= 0xffff_ffff_ffff_ffff,
            ;
        }
        if (sample as i128) * (sample_rate as i128) <= (max_freq as i128) * (FULL_SCALE as i128) {
            out.push(sample);
        } else {
            out.push(0);
        }
        i = i + 1;
    }
    out
}

/// Reduces the sample rate from `original_rate` to `target_rate` by keeping
/// every sample whose position is a multiple of
/// `original_rate / target_rate`. The target rate must not be zero nor above
/// the original rate.
pub fn downsample(input: &Vec<i16>, original_rate: usize, target_rate: usize) -> (out: Vec<i16>)
    requires
        0 < target_rate <= original_rate,
    ensures
        out@ == decimated(input@, (original_rate / target_rate) as int),
{
    let ratio: usize = original_rate / target_rate;
    let len: usize = input.len();
    let mut out: Vec<i16> = Vec::new();
    let mut i: usize = 0;
    proof {
        assert(ratio >= 1) by (nonlinear_arith)
            requires
                0 < target_rate <= original_rate,
                ratio == original_rate / target_rate,
        ;
    }
    while i < len
        invariant
            ratio >= 1,
            len == input@.len(),
            i < len ==> i == out@.len() * ratio,
            i >= len ==> out@.len() == decimated_len(len as int, ratio as int),
            forall|h: int| 0 <= h < out@.len() ==> #[trigger] out@[h] == input@[h * ratio],
        decreases len - i,
    {
        let ghost count = out@.len() as int;
        out.push(input[i]);
        proof {
            assert((count + 1) * ratio == i + ratio) by (nonlinear_arith)
                requires
                    i == count * ratio,
            ;
            lemma_decimated_len_step(len as int, ratio as int, count);
        }
        if len - i <= ratio {
            i = len;
        } else {
            i = i + ratio;
        }
    }
    proof {
        if len == 0 {
            assert(0int % (ratio as int) == 0 && 0int / (ratio as int) == 0);
        }
        assert(out@ =~= decimated(input@, ratio as int));
    }
    out
}

/// When `count` samples have been taken and the next position, `count *
/// ratio`, is still inside: taking it either ends the thinning or leaves the
/// position after it inside.
proof fn lemma_decimated_len_step(len: int, ratio: int, count: int)
    requires
        ratio >= 1,
        0 <= count,
        count * ratio < len,
    ensures
        len - count * ratio <= ratio ==> decimated_len(len, ratio) == count + 1,
{
    let i = count * ratio;
    if len - i <= ratio {
        if len - i == ratio {
            assert(len == (count + 1) * ratio) by (nonlinear_arith)
                requires
                    len - count * ratio == ratio,
            ;
            vstd::arithmetic::div_mod::lemma_fundamental_div_mod_converse(
                len,
                ratio,
                count + 1,
                0,
            );
        } else {
            let r = len - i;
            assert(len == ratio * count + r) by (nonlinear_arith)
                requires
                    r == len - count * ratio,
            ;
            vstd::arithmetic::div_mod::lemma_fundamental_div_mod_converse(len, ratio, count, r);
        }
    }
}

/// Cuts samples into overlapping windows of 1024 samples, 512 apart. There
/// are `len / 512` windows; the last ones reach past the end of the samples
/// and are filled up with silence.
pub fn cut_windows(samples: &Vec<i16>) -> (frames: Vec<Vec<i16>>)
    ensures
        is_framing_of(frames@, samples@),
{
    let len: usize = samples.len();
    let count: usize = len / (FREQ_BIN_SIZE - HOP_SIZE);
    let mut frames: Vec<Vec<i16>> = Vec::new();
    let mut w: usize = 0;
    while w < count
        invariant
            len == samples@.len(),
            count == window_count(len as int),
            w <= count,
            frames@.len() == w,
            forall|h: int| 0 <= h < w ==> (#[trigger] frames@[h])@ == window_at(samples@, h),
        decreases count - w,
    {
        let start: usize = w * HOP_SIZE;
        let mut frame: Vec<i16> = Vec::new();
        let mut j: usize = 0;
        while j < FREQ_BIN_SIZE
            invariant
                len == samples@.len(),
                start == w * HOP_SIZE,
                start <= len,
                j <= FREQ_BIN_SIZE,
                frame@.len() == j,
                forall|h: int| 0 <= h < j ==> frame@[h] == window_at(samples@, w as int)[h],
            decreases FREQ_BIN_SIZE - j,
        {
            if j < len - start {
                frame.push(samples[start + j]);
            } else {
                frame.push(0);
            }
            j = j + 1;
        }
        proof {
            assert(frame@ =~= window_at(samples@, w as int));
        }
        frames.push(frame);
        w = w + 1;
    }
    frames
}

/// The windows of a recording: its samples pass the low-pass stage, are
/// thinned to a quarter of the sample rate and cut into windows.
pub fn create_frames(samples: Vec<i16>) -> (frames: Vec<Vec<i16>>)
    ensures
        is_framing_of(frames@, prepared(samples@)),
{
    let shaped = low_pass_filter(&samples, MAX_FREQ, SAMPLE_RATE);
    let thinned = downsample(&shaped, SAMPLE_RATE, SAMPLE_RATE / DSP_RATIO);
    cut_windows(&thinned)
}

} // verus!
