//! Peaks: the dominant frequency bins of each frame of a spectrogram.
//!
//! A frame is a sequence of magnitudes, one for each frequency bin, held as
//! unsigned integers in a fixed-point unit of the caller's choice. The bins
//! `0..512` are divided into six bands. In each band of a frame the first bin
//! of largest magnitude is the band's candidate; a candidate becomes a peak
//! if its magnitude is not zero and lies strictly above the mean of the
//! non-zero candidate magnitudes of the frame.

use vstd::arithmetic::div_mod::{lemma_div_denominator, lemma_hoist_over_denominator};
use vstd::prelude::*;

verus! {

/// The number of frequency bands.
pub const BAND_COUNT: usize = 6;

/// The first bin of band `b`: the bands are
/// `[0,10) [10,20) [20,40) [40,80) [80,160) [160,512)`.
pub open spec fn band_lo(b: int) -> int {
    if b <= 0 {
        0
    } else if b == 1 {
        10
    } else if b == 2 {
        20
    } else if b == 3 {
        40
    } else if b == 4 {
        80
    } else {
        160
    }
}

/// The bin behind the last bin of band `b`.
pub open spec fn band_hi(b: int) -> int {
    if b <= 0 {
        10
    } else if b == 1 {
        20
    } else if b == 2 {
        40
    } else if b == 3 {
        80
    } else if b == 4 {
        160
    } else {
        512
    }
}

/// The magnitude of bin `j` of a frame; a bin that the frame does not have
/// counts as silent.
pub open spec fn mag(frame: Seq<u32>, j: int) -> int {
    if 0 <= j < frame.len() {
        frame[j] as int
    } else {
        0
    }
}

/// Whether `k` is the first bin of largest magnitude among the bins
/// `lo..hi` of a frame.
pub open spec fn is_first_max(frame: Seq<u32>, lo: int, hi: int, k: int) -> bool {
    &&& lo <= k < hi
    &&& forall|j: int| lo <= j < k ==> mag(frame, j) < mag(frame, k)
    &&& forall|j: int| k <= j < hi ==> mag(frame, j) <= mag(frame, k)
}

/// The first bin of largest magnitude among the bins `lo..hi` of a frame
/// (`lo` itself where all of them are silent).
pub open spec fn first_max(frame: Seq<u32>, lo: int, hi: int) -> int
    decreases hi - lo,
{
    if hi <= lo + 1 {
        lo
    } else {
        let k = first_max(frame, lo, hi - 1);
        if mag(frame, hi - 1) > mag(frame, k) {
            hi - 1
        } else {
            k
        }
    }
}

/// The candidate bin of band `b` in a frame.
pub open spec fn band_peak(frame: Seq<u32>, b: int) -> int {
    first_max(frame, band_lo(b), band_hi(b))
}

/// The magnitude of the candidate of band `b` in a frame.
pub open spec fn band_max(frame: Seq<u32>, b: int) -> int {
    mag(frame, band_peak(frame, b))
}

/// The sum of the candidate magnitudes of the bands below `bound`.
pub open spec fn maxima_sum(frame: Seq<u32>, bound: int) -> int
    decreases bound,
{
    if bound <= 0 {
        0
    } else {
        maxima_sum(frame, bound - 1) + band_max(frame, bound - 1)
    }
}

/// The number of bands below `bound` whose candidate is not silent.
pub open spec fn live_bands(frame: Seq<u32>, bound: int) -> int
    decreases bound,
{
    if bound <= 0 {
        0
    } else {
        live_bands(frame, bound - 1) + if band_max(frame, bound - 1) > 0 {
            1int
        } else {
            0int
        }
    }
}

/// Whether the candidate of band `b` is a peak of the frame: it is not silent
/// and lies strictly above the mean of the non-silent candidates, that is
/// above their sum divided by their number.
pub open spec fn is_peak_band(frame: Seq<u32>, b: int) -> bool {
    &&& band_max(frame, b) > 0
    &&& band_max(frame, b) * live_bands(frame, BAND_COUNT as int) > maxima_sum(
        frame,
        BAND_COUNT as int,
    )
}

/// The time of a peak, in whole seconds: the frames divide the duration (in
/// milliseconds) evenly, and the bins of a frame divide the frame's share
/// evenly; the time of bin `bin` of frame `frame_index` is rounded down.
pub open spec fn peak_time(
    duration_ms: int,
    frame_count: int,
    frame_index: int,
    frame_len: int,
    bin: int,
) -> int {
    (duration_ms * (frame_index * frame_len + bin)) / (1000 * frame_count * frame_len)
}

/// The peak that band `b` gives in frame `f`, if it gives one: its time and
/// its bin.
pub open spec fn peak_entry(spectrogram: Seq<Vec<u32>>, duration_ms: int, f: int, b: int) -> (
    usize,
    usize,
) {
    let frame = spectrogram[f]@;
    (
        peak_time(
            duration_ms,
            spectrogram.len() as int,
            f,
            frame.len() as int,
            band_peak(frame, b),
        ) as usize,
        band_peak(frame, b) as usize,
    )
}

/// The peaks of the bands below `bound` of frame `f`, in band order.
pub open spec fn frame_peaks(
    spectrogram: Seq<Vec<u32>>,
    duration_ms: int,
    f: int,
    bound: int,
) -> Seq<(usize, usize)>
    decreases bound,
{
    if bound <= 0 {
        Seq::empty()
    } else {
        let before = frame_peaks(spectrogram, duration_ms, f, bound - 1);
        if is_peak_band(spectrogram[f]@, bound - 1) {
            before.push(peak_entry(spectrogram, duration_ms, f, bound - 1))
        } else {
            before
        }
    }
}

/// The peaks of the frames below `bound`, in frame order.
pub open spec fn peaks_before(spectrogram: Seq<Vec<u32>>, duration_ms: int, bound: int) -> Seq<
    (usize, usize),
>
    decreases bound,
{
    if bound <= 0 {
        Seq::empty()
    } else {
        peaks_before(spectrogram, duration_ms, bound - 1) + frame_peaks(
            spectrogram,
            duration_ms,
            bound - 1,
            BAND_COUNT as int,
        )
    }
}

/// The peaks of a spectrogram: frame by frame, and in a frame band by band.
pub open spec fn peaks_of(spectrogram: Seq<Vec<u32>>, duration_ms: int) -> Seq<(usize, usize)> {
    peaks_before(spectrogram, duration_ms, spectrogram.len() as int)
}

/// `first_max` is the first bin of largest magnitude.
pub proof fn lemma_first_max(frame: Seq<u32>, lo: int, hi: int)
    requires
        lo < hi,
    ensures
        is_first_max(frame, lo, hi, first_max(frame, lo, hi)),
    decreases hi - lo,
{
    if hi > lo + 1 {
        lemma_first_max(frame, lo, hi - 1);
    }
}

/// Only one bin is the first of largest magnitude.
pub proof fn lemma_first_max_unique(frame: Seq<u32>, lo: int, hi: int, k: int)
    requires
        is_first_max(frame, lo, hi, k),
    ensures
        k == first_max(frame, lo, hi),
{
    lemma_first_max(frame, lo, hi);
}

/// The bounds of the sum and the number of the candidates below `bound`.
pub proof fn lemma_maxima_bounds(frame: Seq<u32>, bound: int)
    requires
        0 <= bound,
    ensures
        0 <= live_bands(frame, bound) <= bound,
        0 <= maxima_sum(frame, bound) <= bound * u32::MAX,
        live_bands(frame, bound) == 0 ==> maxima_sum(frame, bound) == 0,
    decreases bound,
{
    if bound > 0 {
        lemma_maxima_bounds(frame, bound - 1);
    }
}

/// A band all of whose bins are silent in a frame gives no peak.
pub proof fn lemma_silent_band_has_no_peak(frame: Seq<u32>, b: int)
    requires
        forall|j: int| band_lo(b) <= j < band_hi(b) ==> mag(frame, j) == 0,
    ensures
        !is_peak_band(frame, b),
{
    lemma_first_max(frame, band_lo(b), band_hi(b));
}

/// Where the candidate of band `b` has magnitude `m` and every other
/// candidate lies below `m`: what the bands below `bound` sum up to.
proof fn lemma_dominant_sum(frame: Seq<u32>, b: int, m: int, bound: int)
    requires
        0 <= b,
        0 <= bound,
        0 < m,
        band_max(frame, b) == m,
        forall|c: int| 0 <= c < bound && c != b ==> band_max(frame, c) < m,
    ensures
        b < bound ==> {
            &&& 1 <= live_bands(frame, bound)
            &&& m <= maxima_sum(frame, bound) <= m + (m - 1) * (live_bands(frame, bound) - 1)
            &&& live_bands(frame, bound) > 1 <==> exists|c: int|
                0 <= c < bound && c != b && band_max(frame, c) > 0
        },
        b >= bound ==> {
            &&& 0 <= live_bands(frame, bound)
            &&& 0 <= maxima_sum(frame, bound) <= (m - 1) * live_bands(frame, bound)
            &&& live_bands(frame, bound) > 0 <==> exists|c: int|
                0 <= c < bound && c != b && band_max(frame, c) > 0
        },
    decreases bound,
{
    if bound > 0 {
        let last = bound - 1;
        let before = live_bands(frame, last);
        lemma_dominant_sum(frame, b, m, last);
        assert((m - 1) * (before + 1) == (m - 1) * before + (m - 1)) by (nonlinear_arith);
        assert((m - 1) * (before - 1 + 1) == (m - 1) * (before - 1) + (m - 1))
            by (nonlinear_arith);
        assert((m - 1) * 0 == 0);
        if last != b && band_max(frame, last) > 0 {
            assert(0 <= last < bound && last != b && band_max(frame, last) > 0);
        }
        if exists|c: int| 0 <= c < last && c != b && band_max(frame, c) > 0 {
            let c = choose|c: int| 0 <= c < last && c != b && band_max(frame, c) > 0;
            assert(0 <= c < bound && c != b && band_max(frame, c) > 0);
        }
    }
}

/// A bin whose magnitude lies strictly above that of every other bin of the
/// bands is the candidate of its band, and it is a peak of the frame unless
/// all other bands are silent (it is then the only candidate, and no
/// candidate lies above the mean of one).
pub proof fn lemma_dominant_bin_is_peak(frame: Seq<u32>, b: int, k: int)
    requires
        0 <= b < BAND_COUNT,
        band_lo(b) <= k < band_hi(b),
        forall|j: int| 0 <= j < 512 && j != k ==> mag(frame, j) < mag(frame, k),
    ensures
        band_peak(frame, b) == k,
        is_peak_band(frame, b) <==> exists|c: int|
            0 <= c < BAND_COUNT && c != b && band_max(frame, c) > 0,
{
    let m = mag(frame, k);
    assert(m > 0) by {
        let other = if k == 0 {
            1int
        } else {
            0int
        };
        assert(mag(frame, other) < mag(frame, k));
    }
    assert(is_first_max(frame, band_lo(b), band_hi(b), k));
    lemma_first_max_unique(frame, band_lo(b), band_hi(b), k);
    assert forall|c: int| 0 <= c < BAND_COUNT && c != b implies band_max(frame, c) < m by {
        lemma_first_max(frame, band_lo(c), band_hi(c));
        assert(band_peak(frame, c) != k);
    }
    lemma_dominant_sum(frame, b, m, BAND_COUNT as int);
    let live = live_bands(frame, BAND_COUNT as int);
    assert(m + (m - 1) * (live - 1) == m * live - (live - 1)) by (nonlinear_arith);
    assert(live == 1 ==> m * live == m) by (nonlinear_arith);
}

/// The peaks of a frame are the candidates of its peak bands, and nothing
/// else.
pub proof fn lemma_frame_peaks_members(
    spectrogram: Seq<Vec<u32>>,
    duration_ms: int,
    f: int,
    bound: int,
)
    ensures
        forall|p: (usize, usize)|
            frame_peaks(spectrogram, duration_ms, f, bound).contains(p) <==> exists|b: int|
                0 <= b < bound && is_peak_band(spectrogram[f]@, b) && p == peak_entry(
                    spectrogram,
                    duration_ms,
                    f,
                    b,
                ),
    decreases bound,
{
    let all = frame_peaks(spectrogram, duration_ms, f, bound);
    if bound > 0 {
        let last = bound - 1;
        let before = frame_peaks(spectrogram, duration_ms, f, last);
        let entry = peak_entry(spectrogram, duration_ms, f, last);
        lemma_frame_peaks_members(spectrogram, duration_ms, f, last);
        assert forall|p: (usize, usize)| all.contains(p) <==> exists|b: int|
            0 <= b < bound && is_peak_band(spectrogram[f]@, b) && p == peak_entry(
                spectrogram,
                duration_ms,
                f,
                b,
            ) by {
            if all.contains(p) {
                let k = choose|k: int| 0 <= k < all.len() && all[k] == p;
                if k < before.len() {
                    assert(before[k] == p);
                    assert(before.contains(p));
                    let b = choose|b: int|
                        0 <= b < last && is_peak_band(spectrogram[f]@, b) && p == peak_entry(
                            spectrogram,
                            duration_ms,
                            f,
                            b,
                        );
                    assert(0 <= b < bound);
                } else {
                    assert(is_peak_band(spectrogram[f]@, last) && p == entry);
                }
            }
            if exists|b: int|
                0 <= b < bound && is_peak_band(spectrogram[f]@, b) && p == peak_entry(
                    spectrogram,
                    duration_ms,
                    f,
                    b,
                ) {
                let b = choose|b: int|
                    0 <= b < bound && is_peak_band(spectrogram[f]@, b) && p == peak_entry(
                        spectrogram,
                        duration_ms,
                        f,
                        b,
                    );
                if b < last {
                    assert(before.contains(p));
                    let k = choose|k: int| 0 <= k < before.len() && before[k] == p;
                    assert(all[k] == p);
                } else {
                    assert(all[all.len() - 1] == p);
                }
            }
        }
    }
}

/// The peaks of a spectrogram are the candidates of the peak bands of its
/// frames, and nothing else: a band that is silent in a frame gives no peak
/// there (`lemma_silent_band_has_no_peak`), and a bin that dominates a frame
/// is among the peaks (`lemma_dominant_bin_is_peak`).
pub proof fn lemma_peaks_members(spectrogram: Seq<Vec<u32>>, duration_ms: int, bound: int)
    requires
        0 <= bound <= spectrogram.len(),
    ensures
        forall|p: (usize, usize)|
            peaks_before(spectrogram, duration_ms, bound).contains(p) <==> exists|f: int, b: int|
                0 <= f < bound && 0 <= b < BAND_COUNT && is_peak_band(spectrogram[f]@, b) && p
                    == peak_entry(spectrogram, duration_ms, f, b),
    decreases bound,
{
    let all = peaks_before(spectrogram, duration_ms, bound);
    if bound > 0 {
        let last = bound - 1;
        let before = peaks_before(spectrogram, duration_ms, last);
        let here = frame_peaks(spectrogram, duration_ms, last, BAND_COUNT as int);
        lemma_peaks_members(spectrogram, duration_ms, last);
        lemma_frame_peaks_members(spectrogram, duration_ms, last, BAND_COUNT as int);
        assert(all == before + here);
        assert forall|p: (usize, usize)| all.contains(p) <==> exists|f: int, b: int|
            0 <= f < bound && 0 <= b < BAND_COUNT && is_peak_band(spectrogram[f]@, b) && p
                == peak_entry(spectrogram, duration_ms, f, b) by {
            if all.contains(p) {
                let k = choose|k: int| 0 <= k < all.len() && all[k] == p;
                if k < before.len() {
                    assert(before[k] == p);
                    assert(before.contains(p));
                    let (f, b) = choose|f: int, b: int|
                        0 <= f < last && 0 <= b < BAND_COUNT && is_peak_band(spectrogram[f]@, b)
                            && p == peak_entry(spectrogram, duration_ms, f, b);
                    assert(0 <= f < bound && 0 <= b < BAND_COUNT && is_peak_band(
                        spectrogram[f]@,
                        b,
                    ) && p == peak_entry(spectrogram, duration_ms, f, b));
                } else {
                    assert(here[k - before.len()] == p);
                    assert(here.contains(p));
                    let b = choose|b: int|
                        0 <= b < BAND_COUNT && is_peak_band(spectrogram[last]@, b) && p
                            == peak_entry(spectrogram, duration_ms, last, b);
                    assert(0 <= last < bound && 0 <= b < BAND_COUNT && is_peak_band(
                        spectrogram[last]@,
                        b,
                    ) && p == peak_entry(spectrogram, duration_ms, last, b));
                }
            }
            if exists|f: int, b: int|
                0 <= f < bound && 0 <= b < BAND_COUNT && is_peak_band(spectrogram[f]@, b) && p
                    == peak_entry(spectrogram, duration_ms, f, b) {
                let (f, b) = choose|f: int, b: int|
                    0 <= f < bound && 0 <= b < BAND_COUNT && is_peak_band(spectrogram[f]@, b) && p
                        == peak_entry(spectrogram, duration_ms, f, b);
                if f < last {
                    assert(before.contains(p));
                    let k = choose|k: int| 0 <= k < before.len() && before[k] == p;
                    assert(all[k] == p);
                } else {
                    assert(here.contains(p));
                    let k = choose|k: int| 0 <= k < here.len() && here[k] == p;
                    assert(all[before.len() + k] == p);
                }
            }
        }
    }
}

/// The time of a peak can be computed with two divisions that stay within
/// 128 bits: first the bin's share of the frame, then the frame's share of
/// the duration.
pub proof fn lemma_peak_time_split(
    duration_ms: int,
    frame_count: int,
    frame_index: int,
    frame_len: int,
    bin: int,
)
    requires
        0 <= duration_ms,
        0 <= frame_index < frame_count,
        0 <= bin < frame_len,
    ensures
        peak_time(duration_ms, frame_count, frame_index, frame_len, bin) == (duration_ms
            * frame_index + (duration_ms * bin) / frame_len) / (1000 * frame_count),
        0 <= (duration_ms * bin) / frame_len <= duration_ms,
        0 <= peak_time(duration_ms, frame_count, frame_index, frame_len, bin) <= duration_ms,
{
    let whole = duration_ms * (frame_index * frame_len + bin);
    let within = (duration_ms * bin) / frame_len;
    let split = duration_ms * frame_index + within;
    assert(whole == duration_ms * bin + (duration_ms * frame_index) * frame_len)
        by (nonlinear_arith)
        requires
            whole == duration_ms * (frame_index * frame_len + bin),
    ;
    assert(0 <= duration_ms * bin <= duration_ms * frame_len) by (nonlinear_arith)
        requires
            0 <= duration_ms,
            0 <= bin < frame_len,
    ;
    assert(0 <= duration_ms * frame_index && duration_ms * frame_index + duration_ms
        <= duration_ms * frame_count) by (nonlinear_arith)
        requires
            0 <= duration_ms,
            0 <= frame_index < frame_count,
    ;
    lemma_hoist_over_denominator(
        duration_ms * bin,
        duration_ms * frame_index,
        frame_len as nat,
    );
    assert(whole / frame_len == split);
    assert(0 <= within <= duration_ms) by (nonlinear_arith)
        requires
            0 <= duration_ms * bin <= duration_ms * frame_len,
            0 < frame_len,
            within == (duration_ms * bin) / frame_len,
    ;
    assert(0 <= whole) by (nonlinear_arith)
        requires
            0 <= duration_ms,
            0 <= frame_index,
            0 <= bin < frame_len,
            whole == duration_ms * (frame_index * frame_len + bin),
    ;
    lemma_div_denominator(whole, frame_len, 1000 * frame_count);
    assert(frame_len * (1000 * frame_count) == 1000 * frame_count * frame_len)
        by (nonlinear_arith);
    assert(0 <= split / (1000 * frame_count) <= duration_ms) by (nonlinear_arith)
        requires
            0 <= split <= duration_ms * frame_count,
            0 < frame_count,
            0 <= duration_ms,
    ;
}

/// The bins of band `b`.
fn band_bounds(b: usize) -> (r: (usize, usize))
    requires
        b < BAND_COUNT,
    ensures
        r.0 == band_lo(b as int),
        r.1 == band_hi(b as int),
{
    if b == 0 {
        (0, 10)
    } else if b == 1 {
        (10, 20)
    } else if b == 2 {
        (20, 40)
    } else if b == 3 {
        (40, 80)
    } else if b == 4 {
        (80, 160)
    } else {
        (160, 512)
    }
}

/// The candidate of band `b` in a frame, and its magnitude.
fn band_candidate(frame: &Vec<u32>, b: usize) -> (r: (usize, u32))
    requires
        b < BAND_COUNT,
    ensures
        r.0 == band_peak(frame@, b as int),
        r.1 == band_max(frame@, b as int),
{
    let (lo, hi) = band_bounds(b);
    let mut best: usize = lo;
    let mut best_mag: u32 = 0;
    let mut j: usize = lo;
    while j < hi
        invariant
            lo <= j <= hi <= 512,
            best == first_max(frame@, lo as int, j as int),
            j == lo ==> best_mag == 0,
            j > lo ==> best_mag == mag(frame@, best as int),
        decreases hi - j,
    {
        if j < frame.len() {
            let magnitude: u32 = frame[j];
            if magnitude > best_mag {
                best_mag = magnitude;
                best = j;
            }
        }
        j = j + 1;
    }
    (best, best_mag)
}

/// The time, in whole seconds, of bin `bin` of frame `frame_index`.
fn peak_seconds(
    duration_ms: usize,
    frame_count: usize,
    frame_index: usize,
    frame_len: usize,
    bin: usize,
) -> (t: usize)
    requires
        frame_index < frame_count,
        bin < frame_len,
    ensures
        t == peak_time(
            duration_ms as int,
            frame_count as int,
            frame_index as int,
            frame_len as int,
            bin as int,
        ),
{
    proof {
        lemma_peak_time_split(
            duration_ms as int,
            frame_count as int,
            frame_index as int,
            frame_len as int,
            bin as int,
        );
        assert(duration_ms * bin <= 0xffff_ffff_ffff_ffff * 0xffff_ffff_ffff_ffff)
            by (nonlinear_arith)
            requires
                duration_ms <= 0xffff_ffff_ffff_ffff,
                bin <= 0xffff_ffff_ffff_ffff,
        ;
        assert(duration_ms * frame_index <= 0xffff_ffff_ffff_ffff * 0xffff_ffff_ffff_fffe)
            by (nonlinear_arith)
            requires
                duration_ms <= 0xffff_ffff_ffff_ffff,
                frame_index <= 0xffff_ffff_ffff_fffe,
        ;
    }
    let within: u128 = (duration_ms as u128 * bin as u128) / (frame_len as u128);
    let elapsed: u128 = duration_ms as u128 * frame_index as u128 + within;
    let seconds: u128 = elapsed / (1000 * frame_count as u128);
    seconds as usize
}

/// The peaks of a spectrogram whose magnitudes are held as integers, for a
/// recording of `duration_ms` milliseconds: pairs of a time in whole seconds
/// and a frequency bin, frame by frame and in a frame band by band.
///
/// In each band of a frame the first bin of largest magnitude is taken. It is
/// a peak if its magnitude is not zero and strictly above the mean of the
/// non-zero band maxima of the frame. A spectrogram without frames has no
/// peaks.
pub fn extract_peaks(spectrogram: Vec<Vec<u32>>, duration_ms: usize) -> (peaks: Vec<
    (usize, usize),
>)
    ensures
        peaks@ == peaks_of(spectrogram@, duration_ms as int),
{
    let frame_count: usize = spectrogram.len();
    let mut peaks: Vec<(usize, usize)> = Vec::new();
    let mut f: usize = 0;
    while f < frame_count
        invariant
            frame_count == spectrogram@.len(),
            f <= frame_count,
            peaks@ == peaks_before(spectrogram@, duration_ms as int, f as int),
        decreases frame_count - f,
    {
        let frame: &Vec<u32> = &spectrogram[f];
        let mut bins: Vec<usize> = Vec::new();
        let mut mags: Vec<u32> = Vec::new();
        let mut sum: u64 = 0;
        let mut live: u64 = 0;
        let mut b: usize = 0;
        while b < BAND_COUNT
            invariant
                b <= BAND_COUNT,
                bins@.len() == b,
                mags@.len() == b,
                forall|c: int| 0 <= c < b ==> bins@[c] == band_peak(frame@, c),
                forall|c: int| 0 <= c < b ==> mags@[c] == band_max(frame@, c),
                sum == maxima_sum(frame@, b as int),
                live == live_bands(frame@, b as int),
            decreases BAND_COUNT - b,
        {
            let (bin, magnitude) = band_candidate(frame, b);
            proof {
                lemma_maxima_bounds(frame@, b as int);
            }
            bins.push(bin);
            mags.push(magnitude);
            sum = sum + magnitude as u64;
            if magnitude > 0 {
                live = live + 1;
            }
            b = b + 1;
        }
        let ghost start = peaks@;
        let mut e: usize = 0;
        while e < BAND_COUNT
            invariant
                e <= BAND_COUNT,
                f < frame_count,
                frame_count == spectrogram@.len(),
                frame@ == spectrogram@[f as int]@,
                bins@.len() == BAND_COUNT,
                mags@.len() == BAND_COUNT,
                forall|c: int| 0 <= c < BAND_COUNT ==> bins@[c] == band_peak(frame@, c),
                forall|c: int| 0 <= c < BAND_COUNT ==> mags@[c] == band_max(frame@, c),
                sum == maxima_sum(frame@, BAND_COUNT as int),
                live == live_bands(frame@, BAND_COUNT as int),
                peaks@ == start + frame_peaks(spectrogram@, duration_ms as int, f as int, e as int),
            decreases BAND_COUNT - e,
        {
            let magnitude: u32 = mags[e];
            proof {
                lemma_maxima_bounds(frame@, BAND_COUNT as int);
                assert(0 <= magnitude * live <= 0xffff_ffff * 6) by (nonlinear_arith)
                    requires
                        0 <= magnitude <= 0xffff_ffff,
                        0 <= live <= 6,
                ;
            }
            if magnitude > 0 && magnitude as u64 * live > sum {
                let bin: usize = bins[e];
                let time: usize = peak_seconds(duration_ms, frame_count, f, frame.len(), bin);
                peaks.push((time, bin));
            }
            proof {
                assert(peaks@ =~= start + frame_peaks(
                    spectrogram@,
                    duration_ms as int,
                    f as int,
                    e + 1,
                ));
            }
            e = e + 1;
        }
        f = f + 1;
    }
    peaks
}

} // verus!
