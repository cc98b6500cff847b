//! Decoding: from the bytes of a recording to its samples and its duration.
//!
//! The samples of a recording are 16-bit signed integers, each stored in two
//! bytes, the low byte first. A recording starts with a header of 44 bytes in
//! the RIFF/WAVE layout, which declares the number of channels, the sample
//! rate and the number of bytes of sample data.

use vstd::prelude::*;

verus! {

/// The length of the header of a recording, in bytes.
pub const HEADER_LEN: usize = 44;

/// Why a byte stream holds no samples.
#[derive(Debug, Clone, Copy, PartialEq, Eq, Structural)]
pub enum WavError {
    /// The number of bytes is odd: the last sample is cut in two.
    OddLength,
}

/// The 16-bit signed integer stored in two bytes, the low byte first.
pub open spec fn le_i16(low: u8, high: u8) -> int {
    if high < 128 {
        low + 256 * high
    } else {
        low + 256 * high - 65536
    }
}

/// The unsigned integer stored in the `width` bytes of `data` from position
/// `at` on, the low byte first.
pub open spec fn le_uint(data: Seq<u8>, at: int, width: nat) -> int
    decreases width,
{
    if width == 0 {
        0
    } else {
        data[at] + 256 * le_uint(data, at + 1, (width - 1) as nat)
    }
}

/// Whether the four bytes of `data` from position `at` on are those of `tag`.
pub open spec fn has_tag(data: Seq<u8>, at: int, tag: Seq<u8>) -> bool {
    data.subrange(at, at + 4) == tag
}

/// Whether `data` starts with a well-formed header: long enough, with the
/// tags `RIFF`, `WAVE`, `fmt ` and `data` in their places, and with a number
/// of channels and a sample rate that are not zero.
pub open spec fn has_header(data: Seq<u8>) -> bool {
    &&& data.len() >= HEADER_LEN
    &&& has_tag(data, 0, seq![0x52u8, 0x49u8, 0x46u8, 0x46u8])
    &&& has_tag(data, 8, seq![0x57u8, 0x41u8, 0x56u8, 0x45u8])
    &&& has_tag(data, 12, seq![0x66u8, 0x6du8, 0x74u8, 0x20u8])
    &&& has_tag(data, 36, seq![0x64u8, 0x61u8, 0x74u8, 0x61u8])
    &&& le_uint(data, 22, 2) > 0
    &&& le_uint(data, 24, 4) > 0
}

/// The duration, in milliseconds and rounded down, that a header declares:
/// the bytes of sample data, divided by the bytes that one second takes
/// (two for each sample of each channel). Without a well-formed header it is
/// zero.
pub open spec fn duration_ms(data: Seq<u8>) -> int {
    if has_header(data) {
        (le_uint(data, 40, 4) * 1000) / (le_uint(data, 24, 4) * le_uint(data, 22, 2) * 2)
    } else {
        0
    }
}

/// The samples held in a stream of bytes: one for each pair of bytes, the low
/// byte first. Fails on an odd number of bytes.
pub fn bytes_to_samples(data: Vec<u8>) -> (r: Result<Vec<i16>, WavError>)
    ensures
        data@.len() % 2 != 0 ==> r == Err::<Vec<i16>, WavError>(WavError::OddLength),
        data@.len() % 2 == 0 ==> r is Ok && r->Ok_0@.len() == data@.len() / 2 && forall|i: int|
            0 <= i < data@.len() / 2 ==> (#[trigger] r->Ok_0@[i]) == le_i16(
                data@[2 * i],
                data@[2 * i + 1],
            ),
{
    if data.len() % 2 != 0 {
        return Err(WavError::OddLength);
    }
    let count: usize = data.len() / 2;
    let mut samples: Vec<i16> = Vec::new();
    let mut i: usize = 0;
    while i < count
        invariant
            data.len() == 2 * count,
            i <= count,
            samples@.len() == i,
            forall|h: int|
                0 <= h < i ==> (#[trigger] samples@[h]) == le_i16(data@[2 * h], data@[2 * h + 1]),
        decreases count - i,
    {
        let low: u8 = data[2 * i];
        let high: u8 = data[2 * i + 1];
        let unsigned: i32 = low as i32 + 256 * (high as i32);
        if high < 128 {
            samples.push(unsigned as i16);
        } else {
            samples.push((unsigned - 65536) as i16);
        }
        i = i + 1;
    }
    Ok(samples)
}

/// Reads the unsigned integer stored in the `width` bytes of `data` from
/// position `at` on, the low byte first.
fn read_le(data: &Vec<u8>, at: usize, width: usize) -> (value: u64)
    requires
        width <= 4,
        at + width <= data.len(),
    ensures
        value == le_uint(data@, at as int, width as nat),
        value < 0x1_0000_0000,
{
    let mut value: u64 = 0;
    let mut k: usize = width;
    while k > 0
        invariant
            k <= width <= 4,
            at + width <= data.len(),
            value == le_uint(data@, at + k, (width - k) as nat),
            k == 4 ==> value < 1,
            k == 3 ==> value < 0x100,
            k == 2 ==> value < 0x1_0000,
            k == 1 ==> value < 0x100_0000,
            k == 0 ==> value < 0x1_0000_0000,
        decreases k,
    {
        k = k - 1;
        value = data[at + k] as u64 + 256 * value;
    }
    value
}

/// Whether the four bytes of `data` from position `at` on are `tag`.
fn tag_at(data: &Vec<u8>, at: usize, tag: [u8; 4]) -> (found: bool)
    requires
        at + 4 <= data.len(),
    ensures
        found == has_tag(data@, at as int, tag@),
{
    let found = data[at] == tag[0] && data[at + 1] == tag[1] && data[at + 2] == tag[2] && data[at
        + 3] == tag[3];
    proof {
        let part = data@.subrange(at as int, at + 4);
        if found {
            assert(part =~= tag@);
        } else {
            assert(part[0] == data@[at as int] && part[1] == data@[at + 1] && part[2] == data@[at
                + 2] && part[3] == data@[at + 3]);
        }
    }
    found
}

/// The duration of a recording in milliseconds, as its header declares it.
/// A recording without a well-formed header has the duration zero.
pub fn wav_duration_ms(data: &Vec<u8>) -> (ms: u64)
    ensures
        ms == duration_ms(data@),
{
    if data.len() < HEADER_LEN {
        return 0;
    }
    if !tag_at(data, 0, [0x52, 0x49, 0x46, 0x46]) || !tag_at(data, 8, [0x57, 0x41, 0x56, 0x45])
        || !tag_at(data, 12, [0x66, 0x6d, 0x74, 0x20]) || !tag_at(
        data,
        36,
        [0x64, 0x61, 0x74, 0x61],
    ) {
        return 0;
    }
    let channels: u64 = read_le(data, 22, 2);
    let sample_rate: u64 = read_le(data, 24, 4);
    let data_len: u64 = read_le(data, 40, 4);
    if channels == 0 || sample_rate == 0 {
        return 0;
    }
    proof {
        assert(0 < sample_rate * channels < 0x1_0000_0000 * 0x1_0000_0000) by (nonlinear_arith)
            requires
                0 < sample_rate < 0x1_0000_0000,
                0 < channels < 0x1_0000_0000,
        ;
    }
    let per_second: u128 = sample_rate as u128 * channels as u128 * 2;
    let ms: u128 = (data_len as u128 * 1000) / per_second;
    proof {
        assert(ms <= data_len * 1000) by (nonlinear_arith)
            requires
                ms == (data_len * 1000) / (per_second as int),
                per_second >= 1,
                data_len >= 0,
        ;
    }
    ms as u64
}

} // verus!
