use ringabell::wav::{bytes_to_samples, wav_duration_ms, WavError};

fn header(channels: u16, sample_rate: u32, data_len: u32) -> Vec<u8> {
    let mut bytes: Vec<u8> = Vec::new();
    bytes.extend_from_slice(b"RIFF");
    bytes.extend_from_slice(&(36 + data_len).to_le_bytes());
    bytes.extend_from_slice(b"WAVE");
    bytes.extend_from_slice(b"fmt ");
    bytes.extend_from_slice(&16u32.to_le_bytes());
    bytes.extend_from_slice(&1u16.to_le_bytes());
    bytes.extend_from_slice(&channels.to_le_bytes());
    bytes.extend_from_slice(&sample_rate.to_le_bytes());
    bytes.extend_from_slice(&(sample_rate * channels as u32 * 2).to_le_bytes());
    bytes.extend_from_slice(&(channels * 2).to_le_bytes());
    bytes.extend_from_slice(&16u16.to_le_bytes());
    bytes.extend_from_slice(b"data");
    bytes.extend_from_slice(&data_len.to_le_bytes());
    bytes
}

#[test]
fn samples_are_little_endian() {
    let data: Vec<u8> = vec![0x01, 0x00, 0x00, 0x01, 0xff, 0x7f, 0x00, 0x80, 0xff, 0xff, 0x34, 0x12];
    assert_eq!(bytes_to_samples(data), Ok(vec![1, 256, 32767, -32768, -1, 0x1234]));
}

#[test]
fn samples_agree_with_the_standard_decoding() {
    let mut data: Vec<u8> = Vec::new();
    let mut expected: Vec<i16> = Vec::new();
    for high in 0..=255u8 {
        for low in [0u8, 1, 127, 128, 255] {
            data.push(low);
            data.push(high);
            expected.push(i16::from_le_bytes([low, high]));
        }
    }
    assert_eq!(bytes_to_samples(data), Ok(expected));
}

#[test]
fn odd_number_of_bytes_is_rejected() {
    assert_eq!(bytes_to_samples(vec![1, 2, 3]), Err(WavError::OddLength));
    assert_eq!(bytes_to_samples(vec![9]), Err(WavError::OddLength));
}

#[test]
fn no_bytes_no_samples() {
    assert_eq!(bytes_to_samples(Vec::new()), Ok(Vec::new()));
}

#[test]
fn duration_from_the_header() {
    // Two seconds of mono sound at 44100 Hz.
    assert_eq!(wav_duration_ms(&header(1, 44100, 176_400)), 2000);
    // The same bytes in stereo last half as long.
    assert_eq!(wav_duration_ms(&header(2, 44100, 176_400)), 1000);
    // 1000 bytes at 8000 Hz: 62.5 ms, rounded down.
    assert_eq!(wav_duration_ms(&header(1, 8000, 1000)), 62);
    assert_eq!(wav_duration_ms(&header(1, 44100, 0)), 0);
}

#[test]
fn duration_of_the_largest_declared_length() {
    assert_eq!(wav_duration_ms(&header(1, 1, u32::MAX)), 2_147_483_647_500);
    assert_eq!(wav_duration_ms(&header(u16::MAX, u32::MAX, u32::MAX)), 0);
}

#[test]
fn duration_ignores_what_follows_the_header() {
    let mut bytes = header(1, 44100, 88_200);
    bytes.extend_from_slice(&[0u8; 100]);
    assert_eq!(wav_duration_ms(&bytes), 1000);
}

#[test]
fn malformed_header_has_zero_duration() {
    assert_eq!(wav_duration_ms(&Vec::new()), 0);
    let good = header(1, 44100, 176_400);
    assert_eq!(wav_duration_ms(&good[..43].to_vec()), 0);
    for at in [0usize, 3, 8, 11, 12, 15, 36, 39] {
        let mut bad = good.clone();
        bad[at] ^= 0x20;
        assert_eq!(wav_duration_ms(&bad), 0);
    }
    assert_eq!(wav_duration_ms(&header(0, 44100, 176_400)), 0);
    assert_eq!(wav_duration_ms(&header(1, 0, 176_400)), 0);
}
