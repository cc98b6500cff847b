use ringabell::fingerprint::create_fingerprints;
use ringabell::index::{Index, SearchResult, MIN_SCORE_THRESHOLD};
use ringabell::peaks::extract_peaks;
use ringabell::spectrogram::create_frames;
use ringabell::wav::{bytes_to_samples, wav_duration_ms};
use rustfft::num_complex::Complex;
use rustfft::FftPlanner;

fn clip(samples: &[i16]) -> Vec<u8> {
    let data_len: u32 = (samples.len() * 2) as u32;
    let mut bytes: Vec<u8> = Vec::new();
    bytes.extend_from_slice(b"RIFF");
    bytes.extend_from_slice(&(36 + data_len).to_le_bytes());
    bytes.extend_from_slice(b"WAVEfmt ");
    bytes.extend_from_slice(&16u32.to_le_bytes());
    bytes.extend_from_slice(&1u16.to_le_bytes());
    bytes.extend_from_slice(&1u16.to_le_bytes());
    bytes.extend_from_slice(&44100u32.to_le_bytes());
    bytes.extend_from_slice(&88200u32.to_le_bytes());
    bytes.extend_from_slice(&2u16.to_le_bytes());
    bytes.extend_from_slice(&16u16.to_le_bytes());
    bytes.extend_from_slice(b"data");
    bytes.extend_from_slice(&data_len.to_le_bytes());
    for sample in samples {
        bytes.extend_from_slice(&sample.to_le_bytes());
    }
    bytes
}

fn sine(frequency: f64, amplitude: f64, count: usize) -> Vec<i16> {
    let mut samples: Vec<i16> = Vec::new();
    for i in 0..count {
        let phase: f64 = 2.0 * std::f64::consts::PI * frequency * (i as f64) / 44100.0;
        samples.push((amplitude * phase.sin()) as i16);
    }
    samples
}

fn noise(amplitude: i64, count: usize) -> Vec<i16> {
    let mut state: i64 = 12345;
    let mut samples: Vec<i16> = Vec::new();
    for _ in 0..count {
        state = (state * 1_103_515_245 + 12345) % (1 << 31);
        samples.push(((state >> 8) % (2 * amplitude + 1) - amplitude) as i16);
    }
    samples
}

// Weights each window, transforms it and takes the magnitudes, in units of
// 1/65536.
fn magnitudes(frames: &[Vec<i16>]) -> Vec<Vec<u32>> {
    let mut planner: FftPlanner<f32> = FftPlanner::new();
    let fft = planner.plan_fft_forward(1024);
    let mut spectrogram: Vec<Vec<u32>> = Vec::new();
    for frame in frames {
        let mut bins: Vec<Complex<f32>> = Vec::new();
        for (j, sample) in frame.iter().enumerate() {
            let weight: f32 =
                0.54 - 0.46 * ((2.0 * std::f32::consts::PI * j as f32) / (1024.0 - 1.0)).cos();
            bins.push(Complex::new(*sample as f32 / 32767.0 * weight, 0.0));
        }
        fft.process(&mut bins);
        spectrogram.push(bins.iter().map(|c| (c.norm() * 65536.0) as u32).collect());
    }
    spectrogram
}

fn fingerprints_of(bytes: Vec<u8>) -> Vec<u64> {
    let duration = wav_duration_ms(&bytes) as usize;
    let samples = bytes_to_samples(bytes).unwrap();
    let frames = create_frames(samples);
    let peaks = extract_peaks(magnitudes(&frames), duration);
    create_fingerprints(peaks).unwrap()
}

#[test]
fn a_registered_tone_is_found_again() {
    let tone = clip(&sine(440.0, 3000.0, 88200));
    assert_eq!(wav_duration_ms(&tone), 2000);
    let registered = fingerprints_of(tone.clone());
    assert!(registered.len() >= MIN_SCORE_THRESHOLD);
    let mut index = Index::new(MIN_SCORE_THRESHOLD);
    index.register("A".to_string(), registered.clone());
    let query = fingerprints_of(tone);
    assert_eq!(query, registered);
    let found = index.search(&query);
    assert_eq!(found.song_name, "A");
    assert!(found.score >= MIN_SCORE_THRESHOLD);
    assert_eq!(found.score, query.len());
    assert_eq!(found.to_json(), format!("{{\"score\":{},\"songName\":\"A\"}}", query.len()));
}

#[test]
fn unrelated_noise_is_not_found() {
    let tone = clip(&sine(440.0, 3000.0, 88200));
    let hiss = clip(&noise(3000, 88200));
    assert_eq!(tone.len(), hiss.len());
    let mut index = Index::new(MIN_SCORE_THRESHOLD);
    index.register("A".to_string(), fingerprints_of(tone));
    let query = fingerprints_of(hiss);
    assert!(query.len() >= MIN_SCORE_THRESHOLD);
    assert_eq!(
        index.search(&query),
        SearchResult { song_name: "Not found".to_string(), score: 0 }
    );
    assert_eq!(index.search(&query).to_json(), "{\"score\":0,\"songName\":\"Not found\"}");
}

#[test]
fn the_tone_peaks_at_its_frequency() {
    // 440 Hz at a rate of 11025 Hz falls into bin 440 / 11025 * 1024 = 40.9.
    let samples = sine(440.0, 3000.0, 44100);
    let frames = create_frames(samples);
    assert_eq!(frames.len(), 21);
    let peaks = extract_peaks(magnitudes(&frames[..10]), 1000);
    assert_eq!(peaks.len(), 10);
    for peak in peaks {
        assert_eq!(peak.1, 41);
        assert_eq!(peak.0, 0);
    }
}

#[test]
fn an_impulse_has_the_same_magnitude_in_every_bin() {
    let mut frame: Vec<i16> = vec![0; 1024];
    // The weight of the window in its middle is close to one.
    frame[512] = 32767;
    let spectrum = magnitudes(&[frame]);
    let first: u32 = spectrum[0][0];
    assert!(first > 65000 && first <= 65536);
    for level in &spectrum[0] {
        assert!(level.abs_diff(first) <= 64);
    }
    // No band lies above the mean of equal maxima, give or take rounding:
    // at most a few of six can.
    assert!(extract_peaks(spectrum, 1000).len() < 6);
}
