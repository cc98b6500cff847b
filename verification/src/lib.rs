//! Acoustic fingerprinting: recognise a short audio clip among registered
//! recordings by the constellation of its spectral peaks.
//!
//! The pipeline runs from decoded samples to framed windows, from magnitude
//! frames to peaks, from peaks to 64-bit fingerprints, and from fingerprints
//! to a match against an index of registered recordings.

pub mod fft;
pub mod fingerprint;
pub mod index;
pub mod json;
pub mod peaks;
pub mod spectrogram;
pub mod wav;

pub use fft::{check_fft_len, is_power_of_two, FftError};
pub use fingerprint::{create_address, create_fingerprint, create_fingerprints, FingerprintError};
pub use index::{find_match, score_entry, search_fingerprints, Index, SearchResult};
pub use peaks::extract_peaks;
pub use spectrogram::{create_frames, cut_windows, downsample, low_pass_filter};
pub use wav::{bytes_to_samples, wav_duration_ms, WavError};
