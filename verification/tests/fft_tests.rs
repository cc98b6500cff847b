use ringabell::fft::{check_fft_len, is_power_of_two, FftError};

#[test]
fn powers_of_two_are_recognised() {
    let mut n: usize = 1;
    for _ in 0..31 {
        assert!(is_power_of_two(n));
        assert_eq!(check_fft_len(n), Ok(()));
        n *= 2;
    }
    assert!(is_power_of_two(1usize << (usize::BITS - 1)));
}

#[test]
fn other_lengths_are_rejected() {
    for n in [0usize, 3, 5, 6, 7, 9, 12, 1000, 1023, 1025, usize::MAX] {
        assert!(!is_power_of_two(n));
    }
    for n in [3usize, 6, 1000, usize::MAX] {
        assert_eq!(check_fft_len(n), Err(FftError::LengthNotPowerOfTwo));
    }
}

#[test]
fn the_empty_sequence_may_be_transformed() {
    assert_eq!(check_fft_len(0), Ok(()));
    assert_eq!(check_fft_len(1), Ok(()));
    assert_eq!(check_fft_len(1024), Ok(()));
}
