use ringabell::fingerprint::{
    create_address, create_fingerprint, create_fingerprints, FingerprintError,
};

#[test]
fn address_packs_frequencies_and_delta() {
    assert_eq!(create_address((1, 41), (2, 82)), Ok(345_277_416));
    assert_eq!(create_address((1, 41), (2, 82)), Ok((41 << 23) | (82 << 14) | 1000));
}

#[test]
fn address_of_equal_times_has_zero_delta() {
    assert_eq!(create_address((7, 1), (7, 2)), Ok((1 << 23) | (2 << 14)));
    assert_eq!(create_address((0, 0), (0, 0)), Ok(0));
}

#[test]
fn address_takes_the_largest_fields() {
    assert_eq!(create_address((0, 511), (16, 511)), Ok(4_294_966_912));
}

#[test]
fn address_rejects_target_before_anchor() {
    assert_eq!(create_address((2, 1), (1, 1)), Err(FingerprintError::TimeOrder));
}

#[test]
fn address_rejects_wide_frequencies() {
    assert_eq!(create_address((0, 512), (1, 1)), Err(FingerprintError::FrequencyRange));
    assert_eq!(create_address((0, 1), (1, 512)), Err(FingerprintError::FrequencyRange));
}

#[test]
fn address_rejects_wide_delta() {
    assert_eq!(create_address((0, 1), (17, 1)), Err(FingerprintError::DeltaRange));
    assert_eq!(create_address((0, 1), (16, 1)), Ok((1 << 23) | (1 << 14) | 16000));
}

#[test]
fn address_checks_time_order_first() {
    assert_eq!(create_address((5, 600), (1, 600)), Err(FingerprintError::TimeOrder));
    assert_eq!(create_address((0, 600), (100, 1)), Err(FingerprintError::FrequencyRange));
}

#[test]
fn fingerprint_holds_address_and_anchor_time() {
    let expected: u64 = ((((41u64 << 23) | (82 << 14) | 2000) << 32)) | 3000;
    assert_eq!(create_fingerprint((3, 41), (5, 82)), Ok(expected));
    assert_eq!(create_fingerprint((3, 41), (5, 82)), Ok(1_482_959_504_734_686_136));
}

#[test]
fn fingerprint_rejects_wide_anchor_time() {
    assert_eq!(
        create_fingerprint((4_294_968, 1), (4_294_968, 1)),
        Err(FingerprintError::AnchorTimeRange)
    );
    assert_eq!(
        create_fingerprint((4_294_967, 1), (4_294_967, 1)),
        Ok((((1u64 << 23) | (1 << 14)) << 32) | 4_294_967_000)
    );
}

#[test]
fn five_peaks_give_nine_fingerprints() {
    let peaks: Vec<(usize, usize)> = vec![(0, 10), (0, 20), (1, 30), (1, 40), (2, 50)];
    let expected: Vec<u64> = vec![
        361_695_345_073_192_960,
        362_403_327_482_265_600,
        363_107_014_924_042_240,
        722_691_297_671_905_280,
        723_394_985_113_681_920,
        724_102_967_522_754_560,
        1_083_678_660_336_026_600,
        1_084_386_642_745_099_240,
        1_444_674_612_934_738_920,
    ];
    assert_eq!(create_fingerprints(peaks), Ok(expected));
}

#[test]
fn fingerprints_follow_the_order_of_pairs() {
    let peaks: Vec<(usize, usize)> = vec![(0, 1), (0, 2), (0, 3), (0, 4), (0, 5)];
    let pairs: Vec<(usize, usize)> =
        vec![(0, 1), (0, 2), (0, 3), (1, 2), (1, 3), (1, 4), (2, 3), (2, 4), (3, 4)];
    let mut expected: Vec<u64> = Vec::new();
    for (i, j) in pairs {
        expected.push(create_fingerprint(peaks[i], peaks[j]).unwrap());
    }
    assert_eq!(create_fingerprints(peaks), Ok(expected));
}

#[test]
fn fingerprint_count_by_number_of_peaks() {
    let counts: Vec<usize> = vec![0, 0, 1, 3, 6, 9, 12, 15];
    for n in 0..counts.len() {
        let mut peaks: Vec<(usize, usize)> = Vec::new();
        for i in 0..n {
            peaks.push((i, i));
        }
        let produced = create_fingerprints(peaks).unwrap();
        assert_eq!(produced.len(), counts[n]);
    }
}

#[test]
fn equal_fingerprints_are_kept() {
    let peaks: Vec<(usize, usize)> = vec![(1, 9), (1, 9), (1, 9)];
    let one: u64 = create_fingerprint((1, 9), (1, 9)).unwrap();
    assert_eq!(create_fingerprints(peaks), Ok(vec![one, one, one]));
}

#[test]
fn no_peaks_no_fingerprints() {
    assert_eq!(create_fingerprints(Vec::new()), Ok(Vec::new()));
    assert_eq!(create_fingerprints(vec![(3, 3)]), Ok(Vec::new()));
}

#[test]
fn peaks_out_of_order_are_rejected() {
    let peaks: Vec<(usize, usize)> = vec![(0, 1), (2, 1), (1, 1)];
    assert_eq!(create_fingerprints(peaks), Err(FingerprintError::TimeOrder));
}

#[test]
fn the_first_bad_pair_gives_the_error() {
    // Pairs in order: (0,1) is fine, (0,2) has a frequency that is too wide,
    // (1,2) would be out of time order.
    let peaks: Vec<(usize, usize)> = vec![(5, 1), (6, 1), (5, 700)];
    assert_eq!(create_fingerprints(peaks), Err(FingerprintError::FrequencyRange));
    // A gap of more than 16 seconds inside a target zone.
    let gap: Vec<(usize, usize)> = vec![(0, 1), (1, 1), (30, 1)];
    assert_eq!(create_fingerprints(gap), Err(FingerprintError::DeltaRange));
    // Pairs more than three positions apart are never formed.
    let far: Vec<(usize, usize)> = vec![(0, 1), (5, 1), (10, 1), (15, 1), (20, 1)];
    assert_eq!(create_fingerprints(far).map(|v| v.len()), Ok(9));
    let late: Vec<(usize, usize)> = vec![(4_294_968, 1), (4_294_968, 1)];
    assert_eq!(create_fingerprints(late), Err(FingerprintError::AnchorTimeRange));
}
