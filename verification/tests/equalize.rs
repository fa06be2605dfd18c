use biquad_rust::equalize::{
    curve_ends_on_peak, find_rtl_start, mirror_indices, protection_mask, reversed_mask, SlopeAction, SlopeLimiter,
};
use biquad_rust::order::{negate_keys, order_keys};
use biquad_rust::peak_finding::{local_maxima_edges, prominence_bases};

fn keys(y: &[f64]) -> Vec<i64> {
    let bits: Vec<u64> = y.iter().map(|v| v.to_bits()).collect();
    order_keys(&bits)
}

fn find_peaks(y: &[f64], min_prominence: f64) -> Vec<usize> {
    let candidates = local_maxima_edges(&keys(y));
    if min_prominence <= 0.0 {
        return candidates;
    }
    let bases = prominence_bases(&keys(y), &candidates);
    candidates
        .into_iter()
        .zip(bases)
        .filter(|&(p, (lb, rb))| y[p] - y[lb].max(y[rb]) >= min_prominence)
        .map(|(p, _)| p)
        .collect()
}

fn limited_ltr_slope(x: &[f64], y: &[f64], max_slope: f64, start: usize, peaks: &[usize], mask: &[bool]) -> Vec<f64> {
    let mut lim = SlopeLimiter::new(start, peaks.to_vec(), mask.to_vec());
    let mut limited: Vec<f64> = Vec::new();
    for i in 0..x.len() {
        let exceeds = lim.needs_slope()
            && (y[i] - *limited.last().unwrap()) / (x[i] / x[i - 1]).log2() > max_slope;
        match lim.step(exceeds) {
            SlopeAction::Keep => limited.push(y[i]),
            SlopeAction::Clip => {
                let octaves = (x[i] / x[i - 1]).ln() / std::f64::consts::LN_2;
                let last = *limited.last().unwrap();
                limited.push(last + max_slope * octaves);
            }
            SlopeAction::KeepAndRestore(rs) => {
                limited.push(y[i]);
                for j in rs..i {
                    limited[j] = y[j];
                }
            }
        }
    }
    limited
}

#[test]
fn test_find_peaks_basic() {
    let y = [0.0, 1.0, 0.5, 2.0, 0.0, 1.5, 0.0];
    assert_eq!(find_peaks(&y, 0.0), vec![1, 3, 5]);
}

#[test]
fn equalize_test_find_peaks_prominence_filter() {
    let y = [0.0, 1.0, 0.5, 2.0, 0.0, 1.5, 0.0];
    assert_eq!(find_peaks(&y, 1.0), vec![3, 5]);
}

#[test]
fn test_find_peaks_equal_height_traversal() {
    let y = [0.0, 1.0, 0.5, 1.0, 0.0];
    assert_eq!(find_peaks(&y, 0.0), vec![1, 3]);
    assert_eq!(find_peaks(&y, 1.0), vec![1, 3]);
}

#[test]
fn test_find_peaks_plateau_left_edge() {
    let y = [0.0, 1.0, 1.0, 0.0];
    assert_eq!(find_peaks(&y, 0.0), vec![1]);
}

#[test]
fn test_protection_mask_fewer_than_3_dips() {
    let y = [0.0f64, 2.0, 0.5, 1.0, 0.0];
    let peaks = find_peaks(&y, 1.0);
    let y_neg: Vec<f64> = y.iter().map(|&v| -v).collect();
    let dips = find_peaks(&y_neg, 1.0);
    let mask = protection_mask(&keys(&y), &peaks, &dips);
    assert!(mask.iter().all(|&v| !v));
}

#[test]
fn test_find_rtl_start_no_dips() {
    let y = [0.0f64, 3.0, 1.0, 2.0, 0.5];
    let rtl = find_rtl_start(&keys(&y), &[1], &[]);
    assert_eq!(rtl, 4);
}

#[test]
fn test_limited_ltr_slope_clipped_prior() {
    let x: Vec<f64> = (0..4).map(|i| 20.0 * 1.01f64.powi(i)).collect();
    let y = [0.0, 100.0, 99.5, 0.0];
    let result = limited_ltr_slope(&x, &y, 18.0, 0, &[1], &[false; 4]);
    assert!(result[1] < 1.0, "index 1 should be slope-limited");
    assert!(result[2] < 2.0, "index 2 should also be slope-limited (cascade)");
}

#[test]
fn protection_zone_around_interior_dip() {
    // Dips at 2, 5, 8 (keys), no peak after the last dip: the chain is
    // [2, 5, 8, 0] and the interior dips 5 and 8 get zones.
    let y = vec![9i64, 6, 1, 7, 8, 0, 8, 7, 2, 9];
    let mask = protection_mask(&y, &[], &[2, 5, 8]);
    // Zone of dip 5: after the last sample >= y[2] = 1 before 5 (index 4) up to
    // just before the first sample >= y[8] = 2 from 5 on (index 6): [5, 5].
    // Zone of dip 8: after the last sample >= y[5] = 0 before 8 (index 7) up to
    // just before the first sample >= global min 0 from 8 on (index 8): [8, 7], empty.
    let expected = vec![false, false, false, false, false, true, false, false, false, false];
    assert_eq!(mask, expected);
}

#[test]
fn rtl_start_after_last_peak() {
    // Last peak at 3 after last dip at 1: first sample from 3 at or below y[1] = 2.
    let y = vec![5i64, 2, 4, 9, 6, 2, 1];
    assert_eq!(find_rtl_start(&y, &[3], &[1]), 5);
    // Last dip after last peak: start at that dip.
    assert_eq!(find_rtl_start(&y, &[3], &[5]), 5);
    // Nothing found: last sample.
    assert_eq!(find_rtl_start(&y, &[], &[]), 6);
}

#[test]
fn clipped_run_without_peak_is_restored() {
    let mut lim = SlopeLimiter::new(0, vec![], vec![]);
    assert_eq!(lim.step(false), SlopeAction::Keep);
    assert_eq!(lim.step(true), SlopeAction::Clip);
    assert_eq!(lim.step(true), SlopeAction::Clip);
    assert_eq!(lim.step(false), SlopeAction::KeepAndRestore(1));
    assert_eq!(lim.clipped_flags(), vec![false, false, false, false]);
}

#[test]
fn clipped_run_with_peak_is_kept() {
    let mut lim = SlopeLimiter::new(0, vec![2], vec![]);
    lim.step(false);
    lim.step(true);
    lim.step(true);
    assert_eq!(lim.step(false), SlopeAction::Keep);
    assert_eq!(lim.clipped_flags(), vec![false, true, true, false]);
}

#[test]
fn limit_free_and_leading_samples_are_never_clipped() {
    let mut lim = SlopeLimiter::new(1, vec![], vec![false, false, true]);
    assert!(!lim.needs_slope());
    assert_eq!(lim.step(true), SlopeAction::Keep);
    assert_eq!(lim.step(true), SlopeAction::Keep);
    assert!(lim.needs_slope());
    assert_eq!(lim.step(true), SlopeAction::Keep);
    assert_eq!(lim.step(true), SlopeAction::Clip);
    assert_eq!(lim.handled(), 4);
    assert_eq!(lim.clipped_flags(), vec![false, false, false, true]);
}

#[test]
fn mirroring_indices_and_masks() {
    assert_eq!(mirror_indices(5, &[0, 1, 4]), vec![4, 3, 0]);
    assert_eq!(mirror_indices(5, &mirror_indices(5, &[0, 1, 4])), vec![0, 1, 4]);
    assert_eq!(reversed_mask(&[true, false, false]), vec![false, false, true]);
}

#[test]
fn dips_from_negated_keys() {
    let y = [0.0f64, -2.0, 0.5, -1.0, 0.0];
    let neg_from_keys = negate_keys(&keys(&y));
    let y_neg: Vec<f64> = y.iter().map(|v| -v).collect();
    assert_eq!(neg_from_keys, keys(&y_neg));
    assert_eq!(local_maxima_edges(&neg_from_keys), vec![1, 3]);
}

#[test]
fn rtl_start_reads_only_what_it_needs() {
    // No peak: the last dip is returned as it is, unread.
    assert_eq!(find_rtl_start(&[1i64, 2, 3], &[], &[0, 7]), 7);
    // Ending on a peak at the very end: nothing left to scan, start at the last sample.
    assert_eq!(find_rtl_start(&[1i64, 2, 3], &[3], &[]), 2);
    assert!(curve_ends_on_peak(&[3], &[]));
    assert!(!curve_ends_on_peak(&[1], &[2]));
    assert!(!curve_ends_on_peak(&[], &[2]));
}

#[test]
fn protection_mask_ignores_earlier_peaks() {
    // Only the last peak is read; an earlier out-of-range index does not matter
    // when the curve does not end on a peak.
    let y = vec![9i64, 6, 1, 7, 8, 0, 8, 7, 2, 9];
    assert_eq!(protection_mask(&y, &[100, 3], &[2, 5, 8]), protection_mask(&y, &[], &[2, 5, 8]));
}

#[test]
fn rtl_start_of_empty_curve_is_the_last_dip() {
    // A curve that does not end on a peak starts at its last dip, even when empty.
    assert_eq!(find_rtl_start(&[], &[], &[4]), 4);
    assert_eq!(find_rtl_start(&[], &[1], &[2, 6]), 6);
}
