use biquad_rust::init::{peaking_candidates, peaking_fallback_index, peaking_search_last, shelf_fc_index, shelf_search_end};
use biquad_rust::interpolate::{bracket, resample_segment};
use biquad_rust::order::{any_nan, is_nan, order_key, order_keys};
use biquad_rust::search::{
    argmax_last, argmin_first, count_below, first_index, last_index, partition_point, positions_at_least, Rel,
};
use biquad_rust::types::{BiquadError, FilterType};
use biquad_rust::validate::validate_response;

#[test]
fn order_keys_follow_float_order() {
    let vals = [-f64::INFINITY, -3.5, -1e-300, -0.0, 0.0, 1e-300, 2.0, 2.5, f64::INFINITY];
    let bits: Vec<u64> = vals.iter().map(|v| v.to_bits()).collect();
    let k = order_keys(&bits);
    for i in 0..vals.len() {
        for j in 0..vals.len() {
            assert_eq!(vals[i] < vals[j], k[i] < k[j]);
            assert_eq!(vals[i] == vals[j], k[i] == k[j]);
        }
    }
    assert_eq!(order_key(0.0f64.to_bits()), 0);
    assert_eq!(order_key((-0.0f64).to_bits()), 0);
    assert!(is_nan(f64::NAN.to_bits()));
    assert!(!is_nan(f64::INFINITY.to_bits()));
    assert!(any_nan(&[1.0f64.to_bits(), f64::NAN.to_bits()]));
}

#[test]
fn first_and_last_index() {
    let y = [4i64, 1, 7, 3, 7, 2];
    assert_eq!(first_index(&y, 0, 6, Rel::AtLeast, 7), Some(2));
    assert_eq!(last_index(&y, 0, 6, Rel::AtLeast, 7), Some(4));
    assert_eq!(first_index(&y, 3, 6, Rel::Below, 3), Some(5));
    assert_eq!(last_index(&y, 0, 2, Rel::Above, 9), None);
    assert_eq!(first_index(&y, 1, 4, Rel::AtMost, 1), Some(1));
    assert_eq!(count_below(&y, 5), 2);
    assert_eq!(count_below(&y, 100), 6);
}

#[test]
fn extreme_positions() {
    let y = [4i64, 1, 7, 1, 7, 2];
    assert_eq!(argmin_first(&y, 0, 6), 1);
    assert_eq!(argmax_last(&y, 0, 6), 4);
    assert_eq!(argmin_first(&y, 4, 6), 5);
}

#[test]
fn binary_searches() {
    let y = [1i64, 3, 3, 5, 8];
    assert_eq!(partition_point(&y, 3), 1);
    assert_eq!(partition_point(&y, 4), 3);
    assert_eq!(partition_point(&y, 9), 5);
    assert_eq!(bracket(&y, 0), (0, 1));
    assert_eq!(bracket(&y, 8), (3, 4));
    assert_eq!(bracket(&y, 4), (2, 3));
    assert_eq!(bracket(&y, 6), (3, 4));
    assert_eq!(bracket(&[5i64], 5), (0, 0));
    assert_eq!(resample_segment(&y, 0), (0, 1));
    assert_eq!(resample_segment(&y, 9), (3, 4));
    assert_eq!(resample_segment(&y, 4), (2, 3));
    assert_eq!(resample_segment(&y, 3), (0, 1));
}

#[test]
fn response_validation() {
    let one = [1.0f64.to_bits()];
    match validate_response(&one, &one) {
        Err(BiquadError::InvalidFrequencyResponse(m)) => assert_eq!(m, "frequency response has fewer than 2 points"),
        other => panic!("unexpected {:?}", other),
    }
    let freqs = [20.0f64.to_bits(), 40.0f64.to_bits()];
    let dbs = [0.0f64.to_bits(), f64::NAN.to_bits()];
    match validate_response(&freqs, &dbs) {
        Err(BiquadError::InvalidFrequencyResponse(m)) => assert_eq!(m, "frequency response contains NaN"),
        other => panic!("unexpected {:?}", other),
    }
    let good = [0.0f64.to_bits(), 1.0f64.to_bits()];
    assert!(validate_response(&freqs, &good).is_ok());
}

#[test]
fn shelf_placement() {
    // Search range [3, 6) on a grid of 10: scores for candidates 3, 4, 5.
    assert_eq!(shelf_search_end(3, 6, 10), 6);
    assert_eq!(shelf_search_end(3, 2, 10), 4);
    assert_eq!(shelf_search_end(9, 12, 10), 10);
    let scores = [2i64, 5, 5];
    // Last best score at offset 2: low shelf at grid index 5, high shelf at 2.
    assert_eq!(shelf_fc_index(FilterType::LSQ, 3, &scores, 10), 5);
    assert_eq!(shelf_fc_index(FilterType::HSQ, 3, &scores, 10), 2);
    assert_eq!(shelf_fc_index(FilterType::LSQ, 10, &[], 10), 9);
}

#[test]
fn peaking_placement() {
    let c = peaking_candidates(&[2, 8, 5], &[1, 6], 3, 6);
    assert_eq!(c, vec![(2, true), (1, false)]);
    assert_eq!(peaking_fallback_index(3, 6, 10), 4);
    assert_eq!(peaking_fallback_index(8, 20, 10), 9);
    assert_eq!(peaking_search_last(349, 349), 348);
    assert_eq!(peaking_search_last(12, 349), 12);
}

#[test]
fn threshold_filter_positions() {
    assert_eq!(positions_at_least(&[3, 1, 4, 1, 5], 3), vec![0, 2, 4]);
    assert!(positions_at_least(&[1, 2], 9).is_empty());
}

#[test]
fn bisection_on_unsorted_grid() {
    // Interior query on an unsorted grid: the bisection probes index 2 (key 9 > 4),
    // then index 1 (key 2 <= 4), giving the segment (1, 2).
    assert_eq!(bracket(&[1i64, 2, 9, 3, 7], 4), (1, 2));
    // Binary search for keys below 4 on an unsorted slice: probes 2 (9), then 1 (2), ends at 2.
    assert_eq!(partition_point(&[1i64, 2, 9, 3, 7], 4), 2);
    assert_eq!(resample_segment(&[1i64, 2, 9, 3, 7], 4), (1, 2));
}

#[test]
fn raising_a_threshold_only_drops_positions() {
    let y = [5i64, 1, 3, 7, 2, 3, 0];
    let low = positions_at_least(&y, 2);
    let high = positions_at_least(&y, 3);
    assert_eq!(low, vec![0, 2, 3, 4, 5]);
    assert_eq!(high, vec![0, 2, 3, 5]);
    let filtered: Vec<usize> = low.iter().copied().filter(|&p| y[p] >= 3).collect();
    assert_eq!(high, filtered);
}
