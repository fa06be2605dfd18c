use biquad_rust::order::order_keys;
use biquad_rust::peak_finding::{crossing_scans_in_curve, local_maxima, prominence_bases, width_crossings};
use biquad_rust::search::positions_at_least;

fn keys(y: &[f64]) -> Vec<i64> {
    let bits: Vec<u64> = y.iter().map(|v| v.to_bits()).collect();
    order_keys(&bits)
}

fn close(a: f64, b: f64, eps: f64) -> bool {
    (a - b).abs() <= eps
}

fn prominences(y: &[f64], peaks: &[usize]) -> (Vec<f64>, Vec<usize>, Vec<usize>) {
    let bases = prominence_bases(&keys(y), peaks);
    let proms = peaks
        .iter()
        .zip(&bases)
        .map(|(&p, &(lb, rb))| y[p] - y[lb].max(y[rb]))
        .collect();
    (proms, bases.iter().map(|b| b.0).collect(), bases.iter().map(|b| b.1).collect())
}

fn find_peaks(y: &[f64], min_prominence: f64) -> Vec<usize> {
    let candidates = local_maxima(&keys(y));
    if candidates.is_empty() || min_prominence <= 0.0 {
        return candidates;
    }
    let (proms, _, _) = prominences(y, &candidates);
    positions_at_least(&keys(&proms), keys(&[min_prominence])[0]).into_iter().map(|k| candidates[k]).collect()
}

/// Peaks that pass the height, prominence and width thresholds, with their widths.
fn find_peaks_full(y: &[f64], min_prominence: f64, min_height: f64, min_width: f64) -> (Vec<usize>, Vec<f64>) {
    let local = local_maxima(&keys(y));
    let heights: Vec<f64> = local.iter().map(|&i| y[i]).collect();
    let candidates: Vec<usize> =
        positions_at_least(&keys(&heights), keys(&[min_height])[0]).into_iter().map(|k| local[k]).collect();
    let (proms, _, _) = prominences(y, &candidates);
    let kept: Vec<usize> =
        positions_at_least(&keys(&proms), keys(&[min_prominence])[0]).into_iter().map(|k| candidates[k]).collect();
    let (ws, _, _) = widths(y, &kept, 0.5);
    let pass = positions_at_least(&keys(&ws), keys(&[min_width])[0]);
    (pass.iter().map(|&k| kept[k]).collect(), pass.iter().map(|&k| ws[k]).collect())
}

fn widths(y: &[f64], peaks: &[usize], rel_height: f64) -> (Vec<f64>, Vec<f64>, Vec<f64>) {
    let (proms, lbs, rbs) = prominences(y, peaks);
    let levels: Vec<f64> = peaks.iter().zip(&proms).map(|(&p, &pr)| y[p] - pr * rel_height).collect();
    let bases: Vec<(usize, usize)> = lbs.iter().copied().zip(rbs.iter().copied()).collect();
    let crossings = width_crossings(&keys(y), peaks, &keys(&levels), &bases);
    let mut ws = vec![];
    let mut lips = vec![];
    let mut rips = vec![];
    for k in 0..peaks.len() {
        let h = levels[k];
        let left = match crossings[k].0 {
            Some(i) => {
                let denom = y[i + 1] - y[i];
                i as f64 + if denom.abs() < 1e-300 { 0.0 } else { ((h - y[i]) / denom).clamp(0.0, 1.0) }
            }
            None => lbs[k] as f64,
        };
        let right = match crossings[k].1 {
            Some(j) => {
                let denom = y[j] - y[j - 1];
                (j - 1) as f64 + if denom.abs() < 1e-300 { 0.0 } else { ((h - y[j - 1]) / denom).clamp(0.0, 1.0) }
            }
            None => rbs[k] as f64,
        };
        ws.push(right - left);
        lips.push(left);
        rips.push(right);
    }
    (ws, lips, rips)
}

#[test]
fn test_local_maxima_basic() {
    let y = [0.0, 1.0, 0.5, 2.0, 0.0, 1.5, 0.0];
    assert_eq!(local_maxima(&keys(&y)), vec![1, 3, 5]);
}

#[test]
fn test_local_maxima_plateau() {
    let y = [0.0, 1.0, 1.0, 0.0];
    assert_eq!(local_maxima(&keys(&y)), vec![1]);
}

#[test]
fn peak_finding_test_find_peaks_prominence_filter() {
    let y = [0.0, 1.0, 0.5, 2.0, 0.0, 1.5, 0.0];
    assert_eq!(find_peaks(&y, 0.0), vec![1, 3, 5]);
    assert_eq!(find_peaks(&y, 1.0), vec![3, 5]);
}

#[test]
fn test_peak_prominences_basic() {
    let y = [0.0, 1.0, 0.5, 2.0, 0.0, 1.5, 0.0];
    let peaks = vec![1, 3, 5];
    let (proms, lbs, rbs) = prominences(&y, &peaks);
    assert!(close(proms[0], 0.5, 1e-12));
    assert!(close(proms[1], 2.0, 1e-12));
    assert!(close(proms[2], 1.5, 1e-12));
    assert_eq!(lbs[1], 0);
    assert_eq!(rbs[1], 4);
}

#[test]
fn test_peak_widths_at_basic() {
    let y = [0.0, 0.0, 1.0, 0.0, 0.0];
    let peaks = vec![2];
    let (ws, lips, rips) = widths(&y, &peaks, 0.5);
    assert!(close(ws[0], 1.0, 1e-12));
    assert!(close(lips[0], 1.5, 1e-12));
    assert!(close(rips[0], 2.5, 1e-12));
}

#[test]
fn test_find_peaks_full_zero_thresholds() {
    let y = [0.0, 2.0, 1.0, 3.0, 0.0, 1.5, 0.0];
    let (inds, ws) = find_peaks_full(&y, 0.0, 0.0, 0.0);
    let heights: Vec<f64> = inds.iter().map(|&i| y[i]).collect();
    assert_eq!(inds, vec![1, 3, 5]);
    assert_eq!(heights, vec![2.0, 3.0, 1.5]);
    assert_eq!(ws.len(), 3);
}

#[test]
fn plateau_at_the_end_is_no_peak() {
    // A rise that stays flat up to the last sample is not a peak: the last sample
    // can never be a local maximum.
    let k = vec![0i64, 1, 5, 5, 5];
    assert!(local_maxima(&k).is_empty());
    assert!(biquad_rust::peak_finding::local_maxima_edges(&k).is_empty());
    let k = vec![0i64, 1, 5, 5, 4];
    assert_eq!(local_maxima(&k), vec![2]);
    assert_eq!(biquad_rust::peak_finding::local_maxima_edges(&k), vec![2]);
}

#[test]
fn flat_topped_peak_reports_its_middle() {
    let y = [0.0, 1.0, 1.0, 1.0, 0.0];
    let peaks = local_maxima(&keys(&y));
    assert_eq!(peaks, vec![2]);
    let (proms, lbs, rbs) = prominences(&y, &peaks);
    assert_eq!(proms, vec![1.0]);
    assert_eq!(lbs, vec![0]);
    assert_eq!(rbs, vec![4]);
    let (ws, lips, rips) = widths(&y, &peaks, 0.5);
    assert_eq!(ws, vec![3.0]);
    assert_eq!(lips, vec![0.5]);
    assert_eq!(rips, vec![3.5]);
}

#[test]
fn returned_peaks_lie_inside_the_curve() {
    let k = vec![3i64, 9, 2, 8, 8, 1, 7];
    let mid = local_maxima(&k);
    let edges = biquad_rust::peak_finding::local_maxima_edges(&k);
    assert_eq!(mid, vec![1, 3]);
    assert_eq!(edges, vec![1, 3]);
    assert!(mid.iter().chain(edges.iter()).all(|&p| 1 <= p && p <= k.len() - 2));
}

#[test]
fn crossing_scan_may_stop_before_a_base_past_the_end() {
    let y = vec![0i64, 5, 9, 4, 6];
    // Right base 10 lies past the curve, but the scan from the peak at 2 meets a
    // sample below 5 at index 3 first.
    assert!(crossing_scans_in_curve(&y, &[2], &[5], &[(0, 10)]));
    assert_eq!(width_crossings(&y, &[2], &[5], &[(0, 10)]), vec![(Some(0), Some(3))]);
    // With level 3 nothing right of the peak lies below it: the scan would leave the curve.
    assert!(!crossing_scans_in_curve(&y, &[2], &[3], &[(0, 10)]));
    // A right base inside the curve bounds the scan.
    assert_eq!(width_crossings(&y, &[2], &[3], &[(1, 4)]), vec![(None, None)]);
}

#[test]
fn no_peak_in_short_or_monotone_curves() {
    assert!(local_maxima(&[1i64, 2]).is_empty());
    assert!(local_maxima(&[1i64, 2, 3, 4]).is_empty());
    assert!(local_maxima(&[5i64, 4, 4, 3]).is_empty());
}

#[test]
fn even_plateau_takes_left_middle() {
    // Plateau [1, 4] of even length: middle is (1 + 4) / 2 = 2.
    let k = vec![0i64, 7, 7, 7, 7, 0];
    assert_eq!(local_maxima(&k), vec![2]);
}

#[test]
fn bases_of_peak_at_border_are_the_peak() {
    // Peak at index 1 with a higher sample right before: empty left stretch.
    let k = vec![9i64, 3, 1, 2];
    let b = prominence_bases(&k, &[1]);
    assert_eq!(b, vec![(1, 2)]);
}

#[test]
fn peaks_lie_strictly_between_their_bases() {
    let k = vec![4i64, 6, 6, 2, 9, 3, 3, 7, 1, 5, 0];
    let peaks = local_maxima(&k);
    assert_eq!(peaks, vec![1, 4, 7, 9]);
    let bases = prominence_bases(&k, &peaks);
    assert_eq!(bases, vec![(0, 3), (3, 10), (5, 10), (8, 10)]);
    for (&p, &(lb, rb)) in peaks.iter().zip(&bases) {
        assert!(lb < p && p < rb);
        assert!(k[lb] < k[p] && k[rb] < k[p]);
    }
}

#[test]
fn crossings_lie_between_base_and_peak() {
    let k = vec![0i64, 2, 4, 8, 5, 3, 1];
    let peaks = local_maxima(&k);
    assert_eq!(peaks, vec![3]);
    let bases = prominence_bases(&k, &peaks);
    assert_eq!(bases, vec![(0, 6)]);
    let c = width_crossings(&k, &peaks, &[4], &bases);
    assert_eq!(c, vec![(Some(1), Some(5))]);
    // Every sample strictly between a crossing and the peak is at or above the level.
    assert!(k[2..3].iter().all(|&v| v >= 4));
    assert!(k[4..5].iter().all(|&v| v >= 4));
}

#[test]
fn higher_thresholds_keep_a_subsequence() {
    let y = [0.0, 2.0, 1.0, 3.0, 0.0, 1.5, 0.0, 0.4, 0.3];
    let (low, low_w) = find_peaks_full(&y, 0.0, 0.0, 0.0);
    let (high, high_w) = find_peaks_full(&y, 1.0, 1.6, 0.0);
    assert_eq!(low, vec![1, 3, 5, 7]);
    assert_eq!(high, vec![1, 3]);
    for (k, p) in high.iter().enumerate() {
        let j = low.iter().position(|q| q == p).unwrap();
        assert_eq!(high_w[k], low_w[j]);
    }
}
