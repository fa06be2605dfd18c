use biquad_rust::search::argmax_first;
use biquad_rust::smooth::odd_window_size;

fn build_grid(f_min: f64, f_max: f64, step: f64) -> Vec<f64> {
    let mut freqs = Vec::new();
    let mut f = f_min;
    while f <= f_max {
        freqs.push(f);
        f *= step;
    }
    freqs
}

fn smoothing_window_size(freqs: &[f64], octaves: f64) -> usize {
    let k = 2.0_f64.powf(octaves);
    let step_size: f64 = freqs.windows(2).map(|w| w[1] / w[0]).sum::<f64>() / (freqs.len() - 1) as f64;
    odd_window_size((k.ln() / step_size.ln()).round() as usize)
}

#[test]
fn smoothing_window_size_1_01_grid() {
    let freqs = build_grid(20.0, 20000.0, 1.01);
    assert_eq!(smoothing_window_size(&freqs, 1.0 / 12.0), 7);
    assert_eq!(smoothing_window_size(&freqs, 2.0), 139);
}

#[test]
fn odd_window_values() {
    assert_eq!(odd_window_size(0), 3);
    assert_eq!(odd_window_size(2), 3);
    assert_eq!(odd_window_size(3), 3);
    assert_eq!(odd_window_size(6), 7);
    assert_eq!(odd_window_size(139), 139);
}

#[test]
fn pivot_is_first_largest() {
    assert_eq!(argmax_first(&[3, 9, 1, 9], 0, 4), 1);
    assert_eq!(argmax_first(&[3, 9, 1, 9], 2, 4), 3);
}
