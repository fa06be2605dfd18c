use biquad_rust::init::{is_fully_locked, peaking_gain_choice, GainChoice};
use biquad_rust::order::order_keys;
use biquad_rust::params::{build_bounds, decode_params, encode_params, free_param_count, init_order, priority_table_index};
use biquad_rust::types::{BiquadError, FilterType};
use biquad_rust::validate::{resolve_specs, FilterSpecFlags, ResolvedFlags};

fn free_spec(ft: FilterType) -> FilterSpecFlags {
    FilterSpecFlags {
        filter_type: Some(ft),
        has_fc: false,
        has_q: false,
        has_gain: false,
        optimize_fc: None,
        optimize_q: None,
        optimize_gain: None,
    }
}

fn close(a: f64, b: f64, eps: f64) -> bool {
    (a - b).abs() <= eps
}

#[test]
fn test_resolve_specs_locked_without_value_fails() {
    let spec = FilterSpecFlags {
        filter_type: Some(FilterType::PK),
        has_fc: false,
        has_q: true,
        has_gain: true,
        optimize_fc: Some(false),
        optimize_q: Some(false),
        optimize_gain: Some(false),
    };
    assert!(resolve_specs(&[spec]).is_err());
}

#[test]
fn test_encode_decode_roundtrip() {
    let flags = resolve_specs(&[free_spec(FilterType::PK), free_spec(FilterType::LSQ)]).unwrap();
    // (log10 fc, q, gain) of pk(1000, -3, 2) and lsq(100, 2.5, 0.6)
    let values = vec![(1000f64.log10(), 2.0, -3.0), (100f64.log10(), 0.6, 2.5)];
    let x = encode_params(&values, &flags);
    assert_eq!(x.len(), 6);
    let decoded = decode_params(&x, &flags);
    assert!(close(10f64.powf(decoded[0].0.unwrap()), 1000.0, 1e-9));
    assert!(close(decoded[0].2.unwrap(), -3.0, 1e-12));
    assert!(close(decoded[1].1.unwrap(), 0.6, 1e-12));
}

#[test]
fn test_encode_locked_params_skipped() {
    let spec = FilterSpecFlags {
        filter_type: Some(FilterType::PK),
        has_fc: true,
        has_q: true,
        has_gain: false,
        optimize_fc: Some(false),
        optimize_q: Some(false),
        optimize_gain: None,
    };
    let flags = resolve_specs(&[spec]).unwrap();
    let values = vec![(1000f64.log10(), 2.0, -3.0)];
    let x = encode_params(&values, &flags);
    assert_eq!(x.len(), 1);
    assert!(close(x[0], -3.0, 1e-12));
}

#[test]
fn test_build_bounds_len_matches_encode() {
    let flags = resolve_specs(&[free_spec(FilterType::PK), free_spec(FilterType::LSQ)]).unwrap();
    let values = vec![(1000f64.log10(), 2.0, 0.0), (100f64.log10(), 0.6, 0.0)];
    let x = encode_params(&values, &flags);
    let ranges = vec![
        ((20f64.log10(), 10000f64.log10()), (0.18248, 6.0), (-12.0, 12.0)),
        ((20f64.log10(), 10000f64.log10()), (0.4, 0.7), (-12.0, 12.0)),
    ];
    let bounds = build_bounds(&ranges, &flags);
    assert_eq!(bounds.len(), x.len());
    assert!(close(bounds[0].0, 20f64.log10(), 1e-12));
    assert!(close(bounds[0].1, 10000f64.log10(), 1e-12));
}

#[test]
fn test_priority_order() {
    let flags = resolve_specs(&[free_spec(FilterType::PK), free_spec(FilterType::LSQ), free_spec(FilterType::HSQ)]).unwrap();
    let p: Vec<f64> = flags
        .iter()
        .map(|f| {
            let ix = priority_table_index(f.filter_type, f.optimize_fc, f.optimize_q);
            (ix * 100) as f64 + 1.0 / (10000.0f64 / 20.0).log2()
        })
        .collect();
    assert!(p[2] > p[1], "HSQ priority ({}) should exceed LSQ ({})", p[2], p[1]);
    assert!(p[1] > p[0], "LSQ priority ({}) should exceed PK ({})", p[1], p[0]);
    let bits: Vec<u64> = p.iter().map(|v| v.to_bits()).collect();
    assert_eq!(init_order(&order_keys(&bits)), vec![2, 1, 0]);
}

#[test]
fn resolve_specs_applies_defaults() {
    let spec = FilterSpecFlags {
        filter_type: None,
        has_fc: true,
        has_q: false,
        has_gain: false,
        optimize_fc: Some(false),
        optimize_q: None,
        optimize_gain: Some(true),
    };
    let flags = resolve_specs(&[spec]).unwrap();
    assert_eq!(
        flags,
        vec![ResolvedFlags { filter_type: FilterType::PK, optimize_fc: false, optimize_q: true, optimize_gain: true }]
    );
}

#[test]
fn resolve_specs_reports_first_violation() {
    let ok = free_spec(FilterType::PK);
    let q_locked = FilterSpecFlags { optimize_q: Some(false), ..free_spec(FilterType::LSQ) };
    let gain_locked = FilterSpecFlags { optimize_gain: Some(false), ..free_spec(FilterType::HSQ) };
    match resolve_specs(&[ok, q_locked, gain_locked]) {
        Err(BiquadError::InvalidFilterSpec(m)) => {
            assert_eq!(m, "q=None with optimize_q=false: cannot lock an unspecified q")
        }
        other => panic!("unexpected {:?}", other),
    }
    match resolve_specs(&[ok, gain_locked]) {
        Err(BiquadError::InvalidFilterSpec(m)) => {
            assert_eq!(m, "gain=None with optimize_gain=false: cannot lock an unspecified gain")
        }
        other => panic!("unexpected {:?}", other),
    }
    let fc_locked = FilterSpecFlags { optimize_fc: Some(false), ..free_spec(FilterType::PK) };
    match resolve_specs(&[fc_locked]) {
        Err(BiquadError::InvalidFilterSpec(m)) => {
            assert_eq!(m, "fc=None with optimize_fc=false: cannot lock an unspecified fc")
        }
        other => panic!("unexpected {:?}", other),
    }
}

#[test]
fn decode_leaves_locked_parameters_out() {
    let flags = vec![
        ResolvedFlags { filter_type: FilterType::PK, optimize_fc: false, optimize_q: true, optimize_gain: false },
        ResolvedFlags { filter_type: FilterType::HSQ, optimize_fc: true, optimize_q: false, optimize_gain: true },
    ];
    assert_eq!(free_param_count(&flags), 3);
    let decoded = decode_params(&[10i32, 20, 30], &flags);
    assert_eq!(decoded, vec![(None, Some(10), None), (Some(20), None, Some(30))]);
    let x = encode_params(&[(1i32, 10, 2), (20, 3, 30)], &flags);
    assert_eq!(x, vec![10, 20, 30]);
}

#[test]
fn encode_reads_pairs_up_to_shorter_list() {
    let flags = vec![ResolvedFlags { filter_type: FilterType::PK, optimize_fc: true, optimize_q: true, optimize_gain: true }];
    assert_eq!(encode_params(&[(1u8, 2, 3), (4, 5, 6)], &flags), vec![1, 2, 3]);
}

#[test]
fn priority_table_entries() {
    assert_eq!(priority_table_index(FilterType::PK, true, true), 0);
    assert_eq!(priority_table_index(FilterType::HSQ, true, true), 2);
    assert_eq!(priority_table_index(FilterType::LSQ, true, false), 4);
    assert_eq!(priority_table_index(FilterType::PK, false, true), 6);
    assert_eq!(priority_table_index(FilterType::HSQ, false, false), 11);
}

#[test]
fn init_order_is_stable_descending() {
    assert_eq!(init_order(&[5, 7, 5, 9, 7]), vec![3, 1, 4, 0, 2]);
    assert!(init_order(&[]).is_empty());
}

#[test]
fn fully_locked_filters_skip_initialisation() {
    let locked = ResolvedFlags { filter_type: FilterType::PK, optimize_fc: false, optimize_q: false, optimize_gain: false };
    assert!(is_fully_locked(locked));
    let free_q = ResolvedFlags { optimize_q: true, ..locked };
    assert!(!is_fully_locked(free_q));
    let free_gain = ResolvedFlags { optimize_gain: true, ..locked };
    assert!(!is_fully_locked(free_gain));
}

#[test]
fn locked_gain_is_kept_as_given() {
    assert_eq!(peaking_gain_choice(true, false), GainChoice::Given);
    assert_eq!(peaking_gain_choice(true, true), GainChoice::GivenInRange);
    assert_eq!(peaking_gain_choice(false, true), GainChoice::ComputedInRange);
    assert_eq!(peaking_gain_choice(false, false), GainChoice::ComputedInRange);
}
