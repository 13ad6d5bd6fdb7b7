use mpm_pitch::nsdf::{compute_nsdf, nsdf_lag, window_power};
use mpm_pitch::peaks::{pick_peaks, select_peak, Peak};
use mpm_pitch::refine::refine_peak;
use mpm_pitch::NSDF_SCALE;

#[test]
fn nsdf_of_non_silent_window_is_one_at_zero_lag() {
    let window = vec![5i64, -3, 2, 7];
    let mut curve = Vec::new();
    compute_nsdf(&window, 6, &mut curve);
    assert_eq!(curve.len(), 6);
    assert_eq!(curve[0], NSDF_SCALE);
}

#[test]
fn nsdf_of_silent_window_is_all_zero() {
    let window = vec![0i64; 16];
    let mut curve = Vec::new();
    compute_nsdf(&window, 24, &mut curve);
    assert_eq!(curve, vec![0i64; 24]);
}

#[test]
fn nsdf_values_stay_within_scale() {
    let window = vec![9i64, -14, 3, 3, -8, 16, 0, -2, 11, -5];
    let mut curve = Vec::new();
    compute_nsdf(&window, 15, &mut curve);
    for v in curve {
        assert!(-NSDF_SCALE <= v && v <= NSDF_SCALE);
    }
}

#[test]
fn nsdf_lag_beyond_window_is_zero() {
    let window = vec![5i64, -3, 2, 7];
    assert_eq!(nsdf_lag(&window, 4), 0);
    assert_eq!(nsdf_lag(&window, 100), 0);
}

#[test]
fn nsdf_of_alternating_window_is_minus_one_at_lag_one() {
    let window = vec![1000i64, -1000, 1000, -1000];
    assert_eq!(nsdf_lag(&window, 1), -NSDF_SCALE);
    assert_eq!(nsdf_lag(&window, 2), NSDF_SCALE);
}

#[test]
fn nsdf_matches_the_definition_exactly() {
    // 2 * (2 * 1) = 4 over 2*2 + 1*1 = 5, scaled and rounded toward zero.
    let window = vec![2i64, 1];
    assert_eq!(nsdf_lag(&window, 1), 4 * NSDF_SCALE / 5);
}

#[test]
fn picker_finds_run_maxima_after_positive_crossings() {
    let curve = vec![1048576i64, 500000, -100, 200, 300, -50, 400];
    let peaks = pick_peaks(&curve);
    assert_eq!(peaks.len(), 2);
    assert_eq!((peaks[0].position, peaks[0].value), (4, 300));
    assert_eq!((peaks[1].position, peaks[1].value), (6, 400));
}

#[test]
fn picker_returns_no_peak_on_nonpositive_curve() {
    let curve = vec![1048576i64, 0, -5, -7, 0, -1];
    let peaks = pick_peaks(&curve);
    assert!(peaks.is_empty());
}

#[test]
fn picked_values_are_always_positive() {
    let curve = vec![1048576i64, -3, 1, -2, 5, 4, -9, 8, 7, -1, 2];
    for p in pick_peaks(&curve) {
        assert!(p.value > 0);
    }
}

#[test]
fn selector_takes_first_peak_above_relative_threshold() {
    let peaks = vec![
        Peak { position: 10, value: 500000 },
        Peak { position: 20, value: 900000 },
        Peak { position: 30, value: 950000 },
    ];
    let chosen = select_peak(&peaks, 838861);
    assert_eq!((chosen.position, chosen.value), (20, 900000));
}

#[test]
fn selector_with_threshold_one_takes_the_maximum() {
    let peaks = vec![
        Peak { position: 10, value: 500000 },
        Peak { position: 20, value: 900000 },
        Peak { position: 30, value: 950000 },
    ];
    let chosen = select_peak(&peaks, NSDF_SCALE);
    assert_eq!((chosen.position, chosen.value), (30, 950000));
}

#[test]
fn parabolic_interpolation_is_exact() {
    let curve = vec![1048576i64, -100, 100, 80];
    let p = Peak { position: 2, value: 100 };
    assert_eq!(refine_peak(&curve, p), (1060, 440));
}

#[test]
fn collinear_neighbors_leave_the_lag_unrefined() {
    let curve = vec![1048576i64, 100, 100, 100];
    let p = Peak { position: 2, value: 100 };
    assert_eq!(refine_peak(&curve, p), (2, 1));
}

#[test]
fn peak_at_top_of_lag_range_is_unrefined() {
    let curve = vec![1048576i64, -5, 70];
    let p = Peak { position: 2, value: 70 };
    assert_eq!(refine_peak(&curve, p), (2, 1));
}

#[test]
fn window_power_is_the_sum_of_squares() {
    let window = vec![3i64, -4];
    assert_eq!(window_power(&window), 25);
    assert_eq!(window_power(&[]), 0);
}
