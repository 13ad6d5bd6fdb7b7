use mpm_pitch::{DetectError, McLeodPitchDetector, NSDF_SCALE};

fn sine_window(freq: f64, sample_rate: f64, n: usize, amp: f64) -> Vec<i64> {
    let mut v = Vec::with_capacity(n);
    for i in 0..n {
        let phase = 2.0 * std::f64::consts::PI * freq * (i as f64) / sample_rate;
        v.push((amp * phase.sin()).round() as i64);
    }
    v
}

fn frequency_hz(num: i64, den: i64) -> f64 {
    (num as f64) / (den as f64)
}

#[test]
fn all_zero_window_reports_no_pitch() {
    let mut d = McLeodPitchDetector::new(1024, 512);
    let window = vec![0i64; 1024];
    let r = d.detect_pitch(&window, 44100, 0, 838861).unwrap();
    assert_eq!(r, None);
    let r2 = d.detect_pitch(&window, 44100, 1000, 838861).unwrap();
    assert_eq!(r2, None);
}

#[test]
fn sine_440_hz_concrete_scenario() {
    let mut d = McLeodPitchDetector::new(1024, 512);
    let window = sine_window(440.0, 44100.0, 1024, 1_000_000.0);
    let estimate = d
        .detect_pitch(&window, 44100, 0, 838861)
        .unwrap()
        .expect("a 440 Hz sine has a pitch");
    let freq = frequency_hz(estimate.frequency_num, estimate.frequency_den);
    assert!((freq - 440.0).abs() <= 4.0, "frequency {} out of tolerance", freq);
    assert!(estimate.clarity > 9 * NSDF_SCALE / 10, "clarity {} too low", estimate.clarity);
}

#[test]
fn sine_330_hz_within_one_percent() {
    let mut d = McLeodPitchDetector::new(2048, 1024);
    let window = sine_window(330.0, 44100.0, 2048, 2_000_000.0);
    let estimate = d
        .detect_pitch(&window, 44100, 0, 838861)
        .unwrap()
        .expect("a 330 Hz sine has a pitch");
    let freq = frequency_hz(estimate.frequency_num, estimate.frequency_den);
    assert!((freq - 330.0).abs() <= 3.3, "frequency {} out of tolerance", freq);
    assert!(estimate.clarity > 9 * NSDF_SCALE / 10);
}

#[test]
fn raising_power_threshold_flips_some_to_none() {
    let mut d = McLeodPitchDetector::new(1024, 512);
    let window = sine_window(440.0, 44100.0, 1024, 1_000_000.0);
    let with_low = d.detect_pitch(&window, 44100, 0, 838861).unwrap();
    assert!(with_low.is_some());
    let power = mpm_pitch::nsdf::window_power(&window);
    let mean_power = (power / 1024) as i64;
    let with_high = d.detect_pitch(&window, 44100, mean_power + 1, 838861).unwrap();
    assert_eq!(with_high, None);
}

#[test]
fn identical_calls_give_identical_results() {
    let mut d = McLeodPitchDetector::new(1024, 512);
    let window = sine_window(440.0, 44100.0, 1024, 1_000_000.0);
    let first = d.detect_pitch(&window, 44100, 0, 838861);
    let second = d.detect_pitch(&window, 44100, 0, 838861);
    assert_eq!(first, second);
}

#[test]
fn constant_window_has_no_periodicity() {
    let mut d = McLeodPitchDetector::new(8, 4);
    let window = vec![1000i64; 8];
    let r = d.detect_pitch(&window, 8000, 0, NSDF_SCALE).unwrap();
    assert_eq!(r, None);
}

#[test]
fn padding_larger_than_window_is_accepted() {
    let mut d = McLeodPitchDetector::new(4, 8);
    let window = vec![5i64, -3, 2, 7];
    let r = d.detect_pitch(&window, 8000, 0, 838861);
    assert!(r.is_ok());
}

#[test]
fn mismatched_window_length_is_an_error() {
    let mut d = McLeodPitchDetector::new(8, 4);
    let window = vec![0i64; 7];
    let r = d.detect_pitch(&window, 44100, 0, 838861);
    assert_eq!(r, Err(DetectError::WindowLengthMismatch));
}

#[test]
fn zero_sample_rate_is_an_error() {
    let mut d = McLeodPitchDetector::new(8, 4);
    let window = vec![0i64; 8];
    let r = d.detect_pitch(&window, 0, 0, 838861);
    assert_eq!(r, Err(DetectError::InvalidSampleRate));
}

#[test]
fn negative_power_threshold_is_an_error() {
    let mut d = McLeodPitchDetector::new(8, 4);
    let window = vec![0i64; 8];
    let r = d.detect_pitch(&window, 44100, -1, 838861);
    assert_eq!(r, Err(DetectError::InvalidPowerThreshold));
}

#[test]
fn out_of_range_clarity_threshold_is_an_error() {
    let mut d = McLeodPitchDetector::new(8, 4);
    let window = vec![0i64; 8];
    let zero = d.detect_pitch(&window, 44100, 0, 0);
    assert_eq!(zero, Err(DetectError::InvalidClarityThreshold));
    let above_one = d.detect_pitch(&window, 44100, 0, NSDF_SCALE + 1);
    assert_eq!(above_one, Err(DetectError::InvalidClarityThreshold));
}

#[test]
fn reported_frequency_is_positive_and_clarity_in_range() {
    let mut d = McLeodPitchDetector::new(512, 256);
    let window = sine_window(880.0, 44100.0, 512, 500_000.0);
    let estimate = d
        .detect_pitch(&window, 44100, 0, 524288)
        .unwrap()
        .expect("an 880 Hz sine has a pitch");
    assert!(estimate.frequency_num > 0);
    assert!(estimate.frequency_den > 0);
    assert!(estimate.clarity > 0 && estimate.clarity <= NSDF_SCALE);
}
