//! Pitch detection by the McLeod Pitch Method (MPM) over fixed-point samples.
//!
//! A detection call runs four stages in sequence: the normalized square
//! difference function (NSDF) over a range of lags, picking of key maxima
//! bounded by positive-going zero crossings, selection of the first peak
//! above a relative clarity threshold, and parabolic refinement of the
//! chosen lag together with a power (silence) gate.
//!
//! Samples are signed fixed-point integers of arbitrary scale, bounded by
//! [`AMP_MAX`] in magnitude. NSDF values are scaled by [`NSDF_SCALE`]: a
//! stored value `v` stands for the real number `v / NSDF_SCALE`, so the
//! zero-lag value of a non-silent window is exactly `NSDF_SCALE`. A
//! reported frequency is the exact rational `frequency_num / frequency_den`
//! in Hz.

use vstd::prelude::*;

pub mod nsdf;
pub mod peaks;
pub mod refine;

verus! {

/// Fixed-point scale of NSDF values and of the clarity threshold:
/// the stored value `NSDF_SCALE` stands for the real number `1.0`.
pub const NSDF_SCALE: i64 = 1048576;

/// Largest admissible sample magnitude (so that all sums fit in 128 bits).
pub const AMP_MAX: i64 = 16777216;

/// Largest admissible lag range, `window_size + padding`.
pub const MAX_LAGS: usize = 16777216;

/// Largest admissible sample rate in Hz.
pub const MAX_SAMPLE_RATE: u64 = 4294967295;

/// A successful pitch estimate: the frequency is the exact rational
/// `frequency_num / frequency_den` in Hz, and the clarity is the chosen
/// peak's NSDF value, in `(0, NSDF_SCALE]` (scaled so that `NSDF_SCALE`
/// stands for `1.0`).
#[derive(Clone, Copy, PartialEq, Eq, Structural, Debug)]
pub struct PitchEstimate {
    pub frequency_num: i64,
    pub frequency_den: i64,
    pub clarity: i64,
}

/// The mathematical image of a [`PitchEstimate`].
pub struct EstimateM {
    pub frequency_num: int,
    pub frequency_den: int,
    pub clarity: int,
}

impl View for PitchEstimate {
    type V = EstimateM;

    open spec fn view(&self) -> EstimateM {
        EstimateM {
            frequency_num: self.frequency_num as int,
            frequency_den: self.frequency_den as int,
            clarity: self.clarity as int,
        }
    }
}

/// A structural misuse of a detection call. A no-pitch outcome is not an
/// error; it is the `Ok(None)` result.
#[derive(Clone, Copy, PartialEq, Eq, Structural, Debug)]
pub enum DetectError {
    /// The window's length differs from the configured `window_size`.
    WindowLengthMismatch,
    /// The sample rate is zero.
    InvalidSampleRate,
    /// The power threshold is negative.
    InvalidPowerThreshold,
    /// The clarity threshold lies outside `(0, NSDF_SCALE]`.
    InvalidClarityThreshold,
}

/// What a valid detection call returns: the NSDF curve over
/// `0 .. n_lags` is scanned for key maxima; no candidate, or total energy
/// below `pthr` per sample, reports no pitch; otherwise the selected peak's
/// refined lag `num / den` gives the frequency `sr * den / num`.
pub open spec fn detect_model(s: Seq<i64>, n_lags: int, sr: int, pthr: int, cthr: int) -> Option<
    EstimateM,
> {
    let curve = nsdf::nsdf_curve_model(s, n_lags);
    let peaks = peaks::key_maxima(curve);
    if peaks.len() == 0 {
        Option::None
    } else if nsdf::power_sum(s, s.len() as int) < pthr * s.len() {
        Option::None
    } else {
        let p = peaks::select_model(peaks, cthr);
        let lag = refine::refine_model(curve, p);
        Option::Some(
            EstimateM { frequency_num: sr * lag.1, frequency_den: lag.0, clarity: p.value },
        )
    }
}

/// What a detection call returns, argument checking included: each
/// structural misuse maps to its error, checked in this order, and a valid
/// call returns [`detect_model`].
pub open spec fn detect_result_model(
    s: Seq<i64>,
    window_size: int,
    padding: int,
    sr: int,
    pthr: int,
    cthr: int,
) -> Result<Option<EstimateM>, DetectError> {
    if s.len() != window_size {
        Result::Err(DetectError::WindowLengthMismatch)
    } else if sr <= 0 {
        Result::Err(DetectError::InvalidSampleRate)
    } else if pthr < 0 {
        Result::Err(DetectError::InvalidPowerThreshold)
    } else if !(0 < cthr <= NSDF_SCALE) {
        Result::Err(DetectError::InvalidClarityThreshold)
    } else {
        Result::Ok(detect_model(s, window_size + padding, sr, pthr, cthr))
    }
}

/// The image of an executable detection result.
pub open spec fn result_view(r: Result<Option<PitchEstimate>, DetectError>) -> Result<
    Option<EstimateM>,
    DetectError,
> {
    match r {
        Result::Ok(Option::Some(e)) => Result::Ok(Option::Some(e@)),
        Result::Ok(Option::None) => Result::Ok(Option::None),
        Result::Err(e) => Result::Err(e),
    }
}

/// A pitch detector with a fixed window size and lag padding. It owns the
/// scratch buffer for the NSDF curve, which every call overwrites, so one
/// instance serves one stream at a time.
pub struct McLeodPitchDetector {
    /// Number of samples each detection call expects.
    pub window_size: usize,
    /// Extra lags computed past the window size.
    pub padding: usize,
    /// Scratch storage for the NSDF curve; every detection call overwrites
    /// it, and nothing outside a call should read it.
    pub nsdf: Vec<i64>,
}

impl McLeodPitchDetector {
    /// A usable configuration: a nonempty window, and a lag range that the
    /// detector's arithmetic admits.
    pub open spec fn wf(self) -> bool {
        1 <= self.window_size && self.window_size + self.padding <= MAX_LAGS
    }

    /// Build a detector for windows of `window_size` samples, computing the
    /// NSDF over `window_size + padding` lags.
    pub fn new(window_size: usize, padding: usize) -> (d: McLeodPitchDetector)
        requires
            1 <= window_size,
            window_size + padding <= MAX_LAGS,
        ensures
            d.wf(),
            d.window_size == window_size,
            d.padding == padding,
    {
        McLeodPitchDetector { window_size, padding, nsdf: Vec::new() }
    }

    /// Run one detection call on `window`, whose result is exactly
    /// [`detect_result_model`] of the arguments: `Err` on a structural
    /// misuse, `Ok(None)` for silent or aperiodic input, and otherwise the
    /// frequency `sample_rate / refined_lag` with the chosen peak's value as
    /// clarity.
    pub fn detect_pitch(
        &mut self,
        window: &[i64],
        sample_rate: usize,
        power_threshold: i64,
        clarity_threshold: i64,
    ) -> (r: Result<Option<PitchEstimate>, DetectError>)
        requires
            old(self).wf(),
            nsdf::samples_bounded(window@),
            sample_rate <= MAX_SAMPLE_RATE,
        ensures
            final(self).wf(),
            final(self).window_size == old(self).window_size,
            final(self).padding == old(self).padding,
            result_view(r) == detect_result_model(
                window@,
                old(self).window_size as int,
                old(self).padding as int,
                sample_rate as int,
                power_threshold as int,
                clarity_threshold as int,
            ),
            r matches Result::Ok(Option::Some(e)) ==> e.frequency_num > 0 && e.frequency_den > 0
                && 0 < e.clarity <= NSDF_SCALE,
    {
        if window.len() != self.window_size {
            return Result::Err(DetectError::WindowLengthMismatch);
        }
        if sample_rate == 0 {
            return Result::Err(DetectError::InvalidSampleRate);
        }
        if power_threshold < 0 {
            return Result::Err(DetectError::InvalidPowerThreshold);
        }
        if clarity_threshold <= 0 || clarity_threshold > NSDF_SCALE {
            return Result::Err(DetectError::InvalidClarityThreshold);
        }
        let n_lags = self.window_size + self.padding;
        let ghost curve = nsdf::nsdf_curve_model(window@, n_lags as int);
        let ghost km = peaks::key_maxima(curve);
        nsdf::compute_nsdf(window, n_lags, &mut self.nsdf);
        let candidates = peaks::pick_peaks(&self.nsdf);
        if candidates.len() == 0 {
            assert(peaks::peaks_view(candidates@).len() == 0);
            return Result::Ok(Option::None);
        }
        let power = nsdf::window_power(window);
        proof {
            assert(0 <= (power_threshold as int) * (window@.len() as int)
                <= 170141183460469231731687303715884105727) by (nonlinear_arith)
                requires
                    0 <= power_threshold as int <= 9223372036854775807,
                    0 <= window@.len() as int <= 16777216,
            ;
        }
        let gate: i128 = (power_threshold as i128) * (window.len() as i128);
        if power < gate {
            return Result::Ok(Option::None);
        }
        proof {
            peaks::lemma_key_maxima_wf(curve);
            assert(forall|k: int|
                0 <= k < candidates@.len() ==> #[trigger] peaks::peaks_view(candidates@)[k]
                    == candidates@[k]@);
            assert forall|k: int|
                0 <= k < candidates@.len() implies 0 <= #[trigger] candidates@[k].value
                <= NSDF_SCALE by {
                let pm = peaks::peaks_view(candidates@)[k];
                assert(pm == candidates@[k]@);
                assert(pm == km[k]);
                assert(peaks::peak_wf(curve, pm));
                assert(pm.value == curve[pm.position] as int);
                assert(-NSDF_SCALE <= self.nsdf@[pm.position] <= NSDF_SCALE);
            }
        }
        let chosen = peaks::select_peak(&candidates, clarity_threshold);
        proof {
            let pv = peaks::peaks_view(candidates@);
            let idx = peaks::first_selected(
                pv,
                (clarity_threshold as int) * peaks::max_peak_value(pv),
                0,
            );
            assert(chosen@ == km[idx]);
            assert(peaks::peak_wf(curve, chosen@));
        }
        let lag = refine::refine_peak(&self.nsdf, chosen);
        proof {
            assert(0 < (sample_rate as int) * (lag.1 as int) <= 36028797018963968)
                by (nonlinear_arith)
                requires
                    1 <= sample_rate as int <= 4294967295,
                    0 < lag.1 as int <= 8388608,
            ;
        }
        let frequency_num: i64 = (sample_rate as i64) * lag.1;
        let estimate = PitchEstimate {
            frequency_num,
            frequency_den: lag.0,
            clarity: chosen.value,
        };
        Result::Ok(Option::Some(estimate))
    }
}

/// Law: an all-zero window yields no pitch, whatever the sample rate and
/// the thresholds: its NSDF curve never rises above zero, so no candidate
/// peak exists.
pub proof fn lemma_silent_window_no_pitch(s: Seq<i64>, n_lags: int, sr: int, pthr: int, cthr: int)
    requires
        nsdf::is_silent(s),
    ensures
        detect_model(s, n_lags, sr, pthr, cthr) is None,
{
    let curve = nsdf::nsdf_curve_model(s, n_lags);
    assert forall|t: int| 0 <= t < curve.len() implies #[trigger] curve[t] <= 0 by {
        nsdf::lemma_silent_nsdf(s, t);
    }
    peaks::lemma_no_positive_no_peaks(curve);
}

/// Law: a pitch is reported exactly when the NSDF curve has a candidate
/// peak and the window's total energy clears the power gate.
pub proof fn lemma_detect_some_iff(s: Seq<i64>, n_lags: int, sr: int, pthr: int, cthr: int)
    ensures
        detect_model(s, n_lags, sr, pthr, cthr) is Some <==> {
            &&& peaks::key_maxima(nsdf::nsdf_curve_model(s, n_lags)).len() > 0
            &&& nsdf::power_sum(s, s.len() as int) >= pthr * s.len()
        },
{
}

/// Law: the power gate is decisive -- whenever the window's total energy
/// lies below `pthr` per sample, the call reports no pitch.
pub proof fn lemma_power_gate(s: Seq<i64>, n_lags: int, sr: int, pthr: int, cthr: int)
    requires
        nsdf::power_sum(s, s.len() as int) < pthr * s.len(),
    ensures
        detect_model(s, n_lags, sr, pthr, cthr) is None,
{
}

/// Law: gating is monotonic -- raising the power threshold above the
/// window's actual power flips an otherwise identical call from `Some`
/// to `None`.
pub proof fn lemma_power_gate_flips(
    s: Seq<i64>,
    n_lags: int,
    sr: int,
    pthr_low: int,
    pthr_high: int,
    cthr: int,
)
    requires
        detect_model(s, n_lags, sr, pthr_low, cthr) is Some,
        nsdf::power_sum(s, s.len() as int) < pthr_high * s.len(),
    ensures
        detect_model(s, n_lags, sr, pthr_high, cthr) is None,
{
    lemma_power_gate(s, n_lags, sr, pthr_high, cthr);
}

/// Law: detection is deterministic -- the result is a function of the
/// window, the configuration and the thresholds alone, so two calls with
/// identical inputs agree bit for bit.
pub proof fn lemma_detect_deterministic(
    s: Seq<i64>,
    window_size: int,
    padding: int,
    sr: int,
    pthr: int,
    cthr: int,
    r1: Result<Option<EstimateM>, DetectError>,
    r2: Result<Option<EstimateM>, DetectError>,
)
    requires
        r1 == detect_result_model(s, window_size, padding, sr, pthr, cthr),
        r2 == detect_result_model(s, window_size, padding, sr, pthr, cthr),
    ensures
        r1 == r2,
{
}

} // verus!
