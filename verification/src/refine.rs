//! The refiner: parabolic interpolation of the chosen peak's lag.
//!
//! A parabola through the NSDF values at the peak's lag and its two
//! neighbors, `(y_prev, y0, y_next)`, has its vertex at the lag offset
//! `delta = (y_next - y_prev) / (2 * (2*y0 - y_next - y_prev))`, so the
//! refined lag is the exact rational `position + delta`, kept here as a
//! numerator and a positive denominator. Collinear points (a zero
//! denominator) and a peak at the top of the lag range fall back to
//! `delta = 0`.

use vstd::prelude::*;

use crate::peaks::{peak_wf, Peak, PeakM};
use crate::{MAX_LAGS, NSDF_SCALE};

verus! {

/// The refined lag of peak `p` on `curve`, as the rational
/// `numerator / denominator` (the pair's first over second member).
pub open spec fn refine_model(curve: Seq<i64>, p: PeakM) -> (int, int) {
    let y0 = p.value;
    let yp = curve[p.position - 1] as int;
    if p.position + 1 < curve.len() {
        let yn = curve[p.position + 1] as int;
        let den = 2 * (2 * y0 - yn - yp);
        if den == 0 {
            (p.position, 1)
        } else {
            (p.position * den + (yn - yp), den)
        }
    } else {
        (p.position, 1)
    }
}

/// Parabolic interpolation around a key maximum. Returns the refined lag as
/// a rational `(numerator, denominator)`, which always lies strictly between
/// zero and one lag above the peak's position.
pub fn refine_peak(curve: &Vec<i64>, p: Peak) -> (r: (i64, i64))
    requires
        peak_wf(curve@, p@),
        curve@.len() <= MAX_LAGS,
        forall|t: int| 0 <= t < curve@.len() ==> -NSDF_SCALE <= #[trigger] curve@[t] <= NSDF_SCALE,
    ensures
        r.0 == refine_model(curve@, p@).0,
        r.1 == refine_model(curve@, p@).1,
        0 < r.0 <= 140737488355328,
        0 < r.1 <= 8388608,
{
    let yp = curve[p.position - 1];
    let y0 = p.value;
    if p.position + 1 < curve.len() {
        let yn = curve[p.position + 1];
        let den: i64 = 2 * (2 * y0 - yn - yp);
        assert(yp <= y0 && yn <= y0 && den >= 0);
        if den == 0 {
            (p.position as i64, 1)
        } else {
            proof {
                assert((p.position as int) * (den as int) >= den as int && (p.position as int) * (
                den as int) <= 16777215 * (den as int)) by (nonlinear_arith)
                    requires
                        1 <= p.position as int <= 16777215,
                        0 < den as int,
                ;
                assert(2 * (yn as int - yp as int) <= den as int && 2 * (yp as int - yn as int)
                    <= den as int);
            }
            let num: i64 = (p.position as i64) * den + (yn - yp);
            (num, den)
        }
    } else {
        (p.position as i64, 1)
    }
}

} // verus!
