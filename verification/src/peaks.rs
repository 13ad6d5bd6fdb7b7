//! The peak picker and the peak selector.
//!
//! The picker scans the NSDF curve left to right and records, for each run
//! that begins at a positive-going zero crossing (a step from a value `<= 0`
//! to a value `> 0`) and ends at the next such crossing or at the end of the
//! curve, the position and value of the largest value in the run (the run's
//! key maximum; ties keep the earliest position).
//!
//! The selector takes the largest candidate value `m` and returns the first
//! candidate, in increasing lag order, whose value is at least
//! `clarity_threshold * m` (thresholds are scaled by `NSDF_SCALE`).

use vstd::prelude::*;

use crate::NSDF_SCALE;

verus! {

/// A periodicity candidate: a lag and the NSDF value at that lag.
#[derive(Clone, Copy, PartialEq, Eq, Structural, Debug)]
pub struct Peak {
    pub position: usize,
    pub value: i64,
}

/// The mathematical image of a [`Peak`].
pub struct PeakM {
    pub position: int,
    pub value: int,
}

impl View for Peak {
    type V = PeakM;

    open spec fn view(&self) -> PeakM {
        PeakM { position: self.position as int, value: self.value as int }
    }
}

/// The images of a sequence of peaks.
pub open spec fn peaks_view(s: Seq<Peak>) -> Seq<PeakM> {
    s.map_values(|p: Peak| p@)
}

/// Append the open run's maximum, if a run is open.
pub open spec fn close_run(run: Option<PeakM>, acc: Seq<PeakM>) -> Seq<PeakM> {
    match run {
        Option::Some(p) => acc.push(p),
        Option::None => acc,
    }
}

/// One left-to-right scan step at index `i`: a positive-going zero crossing
/// closes the open run and starts a new one, and inside a run a strictly
/// larger value displaces the run's maximum.
pub open spec fn key_maxima_rec(curve: Seq<i64>, i: int, run: Option<PeakM>, acc: Seq<PeakM>) -> Seq<
    PeakM,
>
    decreases curve.len() - i,
{
    if i < 1 || i >= curve.len() {
        close_run(run, acc)
    } else if curve[i - 1] <= 0 && curve[i] > 0 {
        key_maxima_rec(
            curve,
            i + 1,
            Option::Some(PeakM { position: i, value: curve[i] as int }),
            close_run(run, acc),
        )
    } else {
        match run {
            Option::Some(p) => if curve[i] as int > p.value {
                key_maxima_rec(
                    curve,
                    i + 1,
                    Option::Some(PeakM { position: i, value: curve[i] as int }),
                    acc,
                )
            } else {
                key_maxima_rec(curve, i + 1, Option::Some(p), acc)
            },
            Option::None => key_maxima_rec(curve, i + 1, Option::None, acc),
        }
    }
}

/// The key maxima of the curve, in increasing lag order.
pub open spec fn key_maxima(curve: Seq<i64>) -> Seq<PeakM> {
    key_maxima_rec(curve, 1, Option::None, Seq::empty())
}

/// What holds of every key maximum: it lies inside the curve at a positive
/// lag, carries the curve's value there, that value is positive, and neither
/// lag neighbor exceeds it.
pub open spec fn peak_wf(curve: Seq<i64>, p: PeakM) -> bool {
    &&& 1 <= p.position < curve.len()
    &&& p.value == curve[p.position] as int
    &&& p.value > 0
    &&& curve[p.position - 1] as int <= p.value
    &&& (p.position + 1 < curve.len() ==> curve[p.position + 1] as int <= p.value)
}

spec fn run_inv(curve: Seq<i64>, i: int, run: Option<PeakM>) -> bool {
    match run {
        Option::Some(p) => {
            &&& 1 <= p.position < i
            &&& p.position < curve.len()
            &&& p.value == curve[p.position] as int
            &&& p.value > 0
            &&& curve[p.position - 1] as int <= p.value
            &&& (p.position + 1 < i ==> curve[p.position + 1] as int <= p.value)
            &&& (i - 1 < curve.len() ==> curve[i - 1] as int <= p.value)
        },
        Option::None => true,
    }
}

proof fn lemma_rec_wf(curve: Seq<i64>, i: int, run: Option<PeakM>, acc: Seq<PeakM>)
    requires
        1 <= i,
        run_inv(curve, i, run),
        forall|k: int| 0 <= k < acc.len() ==> peak_wf(curve, #[trigger] acc[k]),
    ensures
        forall|k: int|
            0 <= k < key_maxima_rec(curve, i, run, acc).len() ==> peak_wf(
                curve,
                #[trigger] key_maxima_rec(curve, i, run, acc)[k],
            ),
    decreases curve.len() - i,
{
    if i >= curve.len() {
        match run {
            Option::Some(p) => {
                assert(peak_wf(curve, p));
                assert forall|k: int|
                    0 <= k < acc.push(p).len() implies peak_wf(
                    curve,
                    #[trigger] acc.push(p)[k],
                ) by {
                    if k < acc.len() {
                        assert(acc.push(p)[k] == acc[k]);
                    } else {
                        assert(acc.push(p)[k] == p);
                    }
                }
            },
            Option::None => {},
        }
    } else if curve[i - 1] <= 0 && curve[i] > 0 {
        let closed = close_run(run, acc);
        match run {
            Option::Some(p) => {
                assert(p.position != i - 1);
                assert(peak_wf(curve, p));
                assert forall|k: int| 0 <= k < closed.len() implies peak_wf(
                    curve,
                    #[trigger] closed[k],
                ) by {
                    if k < acc.len() {
                        assert(closed[k] == acc[k]);
                    } else {
                        assert(closed[k] == p);
                    }
                }
            },
            Option::None => {},
        }
        let started = PeakM { position: i, value: curve[i] as int };
        assert(run_inv(curve, i + 1, Option::Some(started)));
        lemma_rec_wf(curve, i + 1, Option::Some(started), closed);
        assert(key_maxima_rec(curve, i, run, acc) == key_maxima_rec(
            curve,
            i + 1,
            Option::Some(started),
            closed,
        ));
    } else {
        match run {
            Option::Some(p) => {
                if curve[i] as int > p.value {
                    let moved = PeakM { position: i, value: curve[i] as int };
                    assert(run_inv(curve, i + 1, Option::Some(moved)));
                    lemma_rec_wf(curve, i + 1, Option::Some(moved), acc);
                    assert(key_maxima_rec(curve, i, run, acc) == key_maxima_rec(
                        curve,
                        i + 1,
                        Option::Some(moved),
                        acc,
                    ));
                } else {
                    assert(run_inv(curve, i + 1, Option::Some(p)));
                    lemma_rec_wf(curve, i + 1, Option::Some(p), acc);
                    assert(key_maxima_rec(curve, i, run, acc) == key_maxima_rec(
                        curve,
                        i + 1,
                        Option::Some(p),
                        acc,
                    ));
                }
            },
            Option::None => {
                lemma_rec_wf(curve, i + 1, Option::None, acc);
                assert(key_maxima_rec(curve, i, run, acc) == key_maxima_rec(
                    curve,
                    i + 1,
                    Option::None,
                    acc,
                ));
            },
        }
    }
}

/// Every key maximum is well-formed with respect to its curve.
pub proof fn lemma_key_maxima_wf(curve: Seq<i64>)
    ensures
        forall|k: int|
            0 <= k < key_maxima(curve).len() ==> peak_wf(curve, #[trigger] key_maxima(curve)[k]),
{
    lemma_rec_wf(curve, 1, Option::None, Seq::empty());
}

/// Law: the peak picker never returns a peak whose value is `<= 0` --
/// key maxima occur only after positive-going zero crossings.
pub proof fn lemma_key_maxima_positive(curve: Seq<i64>)
    ensures
        forall|k: int|
            0 <= k < key_maxima(curve).len() ==> #[trigger] key_maxima(curve)[k].value > 0,
{
    lemma_key_maxima_wf(curve);
}

proof fn lemma_rec_ordered(curve: Seq<i64>, i: int, run: Option<PeakM>, acc: Seq<PeakM>)
    requires
        1 <= i,
        forall|k: int| 0 <= k < acc.len() ==> #[trigger] acc[k].position < i,
        forall|j: int, k: int| 0 <= j < k < acc.len() ==> acc[j].position < acc[k].position,
        match run {
            Option::Some(p) => p.position < i && forall|k: int|
                0 <= k < acc.len() ==> #[trigger] acc[k].position < p.position,
            Option::None => true,
        },
    ensures
        forall|j: int, k: int|
            0 <= j < k < key_maxima_rec(curve, i, run, acc).len() ==> key_maxima_rec(
                curve,
                i,
                run,
                acc,
            )[j].position < key_maxima_rec(curve, i, run, acc)[k].position,
    decreases curve.len() - i,
{
    if i >= curve.len() {
    } else if curve[i - 1] <= 0 && curve[i] > 0 {
        let closed = close_run(run, acc);
        let started = PeakM { position: i, value: curve[i] as int };
        lemma_rec_ordered(curve, i + 1, Option::Some(started), closed);
        assert(key_maxima_rec(curve, i, run, acc) == key_maxima_rec(
            curve,
            i + 1,
            Option::Some(started),
            closed,
        ));
    } else {
        match run {
            Option::Some(p) => {
                if curve[i] as int > p.value {
                    let moved = PeakM { position: i, value: curve[i] as int };
                    lemma_rec_ordered(curve, i + 1, Option::Some(moved), acc);
                    assert(key_maxima_rec(curve, i, run, acc) == key_maxima_rec(
                        curve,
                        i + 1,
                        Option::Some(moved),
                        acc,
                    ));
                } else {
                    lemma_rec_ordered(curve, i + 1, Option::Some(p), acc);
                    assert(key_maxima_rec(curve, i, run, acc) == key_maxima_rec(
                        curve,
                        i + 1,
                        Option::Some(p),
                        acc,
                    ));
                }
            },
            Option::None => {
                lemma_rec_ordered(curve, i + 1, Option::None, acc);
                assert(key_maxima_rec(curve, i, run, acc) == key_maxima_rec(
                    curve,
                    i + 1,
                    Option::None,
                    acc,
                ));
            },
        }
    }
}

/// The key maxima come in strictly increasing lag order.
pub proof fn lemma_key_maxima_ordered(curve: Seq<i64>)
    ensures
        forall|j: int, k: int|
            0 <= j < k < key_maxima(curve).len() ==> key_maxima(curve)[j].position < key_maxima(
                curve,
            )[k].position,
{
    lemma_rec_ordered(curve, 1, Option::None, Seq::empty());
}

proof fn lemma_rec_no_positive(curve: Seq<i64>, i: int, acc: Seq<PeakM>)
    requires
        1 <= i,
        forall|t: int| 0 <= t < curve.len() ==> #[trigger] curve[t] <= 0,
    ensures
        key_maxima_rec(curve, i, Option::None, acc) == acc,
    decreases curve.len() - i,
{
    if i < curve.len() {
        lemma_rec_no_positive(curve, i + 1, acc);
    }
}

/// A curve that never rises above zero has no key maxima.
pub proof fn lemma_no_positive_no_peaks(curve: Seq<i64>)
    requires
        forall|t: int| 0 <= t < curve.len() ==> #[trigger] curve[t] <= 0,
    ensures
        key_maxima(curve) == Seq::<PeakM>::empty(),
{
    lemma_rec_no_positive(curve, 1, Seq::empty());
}

spec fn opt_peak_view(r: Option<Peak>) -> Option<PeakM> {
    match r {
        Option::Some(p) => Option::Some(p@),
        Option::None => Option::None,
    }
}

proof fn lemma_peaks_view_push(s: Seq<Peak>, p: Peak)
    ensures
        peaks_view(s.push(p)) == peaks_view(s).push(p@),
{
    assert(peaks_view(s.push(p)) =~= peaks_view(s).push(p@));
}

/// Scan the NSDF curve and collect the key maxima, in increasing lag order.
pub fn pick_peaks(curve: &Vec<i64>) -> (peaks: Vec<Peak>)
    ensures
        peaks_view(peaks@) == key_maxima(curve@),
{
    let mut acc: Vec<Peak> = Vec::new();
    let mut run: Option<Peak> = None;
    let mut i: usize = 1;
    proof {
        assert(peaks_view(acc@) =~= Seq::<PeakM>::empty());
    }
    while i < curve.len()
        invariant
            1 <= i,
            i <= curve.len() || i == 1,
            key_maxima_rec(curve@, i as int, opt_peak_view(run), peaks_view(acc@)) == key_maxima(
                curve@,
            ),
            match run {
                Option::Some(p) => p.position < i,
                Option::None => true,
            },
        decreases curve.len() - i,
    {
        let prev = curve[i - 1];
        let cur = curve[i];
        if prev <= 0 && cur > 0 {
            if let Some(p) = run {
                proof {
                    lemma_peaks_view_push(acc@, p);
                }
                acc.push(p);
            }
            run = Some(Peak { position: i, value: cur });
        } else if let Some(p) = run {
            if cur > p.value {
                run = Some(Peak { position: i, value: cur });
            }
        }
        i = i + 1;
    }
    if let Some(p) = run {
        proof {
            lemma_peaks_view_push(acc@, p);
        }
        acc.push(p);
    }
    acc
}

/// The largest candidate value among `peaks[i ..]`.
pub open spec fn max_from(peaks: Seq<PeakM>, i: int) -> int
    decreases peaks.len() - i,
{
    if i + 1 >= peaks.len() {
        peaks[i].value
    } else {
        let m = max_from(peaks, i + 1);
        if peaks[i].value > m {
            peaks[i].value
        } else {
            m
        }
    }
}

/// The largest candidate value.
pub open spec fn max_peak_value(peaks: Seq<PeakM>) -> int {
    max_from(peaks, 0)
}

proof fn lemma_max_from(peaks: Seq<PeakM>, i: int)
    requires
        0 <= i < peaks.len(),
    ensures
        forall|k: int| i <= k < peaks.len() ==> #[trigger] peaks[k].value <= max_from(peaks, i),
        exists|k: int| i <= k < peaks.len() && #[trigger] peaks[k].value == max_from(peaks, i),
    decreases peaks.len() - i,
{
    if i + 1 < peaks.len() {
        lemma_max_from(peaks, i + 1);
        if peaks[i].value > max_from(peaks, i + 1) {
            assert(peaks[i].value == max_from(peaks, i));
        } else {
            let k = choose|k: int|
                i + 1 <= k < peaks.len() && #[trigger] peaks[k].value == max_from(peaks, i + 1);
            assert(peaks[k].value == max_from(peaks, i));
        }
    } else {
        assert(peaks[i].value == max_from(peaks, i));
    }
}

/// The first index at or after `i` whose candidate clears `bound`
/// (compared as `value * NSDF_SCALE >= bound`), or the length if none does.
pub open spec fn first_selected(peaks: Seq<PeakM>, bound: int, i: int) -> int
    decreases peaks.len() - i,
{
    if i >= peaks.len() {
        peaks.len() as int
    } else if peaks[i].value * NSDF_SCALE >= bound {
        i
    } else {
        first_selected(peaks, bound, i + 1)
    }
}

/// The candidate that the selector chooses: the first, in increasing lag
/// order, whose value is at least `cthr * m / NSDF_SCALE` where `m` is the
/// largest candidate value.
pub open spec fn select_model(peaks: Seq<PeakM>, cthr: int) -> PeakM {
    peaks[first_selected(peaks, cthr * max_peak_value(peaks), 0)]
}

proof fn lemma_first_selected_props(peaks: Seq<PeakM>, bound: int, i: int)
    requires
        0 <= i <= peaks.len(),
    ensures
        i <= first_selected(peaks, bound, i) <= peaks.len(),
        forall|j: int|
            i <= j < first_selected(peaks, bound, i) ==> #[trigger] peaks[j].value * NSDF_SCALE
                < bound,
        first_selected(peaks, bound, i) < peaks.len() ==> peaks[first_selected(
            peaks,
            bound,
            i,
        )].value * NSDF_SCALE >= bound,
    decreases peaks.len() - i,
{
    if i < peaks.len() && !(peaks[i].value * NSDF_SCALE >= bound) {
        lemma_first_selected_props(peaks, bound, i + 1);
    }
}

proof fn lemma_first_selected_le_witness(peaks: Seq<PeakM>, bound: int, i: int, k: int)
    requires
        0 <= i <= k < peaks.len(),
        peaks[k].value * NSDF_SCALE >= bound,
    ensures
        first_selected(peaks, bound, i) <= k,
    decreases peaks.len() - i,
{
    if i < k && !(peaks[i].value * NSDF_SCALE >= bound) {
        lemma_first_selected_le_witness(peaks, bound, i + 1, k);
    }
}

/// Select the pitch candidate: the first peak, in increasing lag order,
/// whose value is at least `clarity_threshold * m` (both sides scaled by
/// `NSDF_SCALE`), `m` being the largest candidate value. Such a peak always
/// exists, and no earlier candidate clears the same bound.
pub fn select_peak(peaks: &Vec<Peak>, clarity_threshold: i64) -> (r: Peak)
    requires
        peaks@.len() > 0,
        0 < clarity_threshold <= NSDF_SCALE,
        forall|k: int| 0 <= k < peaks@.len() ==> 0 <= #[trigger] peaks@[k].value <= NSDF_SCALE,
    ensures
        ({
            let pv = peaks_view(peaks@);
            let bound = (clarity_threshold as int) * max_peak_value(pv);
            let idx = first_selected(pv, bound, 0);
            &&& r@ == select_model(pv, clarity_threshold as int)
            &&& 0 <= idx < pv.len()
            &&& r@ == pv[idx]
            &&& r@.value * NSDF_SCALE >= bound
            &&& forall|j: int| 0 <= j < idx ==> #[trigger] pv[j].value * NSDF_SCALE < bound
        }),
{
    let ghost pv = peaks_view(peaks@);
    proof {
        assert(forall|k: int| 0 <= k < pv.len() ==> #[trigger] pv[k] == peaks@[k]@);
    }
    let mut i: usize = peaks.len() - 1;
    let mut m: i64 = peaks[i].value;
    while i > 0
        invariant
            pv == peaks_view(peaks@),
            pv.len() == peaks@.len(),
            forall|k: int| 0 <= k < pv.len() ==> #[trigger] pv[k] == peaks@[k]@,
            forall|k: int| 0 <= k < peaks@.len() ==> 0 <= #[trigger] peaks@[k].value <= NSDF_SCALE,
            0 <= i < peaks@.len(),
            m == max_from(pv, i as int),
            0 <= m <= NSDF_SCALE,
        decreases i,
    {
        i = i - 1;
        let v = peaks[i].value;
        if v > m {
            m = v;
        }
    }
    assert(m == max_peak_value(pv));
    proof {
        assert(0 <= clarity_threshold * m <= 1099511627776) by (nonlinear_arith)
            requires
                0 < clarity_threshold <= 1048576,
                0 <= m <= 1048576,
        ;
    }
    let bound: i64 = clarity_threshold * m;
    proof {
        lemma_max_from(pv, 0);
        let k0 = choose|k: int|
            0 <= k < pv.len() && #[trigger] pv[k].value == max_peak_value(pv);
        assert(m * NSDF_SCALE >= clarity_threshold * m) by (nonlinear_arith)
            requires
                0 <= m,
                clarity_threshold <= NSDF_SCALE,
        ;
        lemma_first_selected_le_witness(pv, bound as int, 0, k0);
        lemma_first_selected_props(pv, bound as int, 0);
    }
    let mut j: usize = 0;
    while j < peaks.len()
        invariant
            pv == peaks_view(peaks@),
            pv.len() == peaks@.len(),
            forall|k: int| 0 <= k < pv.len() ==> #[trigger] pv[k] == peaks@[k]@,
            forall|k: int| 0 <= k < peaks@.len() ==> 0 <= #[trigger] peaks@[k].value <= NSDF_SCALE,
            0 <= j <= peaks@.len(),
            bound == clarity_threshold * max_peak_value(pv),
            first_selected(pv, bound as int, 0) == first_selected(pv, bound as int, j as int),
            first_selected(pv, bound as int, 0) < pv.len(),
        decreases peaks@.len() - j,
    {
        let p = peaks[j];
        if p.value * NSDF_SCALE >= bound {
            proof {
                lemma_first_selected_props(pv, bound as int, 0);
            }
            return p;
        }
        j = j + 1;
    }
    proof {
        assert(false);
    }
    peaks[0]
}

} // verus!
