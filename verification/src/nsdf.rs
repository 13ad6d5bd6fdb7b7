//! The NSDF computer: the normalized square difference function over lags.
//!
//! For a window `x` of length `N` and a lag `tau < N`,
//! `NSDF(tau) = 2 * sum x[j]*x[j+tau] / sum (x[j]^2 + x[j+tau]^2)`
//! with `j` ranging over `0 .. N - tau`; a zero denominator (and any lag
//! with no sample overlap) gives `0`. Values are stored scaled by
//! `NSDF_SCALE`, with the quotient rounded toward zero.

use vstd::arithmetic::div_mod::{lemma_div_by_multiple, lemma_div_is_ordered, lemma_div_pos_is_pos};
use vstd::prelude::*;

use crate::{AMP_MAX, MAX_LAGS, NSDF_SCALE};

verus! {

/// Sum of the cross products `s[j] * s[j + tau]` for `j` in `0 .. k`.
pub open spec fn corr_to(s: Seq<i64>, tau: int, k: int) -> int
    decreases k,
{
    if k <= 0 {
        0
    } else {
        corr_to(s, tau, k - 1) + s[k - 1] * s[k - 1 + tau]
    }
}

/// Sum of the squared magnitudes `s[j]^2 + s[j + tau]^2` for `j` in `0 .. k`.
pub open spec fn sq_to(s: Seq<i64>, tau: int, k: int) -> int
    decreases k,
{
    if k <= 0 {
        0
    } else {
        sq_to(s, tau, k - 1) + s[k - 1] * s[k - 1] + s[k - 1 + tau] * s[k - 1 + tau]
    }
}

/// Number of sample pairs that a lag of `tau` leaves inside the window.
pub open spec fn overlap(s: Seq<i64>, tau: int) -> int {
    if 0 <= tau && tau <= s.len() {
        s.len() - tau
    } else {
        0
    }
}

/// The NSDF value at lag `tau`, scaled by `NSDF_SCALE` and rounded toward
/// zero; `0` where the denominator vanishes.
pub open spec fn nsdf_val(s: Seq<i64>, tau: int) -> int {
    let m = overlap(s, tau);
    let d = sq_to(s, tau, m);
    if d == 0 {
        0
    } else {
        let a = 2 * corr_to(s, tau, m);
        if a >= 0 {
            (a * NSDF_SCALE) / d
        } else {
            -((-a * NSDF_SCALE) / d)
        }
    }
}

/// The full NSDF curve over lags `0 .. n_lags`.
pub open spec fn nsdf_curve_model(s: Seq<i64>, n_lags: int) -> Seq<i64> {
    Seq::new(n_lags as nat, |t: int| nsdf_val(s, t) as i64)
}

/// Every sample magnitude stays within `AMP_MAX`.
pub open spec fn samples_bounded(s: Seq<i64>) -> bool {
    forall|j: int| 0 <= j < s.len() ==> -AMP_MAX <= #[trigger] s[j] <= AMP_MAX
}

/// The window holds only zero samples.
pub open spec fn is_silent(s: Seq<i64>) -> bool {
    forall|j: int| 0 <= j < s.len() ==> #[trigger] s[j] == 0
}

/// Total signal energy: the sum of `s[j]^2` for `j` in `0 .. k`.
pub open spec fn power_sum(s: Seq<i64>, k: int) -> int
    decreases k,
{
    if k <= 0 {
        0
    } else {
        power_sum(s, k - 1) + s[k - 1] * s[k - 1]
    }
}

proof fn lemma_term_bounds(a: int, b: int)
    by (nonlinear_arith)
    requires
        -16777216 <= a <= 16777216,
        -16777216 <= b <= 16777216,
    ensures
        -281474976710656 <= a * b <= 281474976710656,
        0 <= a * a <= 281474976710656,
        0 <= b * b <= 281474976710656,
        0 <= a * a + b * b <= 562949953421312,
        2 * (a * b) <= a * a + b * b,
        -(a * a + b * b) <= 2 * (a * b),
        0 <= a * a,
{
}

proof fn lemma_sq_sign(a: int)
    by (nonlinear_arith)
    ensures
        a * a >= 0,
        a != 0 ==> a * a > 0,
{
}

/// The NSDF value at one lag, by direct summation.
pub fn nsdf_lag(window: &[i64], tau: usize) -> (v: i64)
    requires
        window@.len() <= MAX_LAGS,
        samples_bounded(window@),
    ensures
        v == nsdf_val(window@, tau as int),
        -NSDF_SCALE <= v <= NSDF_SCALE,
{
    let n = window.len();
    let m: usize = if tau < n {
        n - tau
    } else {
        0
    };
    assert(m == overlap(window@, tau as int));
    let mut acc: i128 = 0;
    let mut dacc: i128 = 0;
    let mut j: usize = 0;
    while j < m
        invariant
            m == overlap(window@, tau as int),
            m == 0 || m + tau <= window@.len(),
            window@.len() <= MAX_LAGS,
            samples_bounded(window@),
            n == window@.len(),
            m <= n,
            0 <= j <= m,
            acc == corr_to(window@, tau as int, j as int),
            dacc == sq_to(window@, tau as int, j as int),
            -(j as int) * 281474976710656 <= acc <= (j as int) * 281474976710656,
            0 <= dacc <= (j as int) * 562949953421312,
            2 * acc <= dacc,
            -dacc <= 2 * acc,
        decreases m - j,
    {
        let a = window[j];
        let b = window[j + tau];
        proof {
            lemma_term_bounds(a as int, b as int);
        }
        acc = acc + (a as i128) * (b as i128);
        dacc = dacc + (a as i128) * (a as i128) + (b as i128) * (b as i128);
        j = j + 1;
    }
    if dacc == 0 {
        assert(nsdf_val(window@, tau as int) == 0);
        return 0;
    }
    let a2: i128 = 2 * acc;
    if a2 >= 0 {
        let num: u128 = (a2 as u128) * (NSDF_SCALE as u128);
        let q: u128 = num / (dacc as u128);
        proof {
            lemma_div_is_ordered(a2 as int * NSDF_SCALE, dacc as int * NSDF_SCALE, dacc as int);
            lemma_div_by_multiple(NSDF_SCALE as int, dacc as int);
            lemma_div_pos_is_pos(a2 as int * NSDF_SCALE, dacc as int);
        }
        q as i64
    } else {
        let mag: i128 = -a2;
        let num: u128 = (mag as u128) * (NSDF_SCALE as u128);
        let q: u128 = num / (dacc as u128);
        proof {
            lemma_div_is_ordered(mag as int * NSDF_SCALE, dacc as int * NSDF_SCALE, dacc as int);
            lemma_div_by_multiple(NSDF_SCALE as int, dacc as int);
            lemma_div_pos_is_pos(mag as int * NSDF_SCALE, dacc as int);
        }
        -(q as i64)
    }
}

/// Recompute the NSDF curve over lags `0 .. n_lags` into `out`,
/// overwriting whatever the buffer held.
pub fn compute_nsdf(window: &[i64], n_lags: usize, out: &mut Vec<i64>)
    requires
        window@.len() <= MAX_LAGS,
        samples_bounded(window@),
    ensures
        final(out)@ == nsdf_curve_model(window@, n_lags as int),
        final(out)@.len() == n_lags,
        forall|t: int| 0 <= t < n_lags ==> -NSDF_SCALE <= #[trigger] final(out)@[t] <= NSDF_SCALE,
{
    out.clear();
    let mut tau: usize = 0;
    while tau < n_lags
        invariant
            window@.len() <= MAX_LAGS,
            samples_bounded(window@),
            tau <= n_lags,
            out@.len() == tau,
            forall|t: int| 0 <= t < tau ==> #[trigger] out@[t] == nsdf_val(window@, t) as i64,
            forall|t: int| 0 <= t < tau ==> -NSDF_SCALE <= #[trigger] out@[t] <= NSDF_SCALE,
        decreases n_lags - tau,
    {
        let v = nsdf_lag(window, tau);
        out.push(v);
        tau = tau + 1;
    }
    proof {
        assert(out@ =~= nsdf_curve_model(window@, n_lags as int));
    }
}

/// Total signal energy of the window, the sum of the squared samples.
pub fn window_power(window: &[i64]) -> (p: i128)
    requires
        window@.len() <= MAX_LAGS,
        samples_bounded(window@),
    ensures
        p == power_sum(window@, window@.len() as int),
        0 <= p <= (window@.len() as int) * 281474976710656,
{
    let n = window.len();
    let mut acc: i128 = 0;
    let mut j: usize = 0;
    while j < n
        invariant
            window@.len() <= MAX_LAGS,
            samples_bounded(window@),
            n == window@.len(),
            0 <= j <= n,
            acc == power_sum(window@, j as int),
            0 <= acc <= (j as int) * 281474976710656,
        decreases n - j,
    {
        let a = window[j];
        proof {
            lemma_term_bounds(a as int, a as int);
        }
        acc = acc + (a as i128) * (a as i128);
        j = j + 1;
    }
    acc
}

proof fn lemma_zero_lag_sums(s: Seq<i64>, k: int)
    ensures
        sq_to(s, 0, k) == 2 * corr_to(s, 0, k),
        corr_to(s, 0, k) >= 0,
    decreases k,
{
    if k > 0 {
        lemma_zero_lag_sums(s, k - 1);
        lemma_sq_sign(s[k - 1] as int);
    }
}

proof fn lemma_zero_lag_sum_pos(s: Seq<i64>, k: int, j: int)
    requires
        0 <= j < k,
        s[j] != 0,
    ensures
        corr_to(s, 0, k) > 0,
    decreases k,
{
    lemma_zero_lag_sums(s, k - 1);
    lemma_sq_sign(s[k - 1] as int);
    if j < k - 1 {
        lemma_zero_lag_sum_pos(s, k - 1, j);
    }
}

/// Law: the NSDF curve of a non-silent window is exactly `1.0`
/// (that is, `NSDF_SCALE`) at lag zero.
pub proof fn lemma_nsdf_zero_lag(s: Seq<i64>)
    requires
        !is_silent(s),
    ensures
        nsdf_val(s, 0) == NSDF_SCALE,
{
    let j = choose|j: int| 0 <= j < s.len() && #[trigger] s[j] != 0;
    let m = overlap(s, 0);
    lemma_zero_lag_sums(s, m);
    lemma_zero_lag_sum_pos(s, m, j);
    let c = corr_to(s, 0, m);
    let d = sq_to(s, 0, m);
    assert(d == 2 * c && d > 0);
    lemma_div_by_multiple(NSDF_SCALE as int, d);
    assert(2 * c * NSDF_SCALE == NSDF_SCALE * d);
}

proof fn lemma_silent_sums(s: Seq<i64>, tau: int, k: int)
    requires
        is_silent(s),
        0 <= tau,
        k <= overlap(s, tau),
    ensures
        corr_to(s, tau, k) == 0,
        sq_to(s, tau, k) == 0,
    decreases k,
{
    if k > 0 {
        lemma_silent_sums(s, tau, k - 1);
        assert(s[k - 1] == 0);
        assert(s[k - 1 + tau] == 0);
    }
}

/// The NSDF curve of an all-zero window is zero at every lag.
pub proof fn lemma_silent_nsdf(s: Seq<i64>, tau: int)
    requires
        is_silent(s),
    ensures
        nsdf_val(s, tau) == 0,
{
    let m = overlap(s, tau);
    if 0 <= tau {
        lemma_silent_sums(s, tau, m);
    } else {
        assert(m == 0);
    }
}

} // verus!
