//! Trailing-window reductions: sums, means, deviations, weights and extremes.
use std::collections::VecDeque;
use vstd::prelude::*;
use vstd::arithmetic::div_mod::{lemma_fundamental_div_mod, lemma_fundamental_div_mod_converse};
use crate::series::{Series, abs, cell, fits, trunc_div, div_toward_zero, to_cell};

verus! {

/// How the first positions, before a whole window has been seen, are treated.
#[derive(Clone, Copy, Debug, PartialEq, Eq, Structural)]
pub enum WindowMode {
    /// The window holds the positions that are available.
    Partial,
    /// The result stays missing until `period` positions have been seen.
    Full,
}

/// Errors in the parameters of a computation.
#[derive(Clone, Copy, Debug, PartialEq, Eq, Structural)]
pub enum SeriesError {
    /// A window of period zero.
    ZeroPeriod,
    /// A weight vector whose length is not the period.
    WeightLength,
}

impl SeriesError {
    /// A description of the error.
    pub fn message(&self) -> &'static str {
        match self {
            SeriesError::ZeroPeriod => "the period of a window must be at least one",
            SeriesError::WeightLength => "the weight vector must have one weight per position of the window",
        }
    }
}

/// A trailing window of `period` positions.
#[derive(Clone, Copy, Debug, PartialEq, Eq, Structural)]
pub struct Window {
    pub period: usize,
    pub mode: WindowMode,
}

impl Window {
    pub open spec fn wf(&self) -> bool {
        self.period >= 1
    }

    /// A window; a period of zero is refused.
    pub fn new(period: usize, mode: WindowMode) -> (r: Result<Window, SeriesError>)
        ensures
            period == 0 ==> r == Err::<Window, SeriesError>(SeriesError::ZeroPeriod),
            period != 0 ==> r == Ok::<Window, SeriesError>(Window { period, mode }),
    {
        if period == 0 {
            Err(SeriesError::ZeroPeriod)
        } else {
            Ok(Window { period, mode })
        }
    }
}

/// The first position of the window of `p` positions that ends at `i`.
pub open spec fn window_start(i: int, p: int) -> int {
    if i + 1 >= p { i + 1 - p } else { 0 }
}

/// The value of a cell, zero where it is missing.
pub open spec fn value_or_zero(c: Option<i64>) -> int {
    match c {
        Some(x) => x as int,
        None => 0,
    }
}

/// The sum of the present values in `s[lo..hi]`.
pub open spec fn present_sum(s: Seq<Option<i64>>, lo: int, hi: int) -> int
    decreases hi - lo,
{
    if hi <= lo { 0 } else { present_sum(s, lo, hi - 1) + value_or_zero(s[hi - 1]) }
}

/// The number of present values in `s[lo..hi]`.
pub open spec fn present_count(s: Seq<Option<i64>>, lo: int, hi: int) -> int
    decreases hi - lo,
{
    if hi <= lo {
        0
    } else {
        present_count(s, lo, hi - 1) + if s[hi - 1].is_some() { 1int } else { 0int }
    }
}

/// Whether position `i` comes before the first whole window in `Full` mode.
pub open spec fn too_early(w: Window, i: int) -> bool {
    w.mode == WindowMode::Full && i + 1 < w.period
}

/// The rolling sum at `i`: missing when too early or when the whole window is missing.
pub open spec fn window_sum(s: Seq<Option<i64>>, w: Window, i: int) -> Option<i64> {
    let lo = window_start(i, w.period as int);
    if too_early(w, i) || present_count(s, lo, i + 1) == 0 {
        None
    } else {
        cell(present_sum(s, lo, i + 1))
    }
}

/// The rolling mean at `i`, over the present values of the window, rounded toward zero.
pub open spec fn window_mean(s: Seq<Option<i64>>, w: Window, i: int) -> Option<i64> {
    let lo = window_start(i, w.period as int);
    if too_early(w, i) || present_count(s, lo, i + 1) == 0 {
        None
    } else {
        cell(trunc_div(present_sum(s, lo, i + 1), present_count(s, lo, i + 1)))
    }
}

proof fn lemma_present_front(s: Seq<Option<i64>>, lo: int, hi: int)
    requires
        lo < hi,
    ensures
        present_sum(s, lo, hi) == value_or_zero(s[lo]) + present_sum(s, lo + 1, hi),
        present_count(s, lo, hi) == (if s[lo].is_some() { 1int } else { 0int }) + present_count(
            s,
            lo + 1,
            hi,
        ),
    decreases hi - lo,
{
    if lo + 1 < hi {
        lemma_present_front(s, lo, hi - 1);
        assert(present_sum(s, lo + 1, hi) == present_sum(s, lo + 1, hi - 1) + value_or_zero(
            s[hi - 1],
        ));
    } else {
        assert(present_sum(s, lo, lo) == 0);
        assert(present_count(s, lo, lo) == 0);
        assert(present_sum(s, lo + 1, hi) == 0);
        assert(present_count(s, lo + 1, hi) == 0);
    }
}

proof fn lemma_present_bounds(s: Seq<Option<i64>>, lo: int, hi: int)
    requires
        lo <= hi,
    ensures
        0 <= present_count(s, lo, hi) <= hi - lo,
        present_count(s, lo, hi) * (i64::MIN as int) <= present_sum(s, lo, hi)
            <= present_count(s, lo, hi) * (i64::MAX as int),
    decreases hi - lo,
{
    if lo < hi {
        lemma_present_bounds(s, lo, hi - 1);
        let c = present_count(s, lo, hi - 1);
        assert((c + 1) * (i64::MIN as int) == c * (i64::MIN as int) + (i64::MIN as int))
            by (nonlinear_arith);
        assert((c + 1) * (i64::MAX as int) == c * (i64::MAX as int) + (i64::MAX as int))
            by (nonlinear_arith);
    }
}

proof fn lemma_sum_fits_i128(s: Seq<Option<i64>>, lo: int, hi: int)
    requires
        0 <= lo <= hi <= usize::MAX,
    ensures
        i128::MIN < present_sum(s, lo, hi) <= i128::MAX,
{
    lemma_present_bounds(s, lo, hi);
    let c = present_count(s, lo, hi);
    let t = present_sum(s, lo, hi);
    assert(i128::MIN < t <= i128::MAX) by (nonlinear_arith)
        requires
            0 <= c <= 0xffff_ffff_ffff_ffff,
            c * (i64::MIN as int) <= t <= c * (i64::MAX as int),
    ;
}

/// `s` holds, at each position `k`, the present value `a + k * d`.
pub open spec fn is_arithmetic(s: Seq<Option<i64>>, a: int, d: int) -> bool {
    forall|k: int| 0 <= k < s.len() ==> #[trigger] s[k] == Some((a + k * d) as i64) && fits(
        a + k * d,
    )
}

proof fn lemma_arithmetic_sum(s: Seq<Option<i64>>, a: int, d: int, lo: int, hi: int)
    requires
        is_arithmetic(s, a, d),
        0 <= lo <= hi <= s.len(),
    ensures
        2 * present_sum(s, lo, hi) == (hi - lo) * (2 * a + (lo + hi - 1) * d),
        present_count(s, lo, hi) == hi - lo,
    decreases hi - lo,
{
    if lo < hi {
        lemma_arithmetic_sum(s, a, d, lo, hi - 1);
        assert(s[hi - 1] == Some((a + (hi - 1) * d) as i64));
        assert(value_or_zero(s[hi - 1]) == a + (hi - 1) * d);
        let t = present_sum(s, lo, hi - 1);
        assert(2 * (t + (a + (hi - 1) * d)) == (hi - lo) * (2 * a + (lo + hi - 1) * d))
            by (nonlinear_arith)
            requires
                2 * t == (hi - 1 - lo) * (2 * a + (lo + hi - 2) * d),
        ;
        assert(present_sum(s, lo, hi) == t + (a + (hi - 1) * d));
    } else {
        assert((hi - lo) * (2 * a + (lo + hi - 1) * d) == 0) by (nonlinear_arith)
            requires
                hi == lo,
        ;
    }
}

proof fn lemma_half_of_product(t: int, n: int, f: int)
    requires
        n >= 1,
        2 * t == n * f,
    ensures
        trunc_div(t, n) == trunc_div(f, 2),
{
    let q = abs(f) / 2;
    let r = abs(f) % 2;
    lemma_fundamental_div_mod(abs(f), 2);
    assert(2 * abs(t) == n * abs(f)) by (nonlinear_arith)
        requires
            2 * t == n * f,
            n >= 1,
    ;
    if r == 0 {
        assert(abs(t) == q * n) by (nonlinear_arith)
            requires
                2 * abs(t) == n * abs(f),
                abs(f) == 2 * q,
        ;
        lemma_fundamental_div_mod_converse(abs(t), n, q, 0);
    } else {
        let m = abs(t) - q * n;
        assert(2 * m == n) by (nonlinear_arith)
            requires
                2 * abs(t) == n * abs(f),
                abs(f) == 2 * q + 1,
                m == abs(t) - q * n,
        ;
        lemma_fundamental_div_mod_converse(abs(t), n, q, m);
    }
    assert((t < 0) == (f < 0)) by (nonlinear_arith)
        requires
            2 * t == n * f,
            n >= 1,
    ;
}

/// Over a sequence `a + k * d` with `d > 0`, the rolling mean of every whole
/// window is the mean of the window's first and last values.
pub proof fn lemma_mean_of_arithmetic(s: Seq<Option<i64>>, a: int, d: int, w: Window, i: int)
    requires
        w.wf(),
        d > 0,
        is_arithmetic(s, a, d),
        w.period - 1 <= i < s.len(),
    ensures
        window_mean(s, w, i) == cell(
            trunc_div((a + (i + 1 - w.period) * d) + (a + i * d), 2),
        ),
{
    let p = w.period as int;
    let lo = i + 1 - p;
    assert(window_start(i, p) == lo);
    lemma_arithmetic_sum(s, a, d, lo, i + 1);
    let f = (a + lo * d) + (a + i * d);
    assert(2 * a + (lo + i) * d == f) by (nonlinear_arith)
        requires
            f == (a + lo * d) + (a + i * d),
    ;
    lemma_half_of_product(present_sum(s, lo, i + 1), p, f);
}

/// `x` is at least `y` when looking for a maximum, at most `y` for a minimum.
pub open spec fn beats(x: int, y: int, max: bool) -> bool {
    if max { x >= y } else { x <= y }
}

/// Some value of `s[lo..hi]` is present.
pub open spec fn has_present(s: Seq<Option<i64>>, lo: int, hi: int) -> bool {
    exists|j: int| lo <= j < hi && #[trigger] s[j].is_some()
}

/// `m` is one of the present values of `s[lo..hi]` and beats all of them.
pub open spec fn is_window_extreme(s: Seq<Option<i64>>, lo: int, hi: int, m: i64, max: bool) -> bool {
    &&& exists|j: int| lo <= j < hi && #[trigger] s[j] == Some(m)
    &&& forall|j: int|
        lo <= j < hi && #[trigger] s[j].is_some() ==> beats(m as int, s[j].unwrap() as int, max)
}

/// The value at `j`, which is present.
pub open spec fn present_value(s: Seq<Option<i64>>, j: int) -> int {
    s[j].unwrap() as int
}

/// `x` is strictly larger than `y` for a maximum, strictly smaller for a minimum.
pub open spec fn strictly_beats(x: int, y: int, max: bool) -> bool {
    if max { x > y } else { x < y }
}

/// The deque holds increasing indices of present values in `[lo, hi)`, whose
/// values strictly decrease (for a maximum) or increase (for a minimum).
pub open spec fn deque_ok(s: Seq<Option<i64>>, dq: Seq<usize>, lo: int, hi: int, max: bool) -> bool {
    &&& forall|k: int| 0 <= k < dq.len() ==> lo <= #[trigger] dq[k] < hi && s[dq[k] as int].is_some()
    &&& forall|a: int, b: int|
        0 <= a < b < dq.len() ==> #[trigger] dq[a] < #[trigger] dq[b] && strictly_beats(
            present_value(s, dq[a] as int),
            present_value(s, dq[b] as int),
            max,
        )
}

/// Some index of the deque, at or after `j`, has a value that beats the value at `j`.
pub open spec fn dominated(s: Seq<Option<i64>>, dq: Seq<usize>, j: int, max: bool) -> bool {
    exists|k: int|
        0 <= k < dq.len() && j <= #[trigger] dq[k] && beats(
            present_value(s, dq[k] as int),
            present_value(s, j),
            max,
        )
}

/// What a windowed maximum (or minimum) holds at `i`: missing when too early or
/// when no value of the window is present, else the extreme of its present values.
pub open spec fn extreme_at(s: Seq<Option<i64>>, w: Window, i: int, r: Option<i64>, max: bool) -> bool {
    let lo = window_start(i, w.period as int);
    &&& r.is_some() <==> !too_early(w, i) && has_present(s, lo, i + 1)
    &&& r matches Some(m) ==> is_window_extreme(s, lo, i + 1, m, max)
}

/// The sum of `|v - m|` over the present values `v` of `s[lo..hi]`.
pub open spec fn dev_sum(s: Seq<Option<i64>>, lo: int, hi: int, m: int) -> int
    decreases hi - lo,
{
    if hi <= lo {
        0
    } else {
        dev_sum(s, lo, hi - 1, m) + match s[hi - 1] {
            Some(x) => abs(x - m),
            None => 0,
        }
    }
}

/// The mean absolute deviation at `i`: the mean, rounded down, of the distances
/// of the window's present values from the window's mean.
pub open spec fn window_md(s: Seq<Option<i64>>, w: Window, i: int) -> Option<i64> {
    let lo = window_start(i, w.period as int);
    match window_mean(s, w, i) {
        Some(m) => cell(dev_sum(s, lo, i + 1, m as int) / present_count(s, lo, i + 1)),
        None => None,
    }
}

/// The sum of `wts[j] * s[start + j]` for `j < k`, missing values counted as zero.
pub open spec fn dot(s: Seq<Option<i64>>, wts: Seq<i64>, start: int, k: int) -> int
    decreases k,
{
    if k <= 0 {
        0
    } else {
        dot(s, wts, start, k - 1) + wts[k - 1] * value_or_zero(s[start + k - 1])
    }
}

/// The sum of the first `k` weights.
pub open spec fn weight_total(wts: Seq<i64>, k: int) -> int
    decreases k,
{
    if k <= 0 { 0 } else { weight_total(wts, k - 1) + wts[k - 1] }
}

/// Every value of `s[lo..hi]` is present.
pub open spec fn all_present(s: Seq<Option<i64>>, lo: int, hi: int) -> bool {
    forall|j: int| lo <= j < hi ==> #[trigger] s[j].is_some()
}

/// Whether an integer lies in the symmetric 128-bit range.
pub open spec fn fits128(x: int) -> bool {
    -(i128::MAX as int) <= x <= i128::MAX
}

/// Every partial sum of the weighted window fits in 128 bits.
pub open spec fn dot_fits(s: Seq<Option<i64>>, wts: Seq<i64>, start: int, k: int) -> bool {
    forall|j: int| 0 <= j <= k ==> fits128(#[trigger] dot(s, wts, start, j))
}

/// The weighted mean at `i`, oldest value first, rounded toward zero: missing
/// before the first whole window, where a value of the window is missing,
/// where a partial sum leaves the 128-bit range, or where the weights sum to zero.
pub open spec fn weighted_at(s: Seq<Option<i64>>, wts: Seq<i64>, i: int) -> Option<i64> {
    let p = wts.len() as int;
    let lo = i + 1 - p;
    if i + 1 < p || !all_present(s, lo, i + 1) || !dot_fits(s, wts, lo, p) || weight_total(
        wts,
        p,
    ) == 0 {
        None
    } else {
        cell(trunc_div(dot(s, wts, lo, p), weight_total(wts, p)))
    }
}

proof fn lemma_weight_total_bounds(wts: Seq<i64>, k: int)
    requires
        0 <= k <= wts.len(),
    ensures
        k * (i64::MIN as int) <= weight_total(wts, k) <= k * (i64::MAX as int),
    decreases k,
{
    if k > 0 {
        lemma_weight_total_bounds(wts, k - 1);
        assert(k * (i64::MIN as int) == (k - 1) * (i64::MIN as int) + (i64::MIN as int))
            by (nonlinear_arith);
        assert(k * (i64::MAX as int) == (k - 1) * (i64::MAX as int) + (i64::MAX as int))
            by (nonlinear_arith);
    }
}

impl Series {
    /// Appends `i` to the deque, after dropping from its back every index whose
    /// value the value at `i` beats or equals.
    fn push_candidate(&self, dq: &mut VecDeque<usize>, i: usize, lo: Ghost<int>, max: bool)
        requires
            i < self@.len(),
            self@[i as int].is_some(),
            0 <= lo@ <= i,
            deque_ok(self@, old(dq)@, lo@, i as int, max),
        ensures
            deque_ok(self@, final(dq)@, lo@, i + 1, max),
            forall|j: int|
                lo@ <= j <= i && self@[j].is_some() && (j == i || dominated(self@, old(dq)@, j, max))
                    ==> #[trigger] dominated(self@, final(dq)@, j, max),
    {
        let x: i64 = match self.cells[i] {
            Some(v) => v,
            None => 0,
        };
        let ghost start = dq@;
        loop
            invariant
                i < self@.len(),
                self@[i as int] == Some(x),
                deque_ok(self@, dq@, lo@, i as int, max),
                forall|j: int|
                    lo@ <= j < i && self@[j].is_some() && dominated(self@, start, j, max) ==> (
                    #[trigger] dominated(self@, dq@, j, max) || beats(
                        x as int,
                        present_value(self@, j),
                        max,
                    )),
            ensures
                deque_ok(self@, dq@, lo@, i as int, max),
                forall|j: int|
                    lo@ <= j < i && self@[j].is_some() && dominated(self@, start, j, max) ==> (
                    #[trigger] dominated(self@, dq@, j, max) || beats(
                        x as int,
                        present_value(self@, j),
                        max,
                    )),
                dq@.len() > 0 ==> strictly_beats(
                    present_value(self@, dq@[dq@.len() - 1] as int),
                    x as int,
                    max,
                ),
            decreases dq@.len(),
        {
            if dq.len() == 0 {
                break;
            }
            let b = dq[dq.len() - 1];
            assert(b == dq@[dq@.len() - 1]);
            assert(b < i);
            let vb: i64 = match self.cells[b] {
                Some(v) => v,
                None => x,
            };
            if (max && vb > x) || (!max && vb < x) {
                break;
            }
            let ghost before = dq@;
            dq.pop_back();
            proof {
                assert forall|j: int|
                    lo@ <= j < i && self@[j].is_some() && dominated(self@, start, j, max) implies (
                    #[trigger] dominated(self@, dq@, j, max) || beats(
                        x as int,
                        present_value(self@, j),
                        max,
                    )) by {
                    if dominated(self@, before, j, max) {
                        let k = choose|k: int|
                            0 <= k < before.len() && j <= #[trigger] before[k] && beats(
                                present_value(self@, before[k] as int),
                                present_value(self@, j),
                                max,
                            );
                        if k < dq@.len() {
                            assert(dq@[k] == before[k]);
                        }
                    }
                }
            }
        }
        let ghost popped = dq@;
        dq.push_back(i);
        proof {
            let n = popped.len() as int;
            assert(dq@[n] == i);
            assert forall|a: int, b: int| 0 <= a < b < dq@.len() implies #[trigger] dq@[a]
                < #[trigger] dq@[b] && strictly_beats(
                present_value(self@, dq@[a] as int),
                present_value(self@, dq@[b] as int),
                max,
            ) by {
                if b == n {
                    assert(dq@[a] == popped[a]);
                    if a < n - 1 {
                        assert(popped[a] < popped[n - 1]);
                    }
                } else {
                    assert(dq@[a] == popped[a] && dq@[b] == popped[b]);
                }
            }
            assert forall|k: int| 0 <= k < dq@.len() implies lo@ <= #[trigger] dq@[k] < i + 1
                && self@[dq@[k] as int].is_some() by {
                if k < n {
                    assert(dq@[k] == popped[k]);
                }
            }
            assert forall|j: int|
                lo@ <= j <= i && self@[j].is_some() && (j == i || dominated(self@, start, j, max))
                    implies #[trigger] dominated(self@, dq@, j, max) by {
                if j < i && dominated(self@, popped, j, max) {
                    let k = choose|k: int|
                        0 <= k < popped.len() && j <= #[trigger] popped[k] && beats(
                            present_value(self@, popped[k] as int),
                            present_value(self@, j),
                            max,
                        );
                    assert(dq@[k] == popped[k]);
                } else {
                    assert(j <= dq@[n]);
                }
            }
        }
    }

    /// Drops from the front of the deque the indices before `lo`.
    fn drop_expired(&self, dq: &mut VecDeque<usize>, lo: usize, from: Ghost<int>, hi: Ghost<int>, max: bool)
        requires
            from@ <= lo,
            deque_ok(self@, old(dq)@, from@, hi@, max),
        ensures
            deque_ok(self@, final(dq)@, lo as int, hi@, max),
            forall|j: int|
                lo <= j && dominated(self@, old(dq)@, j, max) ==> #[trigger] dominated(
                    self@,
                    final(dq)@,
                    j,
                    max,
                ),
    {
        let ghost start = dq@;
        loop
            invariant
                deque_ok(self@, dq@, from@, hi@, max),
                forall|j: int|
                    lo <= j && dominated(self@, start, j, max) ==> #[trigger] dominated(
                        self@,
                        dq@,
                        j,
                        max,
                    ),
            ensures
                deque_ok(self@, dq@, from@, hi@, max),
                forall|j: int|
                    lo <= j && dominated(self@, start, j, max) ==> #[trigger] dominated(
                        self@,
                        dq@,
                        j,
                        max,
                    ),
                dq@.len() > 0 ==> dq@[0] >= lo,
            decreases dq@.len(),
        {
            if dq.len() == 0 {
                break;
            }
            if dq[0] >= lo {
                break;
            }
            let ghost before = dq@;
            assert(before[0] < lo);
            dq.pop_front();
            assert(dq@ =~= before.subrange(1, before.len() as int));
            proof {
                assert forall|j: int|
                    lo <= j && dominated(self@, start, j, max) implies #[trigger] dominated(
                        self@,
                        dq@,
                        j,
                        max,
                    ) by {
                    assert(dominated(self@, before, j, max));
                    let k = choose|k: int|
                        0 <= k < before.len() && j <= #[trigger] before[k] && beats(
                            present_value(self@, before[k] as int),
                            present_value(self@, j),
                            max,
                        );
                    assert(before[0] < lo);
                    assert(k != 0);
                    assert(dq@[k - 1] == before[k]);
                }
                assert forall|a: int, b: int| 0 <= a < b < dq@.len() implies #[trigger] dq@[a]
                    < #[trigger] dq@[b] && strictly_beats(
                    present_value(self@, dq@[a] as int),
                    present_value(self@, dq@[b] as int),
                    max,
                ) by {
                    assert(dq@[a] == before[a + 1] && dq@[b] == before[b + 1]);
                }
                assert forall|k: int| 0 <= k < dq@.len() implies from@ <= #[trigger] dq@[k] < hi@
                    && self@[dq@[k] as int].is_some() by {
                    assert(dq@[k] == before[k + 1]);
                }
            }
        }
        proof {
            assert forall|k: int| 0 <= k < dq@.len() implies lo <= #[trigger] dq@[k] < hi@
                && self@[dq@[k] as int].is_some() by {
                if k > 0 {
                    assert(dq@[0] < dq@[k]);
                }
            }
        }
    }

    /// The extremes of the windows in one pass, with a deque of the indices
    /// whose values can still become the extreme of a later window.
    fn rolling_extreme(&self, w: Window, max: bool) -> (r: Series)
        requires
            w.wf(),
        ensures
            r@.len() == self@.len(),
            forall|i: int| 0 <= i < self@.len() ==> extreme_at(self@, w, i, #[trigger] r@[i], max),
    {
        let len = self.cells.len();
        let p = w.period;
        let mut cells: Vec<Option<i64>> = Vec::with_capacity(len);
        let mut dq: VecDeque<usize> = VecDeque::new();
        let mut lo_prev: usize = 0;
        let mut i: usize = 0;
        while i < len
            invariant
                len == self@.len(),
                p == w.period,
                w.wf(),
                i <= len,
                cells@.len() == i,
                lo_prev <= window_start(i as int, p as int),
                deque_ok(self@, dq@, lo_prev as int, i as int, max),
                forall|j: int|
                    lo_prev <= j < i && self@[j].is_some() ==> #[trigger] dominated(
                        self@,
                        dq@,
                        j,
                        max,
                    ),
                forall|j: int| 0 <= j < i ==> extreme_at(self@, w, j, #[trigger] cells@[j], max),
            decreases len - i,
        {
            let lo: usize = if i + 1 >= p { i + 1 - p } else { 0 };
            let ghost before = dq@;
            match self.cells[i] {
                Some(_) => {
                    self.push_candidate(&mut dq, i, Ghost(lo_prev as int), max);
                },
                None => {
                    proof {
                        assert forall|k: int| 0 <= k < dq@.len() implies lo_prev <= #[trigger] dq@[k]
                            < i + 1 && self@[dq@[k] as int].is_some() by {}
                    }
                },
            }
            let ghost pushed = dq@;
            self.drop_expired(&mut dq, lo, Ghost(lo_prev as int), Ghost(i + 1), max);
            proof {
                assert forall|j: int| lo <= j < i + 1 && self@[j].is_some() implies #[trigger] dominated(
                    self@,
                    dq@,
                    j,
                    max,
                ) by {
                    assert(dominated(self@, pushed, j, max));
                }
            }
            let c = if (w.mode == WindowMode::Full && i + 1 < p) || dq.len() == 0 {
                None
            } else {
                let f = dq[0];
                self.cells[f]
            };
            proof {
                let lo_i = lo as int;
                assert(lo_i == window_start(i as int, p as int));
                if has_present(self@, lo_i, i + 1) {
                    let j = choose|j: int| lo_i <= j < i + 1 && #[trigger] self@[j].is_some();
                    assert(dominated(self@, dq@, j, max));
                }
                if let Some(m) = c {
                    let f = dq@[0] as int;
                    assert(lo_i <= f < i + 1);
                    assert(has_present(self@, lo_i, i + 1));
                    assert forall|j: int| lo_i <= j < i + 1 && #[trigger] self@[j].is_some() implies beats(
                        m as int,
                        self@[j].unwrap() as int,
                        max,
                    ) by {
                        assert(dominated(self@, dq@, j, max));
                        let k = choose|k: int|
                            0 <= k < dq@.len() && j <= #[trigger] dq@[k] && beats(
                                present_value(self@, dq@[k] as int),
                                present_value(self@, j),
                                max,
                            );
                        if k > 0 {
                            assert(dq@[0] < dq@[k]);
                        }
                    }
                }
            }
            cells.push(c);
            lo_prev = lo;
            i += 1;
        }
        Series { cells }
    }

    /// The largest present value of each window.
    pub fn highest(&self, w: Window) -> (r: Series)
        requires
            w.wf(),
        ensures
            r@.len() == self@.len(),
            forall|i: int| 0 <= i < self@.len() ==> extreme_at(self@, w, i, #[trigger] r@[i], true),
    {
        self.rolling_extreme(w, true)
    }

    /// The smallest present value of each window.
    pub fn lowest(&self, w: Window) -> (r: Series)
        requires
            w.wf(),
        ensures
            r@.len() == self@.len(),
            forall|i: int| 0 <= i < self@.len() ==> extreme_at(self@, w, i, #[trigger] r@[i], false),
    {
        self.rolling_extreme(w, false)
    }

    /// The rolling mean absolute deviation from the rolling mean.
    pub fn md(&self, w: Window) -> (r: Series)
        requires
            w.wf(),
        ensures
            r@.len() == self@.len(),
            forall|i: int| 0 <= i < self@.len() ==> r@[i] == window_md(self@, w, i),
    {
        let len = self.cells.len();
        let p = w.period;
        let means = self.ma(w);
        let mut cells: Vec<Option<i64>> = Vec::with_capacity(len);
        let mut i: usize = 0;
        while i < len
            invariant
                len == self@.len(),
                p == w.period,
                w.wf(),
                means@.len() == len,
                forall|j: int| 0 <= j < len ==> means@[j] == window_mean(self@, w, j),
                i <= len,
                cells@.len() == i,
                forall|j: int| 0 <= j < i ==> cells@[j] == window_md(self@, w, j),
            decreases len - i,
        {
            let lo: usize = if i + 1 >= p { i + 1 - p } else { 0 };
            assert(lo == window_start(i as int, p as int));
            proof {
                lemma_present_bounds(self@, lo as int, i + 1);
                if let Some(m) = means@[i as int] {
                    assert(present_count(self@, lo as int, i + 1) > 0);
                }
            }
            let c = match means.cells[i] {
                None => None,
                Some(m) => {
                    let mut acc: u128 = 0;
                    let mut count: usize = 0;
                    let mut j: usize = lo;
                    while j <= i
                        invariant
                            lo <= j <= i + 1,
                            i < len,
                            len == self@.len(),
                            acc == dev_sum(self@, lo as int, j as int, m as int),
                            acc <= count * 0xffff_ffff_ffff_ffff,
                            count == present_count(self@, lo as int, j as int),
                            count <= j - lo,
                        decreases i + 1 - j,
                    {
                        match self.cells[j] {
                            Some(x) => {
                                let d: i128 = x as i128 - m as i128;
                                let ad: u128 = if d < 0 { (-d) as u128 } else { d as u128 };
                                assert(acc + ad <= (count + 1) * 0xffff_ffff_ffff_ffff)
                                    by (nonlinear_arith)
                                    requires
                                        acc <= count * 0xffff_ffff_ffff_ffff,
                                        ad <= 0xffff_ffff_ffff_ffff,
                                ;
                                assert((count + 1) * 0xffff_ffff_ffff_ffff
                                    <= 0xffff_ffff_ffff_ffff * 0xffff_ffff_ffff_ffff)
                                    by (nonlinear_arith)
                                    requires
                                        count + 1 <= 0xffff_ffff_ffff_ffff,
                                ;
                                acc = acc + ad;
                                count = count + 1;
                            },
                            None => {},
                        }
                        j += 1;
                    }
                    assert(count > 0);
                    let q: u128 = acc / count as u128;
                    assert(q <= 0xffff_ffff_ffff_ffff) by (nonlinear_arith)
                        requires
                            acc <= count * 0xffff_ffff_ffff_ffff,
                            count > 0,
                            q == (acc as int) / (count as int),
                    ;
                    to_cell(q as i128)
                },
            };
            proof {
                lemma_present_bounds(self@, lo as int, i + 1);
                if let Some(m) = means@[i as int] {
                    assert(present_count(self@, lo as int, i + 1) > 0);
                }
            }
            assert(c == window_md(self@, w, i as int));
            cells.push(c);
            i += 1;
        }
        Series { cells }
    }

    /// The weighted mean of each whole window, with one weight per position
    /// (oldest first) divided by the sum of the weights.
    pub fn wg(&self, period: usize, weights: &Vec<i64>) -> (r: Result<Series, SeriesError>)
        ensures
            period == 0 ==> r == Err::<Series, SeriesError>(SeriesError::ZeroPeriod),
            period != 0 && weights@.len() != period ==> r == Err::<Series, SeriesError>(
                SeriesError::WeightLength,
            ),
            period != 0 && weights@.len() == period <==> r is Ok,
            r matches Ok(out) ==> out@.len() == self@.len() && forall|i: int|
                0 <= i < self@.len() ==> out@[i] == weighted_at(self@, weights@, i),
    {
        if period == 0 {
            return Err(SeriesError::ZeroPeriod);
        }
        if weights.len() != period {
            return Err(SeriesError::WeightLength);
        }
        let p = period;
        let mut total: i128 = 0;
        let mut k: usize = 0;
        while k < p
            invariant
                p == weights@.len(),
                k <= p,
                total == weight_total(weights@, k as int),
            decreases p - k,
        {
            proof {
                lemma_weight_total_bounds(weights@, k + 1);
                assert(i128::MIN <= weight_total(weights@, k + 1) <= i128::MAX) by (nonlinear_arith)
                    requires
                        0 <= k + 1 <= 0xffff_ffff_ffff_ffff,
                        (k + 1) * (i64::MIN as int) <= weight_total(weights@, k + 1)
                            <= (k + 1) * (i64::MAX as int),
                ;
            }
            total = total + weights[k] as i128;
            k += 1;
        }
        proof {
            lemma_weight_total_bounds(weights@, p as int);
            assert(i128::MIN < weight_total(weights@, p as int)) by (nonlinear_arith)
                requires
                    0 <= p <= 0xffff_ffff_ffff_ffff,
                    p * (i64::MIN as int) <= weight_total(weights@, p as int),
            ;
        }
        let len = self.cells.len();
        let mut cells: Vec<Option<i64>> = Vec::with_capacity(len);
        let mut i: usize = 0;
        while i < len
            invariant
                len == self@.len(),
                p == weights@.len(),
                total > i128::MIN,
                p >= 1,
                total == weight_total(weights@, p as int),
                i <= len,
                cells@.len() == i,
                forall|j: int| 0 <= j < i ==> cells@[j] == weighted_at(self@, weights@, j),
            decreases len - i,
        {
            let c = if i + 1 < p {
                None
            } else {
                let lo: usize = i + 1 - p;
                let mut acc: i128 = 0;
                let mut ok: bool = true;
                let mut k: usize = 0;
                while k < p && ok
                    invariant
                        len == self@.len(),
                        p == weights@.len(),
                        lo + p == i + 1,
                        i < len,
                        k <= p,
                        ok ==> all_present(self@, lo as int, lo + k) && dot_fits(
                            self@,
                            weights@,
                            lo as int,
                            k as int,
                        ) && acc == dot(self@, weights@, lo as int, k as int),
                        !ok ==> !(all_present(self@, lo as int, i + 1) && dot_fits(
                            self@,
                            weights@,
                            lo as int,
                            p as int,
                        )),
                    decreases p - k,
                {
                    match self.cells[lo + k] {
                        None => {
                            ok = false;
                        },
                        Some(x) => {
                            let wk = weights[k] as i128;
                            let x128 = x as i128;
                            assert(-0x4000_0000_0000_0000_0000_0000_0000_0000 <= wk * x128
                                <= 0x4000_0000_0000_0000_0000_0000_0000_0000) by (nonlinear_arith)
                                requires
                                    -0x8000_0000_0000_0000 <= wk <= 0x7fff_ffff_ffff_ffff,
                                    -0x8000_0000_0000_0000 <= x128 <= 0x7fff_ffff_ffff_ffff,
                            ;
                            assert(dot(self@, weights@, lo as int, k + 1) == acc + wk * x128);
                            match acc.checked_add(wk * x128) {
                                Some(n) => {
                                    if n == i128::MIN {
                                        ok = false;
                                    } else {
                                        acc = n;
                                        proof {
                                            assert forall|j: int| 0 <= j <= k + 1 implies fits128(
                                                #[trigger] dot(self@, weights@, lo as int, j),
                                            ) by {
                                                if j <= k {
                                                    assert(dot_fits(self@, weights@, lo as int, k as int));
                                                }
                                            }
                                        }
                                    }
                                },
                                None => {
                                    ok = false;
                                },
                            }
                            if !ok {
                                assert(!fits128(dot(self@, weights@, lo as int, k + 1)));
                            }
                        },
                    }
                    k += 1;
                }
                if ok && total != 0 {
                    assert(k == p);
                    to_cell(div_toward_zero(acc, total))
                } else {
                    None
                }
            };
            assert(c == weighted_at(self@, weights@, i as int));
            cells.push(c);
            i += 1;
        }
        Ok(Series { cells })
    }

    fn rolling_total(&self, w: Window, mean: bool) -> (r: Series)
        requires
            w.wf(),
        ensures
            r@.len() == self@.len(),
            forall|i: int|
                0 <= i < self@.len() ==> r@[i] == if mean {
                    window_mean(self@, w, i)
                } else {
                    window_sum(self@, w, i)
                },
    {
        let len = self.cells.len();
        let p = w.period;
        let mut cells: Vec<Option<i64>> = Vec::with_capacity(len);
        let mut total: i128 = 0;
        let mut count: usize = 0;
        let mut i: usize = 0;
        while i < len
            invariant
                len == self@.len(),
                p == w.period,
                w.wf(),
                i <= len,
                cells@.len() == i,
                i > 0 ==> total == present_sum(self@, window_start(i - 1, p as int), i as int),
                i > 0 ==> count == present_count(self@, window_start(i - 1, p as int), i as int),
                i == 0 ==> total == 0 && count == 0,
                forall|j: int|
                    0 <= j < i ==> cells@[j] == if mean {
                        window_mean(self@, w, j)
                    } else {
                        window_sum(self@, w, j)
                    },
            decreases len - i,
        {
            let ghost lo_prev: int = if i > 0 { window_start(i - 1, p as int) } else { 0 };
            let ghost lo: int = window_start(i as int, p as int);
            if i >= p {
                proof {
                    assert(lo_prev == i - p);
                    lemma_present_front(self@, lo_prev, i as int);
                    lemma_present_bounds(self@, lo_prev + 1, i as int);
                    lemma_sum_fits_i128(self@, lo_prev + 1, i as int);
                }
                match self.cells[i - p] {
                    Some(x) => {
                        total = total - x as i128;
                        count = count - 1;
                    },
                    None => {},
                }
            } else {
                assert(lo == 0 && lo_prev == 0);
                assert(present_sum(self@, 0, 0) == 0);
                assert(present_count(self@, 0, 0) == 0);
            }
            assert(total == present_sum(self@, lo, i as int));
            assert(count == present_count(self@, lo, i as int));
            proof {
                lemma_present_bounds(self@, lo, i + 1);
                lemma_sum_fits_i128(self@, lo, i + 1);
            }
            match self.cells[i] {
                Some(x) => {
                    total = total + x as i128;
                    count = count + 1;
                },
                None => {},
            }
            assert(total == present_sum(self@, lo, i + 1));
            assert(count == present_count(self@, lo, i + 1));
            let c = if (w.mode == WindowMode::Full && i + 1 < p) || count == 0 {
                None
            } else if mean {
                to_cell(div_toward_zero(total, count as i128))
            } else {
                to_cell(total)
            };
            cells.push(c);
            i += 1;
        }
        Series { cells }
    }

    /// The rolling sum of the present values of each window.
    pub fn sum(&self, w: Window) -> (r: Series)
        requires
            w.wf(),
        ensures
            r@.len() == self@.len(),
            forall|i: int| 0 <= i < self@.len() ==> r@[i] == window_sum(self@, w, i),
    {
        self.rolling_total(w, false)
    }

    /// The rolling mean of the present values of each window.
    pub fn ma(&self, w: Window) -> (r: Series)
        requires
            w.wf(),
        ensures
            r@.len() == self@.len(),
            forall|i: int| 0 <= i < self@.len() ==> r@[i] == window_mean(self@, w, i),
    {
        self.rolling_total(w, true)
    }
}

} // verus!
