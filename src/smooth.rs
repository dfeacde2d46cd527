//! Recursive smoothing: each output is computed from the previous output.
use vstd::prelude::*;
use crate::rolling::{SeriesError, Window, WindowMode, window_mean, window_sum};
use crate::series::{ArithOp, Series, abs, arith_cell, cell, trunc_div};

verus! {

/// A smoothing weight `num / den`, between zero and one.
#[derive(Clone, Copy, Debug, PartialEq, Eq, Structural)]
pub struct Alpha {
    pub num: u128,
    pub den: u128,
}

impl Alpha {
    pub open spec fn wf(&self) -> bool {
        0 < self.den <= 0x1_0000_0000_0000_0000 && self.num <= self.den
    }
}

/// What a filter does at a missing input once it has an output.
#[derive(Clone, Copy, Debug, PartialEq, Eq, Structural)]
pub enum Carry {
    /// The previous output is repeated.
    Hold,
    /// The output is missing, and the next present input seeds the filter again.
    Reseed,
}

/// One step of a filter: `prev + alpha * (x - prev)`, the product rounded toward zero.
pub open spec fn step(prev: int, x: int, a: Alpha) -> int {
    prev + trunc_div(a.num * (x - prev), a.den as int)
}

/// The output of the filter at `i`. Before it has an output, the filter takes
/// the input as it stands (the seed, or missing).
pub open spec fn smoothed(s: Seq<Option<i64>>, alphas: Seq<Alpha>, carry: Carry, i: int) -> Option<i64>
    decreases i,
{
    if i <= 0 {
        s[0]
    } else {
        match smoothed(s, alphas, carry, i - 1) {
            None => s[i],
            Some(p) => match s[i] {
                Some(x) => Some(step(p as int, x as int, alphas[i]) as i64),
                None => match carry {
                    Carry::Hold => Some(p),
                    Carry::Reseed => None,
                },
            },
        }
    }
}

/// One step stays between the previous output and the input.
pub proof fn lemma_step_between(prev: int, x: int, a: Alpha)
    requires
        a.wf(),
    ensures
        prev <= x ==> prev <= step(prev, x, a) <= x,
        x <= prev ==> x <= step(prev, x, a) <= prev,
{
    let d = x - prev;
    let q = (a.num * abs(d)) / (a.den as int);
    assert(0 <= q <= abs(d)) by (nonlinear_arith)
        requires
            0 <= a.num <= a.den,
            a.den > 0,
            q == (a.num * abs(d)) / (a.den as int),
    ;
    assert(abs(a.num * d) == a.num * abs(d)) by (nonlinear_arith)
        requires
            a.num >= 0,
    ;
    assert(abs(a.den as int) == a.den);
    if d < 0 && a.num > 0 {
        assert(a.num * d < 0) by (nonlinear_arith)
            requires
                d < 0,
                a.num > 0,
        ;
        assert(trunc_div(a.num * d, a.den as int) == -q);
    } else if d < 0 {
        assert(a.num * d == 0);
        assert(trunc_div(a.num * d, a.den as int) == 0);
    }
    if d >= 0 {
        assert(a.num * d >= 0) by (nonlinear_arith)
            requires
                d >= 0,
                a.num >= 0,
        ;
        assert(trunc_div(a.num * d, a.den as int) == q);
    }
}

/// The filter starts from its first input, and once it has an output, each
/// output at a present input lies between the previous output and that input.
pub proof fn lemma_smoothed_contracts(s: Seq<Option<i64>>, alphas: Seq<Alpha>, carry: Carry, i: int)
    requires
        0 < i < s.len(),
        alphas.len() == s.len(),
        forall|k: int| 0 <= k < alphas.len() ==> #[trigger] alphas[k].wf(),
    ensures
        smoothed(s, alphas, carry, 0) == s[0],
        smoothed(s, alphas, carry, i - 1) matches Some(p) ==> s[i] matches Some(x) ==> {
            &&& smoothed(s, alphas, carry, i) matches Some(y)
            &&& p <= x ==> p <= y <= x
            &&& x <= p ==> x <= y <= p
        },
{
    if let Some(p) = smoothed(s, alphas, carry, i - 1) {
        if let Some(x) = s[i] {
            lemma_step_between(p as int, x as int, alphas[i]);
        }
    }
}

/// The exponential weight `2 / (period + 1)`.
pub open spec fn ema_alpha(p: int) -> Alpha {
    Alpha { num: 2, den: (p + 1) as u128 }
}

/// The running (modified) weight `1 / period`.
pub open spec fn rma_alpha(p: int) -> Alpha {
    Alpha { num: 1, den: p as u128 }
}

/// One weight repeated at every position.
pub open spec fn constant_alphas(len: int, a: Alpha) -> Seq<Alpha> {
    Seq::new(len as nat, |i: int| a)
}

/// The differences between each cell and the cell `n` positions earlier.
pub open spec fn change_seq(s: Seq<Option<i64>>, n: int) -> Seq<Option<i64>> {
    Seq::new(s.len(), |i: int| if i < n { None } else { arith_cell(s[i], s[i - n], ArithOp::Sub) })
}

/// The absolute values of the cells.
pub open spec fn abs_seq(s: Seq<Option<i64>>) -> Seq<Option<i64>> {
    Seq::new(
        s.len(),
        |i: int|
            match s[i] {
                Some(x) => cell(abs(x as int)),
                None => None,
            },
    )
}

/// The efficiency ratio at `i`: the size of the move over `p` positions divided
/// by the sum of the sizes of the single-step moves over the last `p` positions.
/// Where it is missing, has a zero denominator, or exceeds one (gaps in the
/// data can make it), the exponential weight stands in.
pub open spec fn adaptive_alpha(s: Seq<Option<i64>>, p: int, i: int) -> Alpha {
    let c = abs_seq(change_seq(s, p))[i];
    let v = window_sum(
        abs_seq(change_seq(s, 1)),
        Window { period: p as usize, mode: WindowMode::Partial },
        i,
    );
    match (c, v) {
        (Some(cn), Some(vn)) => if 0 < vn && cn <= vn {
            Alpha { num: cn as u128, den: vn as u128 }
        } else {
            ema_alpha(p)
        },
        _ => ema_alpha(p),
    }
}

/// The weights of the adaptive filter.
pub open spec fn adaptive_alphas(s: Seq<Option<i64>>, p: int) -> Seq<Alpha> {
    Seq::new(s.len(), |i: int| adaptive_alpha(s, p, i))
}

/// The smoothing families that can be chosen by configuration.
#[derive(Clone, Copy, Debug, PartialEq, Eq, Structural)]
pub enum Smooth {
    /// The rolling mean over the available positions of each window.
    Sma,
    /// Exponential smoothing.
    Ema,
    /// Running (modified) smoothing.
    Smma,
    /// Adaptive smoothing by the efficiency ratio.
    Kama,
}

/// What `Series::smooth` returns for a positive period.
pub open spec fn smoothed_by(s: Seq<Option<i64>>, kind: Smooth, p: int) -> Seq<Option<i64>> {
    match kind {
        Smooth::Sma => Seq::new(
            s.len(),
            |i: int| window_mean(s, Window { period: p as usize, mode: WindowMode::Partial }, i),
        ),
        Smooth::Ema => Seq::new(
            s.len(),
            |i: int| smoothed(s, constant_alphas(s.len() as int, ema_alpha(p)), Carry::Hold, i),
        ),
        Smooth::Smma => Seq::new(
            s.len(),
            |i: int| smoothed(s, constant_alphas(s.len() as int, rma_alpha(p)), Carry::Hold, i),
        ),
        Smooth::Kama => Seq::new(
            s.len(),
            |i: int| smoothed(s, adaptive_alphas(s, p), Carry::Reseed, i),
        ),
    }
}

/// Adaptive smoothing starts from its first input, and once it has an output,
/// each output at a present input lies between the previous output and that input.
pub proof fn lemma_adaptive_contracts(s: Seq<Option<i64>>, p: int, i: int)
    requires
        1 <= p <= usize::MAX,
        0 < i < s.len(),
    ensures
        smoothed(s, adaptive_alphas(s, p), Carry::Reseed, 0) == s[0],
        smoothed(s, adaptive_alphas(s, p), Carry::Reseed, i - 1) matches Some(prev) ==> s[i] matches Some(x) ==> {
            &&& smoothed(s, adaptive_alphas(s, p), Carry::Reseed, i) matches Some(y)
            &&& prev <= x ==> prev <= y <= x
            &&& x <= prev ==> x <= y <= prev
        },
{
    let alphas = adaptive_alphas(s, p);
    assert forall|k: int| 0 <= k < alphas.len() implies #[trigger] alphas[k].wf() by {
        let c = abs_seq(change_seq(s, p))[k];
        if let Some(cn) = c {
            if let Some(d) = change_seq(s, p)[k] {
                assert(cn as int == abs(d as int));
            }
        }
    }
    lemma_smoothed_contracts(s, alphas, Carry::Reseed, i);
}

/// One step of a filter on machine integers.
fn step_exec(prev: i64, x: i64, a: Alpha) -> (r: i64)
    requires
        a.wf(),
    ensures
        r == step(prev as int, x as int, a),
{
    proof {
        lemma_step_between(prev as int, x as int, a);
    }
    let d: i128 = x as i128 - prev as i128;
    let ad: u128 = if d < 0 { (-d) as u128 } else { d as u128 };
    assert(a.num * ad <= 0xffff_ffff_ffff_ffff_ffff_ffff_ffff_ffff) by (nonlinear_arith)
        requires
            a.num <= 0x1_0000_0000_0000_0000,
            ad < 0x1_0000_0000_0000_0000,
    ;
    let q: u128 = (a.num * ad) / a.den;
    assert(q <= ad) by (nonlinear_arith)
        requires
            a.num <= a.den,
            a.den > 0,
            q == (a.num * ad) / (a.den as int),
    ;
    assert(abs(a.num * d) == a.num * ad) by (nonlinear_arith)
        requires
            a.num >= 0,
            ad == abs(d as int),
    ;
    proof {
        if d < 0 && a.num > 0 {
            assert(a.num * d < 0) by (nonlinear_arith)
                requires
                    d < 0,
                    a.num > 0,
            ;
        }
        if d >= 0 {
            assert(a.num * d >= 0) by (nonlinear_arith)
                requires
                    d >= 0,
                    a.num >= 0,
            ;
        }
    }
    let r: i128 = if d < 0 { prev as i128 - q as i128 } else { prev as i128 + q as i128 };
    r as i64
}

impl Series {
    /// Runs the filter over the series, from oldest to newest, with one
    /// weight per position.
    pub fn recursive_smooth(&self, alphas: &Vec<Alpha>, carry: Carry) -> (r: Series)
        requires
            alphas@.len() == self@.len(),
            forall|k: int| 0 <= k < alphas@.len() ==> #[trigger] alphas@[k].wf(),
        ensures
            r@.len() == self@.len(),
            forall|i: int| 0 <= i < self@.len() ==> r@[i] == smoothed(self@, alphas@, carry, i),
    {
        let len = self.cells.len();
        let mut cells: Vec<Option<i64>> = Vec::with_capacity(len);
        let mut prev: Option<i64> = None;
        let mut i: usize = 0;
        while i < len
            invariant
                len == self@.len(),
                alphas@.len() == len,
                forall|k: int| 0 <= k < alphas@.len() ==> #[trigger] alphas@[k].wf(),
                i <= len,
                cells@.len() == i,
                i > 0 ==> prev == smoothed(self@, alphas@, carry, i - 1),
                i == 0 ==> prev.is_none(),
                forall|j: int| 0 <= j < i ==> cells@[j] == smoothed(self@, alphas@, carry, j),
            decreases len - i,
        {
            let out = match prev {
                None => self.cells[i],
                Some(p) => match self.cells[i] {
                    Some(x) => Some(step_exec(p, x, alphas[i])),
                    None => match carry {
                        Carry::Hold => Some(p),
                        Carry::Reseed => None,
                    },
                },
            };
            assert(out == smoothed(self@, alphas@, carry, i as int));
            cells.push(out);
            prev = out;
            i += 1;
        }
        Series { cells }
    }

    fn constant_smooth(&self, a: Alpha, carry: Carry) -> (r: Series)
        requires
            a.wf(),
        ensures
            r@.len() == self@.len(),
            forall|i: int|
                0 <= i < self@.len() ==> r@[i] == smoothed(
                    self@,
                    constant_alphas(self@.len() as int, a),
                    carry,
                    i,
                ),
    {
        let len = self.cells.len();
        let mut alphas: Vec<Alpha> = Vec::with_capacity(len);
        let mut i: usize = 0;
        while i < len
            invariant
                len == self@.len(),
                i <= len,
                alphas@.len() == i,
                forall|j: int| 0 <= j < i ==> alphas@[j] == a,
            decreases len - i,
        {
            alphas.push(a);
            i += 1;
        }
        assert(alphas@ =~= constant_alphas(len as int, a));
        self.recursive_smooth(&alphas, carry)
    }

    /// Exponential smoothing with weight `2 / (period + 1)`, seeded by the
    /// first present value. A missing input repeats the previous output.
    pub fn ema(&self, period: usize) -> (r: Result<Series, SeriesError>)
        ensures
            period == 0 <==> r is Err,
            r matches Err(e) ==> e == SeriesError::ZeroPeriod,
            r matches Ok(out) ==> out@.len() == self@.len() && forall|i: int|
                0 <= i < self@.len() ==> out@[i] == smoothed(
                    self@,
                    constant_alphas(self@.len() as int, ema_alpha(period as int)),
                    Carry::Hold,
                    i,
                ),
    {
        if period == 0 {
            return Err(SeriesError::ZeroPeriod);
        }
        let a = Alpha { num: 2, den: period as u128 + 1 };
        Ok(self.constant_smooth(a, Carry::Hold))
    }

    /// Running (modified) smoothing with weight `1 / period`, seeded by the
    /// first present value. A missing input repeats the previous output.
    pub fn rma(&self, period: usize) -> (r: Result<Series, SeriesError>)
        ensures
            period == 0 <==> r is Err,
            r matches Err(e) ==> e == SeriesError::ZeroPeriod,
            r matches Ok(out) ==> out@.len() == self@.len() && forall|i: int|
                0 <= i < self@.len() ==> out@[i] == smoothed(
                    self@,
                    constant_alphas(self@.len() as int, rma_alpha(period as int)),
                    Carry::Hold,
                    i,
                ),
    {
        if period == 0 {
            return Err(SeriesError::ZeroPeriod);
        }
        let a = Alpha { num: 1, den: period as u128 };
        Ok(self.constant_smooth(a, Carry::Hold))
    }

    /// Adaptive smoothing whose weight at each position is the efficiency
    /// ratio of the last `period` moves. A missing input gives a missing
    /// output, and the next present input seeds the filter again.
    pub fn adaptive(&self, period: usize) -> (r: Result<Series, SeriesError>)
        ensures
            period == 0 <==> r is Err,
            r matches Err(e) ==> e == SeriesError::ZeroPeriod,
            r matches Ok(out) ==> out@.len() == self@.len() && forall|i: int|
                0 <= i < self@.len() ==> out@[i] == smoothed(
                    self@,
                    adaptive_alphas(self@, period as int),
                    Carry::Reseed,
                    i,
                ),
    {
        if period == 0 {
            return Err(SeriesError::ZeroPeriod);
        }
        let len = self.cells.len();
        let moved = self.change(period).abs();
        let steps = self.change(1).abs();
        let w = Window { period, mode: WindowMode::Partial };
        let path = steps.sum(w);
        assert(moved@ =~= abs_seq(change_seq(self@, period as int)));
        assert(steps@ =~= abs_seq(change_seq(self@, 1)));
        let fallback = Alpha { num: 2, den: period as u128 + 1 };
        let mut alphas: Vec<Alpha> = Vec::with_capacity(len);
        let mut i: usize = 0;
        while i < len
            invariant
                len == self@.len(),
                moved@ == abs_seq(change_seq(self@, period as int)),
                path@.len() == len,
                forall|j: int| 0 <= j < len ==> path@[j] == window_sum(steps@, w, j),
                steps@ == abs_seq(change_seq(self@, 1)),
                w == (Window { period, mode: WindowMode::Partial }),
                fallback == ema_alpha(period as int),
                period >= 1,
                i <= len,
                alphas@.len() == i,
                forall|j: int| 0 <= j < i ==> alphas@[j] == adaptive_alpha(self@, period as int, j),
            decreases len - i,
        {
            let a = match (moved.cells[i], path.cells[i]) {
                (Some(c), Some(v)) => if 0 < v && c <= v {
                    Alpha { num: c as u128, den: v as u128 }
                } else {
                    fallback
                },
                _ => fallback,
            };
            alphas.push(a);
            i += 1;
        }
        assert(alphas@ =~= adaptive_alphas(self@, period as int));
        Ok(self.recursive_smooth(&alphas, Carry::Reseed))
    }
    /// Smooths the series by the chosen family; a period of zero is refused.
    pub fn smooth(&self, kind: Smooth, period: usize) -> (r: Result<Series, SeriesError>)
        ensures
            period == 0 <==> r is Err,
            r matches Err(e) ==> e == SeriesError::ZeroPeriod,
            r matches Ok(out) ==> out@ == smoothed_by(self@, kind, period as int),
    {
        if period == 0 {
            return Err(SeriesError::ZeroPeriod);
        }
        let out = match kind {
            Smooth::Sma => self.ma(Window { period, mode: WindowMode::Partial }),
            Smooth::Ema => match self.ema(period) {
                Ok(o) => o,
                Err(e) => return Err(e),
            },
            Smooth::Smma => match self.rma(period) {
                Ok(o) => o,
                Err(e) => return Err(e),
            },
            Smooth::Kama => match self.adaptive(period) {
                Ok(o) => o,
                Err(e) => return Err(e),
            },
        };
        assert(out@ =~= smoothed_by(self@, kind, period as int));
        Ok(out)
    }
}

} // verus!
