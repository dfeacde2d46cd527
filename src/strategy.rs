//! Trading rules built on the engine: confirmation and signal-line rules.
use vstd::prelude::*;
use crate::rolling::SeriesError;
use crate::series::{CmpOp, Series, cmp_cell};
use crate::signal::{and, crosses_over_at, crosses_under_at};
use crate::smooth::{Smooth, smoothed_by};

verus! {

/// The level below which a falling cycle line confirms a short.
pub const LOWER_LINE: i64 = 25;

/// The level above which a rising cycle line confirms a long.
pub const UPPER_LINE: i64 = 75;

/// The moving averages a strategy can be configured with.
#[derive(Clone, Copy, Debug, PartialEq, Eq, Structural)]
pub enum MovingAverageType {
    ALMA,
    DEMA,
    EMA,
    FRAMA,
    GMA,
    HMA,
    KAMA,
    LSMA,
    RMSMA,
    SINWMA,
    SMA,
    SMMA,
    TTHREE,
    TEMA,
    TMA,
    VWMA,
    WMA,
    ZLEMA,
    ZLSMA,
}

/// The moving average that a host selects by its integer code; an unknown
/// code selects the simple moving average.
pub open spec fn ma_of_code(code: int) -> MovingAverageType {
    if code == 1 {
        MovingAverageType::ALMA
    } else if code == 2 {
        MovingAverageType::DEMA
    } else if code == 3 {
        MovingAverageType::EMA
    } else if code == 4 {
        MovingAverageType::FRAMA
    } else if code == 5 {
        MovingAverageType::GMA
    } else if code == 6 {
        MovingAverageType::HMA
    } else if code == 7 {
        MovingAverageType::KAMA
    } else if code == 8 {
        MovingAverageType::RMSMA
    } else if code == 9 {
        MovingAverageType::SINWMA
    } else if code == 10 {
        MovingAverageType::SMA
    } else if code == 11 {
        MovingAverageType::SMMA
    } else if code == 12 {
        MovingAverageType::TTHREE
    } else if code == 13 {
        MovingAverageType::TEMA
    } else if code == 14 {
        MovingAverageType::TMA
    } else if code == 15 {
        MovingAverageType::VWMA
    } else if code == 16 {
        MovingAverageType::WMA
    } else if code == 17 {
        MovingAverageType::ZLEMA
    } else {
        MovingAverageType::SMA
    }
}

/// The moving average of a host's integer code.
pub fn ma_from_code(code: usize) -> (r: MovingAverageType)
    ensures
        r == ma_of_code(code as int),
{
    match code {
        1 => MovingAverageType::ALMA,
        2 => MovingAverageType::DEMA,
        3 => MovingAverageType::EMA,
        4 => MovingAverageType::FRAMA,
        5 => MovingAverageType::GMA,
        6 => MovingAverageType::HMA,
        7 => MovingAverageType::KAMA,
        8 => MovingAverageType::RMSMA,
        9 => MovingAverageType::SINWMA,
        10 => MovingAverageType::SMA,
        11 => MovingAverageType::SMMA,
        12 => MovingAverageType::TTHREE,
        13 => MovingAverageType::TEMA,
        14 => MovingAverageType::TMA,
        15 => MovingAverageType::VWMA,
        16 => MovingAverageType::WMA,
        17 => MovingAverageType::ZLEMA,
        _ => MovingAverageType::SMA,
    }
}

/// The largest of two periods.
pub open spec fn max2(a: int, b: int) -> int {
    if a >= b { a } else { b }
}

fn max_usize(a: usize, b: usize) -> (r: usize)
    ensures
        r == max2(a as int, b as int),
{
    if a >= b { a } else { b }
}

/// The cell before position `i`, missing at the first position.
pub open spec fn previous(s: Seq<Option<i64>>, i: int) -> Option<i64> {
    if i >= 1 { s[i - 1] } else { None }
}

/// Confirms trades by the cycle line: a long where it rises above the upper
/// line, a short where it falls below the lower line.
#[derive(Clone, Copy, Debug)]
pub struct STCConfirm {
    pub smooth_type: Smooth,
    pub fast_period: usize,
    pub slow_period: usize,
    pub cycle: usize,
    pub d_first: usize,
    pub d_second: usize,
}

impl STCConfirm {
    pub fn new(
        smooth_type: Smooth,
        fast_period: usize,
        slow_period: usize,
        cycle: usize,
        d_first: usize,
        d_second: usize,
    ) -> (r: STCConfirm)
        ensures
            r.smooth_type == smooth_type,
            r.fast_period == fast_period,
            r.slow_period == slow_period,
            r.cycle == cycle,
            r.d_first == d_first,
            r.d_second == d_second,
    {
        STCConfirm { smooth_type, fast_period, slow_period, cycle, d_first, d_second }
    }

    /// The history needed: the longest of the five periods.
    pub fn lookback(&self) -> (r: usize)
        ensures
            r == max2(
                max2(
                    max2(max2(self.fast_period as int, self.slow_period as int), self.cycle as int),
                    self.d_first as int,
                ),
                self.d_second as int,
            ),
    {
        let one = max_usize(self.fast_period, self.slow_period);
        let two = max_usize(one, self.cycle);
        let three = max_usize(two, self.d_first);
        max_usize(three, self.d_second)
    }

    /// The long and short confirmations for a cycle line `stc`.
    pub fn validate(&self, stc: &Series) -> (r: (Vec<bool>, Vec<bool>))
        ensures
            r.0@.len() == stc@.len(),
            r.1@.len() == stc@.len(),
            forall|i: int|
                0 <= i < stc@.len() ==> r.0@[i] == (cmp_cell(stc@[i], previous(stc@, i), CmpOp::Gt)
                    && cmp_cell(stc@[i], Some(UPPER_LINE), CmpOp::Gt)),
            forall|i: int|
                0 <= i < stc@.len() ==> r.1@[i] == (cmp_cell(stc@[i], previous(stc@, i), CmpOp::Lt)
                    && cmp_cell(stc@[i], Some(LOWER_LINE), CmpOp::Lt)),
    {
        let prev = stc.shift(1);
        assert forall|i: int| 0 <= i < stc@.len() implies prev@[i] == previous(stc@, i) by {}
        let long = and(&stc.gt(&prev), &stc.sgt(UPPER_LINE));
        let short = and(&stc.lt(&prev), &stc.slt(LOWER_LINE));
        (long, short)
    }
}

/// Signals where the triple-smoothed rate of change crosses its own signal line.
#[derive(Clone, Copy, Debug)]
pub struct TrixSignalLineSignal {
    pub smooth_type: Smooth,
    pub period: usize,
    pub signal_period: usize,
}

impl TrixSignalLineSignal {
    pub fn new(smooth_type: Smooth, period: usize, signal_period: usize) -> (r: TrixSignalLineSignal)
        ensures
            r.smooth_type == smooth_type,
            r.period == period,
            r.signal_period == signal_period,
    {
        TrixSignalLineSignal { smooth_type, period, signal_period }
    }

    /// The history needed: the longer of the two periods.
    pub fn lookback(&self) -> (r: usize)
        ensures
            r == max2(self.period as int, self.signal_period as int),
    {
        max_usize(self.period, self.signal_period)
    }

    /// The long and short signals for a line `trix`: where it crosses over and
    /// under its signal line, `trix` smoothed over `signal_period`.
    pub fn generate(&self, trix: &Series) -> (r: Result<(Vec<bool>, Vec<bool>), SeriesError>)
        ensures
            self.signal_period == 0 <==> r is Err,
            r matches Err(e) ==> e == SeriesError::ZeroPeriod,
            r matches Ok(pair) ==> {
                let line = smoothed_by(trix@, self.smooth_type, self.signal_period as int);
                &&& pair.0@.len() == trix@.len()
                &&& pair.1@.len() == trix@.len()
                &&& forall|i: int|
                    0 <= i < trix@.len() ==> pair.0@[i] == crosses_over_at(trix@, line, i)
                &&& forall|i: int|
                    0 <= i < trix@.len() ==> pair.1@[i] == crosses_under_at(trix@, line, i)
            },
    {
        let line = match trix.smooth(self.smooth_type, self.signal_period) {
            Ok(l) => l,
            Err(e) => return Err(e),
        };
        Ok((trix.cross_over(&line), trix.cross_under(&line)))
    }
}

} // verus!
