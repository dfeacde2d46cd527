//! Indicators composed from the engine.
use vstd::prelude::*;
use crate::series::{Series, cell, trunc_div, div_toward_zero, to_cell};

verus! {

/// The rate of change at `i`, in percent rounded toward zero, against the
/// value `n` positions earlier. Where that value or the current one is
/// missing, or the earlier value is zero, the rate is zero.
pub open spec fn roc_at(s: Seq<Option<i64>>, n: int, i: int) -> Option<i64> {
    if i < n {
        Some(0)
    } else {
        match (s[i], s[i - n]) {
            (Some(x), Some(p)) => if p == 0 {
                Some(0)
            } else {
                cell(trunc_div(100 * (x - p), p as int))
            },
            _ => Some(0),
        }
    }
}

impl Series {
    /// The rate of change over `n` positions, in percent.
    pub fn roc(&self, n: usize) -> (r: Series)
        ensures
            r@.len() == self@.len(),
            forall|i: int| 0 <= i < self@.len() ==> r@[i] == roc_at(self@, n as int, i),
    {
        let len = self.cells.len();
        let mut cells: Vec<Option<i64>> = Vec::with_capacity(len);
        let mut i: usize = 0;
        while i < len
            invariant
                len == self@.len(),
                i <= len,
                cells@.len() == i,
                forall|j: int| 0 <= j < i ==> cells@[j] == roc_at(self@, n as int, j),
            decreases len - i,
        {
            let c = if i < n {
                Some(0)
            } else {
                match (self.cells[i], self.cells[i - n]) {
                    (Some(x), Some(p)) => if p == 0 {
                        Some(0)
                    } else {
                        let num: i128 = 100 * (x as i128 - p as i128);
                        to_cell(div_toward_zero(num, p as i128))
                    },
                    _ => Some(0),
                }
            };
            cells.push(c);
            i += 1;
        }
        Series { cells }
    }
}

} // verus!
