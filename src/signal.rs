//! Boolean signals: logical combinators and crossings of two lines.
use vstd::prelude::*;
use crate::series::Series;

verus! {

/// `a` rises strictly above `b` at `i`, from at or below it at `i - 1`; all
/// four values present.
pub open spec fn crosses_over_at(a: Seq<Option<i64>>, b: Seq<Option<i64>>, i: int) -> bool {
    &&& i >= 1
    &&& a[i] matches Some(x) && b[i] matches Some(y) && a[i - 1] matches Some(px)
        && b[i - 1] matches Some(py) && x > y && px <= py
}

/// `a` falls strictly below `b` at `i`, from at or above it at `i - 1`; all
/// four values present.
pub open spec fn crosses_under_at(a: Seq<Option<i64>>, b: Seq<Option<i64>>, i: int) -> bool {
    &&& i >= 1
    &&& a[i] matches Some(x) && b[i] matches Some(y) && a[i - 1] matches Some(px)
        && b[i - 1] matches Some(py) && x < y && px >= py
}

/// A series that holds `v` at every one of `len` positions.
pub open spec fn line(len: int, v: i64) -> Seq<Option<i64>> {
    Seq::new(len as nat, |i: int| Some(v))
}

/// A crossing over and a crossing under never happen at the same position.
pub proof fn lemma_crossings_exclusive(a: Seq<Option<i64>>, b: Seq<Option<i64>>, i: int)
    ensures
        !(crosses_over_at(a, b, i) && crosses_under_at(a, b, i)),
{
}

/// Position-by-position conjunction of two signals of one length.
pub fn and(a: &Vec<bool>, b: &Vec<bool>) -> (r: Vec<bool>)
    requires
        a@.len() == b@.len(),
    ensures
        r@.len() == a@.len(),
        forall|i: int| 0 <= i < a@.len() ==> r@[i] == (a@[i] && b@[i]),
{
    let mut r: Vec<bool> = Vec::with_capacity(a.len());
    let mut i: usize = 0;
    while i < a.len()
        invariant
            a@.len() == b@.len(),
            i <= a@.len(),
            r@.len() == i,
            forall|j: int| 0 <= j < i ==> r@[j] == (a@[j] && b@[j]),
        decreases a@.len() - i,
    {
        r.push(a[i] && b[i]);
        i += 1;
    }
    r
}

/// Position-by-position disjunction of two signals of one length.
pub fn or(a: &Vec<bool>, b: &Vec<bool>) -> (r: Vec<bool>)
    requires
        a@.len() == b@.len(),
    ensures
        r@.len() == a@.len(),
        forall|i: int| 0 <= i < a@.len() ==> r@[i] == (a@[i] || b@[i]),
{
    let mut r: Vec<bool> = Vec::with_capacity(a.len());
    let mut i: usize = 0;
    while i < a.len()
        invariant
            a@.len() == b@.len(),
            i <= a@.len(),
            r@.len() == i,
            forall|j: int| 0 <= j < i ==> r@[j] == (a@[j] || b@[j]),
        decreases a@.len() - i,
    {
        r.push(a[i] || b[i]);
        i += 1;
    }
    r
}

/// Position-by-position negation of a signal.
pub fn not(a: &Vec<bool>) -> (r: Vec<bool>)
    ensures
        r@.len() == a@.len(),
        forall|i: int| 0 <= i < a@.len() ==> r@[i] == !a@[i],
{
    let mut r: Vec<bool> = Vec::with_capacity(a.len());
    let mut i: usize = 0;
    while i < a.len()
        invariant
            i <= a@.len(),
            r@.len() == i,
            forall|j: int| 0 <= j < i ==> r@[j] == !a@[j],
        decreases a@.len() - i,
    {
        r.push(!a[i]);
        i += 1;
    }
    r
}

fn crossing_exec(x: Option<i64>, y: Option<i64>, px: Option<i64>, py: Option<i64>, over: bool) -> (r: bool)
    ensures
        r == match (x, y, px, py) {
            (Some(x), Some(y), Some(px), Some(py)) => if over {
                x > y && px <= py
            } else {
                x < y && px >= py
            },
            _ => false,
        },
{
    match (x, y, px, py) {
        (Some(x), Some(y), Some(px), Some(py)) => if over {
            x > y && px <= py
        } else {
            x < y && px >= py
        },
        _ => false,
    }
}

impl Series {
    fn crossings(&self, rhs: &Series, over: bool) -> (r: Vec<bool>)
        requires
            self@.len() == rhs@.len(),
        ensures
            r@.len() == self@.len(),
            forall|i: int|
                0 <= i < self@.len() ==> r@[i] == if over {
                    crosses_over_at(self@, rhs@, i)
                } else {
                    crosses_under_at(self@, rhs@, i)
                },
    {
        let len = self.cells.len();
        let mut r: Vec<bool> = Vec::with_capacity(len);
        let mut i: usize = 0;
        while i < len
            invariant
                len == self@.len(),
                rhs@.len() == len,
                i <= len,
                r@.len() == i,
                forall|j: int|
                    0 <= j < i ==> r@[j] == if over {
                        crosses_over_at(self@, rhs@, j)
                    } else {
                        crosses_under_at(self@, rhs@, j)
                    },
            decreases len - i,
        {
            if i == 0 {
                r.push(false);
            } else {
                r.push(
                    crossing_exec(
                        self.cells[i],
                        rhs.cells[i],
                        self.cells[i - 1],
                        rhs.cells[i - 1],
                        over,
                    ),
                );
            }
            i += 1;
        }
        r
    }

    /// Where this series crosses over `rhs`.
    pub fn cross_over(&self, rhs: &Series) -> (r: Vec<bool>)
        requires
            self@.len() == rhs@.len(),
        ensures
            r@.len() == self@.len(),
            forall|i: int| 0 <= i < self@.len() ==> r@[i] == crosses_over_at(self@, rhs@, i),
    {
        self.crossings(rhs, true)
    }

    /// Where this series crosses under `rhs`.
    pub fn cross_under(&self, rhs: &Series) -> (r: Vec<bool>)
        requires
            self@.len() == rhs@.len(),
        ensures
            r@.len() == self@.len(),
            forall|i: int| 0 <= i < self@.len() ==> r@[i] == crosses_under_at(self@, rhs@, i),
    {
        self.crossings(rhs, false)
    }

    /// A series holding `v` at every position of this one.
    pub fn line_like(&self, v: i64) -> (r: Series)
        ensures
            r@ == line(self@.len() as int, v),
    {
        let len = self.cells.len();
        let mut cells: Vec<Option<i64>> = Vec::with_capacity(len);
        let mut i: usize = 0;
        while i < len
            invariant
                len == self@.len(),
                i <= len,
                cells@.len() == i,
                forall|j: int| 0 <= j < i ==> cells@[j] == Some(v),
            decreases len - i,
        {
            cells.push(Some(v));
            i += 1;
        }
        let r = Series { cells };
        assert(r@ =~= line(len as int, v));
        r
    }

    /// Where this series crosses over the constant level `v`.
    pub fn cross_over_line(&self, v: i64) -> (r: Vec<bool>)
        ensures
            r@.len() == self@.len(),
            forall|i: int|
                0 <= i < self@.len() ==> r@[i] == crosses_over_at(
                    self@,
                    line(self@.len() as int, v),
                    i,
                ),
    {
        let level = self.line_like(v);
        self.cross_over(&level)
    }

    /// Where this series crosses under the constant level `v`.
    pub fn cross_under_line(&self, v: i64) -> (r: Vec<bool>)
        ensures
            r@.len() == self@.len(),
            forall|i: int|
                0 <= i < self@.len() ==> r@[i] == crosses_under_at(
                    self@,
                    line(self@.len() as int, v),
                    i,
                ),
    {
        let level = self.line_like(v);
        self.cross_under(&level)
    }
}

} // verus!
