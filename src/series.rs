//! The sequence container, elementwise arithmetic and comparisons.
use vstd::prelude::*;

verus! {

/// Absolute value of a mathematical integer.
pub open spec fn abs(x: int) -> int {
    if x < 0 { -x } else { x }
}

/// Integer division rounded toward zero (the rule of Rust's `/`).
pub open spec fn trunc_div(a: int, b: int) -> int {
    let q = abs(a) / abs(b);
    if (a < 0) != (b < 0) { -q } else { q }
}

/// Whether an integer is representable as an `i64`.
pub open spec fn fits(x: int) -> bool {
    i64::MIN <= x <= i64::MAX
}

/// A computed value as a cell: a result outside the `i64` range is missing.
pub open spec fn cell(x: int) -> Option<i64> {
    if fits(x) { Some(x as i64) } else { None }
}

/// The arithmetic operators applied position by position.
#[derive(Clone, Copy, Debug, PartialEq, Eq, Structural)]
pub enum ArithOp {
    Add,
    Sub,
    Mul,
    Div,
}

/// The comparisons applied position by position.
#[derive(Clone, Copy, Debug, PartialEq, Eq, Structural)]
pub enum CmpOp {
    Eq,
    Ne,
    Gt,
    Gte,
    Lt,
    Lte,
}

/// An arithmetic operator on two present values; `None` for division by zero.
pub open spec fn arith_value(x: int, y: int, op: ArithOp) -> Option<i64> {
    match op {
        ArithOp::Add => cell(x + y),
        ArithOp::Sub => cell(x - y),
        ArithOp::Mul => cell(x * y),
        ArithOp::Div => if y == 0 { None } else { cell(trunc_div(x, y)) },
    }
}

/// An arithmetic operator on two cells: missing on either side gives missing.
pub open spec fn arith_cell(a: Option<i64>, b: Option<i64>, op: ArithOp) -> Option<i64> {
    match (a, b) {
        (Some(x), Some(y)) => arith_value(x as int, y as int, op),
        _ => None,
    }
}

/// A comparison of two present values.
pub open spec fn cmp_value(x: int, y: int, op: CmpOp) -> bool {
    match op {
        CmpOp::Eq => x == y,
        CmpOp::Ne => x != y,
        CmpOp::Gt => x > y,
        CmpOp::Gte => x >= y,
        CmpOp::Lt => x < y,
        CmpOp::Lte => x <= y,
    }
}

/// A comparison of two cells. A missing operand acts as NaN would: every
/// comparison is false but inequality, which is true.
pub open spec fn cmp_cell(a: Option<i64>, b: Option<i64>, op: CmpOp) -> bool {
    match (a, b) {
        (Some(x), Some(y)) => cmp_value(x as int, y as int, op),
        _ => op == CmpOp::Ne,
    }
}

/// A cell with a missing value replaced by `value`.
pub open spec fn fill_cell(c: Option<i64>, value: i64) -> Option<i64> {
    match c {
        Some(x) => Some(x),
        None => Some(value),
    }
}

/// A sequence of cells with every missing value replaced by `value`.
pub open spec fn filled(s: Seq<Option<i64>>, value: i64) -> Seq<Option<i64>> {
    Seq::new(s.len(), |i: int| fill_cell(s[i], value))
}

/// Filling the missing values a second time changes nothing.
pub proof fn lemma_fill_missing_idempotent(s: Seq<Option<i64>>, value: i64)
    ensures
        filled(filled(s, value), value) == filled(s, value),
{
    assert(filled(filled(s, value), value) =~= filled(s, value));
}

/// A fixed-length sequence of nullable integers, index 0 the oldest.
#[derive(Clone, Debug)]
pub struct Series {
    pub cells: Vec<Option<i64>>,
}

impl View for Series {
    type V = Seq<Option<i64>>;

    open spec fn view(&self) -> Seq<Option<i64>> {
        self.cells@
    }
}

/// Divides rounding toward zero; `b` is not zero.
pub fn div_toward_zero(a: i128, b: i128) -> (q: i128)
    requires
        b != 0,
        a > i128::MIN,
        b > i128::MIN,
    ensures
        q == trunc_div(a as int, b as int),
{
    let ua: u128 = if a < 0 { (-a) as u128 } else { a as u128 };
    let ub: u128 = if b < 0 { (-b) as u128 } else { b as u128 };
    let uq: u128 = ua / ub;
    assert(uq <= ua) by (nonlinear_arith)
        requires ub >= 1, uq == ua / ub;
    if (a < 0) != (b < 0) {
        -(uq as i128)
    } else {
        uq as i128
    }
}

/// A cell with a missing value replaced by `value`.
pub fn fill_cell_exec(c: Option<i64>, value: i64) -> (r: Option<i64>)
    ensures
        r == fill_cell(c, value),
{
    match c {
        Some(x) => Some(x),
        None => Some(value),
    }
}

/// The cell of an `i128` result.
pub fn to_cell(x: i128) -> (r: Option<i64>)
    ensures
        r == cell(x as int),
{
    if i64::MIN as i128 <= x && x <= i64::MAX as i128 {
        Some(x as i64)
    } else {
        None
    }
}

/// An arithmetic operator on two cells.
pub fn arith(a: Option<i64>, b: Option<i64>, op: ArithOp) -> (r: Option<i64>)
    ensures
        r == arith_cell(a, b, op),
{
    match (a, b) {
        (Some(x), Some(y)) => {
            let (x, y) = (x as i128, y as i128);
            match op {
                ArithOp::Add => to_cell(x + y),
                ArithOp::Sub => to_cell(x - y),
                ArithOp::Mul => {
                    assert(-0x4000_0000_0000_0000_0000_0000_0000_0000 <= x * y
                        <= 0x4000_0000_0000_0000_0000_0000_0000_0000) by (nonlinear_arith)
                        requires
                            -0x8000_0000_0000_0000 <= x <= 0x7fff_ffff_ffff_ffff,
                            -0x8000_0000_0000_0000 <= y <= 0x7fff_ffff_ffff_ffff,
                    ;
                    to_cell(x * y)
                },
                ArithOp::Div => {
                    if y == 0 {
                        None
                    } else {
                        to_cell(div_toward_zero(x, y))
                    }
                },
            }
        },
        _ => None,
    }
}

/// A comparison of two cells, under the NaN rule of `cmp_cell`.
pub fn compare_cells(a: Option<i64>, b: Option<i64>, op: CmpOp) -> (r: bool)
    ensures
        r == cmp_cell(a, b, op),
{
    match (a, b) {
        (Some(x), Some(y)) => match op {
            CmpOp::Eq => x == y,
            CmpOp::Ne => x != y,
            CmpOp::Gt => x > y,
            CmpOp::Gte => x >= y,
            CmpOp::Lt => x < y,
            CmpOp::Lte => x <= y,
        },
        _ => op == CmpOp::Ne,
    }
}

impl Series {
    /// A series of the given cells.
    pub fn new(cells: Vec<Option<i64>>) -> (s: Series)
        ensures
            s@ == cells@,
    {
        Series { cells }
    }

    /// A series in which every value is present.
    pub fn from_values(values: &Vec<i64>) -> (s: Series)
        ensures
            s@.len() == values@.len(),
            forall|i: int| 0 <= i < values@.len() ==> s@[i] == Some(values@[i]),
    {
        let mut cells: Vec<Option<i64>> = Vec::with_capacity(values.len());
        let mut i: usize = 0;
        while i < values.len()
            invariant
                i <= values@.len(),
                cells@.len() == i,
                forall|j: int| 0 <= j < i ==> cells@[j] == Some(values@[j]),
            decreases values@.len() - i,
        {
            cells.push(Some(values[i]));
            i += 1;
        }
        Series { cells }
    }

    /// A series of `len` missing cells.
    pub fn empty(len: usize) -> (s: Series)
        ensures
            s@ == Seq::new(len as nat, |i: int| None::<i64>),
    {
        let mut cells: Vec<Option<i64>> = Vec::with_capacity(len);
        let mut i: usize = 0;
        while i < len
            invariant
                i <= len,
                cells@.len() == i,
                forall|j: int| 0 <= j < i ==> cells@[j] == None::<i64>,
            decreases len - i,
        {
            cells.push(None);
            i += 1;
        }
        let s = Series { cells };
        assert(s@ =~= Seq::new(len as nat, |i: int| None::<i64>));
        s
    }

    pub fn len(&self) -> (n: usize)
        ensures
            n == self@.len(),
    {
        self.cells.len()
    }

    /// The cell at `i`; `i` must be in range.
    pub fn get(&self, i: usize) -> (c: Option<i64>)
        requires
            i < self@.len(),
        ensures
            c == self@[i as int],
    {
        self.cells[i]
    }

    /// The cells as a vector.
    pub fn to_vec(&self) -> (v: Vec<Option<i64>>)
        ensures
            v@ == self@,
    {
        self.cells.clone()
    }

    /// Applies `op` position by position to two series of one length.
    pub fn zip_arith(&self, rhs: &Series, op: ArithOp) -> (r: Series)
        requires
            self@.len() == rhs@.len(),
        ensures
            r@.len() == self@.len(),
            forall|i: int| 0 <= i < self@.len() ==> r@[i] == arith_cell(self@[i], rhs@[i], op),
    {
        let mut cells: Vec<Option<i64>> = Vec::with_capacity(self.cells.len());
        let mut i: usize = 0;
        while i < self.cells.len()
            invariant
                self@.len() == rhs@.len(),
                i <= self@.len(),
                cells@.len() == i,
                forall|j: int| 0 <= j < i ==> cells@[j] == arith_cell(self@[j], rhs@[j], op),
            decreases self@.len() - i,
        {
            cells.push(arith(self.cells[i], rhs.cells[i], op));
            i += 1;
        }
        Series { cells }
    }

    /// Applies `op` between every cell and one scalar.
    pub fn scalar_arith(&self, rhs: i64, op: ArithOp) -> (r: Series)
        ensures
            r@.len() == self@.len(),
            forall|i: int| 0 <= i < self@.len() ==> r@[i] == arith_cell(self@[i], Some(rhs), op),
    {
        let mut cells: Vec<Option<i64>> = Vec::with_capacity(self.cells.len());
        let mut i: usize = 0;
        while i < self.cells.len()
            invariant
                i <= self@.len(),
                cells@.len() == i,
                forall|j: int| 0 <= j < i ==> cells@[j] == arith_cell(self@[j], Some(rhs), op),
            decreases self@.len() - i,
        {
            cells.push(arith(self.cells[i], Some(rhs), op));
            i += 1;
        }
        Series { cells }
    }

    pub fn add(&self, rhs: &Series) -> (r: Series)
        requires
            self@.len() == rhs@.len(),
        ensures
            r@.len() == self@.len(),
            forall|i: int|
                0 <= i < self@.len() ==> r@[i] == arith_cell(self@[i], rhs@[i], ArithOp::Add),
    {
        self.zip_arith(rhs, ArithOp::Add)
    }

    pub fn sub(&self, rhs: &Series) -> (r: Series)
        requires
            self@.len() == rhs@.len(),
        ensures
            r@.len() == self@.len(),
            forall|i: int|
                0 <= i < self@.len() ==> r@[i] == arith_cell(self@[i], rhs@[i], ArithOp::Sub),
    {
        self.zip_arith(rhs, ArithOp::Sub)
    }

    pub fn mul(&self, rhs: &Series) -> (r: Series)
        requires
            self@.len() == rhs@.len(),
        ensures
            r@.len() == self@.len(),
            forall|i: int|
                0 <= i < self@.len() ==> r@[i] == arith_cell(self@[i], rhs@[i], ArithOp::Mul),
    {
        self.zip_arith(rhs, ArithOp::Mul)
    }

    /// Division rounded toward zero; division by zero gives missing.
    pub fn div(&self, rhs: &Series) -> (r: Series)
        requires
            self@.len() == rhs@.len(),
        ensures
            r@.len() == self@.len(),
            forall|i: int|
                0 <= i < self@.len() ==> r@[i] == arith_cell(self@[i], rhs@[i], ArithOp::Div),
    {
        self.zip_arith(rhs, ArithOp::Div)
    }

    /// Absolute values; `i64::MIN`, whose absolute value does not fit, gives missing.
    pub fn abs(&self) -> (r: Series)
        ensures
            r@.len() == self@.len(),
            forall|i: int|
                0 <= i < self@.len() ==> r@[i] == match self@[i] {
                    Some(x) => cell(abs(x as int)),
                    None => None,
                },
    {
        let mut cells: Vec<Option<i64>> = Vec::with_capacity(self.cells.len());
        let mut i: usize = 0;
        while i < self.cells.len()
            invariant
                i <= self@.len(),
                cells@.len() == i,
                forall|j: int|
                    0 <= j < i ==> cells@[j] == match self@[j] {
                        Some(x) => cell(abs(x as int)),
                        None => None,
                    },
            decreases self@.len() - i,
        {
            let c = match self.cells[i] {
                Some(x) => if x < 0 { to_cell(-(x as i128)) } else { Some(x) },
                None => None,
            };
            cells.push(c);
            i += 1;
        }
        Series { cells }
    }

    /// Compares two series of one length position by position.
    pub fn compare(&self, rhs: &Series, op: CmpOp) -> (r: Vec<bool>)
        requires
            self@.len() == rhs@.len(),
        ensures
            r@.len() == self@.len(),
            forall|i: int| 0 <= i < self@.len() ==> r@[i] == cmp_cell(self@[i], rhs@[i], op),
    {
        let mut r: Vec<bool> = Vec::with_capacity(self.cells.len());
        let mut i: usize = 0;
        while i < self.cells.len()
            invariant
                self@.len() == rhs@.len(),
                i <= self@.len(),
                r@.len() == i,
                forall|j: int| 0 <= j < i ==> r@[j] == cmp_cell(self@[j], rhs@[j], op),
            decreases self@.len() - i,
        {
            r.push(compare_cells(self.cells[i], rhs.cells[i], op));
            i += 1;
        }
        r
    }

    /// Compares every cell with one scalar.
    pub fn compare_scalar(&self, rhs: i64, op: CmpOp) -> (r: Vec<bool>)
        ensures
            r@.len() == self@.len(),
            forall|i: int| 0 <= i < self@.len() ==> r@[i] == cmp_cell(self@[i], Some(rhs), op),
    {
        let mut r: Vec<bool> = Vec::with_capacity(self.cells.len());
        let mut i: usize = 0;
        while i < self.cells.len()
            invariant
                i <= self@.len(),
                r@.len() == i,
                forall|j: int| 0 <= j < i ==> r@[j] == cmp_cell(self@[j], Some(rhs), op),
            decreases self@.len() - i,
        {
            r.push(compare_cells(self.cells[i], Some(rhs), op));
            i += 1;
        }
        r
    }

    /// Whether each cell is equal to the scalar; a missing cell compares as NaN.
    pub fn seq(&self, rhs: i64) -> (r: Vec<bool>)
        ensures
            r@.len() == self@.len(),
            forall|i: int|
                0 <= i < self@.len() ==> r@[i] == cmp_cell(self@[i], Some(rhs), CmpOp::Eq),
    {
        self.compare_scalar(rhs, CmpOp::Eq)
    }

    /// Whether each cell is equal to the cell of `rhs` at the same position.
    pub fn eq(&self, rhs: &Series) -> (r: Vec<bool>)
        requires
            self@.len() == rhs@.len(),
        ensures
            r@.len() == self@.len(),
            forall|i: int|
                0 <= i < self@.len() ==> r@[i] == cmp_cell(self@[i], rhs@[i], CmpOp::Eq),
    {
        self.compare(rhs, CmpOp::Eq)
    }

    /// Whether each cell is not equal to the scalar; a missing cell compares as NaN.
    pub fn sne(&self, rhs: i64) -> (r: Vec<bool>)
        ensures
            r@.len() == self@.len(),
            forall|i: int|
                0 <= i < self@.len() ==> r@[i] == cmp_cell(self@[i], Some(rhs), CmpOp::Ne),
    {
        self.compare_scalar(rhs, CmpOp::Ne)
    }

    /// Whether each cell is not equal to the cell of `rhs` at the same position.
    pub fn ne(&self, rhs: &Series) -> (r: Vec<bool>)
        requires
            self@.len() == rhs@.len(),
        ensures
            r@.len() == self@.len(),
            forall|i: int|
                0 <= i < self@.len() ==> r@[i] == cmp_cell(self@[i], rhs@[i], CmpOp::Ne),
    {
        self.compare(rhs, CmpOp::Ne)
    }

    /// Whether each cell is greater than the scalar; a missing cell compares as NaN.
    pub fn sgt(&self, rhs: i64) -> (r: Vec<bool>)
        ensures
            r@.len() == self@.len(),
            forall|i: int|
                0 <= i < self@.len() ==> r@[i] == cmp_cell(self@[i], Some(rhs), CmpOp::Gt),
    {
        self.compare_scalar(rhs, CmpOp::Gt)
    }

    /// Whether each cell is greater than the cell of `rhs` at the same position.
    pub fn gt(&self, rhs: &Series) -> (r: Vec<bool>)
        requires
            self@.len() == rhs@.len(),
        ensures
            r@.len() == self@.len(),
            forall|i: int|
                0 <= i < self@.len() ==> r@[i] == cmp_cell(self@[i], rhs@[i], CmpOp::Gt),
    {
        self.compare(rhs, CmpOp::Gt)
    }

    /// Whether each cell is at least the scalar; a missing cell compares as NaN.
    pub fn sgte(&self, rhs: i64) -> (r: Vec<bool>)
        ensures
            r@.len() == self@.len(),
            forall|i: int|
                0 <= i < self@.len() ==> r@[i] == cmp_cell(self@[i], Some(rhs), CmpOp::Gte),
    {
        self.compare_scalar(rhs, CmpOp::Gte)
    }

    /// Whether each cell is at least the cell of `rhs` at the same position.
    pub fn gte(&self, rhs: &Series) -> (r: Vec<bool>)
        requires
            self@.len() == rhs@.len(),
        ensures
            r@.len() == self@.len(),
            forall|i: int|
                0 <= i < self@.len() ==> r@[i] == cmp_cell(self@[i], rhs@[i], CmpOp::Gte),
    {
        self.compare(rhs, CmpOp::Gte)
    }

    /// Whether each cell is less than the scalar; a missing cell compares as NaN.
    pub fn slt(&self, rhs: i64) -> (r: Vec<bool>)
        ensures
            r@.len() == self@.len(),
            forall|i: int|
                0 <= i < self@.len() ==> r@[i] == cmp_cell(self@[i], Some(rhs), CmpOp::Lt),
    {
        self.compare_scalar(rhs, CmpOp::Lt)
    }

    /// Whether each cell is less than the cell of `rhs` at the same position.
    pub fn lt(&self, rhs: &Series) -> (r: Vec<bool>)
        requires
            self@.len() == rhs@.len(),
        ensures
            r@.len() == self@.len(),
            forall|i: int|
                0 <= i < self@.len() ==> r@[i] == cmp_cell(self@[i], rhs@[i], CmpOp::Lt),
    {
        self.compare(rhs, CmpOp::Lt)
    }

    /// Whether each cell is at most the scalar; a missing cell compares as NaN.
    pub fn slte(&self, rhs: i64) -> (r: Vec<bool>)
        ensures
            r@.len() == self@.len(),
            forall|i: int|
                0 <= i < self@.len() ==> r@[i] == cmp_cell(self@[i], Some(rhs), CmpOp::Lte),
    {
        self.compare_scalar(rhs, CmpOp::Lte)
    }

    /// Whether each cell is at most the cell of `rhs` at the same position.
    pub fn lte(&self, rhs: &Series) -> (r: Vec<bool>)
        requires
            self@.len() == rhs@.len(),
        ensures
            r@.len() == self@.len(),
            forall|i: int|
                0 <= i < self@.len() ==> r@[i] == cmp_cell(self@[i], rhs@[i], CmpOp::Lte),
    {
        self.compare(rhs, CmpOp::Lte)
    }

    /// The larger of the two cells at each position; missing on either side gives missing.
    pub fn max(&self, rhs: &Series) -> (r: Series)
        requires
            self@.len() == rhs@.len(),
        ensures
            r@.len() == self@.len(),
            forall|i: int|
                0 <= i < self@.len() ==> r@[i] == match (self@[i], rhs@[i]) {
                    (Some(x), Some(y)) => Some(if x >= y { x } else { y }),
                    _ => None,
                },
    {
        self.pairwise_extreme(rhs, true)
    }

    /// The smaller of the two cells at each position; missing on either side gives missing.
    pub fn min(&self, rhs: &Series) -> (r: Series)
        requires
            self@.len() == rhs@.len(),
        ensures
            r@.len() == self@.len(),
            forall|i: int|
                0 <= i < self@.len() ==> r@[i] == match (self@[i], rhs@[i]) {
                    (Some(x), Some(y)) => Some(if x <= y { x } else { y }),
                    _ => None,
                },
    {
        self.pairwise_extreme(rhs, false)
    }

    fn pairwise_extreme(&self, rhs: &Series, larger: bool) -> (r: Series)
        requires
            self@.len() == rhs@.len(),
        ensures
            r@.len() == self@.len(),
            forall|i: int|
                0 <= i < self@.len() ==> r@[i] == match (self@[i], rhs@[i]) {
                    (Some(x), Some(y)) => Some(
                        if larger {
                            if x >= y { x } else { y }
                        } else {
                            if x <= y { x } else { y }
                        },
                    ),
                    _ => None,
                },
    {
        let len = self.cells.len();
        let mut cells: Vec<Option<i64>> = Vec::with_capacity(len);
        let mut i: usize = 0;
        while i < len
            invariant
                len == self@.len(),
                rhs@.len() == len,
                i <= len,
                cells@.len() == i,
                forall|j: int|
                    0 <= j < i ==> cells@[j] == match (self@[j], rhs@[j]) {
                        (Some(x), Some(y)) => Some(
                            if larger {
                                if x >= y { x } else { y }
                            } else {
                                if x <= y { x } else { y }
                            },
                        ),
                        _ => None,
                    },
            decreases len - i,
        {
            let c = match (self.cells[i], rhs.cells[i]) {
                (Some(x), Some(y)) => Some(
                    if larger {
                        if x >= y { x } else { y }
                    } else {
                        if x <= y { x } else { y }
                    },
                ),
                _ => None,
            };
            cells.push(c);
            i += 1;
        }
        Series { cells }
    }

    /// Moves every cell `n` positions later; the first `n` positions are missing.
    pub fn shift(&self, n: usize) -> (r: Series)
        ensures
            r@.len() == self@.len(),
            forall|i: int| 0 <= i < self@.len() && i < n ==> r@[i] == None::<i64>,
            forall|i: int| 0 <= i < self@.len() && i >= n ==> r@[i] == self@[i - n],
    {
        let len = self.cells.len();
        let mut cells: Vec<Option<i64>> = Vec::with_capacity(len);
        let mut i: usize = 0;
        while i < len
            invariant
                len == self@.len(),
                i <= len,
                cells@.len() == i,
                forall|j: int| 0 <= j < i && j < n ==> cells@[j] == None::<i64>,
                forall|j: int| 0 <= j < i && j >= n ==> cells@[j] == self@[j - n],
            decreases len - i,
        {
            if i < n {
                cells.push(None);
            } else {
                cells.push(self.cells[i - n]);
            }
            i += 1;
        }
        Series { cells }
    }

    /// The difference between each cell and the cell `n` positions earlier.
    pub fn change(&self, n: usize) -> (r: Series)
        ensures
            r@.len() == self@.len(),
            forall|i: int| 0 <= i < self@.len() && i < n ==> r@[i] == None::<i64>,
            forall|i: int|
                0 <= i < self@.len() && i >= n ==> r@[i] == arith_cell(
                    self@[i],
                    self@[i - n],
                    ArithOp::Sub,
                ),
    {
        let prev = self.shift(n);
        self.sub(&prev)
    }

    /// Replaces the missing cells by `value`, and keeps the others.
    pub fn fill_missing(&self, value: i64) -> (r: Series)
        ensures
            r@ == filled(self@, value),
    {
        let len = self.cells.len();
        let mut cells: Vec<Option<i64>> = Vec::with_capacity(len);
        let mut i: usize = 0;
        while i < len
            invariant
                len == self@.len(),
                i <= len,
                cells@.len() == i,
                forall|j: int| 0 <= j < i ==> cells@[j] == fill_cell(self@[j], value),
            decreases len - i,
        {
            cells.push(fill_cell_exec(self.cells[i], value));
            i += 1;
        }
        let r = Series { cells };
        assert(r@ =~= filled(self@, value));
        r
    }

    /// Whether each cell is missing.
    pub fn na(&self) -> (r: Vec<bool>)
        ensures
            r@.len() == self@.len(),
            forall|i: int| 0 <= i < self@.len() ==> r@[i] == self@[i].is_none(),
    {
        let len = self.cells.len();
        let mut r: Vec<bool> = Vec::with_capacity(len);
        let mut i: usize = 0;
        while i < len
            invariant
                len == self@.len(),
                i <= len,
                r@.len() == i,
                forall|j: int| 0 <= j < i ==> r@[j] == self@[j].is_none(),
            decreases len - i,
        {
            r.push(self.cells[i].is_none());
            i += 1;
        }
        r
    }
}

} // verus!
