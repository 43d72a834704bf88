//! Lines with 64-bit coefficients and their saturating evaluation.

use vstd::prelude::*;

verus! {

/// A line `y = m * x + c`.
#[derive(Clone, Copy, Debug, PartialEq, Eq, Structural)]
pub struct Line {
    pub m: i64,
    pub c: i64,
}

/// The reserved value that marks a tree node as holding no line. It
/// evaluates to `i64::MAX` at every coordinate.
pub open spec fn no_line() -> Line {
    Line { m: 0, c: i64::MAX }
}

/// `v` clamped to the range of `i64`.
pub open spec fn saturate(v: int) -> int {
    if v < i64::MIN {
        i64::MIN as int
    } else if v > i64::MAX {
        i64::MAX as int
    } else {
        v
    }
}

impl Line {
    /// The value of the line at `x`: the product saturates, and then the sum.
    pub open spec fn value_at(self, x: int) -> int {
        saturate(saturate(self.m * x) + self.c)
    }

    pub fn new(m: i64, c: i64) -> (line: Line)
        ensures
            line == (Line { m, c }),
    {
        Line { m, c }
    }

    /// Whether this is the reserved value `no_line()`.
    pub fn is_no_line(&self) -> (b: bool)
        ensures
            b == (*self == no_line()),
    {
        self.m == 0 && self.c == i64::MAX
    }

    /// Evaluates the line at `x` with saturating arithmetic.
    pub fn eval(&self, x: i64) -> (y: i64)
        ensures
            y == self.value_at(x as int),
    {
        let m: i128 = self.m as i128;
        let wide_x: i128 = x as i128;
        assert(-0x4000_0000_0000_0000_0000_0000_0000_0000 <= m * wide_x
            <= 0x4000_0000_0000_0000_0000_0000_0000_0000) by (nonlinear_arith)
            requires
                -0x8000_0000_0000_0000 <= m <= 0x8000_0000_0000_0000,
                -0x8000_0000_0000_0000 <= wide_x <= 0x8000_0000_0000_0000,
        ;
        let product: i128 = clamp(m * wide_x);
        clamp(product + self.c as i128) as i64
    }
}

/// `v` clamped to the range of `i64`, in 128-bit arithmetic.
fn clamp(v: i128) -> (w: i128)
    ensures
        w == saturate(v as int),
{
    if v < i64::MIN as i128 {
        i64::MIN as i128
    } else if v > i64::MAX as i128 {
        i64::MAX as i128
    } else {
        v
    }
}

} // verus!
