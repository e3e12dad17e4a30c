//! Exact rational values in [0, 1].
//!
//! Metric values and threshold bounds are ratios of channel sums, so they are
//! represented exactly as a numerator over a positive denominator instead of
//! approximately as floating point. Comparisons cross-multiply, which is exact.

use vstd::prelude::*;

verus! {

/// A non-negative rational number `num / den` with `0 < den` and `num <= den`,
/// so its value lies in [0, 1].
#[derive(Clone, Copy, PartialEq, Eq, Structural, Debug)]
pub struct Ratio {
    pub num: u32,
    pub den: u32,
}

impl Ratio {
    /// Well-formed: a denominator that is positive and small enough that
    /// cross-multiplied comparisons fit in 64 bits, and a value in [0, 1].
    pub open spec fn wf(self) -> bool {
        0 < self.den <= 100_000 && self.num <= self.den
    }

    /// The value is exactly zero.
    pub open spec fn is_zero(self) -> bool {
        self.num == 0
    }

    pub fn new(num: u32, den: u32) -> (r: Ratio)
        requires
            0 < den <= 100_000,
            num <= den,
        ensures
            r == (Ratio { num, den }),
            r.wf(),
    {
        Ratio { num, den }
    }
}

/// `a < b` as rationals: `a.num / a.den < b.num / b.den`, by cross-multiplication.
pub open spec fn ratio_lt(a: Ratio, b: Ratio) -> bool {
    a.num * b.den < b.num * a.den
}

/// Exact rational comparison; the 64-bit products cannot overflow.
pub fn ratio_lt_exec(a: Ratio, b: Ratio) -> (r: bool)
    ensures
        r == ratio_lt(a, b),
{
    proof {
        assert((a.num as int) * (b.den as int) <= u32::MAX as int * u32::MAX as int)
            by (nonlinear_arith)
            requires a.num <= u32::MAX && b.den <= u32::MAX;
        assert((b.num as int) * (a.den as int) <= u32::MAX as int * u32::MAX as int)
            by (nonlinear_arith)
            requires b.num <= u32::MAX && a.den <= u32::MAX;
    }
    (a.num as u64) * (b.den as u64) < (b.num as u64) * (a.den as u64)
}

/// `a <= b` as rationals, by cross-multiplication.
pub open spec fn ratio_leq(a: Ratio, b: Ratio) -> bool {
    a.num * b.den <= b.num * a.den
}

/// `a == b` as rationals (equal values, possibly different representations).
pub open spec fn ratio_eq(a: Ratio, b: Ratio) -> bool {
    a.num * b.den == b.num * a.den
}

/// Equal rationals compare the same against any third rational.
pub proof fn lemma_ratio_eq_compat(a: Ratio, b: Ratio, c: Ratio)
    requires
        a.wf(),
        b.wf(),
        c.wf(),
        ratio_eq(a, b),
    ensures
        ratio_lt(a, c) == ratio_lt(b, c),
        ratio_lt(c, a) == ratio_lt(c, b),
        ratio_leq(a, c) == ratio_leq(b, c),
{
    assert((ratio_lt(a, c) == ratio_lt(b, c)) && (ratio_lt(c, a) == ratio_lt(c, b)) && (ratio_leq(
        a,
        c,
    ) == ratio_leq(b, c))) by (nonlinear_arith)
        requires
            0 < a.den,
            0 < b.den,
            0 < c.den,
            a.num * b.den == b.num * a.den,
    ;
}

/// The rational order is consistent: `a <= b` rules out `b < a`.
pub proof fn lemma_ratio_leq_not_lt(a: Ratio, b: Ratio)
    requires
        ratio_leq(a, b),
    ensures
        !ratio_lt(b, a),
{
}

} // verus!
