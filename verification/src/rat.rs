//! Exact rational scalars.
//!
//! The intersection engine works over exact rational arithmetic instead of
//! floating point: every ray parameter `t` and every derived coordinate is a
//! fraction `num / den` with a positive denominator.  Comparisons are decided
//! exactly by cross-multiplication in 128-bit arithmetic, which can never
//! overflow for 64-bit operands, so the order on `Rat` is total and needs no
//! preconditions.

use vstd::prelude::*;

verus! {

/// An exact rational number `num / den`.  Well-formed values have `den > 0`.
#[derive(Clone, Copy, Debug)]
pub struct Rat {
    pub num: i64,
    pub den: i64,
}

impl Rat {
    /// Well-formedness: a positive denominator, so that the cross-multiplied
    /// comparisons below agree with the order on the represented fractions.
    pub open spec fn wf(self) -> bool {
        self.den > 0
    }

    /// `self <= other` as fractions (meaningful when both are well-formed).
    pub open spec fn spec_le(self, other: Rat) -> bool {
        self.num * other.den <= other.num * self.den
    }

    /// `self < other` as fractions.
    pub open spec fn spec_lt(self, other: Rat) -> bool {
        self.num * other.den < other.num * self.den
    }

    /// `self == other` as fractions (`2/4` equals `1/2`).
    pub open spec fn spec_eq(self, other: Rat) -> bool {
        self.num * other.den == other.num * self.den
    }

    /// The fraction `num / den`.
    pub fn new(num: i64, den: i64) -> (r: Rat)
        requires
            den > 0,
        ensures
            r == (Rat { num, den }),
            r.wf(),
    {
        Rat { num, den }
    }

    /// The integer `n` as a rational.
    pub fn from_int(n: i64) -> (r: Rat)
        requires
            true,
        ensures
            r == (Rat { num: n, den: 1 }),
            r.wf(),
    {
        Rat { num: n, den: 1 }
    }

    /// Exact comparison `self <= other`.
    pub fn le(&self, other: &Rat) -> (r: bool)
        requires
            true,
        ensures
            r == self.spec_le(*other),
    {
        wide_mul(self.num, other.den) <= wide_mul(other.num, self.den)
    }

    /// Exact comparison `self < other`.
    pub fn lt(&self, other: &Rat) -> (r: bool)
        requires
            true,
        ensures
            r == self.spec_lt(*other),
    {
        wide_mul(self.num, other.den) < wide_mul(other.num, self.den)
    }

    /// Exact equality of the represented fractions.
    pub fn eq_rat(&self, other: &Rat) -> (r: bool)
        requires
            true,
        ensures
            r == self.spec_eq(*other),
    {
        wide_mul(self.num, other.den) == wide_mul(other.num, self.den)
    }
}

/// The full product of two 64-bit integers, computed without overflow.
pub fn wide_mul(a: i64, b: i64) -> (r: i128)
    requires
        true,
    ensures
        r == a as int * b as int,
{
    proof {
        lemma_abs_mul_le(a as int, b as int, 0x8000_0000_0000_0000, 0x8000_0000_0000_0000);
    }
    (a as i128) * (b as i128)
}

/// Bound on a product from bounds on its factors.
pub proof fn lemma_abs_mul_le(x: int, y: int, bx: int, by: int)
    by (nonlinear_arith)
    requires
        -bx <= x <= bx,
        -by <= y <= by,
        0 <= bx,
        0 <= by,
    ensures
        -(bx * by) <= x * y <= bx * by,
{
}

/// Transitivity of `<=` on fractions with positive denominators.
pub proof fn lemma_frac_le_trans(n1: int, d1: int, n2: int, d2: int, n3: int, d3: int)
    by (nonlinear_arith)
    requires
        d1 > 0,
        d2 > 0,
        d3 > 0,
        n1 * d2 <= n2 * d1,
        n2 * d3 <= n3 * d2,
    ensures
        n1 * d3 <= n3 * d1,
{
}

/// `a <= b` and `b < c` give `a < c` on fractions.
pub proof fn lemma_frac_le_lt_trans(n1: int, d1: int, n2: int, d2: int, n3: int, d3: int)
    by (nonlinear_arith)
    requires
        d1 > 0,
        d2 > 0,
        d3 > 0,
        n1 * d2 <= n2 * d1,
        n2 * d3 < n3 * d2,
    ensures
        n1 * d3 < n3 * d1,
{
}

/// `a < b` and `b <= c` give `a < c` on fractions.
pub proof fn lemma_frac_lt_le_trans(n1: int, d1: int, n2: int, d2: int, n3: int, d3: int)
    by (nonlinear_arith)
    requires
        d1 > 0,
        d2 > 0,
        d3 > 0,
        n1 * d2 < n2 * d1,
        n2 * d3 <= n3 * d2,
    ensures
        n1 * d3 < n3 * d1,
{
}

/// Multiplying by a non-negative factor preserves `<=`.
pub proof fn lemma_mul_le_right(x: int, y: int, p: int)
    by (nonlinear_arith)
    requires
        x <= y,
        p >= 0,
    ensures
        x * p <= y * p,
{
}

/// The floor of the square root of a non-negative integer.
pub open spec fn spec_isqrt(n: int) -> int
    decreases n,
{
    if n <= 0 {
        0
    } else {
        let r = spec_isqrt(n - 1);
        if (r + 1) * (r + 1) <= n {
            r + 1
        } else {
            r
        }
    }
}

/// `spec_isqrt` is the floor square root.
pub proof fn lemma_isqrt_bounds(n: int)
    requires
        n >= 0,
    ensures
        0 <= spec_isqrt(n),
        spec_isqrt(n) * spec_isqrt(n) <= n,
        n < (spec_isqrt(n) + 1) * (spec_isqrt(n) + 1),
    decreases n,
{
    if n == 0 {
        assert(spec_isqrt(0) == 0);
    } else {
        lemma_isqrt_bounds(n - 1);
        let r = spec_isqrt(n - 1);
        if (r + 1) * (r + 1) <= n {
            assert(n - 1 < (r + 1) * (r + 1));
            assert(n < (r + 2) * (r + 2)) by (nonlinear_arith)
                requires
                    n <= (r + 1) * (r + 1),
                    r >= 0,
            ;
        } else {
            assert(r * r <= n - 1);
        }
    }
}

/// The floor square root is unique.
pub proof fn lemma_isqrt_unique(n: int, r: int)
    requires
        n >= 0,
        r >= 0,
        r * r <= n,
        n < (r + 1) * (r + 1),
    ensures
        r == spec_isqrt(n),
{
    lemma_isqrt_bounds(n);
    let s = spec_isqrt(n);
    assert(r == s) by (nonlinear_arith)
        requires
            r >= 0,
            s >= 0,
            r * r <= n,
            n < (r + 1) * (r + 1),
            s * s <= n,
            n < (s + 1) * (s + 1),
    ;
}

/// Floor square root of `n`, by binary search.
pub fn isqrt(n: u128) -> (r: u64)
    requires
        n < 0x1_0000_0000_0000_0000_0000_0000,
    ensures
        r as int == spec_isqrt(n as int),
        r < 0x1_0000_0000_0000,
{
    let mut lo: u128 = 0;
    let mut hi: u128 = 0x1_0000_0000_0000;
    proof {
        assert(hi * hi == 0x1_0000_0000_0000_0000_0000_0000) by (nonlinear_arith)
            requires
                hi == 0x1_0000_0000_0000,
        ;
    }
    while lo + 1 < hi
        invariant
            lo < hi,
            hi <= 0x1_0000_0000_0000,
            lo * lo <= n,
            n < hi * hi,
        decreases hi - lo,
    {
        let mid = lo + (hi - lo) / 2;
        assert(lo < mid < hi);
        proof {
            assert((mid as int) * (mid as int) < 0x1_0000_0000_0000_0000_0000_0000) by (nonlinear_arith)
                requires
                    0 <= mid as int,
                    (mid as int) < 0x1_0000_0000_0000,
            ;
        }
        let sq = mid * mid;
        if sq <= n {
            lo = mid;
        } else {
            hi = mid;
        }
    }
    proof {
        assert(hi == lo + 1);
        lemma_isqrt_unique(n as int, lo as int);
    }
    lo as u64
}

} // verus!
