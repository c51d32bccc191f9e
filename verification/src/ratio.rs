//! Exact rational coordinates.
//!
//! Scene space is the square `[-1, 1] x [-1, 1]`; tile edges and viewport
//! edges are all ratios of machine integers, so every geometric test the
//! level-of-detail pass makes can be exact instead of floating-point.

use vstd::prelude::*;

verus! {

/// A rational number `num / den` with a positive denominator.
#[derive(Debug, Clone, Copy, PartialEq, Eq, Structural)]
pub struct Ratio {
    pub num: i64,
    pub den: i64,
}

impl Ratio {
    /// A ratio is well formed when its denominator is positive.
    pub open spec fn wf(self) -> bool {
        self.den > 0
    }

    /// `self < other`, by cross multiplication.
    pub open spec fn spec_lt(self, other: Ratio) -> bool {
        self.num * other.den < other.num * self.den
    }

    /// `self <= other`, by cross multiplication.
    pub open spec fn spec_le(self, other: Ratio) -> bool {
        self.num * other.den <= other.num * self.den
    }

    pub fn new(num: i64, den: i64) -> (r: Ratio)
        requires
            den > 0,
        ensures
            r.num == num,
            r.den == den,
            r.wf(),
    {
        Ratio { num, den }
    }

    /// Strict comparison of two rationals.
    pub fn lt(&self, other: &Ratio) -> (r: bool)
        requires
            self.wf(),
            other.wf(),
        ensures
            r == self.spec_lt(*other),
    {
        let an: i128 = self.num as i128;
        let ad: i128 = self.den as i128;
        let bn: i128 = other.num as i128;
        let bd: i128 = other.den as i128;
        proof {
            lemma_i64_product_fits(an as int, bd as int);
            lemma_i64_product_fits(bn as int, ad as int);
        }
        an * bd < bn * ad
    }
}

/// The product of two values of `i64` range fits comfortably in `i128`.
proof fn lemma_i64_product_fits(x: int, y: int)
    requires
        -0x8000_0000_0000_0000 <= x <= 0x7fff_ffff_ffff_ffff,
        -0x8000_0000_0000_0000 <= y <= 0x7fff_ffff_ffff_ffff,
    ensures
        -0x8000_0000_0000_0000_0000_0000_0000_0000 <= x * y,
        x * y <= 0x7fff_ffff_ffff_ffff_ffff_ffff_ffff_ffff,
{
    assert(-0x8000_0000_0000_0000_0000_0000_0000_0000 <= x * y
        <= 0x7fff_ffff_ffff_ffff_ffff_ffff_ffff_ffff) by (nonlinear_arith)
        requires
            -0x8000_0000_0000_0000 <= x <= 0x7fff_ffff_ffff_ffff,
            -0x8000_0000_0000_0000 <= y <= 0x7fff_ffff_ffff_ffff,
    {
    }
}

/// From `a <= b` and `b < c` conclude `a < c`.
pub proof fn lemma_rat_le_lt_trans(a: Ratio, b: Ratio, c: Ratio)
    requires
        a.wf(),
        b.wf(),
        c.wf(),
        a.spec_le(b),
        b.spec_lt(c),
    ensures
        a.spec_lt(c),
{
    assert(a.num * c.den < c.num * a.den) by (nonlinear_arith)
        requires
            a.den > 0,
            b.den > 0,
            c.den > 0,
            a.num * b.den <= b.num * a.den,
            b.num * c.den < c.num * b.den,
    {
    }
}

/// From `a < b` and `b <= c` conclude `a < c`.
pub proof fn lemma_rat_lt_le_trans(a: Ratio, b: Ratio, c: Ratio)
    requires
        a.wf(),
        b.wf(),
        c.wf(),
        a.spec_lt(b),
        b.spec_le(c),
    ensures
        a.spec_lt(c),
{
    assert(a.num * c.den < c.num * a.den) by (nonlinear_arith)
        requires
            a.den > 0,
            b.den > 0,
            c.den > 0,
            a.num * b.den < b.num * a.den,
            b.num * c.den <= c.num * b.den,
    {
    }
}

} // verus!
