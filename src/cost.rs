use vstd::prelude::*;

verus! {

/// An estimated path cost `steps + sqrt(dist_sq)`, held exactly: the number of unit
/// moves taken so far and the squared straight-line distance that remains.
#[derive(Debug, Clone, Copy, PartialEq, Eq, Structural)]
pub struct Estimate {
    pub steps: u64,
    pub dist_sq: u64,
}

/// Whether `sqrt(p) < d + sqrt(q)` for integers `p, q >= 0`, decided by squaring
/// both sides where they are non-negative.
pub open spec fn sqrt_lt_shifted(p: int, d: int, q: int) -> bool {
    if d >= 0 {
        let m = p - d * d - q;
        m < 0 || m * m < 4 * d * d * q
    } else {
        let e = -d;
        let m = q - p - e * e;
        m > 0 && 4 * e * e * p < m * m
    }
}

/// Whether estimate `a` is strictly smaller than estimate `b` as real numbers:
/// `a.steps + sqrt(a.dist_sq) < b.steps + sqrt(b.dist_sq)`.
pub open spec fn estimate_lt(a: Estimate, b: Estimate) -> bool {
    sqrt_lt_shifted(a.dist_sq as int, b.steps - a.steps, b.dist_sq as int)
}

/// An unknown cost (`None`) stands for positive infinity.
pub open spec fn cost_lt(a: Option<Estimate>, b: Option<Estimate>) -> bool {
    match (a, b) {
        (Some(x), Some(y)) => estimate_lt(x, y),
        (Some(_), None) => true,
        (None, _) => false,
    }
}

/// The largest step count and squared distance that comparisons handle.
pub const MAX_STEPS: u64 = 0x8000_0000;

pub const MAX_DIST_SQ: u64 = 0x4000_0000_0000_0000;

impl Estimate {
    /// Both parts are within the range that comparisons handle.
    pub open spec fn bounded(self) -> bool {
        self.steps <= MAX_STEPS && self.dist_sq <= MAX_DIST_SQ
    }

    /// Strict comparison of two estimates as real numbers.
    pub fn less_than(&self, other: &Estimate) -> (r: bool)
        requires
            self.bounded(),
            other.bounded(),
        ensures
            r == estimate_lt(*self, *other),
    {
        let p: i128 = self.dist_sq as i128;
        let q: i128 = other.dist_sq as i128;
        let d: i128 = other.steps as i128 - self.steps as i128;
        if d >= 0 {
            assert(d * d <= 0x4000_0000_0000_0000) by (nonlinear_arith)
                requires 0 <= d <= 0x8000_0000;
            assert(d * d >= 0) by (nonlinear_arith);
            let dd: i128 = d * d;
            let m: i128 = p - dd - q;
            if m < 0 {
                true
            } else {
                assert(m * m <= 0x1000_0000_0000_0000_0000_0000_0000_0000) by (nonlinear_arith)
                    requires 0 <= m <= 0x4000_0000_0000_0000;
                assert(4 * dd * q <= 0x4000_0000_0000_0000_0000_0000_0000_0000) by (nonlinear_arith)
                    requires 0 <= dd <= 0x4000_0000_0000_0000, 0 <= q <= 0x4000_0000_0000_0000;
                assert(4 * dd * q == 4 * d * d * q) by (nonlinear_arith)
                    requires dd == d * d;
                m * m < 4 * dd * q
            }
        } else {
            let e: i128 = -d;
            assert(e * e <= 0x4000_0000_0000_0000) by (nonlinear_arith)
                requires 0 < e <= 0x8000_0000;
            assert(e * e >= 0) by (nonlinear_arith);
            let ee: i128 = e * e;
            let m: i128 = q - p - ee;
            if m <= 0 {
                false
            } else {
                assert(m * m <= 0x1000_0000_0000_0000_0000_0000_0000_0000) by (nonlinear_arith)
                    requires 0 < m <= 0x4000_0000_0000_0000;
                assert(4 * ee * p <= 0x4000_0000_0000_0000_0000_0000_0000_0000) by (nonlinear_arith)
                    requires 0 <= ee <= 0x4000_0000_0000_0000, 0 <= p <= 0x4000_0000_0000_0000;
                assert(4 * ee * p == 4 * e * e * p) by (nonlinear_arith)
                    requires ee == e * e;
                4 * ee * p < m * m
            }
        }
    }
}

/// Strict comparison of two possibly unknown costs, unknown being infinite.
pub fn cost_less_than(a: &Option<Estimate>, b: &Option<Estimate>) -> (r: bool)
    requires
        a matches Some(x) ==> x.bounded(),
        b matches Some(y) ==> y.bounded(),
    ensures
        r == cost_lt(*a, *b),
{
    match (a, b) {
        (Some(x), Some(y)) => x.less_than(y),
        (Some(_), None) => true,
        (None, _) => false,
    }
}

} // verus!
