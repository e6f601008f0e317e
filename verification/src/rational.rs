//! Exact rational values for the observables. Spins map to +1 / -1 and the
//! physical parameters are integers, so magnetization, correlation and the
//! section values of the sheaf are exact rationals; carrying them as a
//! numerator/denominator pair avoids floating point entirely. Values are not
//! reduced to lowest terms: all values of one model snapshot come out of the
//! same formulas, so the sheaf compares them representation for
//! representation, which is exact.

use vstd::prelude::*;

verus! {

/// Magnitude bound on the numerator and denominator of a well-formed
/// rational. A machine limit: it keeps the cross products that comparisons
/// form inside `i128`. Every value the library produces stays far below it.
pub const RAT_LIMIT: i128 = 0x8000_0000_0000_0000_0000_0000;

/// An exact rational number with a positive denominator.
#[derive(Clone, Copy, Debug, PartialEq, Eq, Structural)]
pub struct Rational {
    pub num: i128,
    pub den: i128,
}

impl Rational {
    /// Well-formedness: positive denominator, both parts within the machine
    /// limit.
    pub open spec fn wf(self) -> bool {
        &&& 1 <= self.den <= RAT_LIMIT
        &&& -RAT_LIMIT <= self.num <= RAT_LIMIT
    }

    /// The whole number `n`, as a rational.
    pub fn from_int(n: i64) -> (r: Rational)
        ensures
            r.num == n,
            r.den == 1,
            r.wf(),
    {
        Rational { num: n as i128, den: 1 }
    }

    /// Whether this rational equals the whole number `k`.
    pub fn equals_int(&self, k: i32) -> (r: bool)
        requires
            self.wf(),
        ensures
            r == (self.num == (k as int) * (self.den as int)),
    {
        proof {
            assert((k as int) * (self.den as int) <= 0x8000_0000 * RAT_LIMIT
                && (k as int) * (self.den as int) >= -0x8000_0000 * RAT_LIMIT) by (nonlinear_arith)
                requires
                    -0x8000_0000 <= k as int <= 0x8000_0000,
                    1 <= self.den <= RAT_LIMIT,
            ;
        }
        self.num == (k as i128) * self.den
    }
}

} // verus!
