//! Exact positions of rows inside a measure.
use vstd::prelude::*;
use crate::exact::{coprime, lowest, ratio_lowest_terms};

verus! {

/// An exact fraction of a measure, in lowest terms and inside `[0, 1)`.
#[derive(Clone, Copy, Debug, PartialEq, Eq, Structural)]
pub struct Position {
    pub num: u64,
    pub den: u64,
}

impl Position {
    pub open spec fn wf(self) -> bool {
        &&& 0 < self.den
        &&& self.num < self.den
        &&& coprime(self.num as int, self.den as int)
    }

    /// The fraction `n / k` as a pair (numerator, denominator).
    pub open spec fn is_fraction(self, n: int, k: int) -> bool {
        self.num * k == n * self.den
    }

    /// The fraction `n / k` in lowest terms.
    pub fn of_row(n: u64, k: u64) -> (p: Position)
        requires
            n < k,
        ensures
            p.wf(),
            p.is_fraction(n as int, k as int),
            p.den <= k,
            (p.num as int, p.den as int) == lowest(n as int, k as int),
    {
        let (a, b) = ratio_lowest_terms(n as i128, k as i128);
        let ghost (ai, bi, ni, ki) = (a as int, b as int, n as int, k as int);
        assert(ai * ki == ni * bi);
        assert(0 <= ai < bi) by (nonlinear_arith)
            requires
                ai * ki == ni * bi,
                bi > 0,
                0 <= ni < ki,
        ;
        Position { num: a as u64, den: b as u64 }
    }
}

} // verus!
