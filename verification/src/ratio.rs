//! Exact quotients of counts.

use vstd::prelude::*;

verus! {

/// A quotient of two counts, kept exact.
#[derive(Debug, Clone, Copy, PartialEq, Eq, Structural)]
pub struct Ratio {
    pub numerator: usize,
    pub denominator: usize,
}

impl Ratio {
    /// The quotient is defined and lies between zero and one.
    pub open spec fn is_fraction(self) -> bool {
        self.numerator <= self.denominator && self.denominator > 0
    }

    /// One, as one over one.
    pub open spec fn one() -> Ratio {
        Ratio { numerator: 1, denominator: 1 }
    }

    /// Zero, as none over one.
    pub open spec fn zero() -> Ratio {
        Ratio { numerator: 0, denominator: 1 }
    }
}

} // verus!
