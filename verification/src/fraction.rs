use vstd::prelude::*;

verus! {

/// An exact ratio of two counts, kept unreduced.
///
/// The value it stands for is `num / den`; it is meaningful when `den > 0`.
#[derive(Clone, Copy, Debug, PartialEq, Eq, Structural)]
pub struct Fraction {
    pub num: usize,
    pub den: usize,
}

impl Fraction {
    /// `self <= other` as rationals, by cross-multiplication.
    pub open spec fn le(self, other: Fraction) -> bool {
        self.num * other.den <= other.num * self.den
    }

    /// The ratio equals exactly one.
    pub open spec fn is_one(self) -> bool {
        self.den > 0 && self.num == self.den
    }

    /// The ratio equals exactly zero.
    pub open spec fn is_zero(self) -> bool {
        self.den > 0 && self.num == 0
    }

    /// The ratio lies in the closed unit interval.
    pub open spec fn in_unit_interval(self) -> bool {
        self.den > 0 && self.num <= self.den
    }
}

} // verus!
