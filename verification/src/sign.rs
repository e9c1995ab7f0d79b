//! The two-element sign group used by every blade product.

use vstd::prelude::*;

verus! {

/// A signed unit: `Pos` stands for `+1`, `Neg` for `-1`.
#[derive(Debug, Clone, Copy, PartialEq, Eq, Structural)]
pub enum Sign {
    Pos,
    Neg,
}

impl Sign {
    /// Group multiplication: equal signs give `Pos`, unequal give `Neg`.
    pub open spec fn spec_times(self, rhs: Sign) -> Sign {
        if self == rhs {
            Sign::Pos
        } else {
            Sign::Neg
        }
    }

    /// The opposite sign.
    pub open spec fn spec_flip(self) -> Sign {
        match self {
            Sign::Pos => Sign::Neg,
            Sign::Neg => Sign::Pos,
        }
    }

    pub fn times(self, rhs: Sign) -> (r: Sign)
        ensures
            r == self.spec_times(rhs),
    {
        match (self, rhs) {
            (Sign::Pos, Sign::Pos) => Sign::Pos,
            (Sign::Pos, Sign::Neg) => Sign::Neg,
            (Sign::Neg, Sign::Pos) => Sign::Neg,
            (Sign::Neg, Sign::Neg) => Sign::Pos,
        }
    }

    pub fn flip(self) -> (r: Sign)
        ensures
            r == self.spec_flip(),
    {
        match self {
            Sign::Pos => Sign::Neg,
            Sign::Neg => Sign::Pos,
        }
    }
}

} // verus!
