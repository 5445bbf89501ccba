//! The share of a break that is credited.

use vstd::prelude::*;

verus! {

/// The denominator of every factor: factors are counted in millionths.
pub const FACTOR_ONE: u32 = 1_000_000;

/// The number of decimal places that a factor can carry.
pub const FACTOR_PLACES: usize = 6;

/// A positive fraction of at most one, held as a number of millionths.
#[derive(Clone, Copy, Debug, PartialEq, Eq, Structural)]
pub struct Factor {
    pub millionths: u32,
}

impl Factor {
    /// A factor is well formed when it is more than nothing and at most one.
    pub open spec fn wf(self) -> bool {
        0 < self.millionths <= FACTOR_ONE
    }

    /// The factor of `millionths` millionths, if that lies in the range.
    pub fn new(millionths: u32) -> (r: Option<Factor>)
        ensures
            r == (if 0 < millionths <= FACTOR_ONE {
                Some(Factor { millionths })
            } else {
                None
            }),
    {
        if 0 < millionths && millionths <= FACTOR_ONE {
            Some(Factor { millionths })
        } else {
            None
        }
    }

    /// Whether this factor is well formed.
    pub fn is_valid(&self) -> (r: bool)
        ensures
            r == self.wf(),
    {
        0 < self.millionths && self.millionths <= FACTOR_ONE
    }

    /// Whether this factor credits the whole break.
    pub fn is_one(&self) -> (r: bool)
        ensures
            r == (self.millionths == FACTOR_ONE),
    {
        self.millionths == FACTOR_ONE
    }
}

} // verus!
