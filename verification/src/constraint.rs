//! Size constraints: how much of its parent's extent along the split axis a
//! child node should receive, and the options a composite node applies to the
//! split as a whole.

use vstd::prelude::*;

verus! {

/// A sizing rule for one child along its parent's split axis.
#[derive(Clone, Copy, PartialEq, Eq, Structural, Debug)]
pub enum Constraint {
    /// At least `n` cells; shares any extent left after the fixed demands.
    Min(u16),
    /// At most `n` cells; shares leftover extent, but never grows past `n`.
    Max(u16),
    /// `p` percent of the parent's extent, rounded down.
    Percentage(u16),
    /// Exactly `n` cells.
    Length(u16),
}

impl Constraint {
    /// The constraint a child carries when none is given.
    pub fn unspecified() -> (c: Constraint)
        ensures
            c == Constraint::Min(0u16),
    {
        Constraint::Min(0)
    }

    /// Constraints that take a share of the extent left over once the fixed
    /// demands are met.
    pub open spec fn is_flexible(self) -> bool {
        self is Min || self is Max
    }
}

/// Options applied to a whole split.
#[derive(Clone, Copy, PartialEq, Eq, Structural, Debug)]
pub struct SplitOptions {
    /// Cells taken off every side of the region before it is divided.
    pub margin: u16,
}

impl Default for SplitOptions {
    fn default() -> (o: SplitOptions)
        ensures
            o.margin == 0,
    {
        SplitOptions { margin: 0 }
    }
}

} // verus!
