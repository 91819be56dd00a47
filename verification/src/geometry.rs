//! Rectangles on the drawing surface and the axis along which a composite
//! node divides its region among its children.

use vstd::prelude::*;

verus! {

/// A rectangle on the drawing surface: origin and size in character cells.
#[derive(Clone, Copy, PartialEq, Eq, Structural, Debug)]
pub struct Rect {
    pub x: u16,
    pub y: u16,
    pub width: u16,
    pub height: u16,
}

/// The axis along which a `Row` or `Column` splits its region.
#[derive(Clone, Copy, PartialEq, Eq, Structural, Debug)]
pub enum Direction {
    /// Children are laid out left to right (a `Row`).
    Horizontal,
    /// Children are laid out top to bottom (a `Column`).
    Vertical,
}

impl Rect {
    /// A rectangle is addressable when its far corner still has `u16`
    /// coordinates, so every cell inside it has a representable address.
    pub open spec fn wf(self) -> bool {
        self.x + self.width <= u16::MAX && self.y + self.height <= u16::MAX
    }

    /// The rectangle's extent along the given axis.
    pub open spec fn spec_extent(self, direction: Direction) -> int {
        match direction {
            Direction::Horizontal => self.width as int,
            Direction::Vertical => self.height as int,
        }
    }

    pub fn new(x: u16, y: u16, width: u16, height: u16) -> (r: Rect)
        requires
            x + width <= u16::MAX,
            y + height <= u16::MAX,
        ensures
            r == (Rect { x, y, width, height }),
    {
        Rect { x, y, width, height }
    }

    pub fn extent(self, direction: Direction) -> (e: u16)
        ensures
            e as int == self.spec_extent(direction),
    {
        match direction {
            Direction::Horizontal => self.width,
            Direction::Vertical => self.height,
        }
    }
}

/// The given rectangle shrunk by `margin` cells on each of its four sides;
/// a side too small to give up its margin collapses to zero extent.
pub open spec fn spec_inner_rect(region: Rect, margin: int) -> Rect {
    Rect {
        x: if region.x + margin <= u16::MAX { (region.x + margin) as u16 } else { u16::MAX },
        y: if region.y + margin <= u16::MAX { (region.y + margin) as u16 } else { u16::MAX },
        width: if region.width >= 2 * margin { (region.width - 2 * margin) as u16 } else { 0 },
        height: if region.height >= 2 * margin { (region.height - 2 * margin) as u16 } else { 0 },
    }
}

pub proof fn lemma_inner_rect_wf(region: Rect, margin: int)
    requires
        region.wf(),
        0 <= margin <= u16::MAX,
    ensures
        spec_inner_rect(region, margin).wf(),
{
}

pub fn inner_rect(region: Rect, margin: u16) -> (r: Rect)
    requires
        region.wf(),
    ensures
        r == spec_inner_rect(region, margin as int),
        r.wf(),
{
    let x = if region.x <= u16::MAX - margin { region.x + margin } else { u16::MAX };
    let y = if region.y <= u16::MAX - margin { region.y + margin } else { u16::MAX };
    let width = if margin <= u16::MAX / 2 && region.width >= 2 * margin {
        region.width - 2 * margin
    } else {
        0
    };
    let height = if margin <= u16::MAX / 2 && region.height >= 2 * margin {
        region.height - 2 * margin
    } else {
        0
    };
    Rect { x, y, width, height }
}

} // verus!
