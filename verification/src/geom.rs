//! Axis-aligned rectangles and per-tick velocities, with the strict
//! overlap predicate used for collision detection.

use vstd::prelude::*;

verus! {

/// An axis-aligned rectangle, y-down, in fixed-point units.
#[derive(Clone, Copy, PartialEq, Eq, Structural, Debug)]
pub struct Rect {
    pub pos_x: i64,
    pub pos_y: i64,
    pub size_x: i64,
    pub size_y: i64,
}

/// A rectangle is well formed when its extents are nonnegative.
pub open spec fn rect_wf(r: Rect) -> bool {
    r.size_x >= 0 && r.size_y >= 0
}

/// Scalar displacement applied once per tick.
#[derive(Clone, Copy, PartialEq, Eq, Structural, Debug)]
pub struct Vel {
    pub x: i64,
    pub y: i64,
}

/// Strict axis-aligned overlap: rectangles that merely touch along an
/// edge do not overlap.
pub open spec fn overlaps(a: Rect, b: Rect) -> bool {
    a.pos_x < b.pos_x + b.size_x && a.pos_x + a.size_x > b.pos_x && a.pos_y < b.pos_y + b.size_y
        && a.pos_y + a.size_y > b.pos_y
}

/// Executable overlap test, exact against `overlaps`.  The sums are
/// formed in `i128` so that no bound on the coordinates is needed.
pub fn rects_overlap(a: &Rect, b: &Rect) -> (r: bool)
    ensures
        r == overlaps(*a, *b),
{
    (a.pos_x as i128) < (b.pos_x as i128) + (b.size_x as i128) && (a.pos_x as i128) + (
    a.size_x as i128) > (b.pos_x as i128) && (a.pos_y as i128) < (b.pos_y as i128) + (
    b.size_y as i128) && (a.pos_y as i128) + (a.size_y as i128) > (b.pos_y as i128)
}

} // verus!
