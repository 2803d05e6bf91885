//! Axis-aligned rectangle overlap tests.
//!
//! A rectangle is a `(x, y, width, height)` tuple.  Two rectangles overlap
//! when their horizontal spans strictly overlap and their vertical spans
//! strictly overlap; rectangles that merely touch along an edge do not
//! count as overlapping.

use vstd::prelude::*;

verus! {

/// One on-screen rectangle: `(x, y, width, height)`.
pub type Rect = (i32, i32, i32, i32);

/// Strict axis-aligned overlap of two rectangles.
pub open spec fn overlapping(r1: Rect, r2: Rect) -> bool {
    &&& r1.0 < r2.0 + r2.2
    &&& r1.0 + r1.2 > r2.0
    &&& r1.1 < r2.1 + r2.3
    &&& r1.1 + r1.3 > r2.1
}

/// Returns true if `r1` and `r2` overlap.
pub fn intersects(r1: Rect, r2: Rect) -> (r: bool)
    ensures
        r == overlapping(r1, r2),
{
    let left_corner_inside = (r1.0 as i64) < (r2.0 as i64) + (r2.2 as i64);
    let right_corner_inside = (r1.0 as i64) + (r1.2 as i64) > (r2.0 as i64);
    let top_corner_inside = (r1.1 as i64) < (r2.1 as i64) + (r2.3 as i64);
    let bottom_corner_inside = (r1.1 as i64) + (r1.3 as i64) > (r2.1 as i64);
    left_corner_inside && right_corner_inside && top_corner_inside && bottom_corner_inside
}

} // verus!
