//! Integer geometry of monitors and windows in physical pixels.

use vstd::prelude::*;

verus! {

/// The point lies in the half-open rectangle at `(left, top)` of size
/// `width` x `height` (the extents taken as `i32`, as the window APIs hand
/// them over).
pub open spec fn rect_contains(left: i32, top: i32, width: u32, height: u32, x: i32, y: i32) -> bool {
    &&& left <= x
    &&& x < left + (width as i32)
    &&& top <= y
    &&& y < top + (height as i32)
}

/// Whether `(x, y)` lies in the rectangle: left and top edges included,
/// right and bottom edges excluded, compared on exact integers.
pub fn point_in_rect(left: i32, top: i32, width: u32, height: u32, x: i32, y: i32) -> (b: bool)
    ensures
        b == rect_contains(left, top, width, height, x, y),
{
    let w = width as i32;
    let h = height as i32;
    (left as i64) <= (x as i64) && (x as i64) < (left as i64) + (w as i64) && (top as i64) <= (y as i64)
        && (y as i64) < (top as i64) + (h as i64)
}

/// Allowance for the Dock at the bottom edge when the platform gives no work
/// area.
pub const DOCK_ALLOWANCE: u32 = 64;

/// Work area of a monitor rectangle `(x, y, w, h)` with the Dock allowance
/// taken off the bottom (never below zero height).
pub fn work_rect_without_dock(rect: (i32, i32, u32, u32)) -> (r: (i32, i32, u32, u32))
    ensures
        r.0 == rect.0,
        r.1 == rect.1,
        r.2 == rect.2,
        r.3 == (if rect.3 >= DOCK_ALLOWANCE { rect.3 - DOCK_ALLOWANCE } else { 0 }),
{
    let (x, y, w, h) = rect;
    (x, y, w, h.saturating_sub(DOCK_ALLOWANCE))
}

} // verus!
