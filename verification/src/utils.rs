//! Points of the canvas.

use vstd::prelude::*;

verus! {

/// A point with integer coordinates; `x` grows to the right, `y` upwards.
#[derive(Clone, Copy, Debug, PartialEq, Eq, Structural)]
pub struct Point {
    pub x: i32,
    pub y: i32,
}

impl Point {
    /// The origin, the bottom-left corner of every canvas.
    pub fn zero() -> (r: Point)
        ensures
            r == (Point { x: 0, y: 0 }),
    {
        Point { x: 0, y: 0 }
    }

    /// The point with the given coordinates.
    pub fn new(x: i32, y: i32) -> (r: Point)
        ensures
            r == (Point { x, y }),
    {
        Point { x, y }
    }
}

/// The point with the given coordinates.
pub fn p(x: usize, y: usize) -> (r: Point)
    requires
        x <= i32::MAX,
        y <= i32::MAX,
    ensures
        r.x == x,
        r.y == y,
{
    Point { x: x as i32, y: y as i32 }
}

/// `p` is a pixel of a canvas of `n` columns and `m` rows.
pub open spec fn point_inside(p: Point, n: int, m: int) -> bool {
    0 <= p.x < n && 0 <= p.y < m
}

/// Tells whether `p` is a pixel of a canvas of `n` columns and `m` rows.
pub fn is_point_inside(p: Point, n: usize, m: usize) -> (r: bool)
    ensures
        r == point_inside(p, n as int, m as int),
{
    p.x >= 0 && p.y >= 0 && (p.x as usize) < n && (p.y as usize) < m
}

} // verus!
