//! Rectangles, seed regions and the description of one problem instance.

use crate::color::Color;
use crate::consts::MAX_SIDE;
use crate::rect_id::RectId;
use crate::utils::Point;
use vstd::prelude::*;

verus! {

/// An axis-aligned rectangle `[from, to)`; `to` is exclusive.
#[derive(Clone, Copy, Debug, PartialEq, Eq, Structural)]
pub struct Rect {
    pub from: Point,
    pub to: Point,
}

impl Rect {
    /// The rectangle from `from` to `to`, `to` excluded.
    pub fn new(from: Point, to: Point) -> (r: Rect)
        ensures
            r == (Rect { from, to }),
    {
        Rect { from, to }
    }

    /// Width times height; negative or zero for a rectangle that holds no
    /// pixel.
    pub open spec fn area(&self) -> int {
        (self.to.x - self.from.x) * (self.to.y - self.from.y)
    }

    /// The rectangle holds at least one pixel and lies inside a canvas of
    /// `n` columns and `m` rows.
    pub open spec fn inside(&self, n: int, m: int) -> bool {
        0 <= self.from.x < self.to.x <= n && 0 <= self.from.y < self.to.y <= m
    }

    /// The pixel `(x, y)` belongs to the rectangle.
    pub open spec fn covers(&self, x: int, y: int) -> bool {
        self.from.x <= x < self.to.x && self.from.y <= y < self.to.y
    }

    /// Width times height.
    pub fn size(&self) -> (r: i128)
        ensures
            r == self.area(),
    {
        let dx: i128 = self.to.x as i128 - self.from.x as i128;
        let dy: i128 = self.to.y as i128 - self.from.y as i128;
        assert(-0x1_0000_0000 * 0x1_0000_0000 <= dx * dy <= 0x1_0000_0000 * 0x1_0000_0000)
            by (nonlinear_arith)
            requires
                -0x1_0000_0000 <= dx <= 0x1_0000_0000,
                -0x1_0000_0000 <= dy <= 0x1_0000_0000,
        ;
        dx * dy
    }
}

/// A named rectangle of the starting canvas, with the colour it starts in.
#[derive(Clone, Debug)]
pub struct Region {
    pub name: RectId,
    pub rect: Rect,
    pub color: Color,
}

/// `a` holds `n` columns of `m` cells each.
pub open spec fn is_grid<T>(a: Seq<Vec<T>>, n: int, m: int) -> bool {
    a.len() == n && forall|x: int| 0 <= x < n ==> (#[trigger] a[x]).len() == m
}

/// Tells whether `a` holds `n` columns of `m` cells each.
pub fn has_size<T>(a: &Vec<Vec<T>>, n: usize, m: usize) -> (r: bool)
    ensures
        r == is_grid(a@, n as int, m as int),
{
    if a.len() != n {
        return false;
    }
    let mut x: usize = 0;
    while x < n
        invariant
            x <= n,
            a@.len() == n,
            forall|u: int| 0 <= u < x ==> (#[trigger] a@[u]).len() == m,
        decreases n - x,
    {
        if a[x].len() != m {
            return false;
        }
        x = x + 1;
    }
    true
}

/// One problem instance: the picture to approach, the picture the canvas
/// starts with, and the regions into which the canvas is divided at the
/// start.
#[derive(Clone, Debug)]
pub struct TestCase {
    pub expected: Vec<Vec<Color>>,
    pub start_field: Vec<Vec<Color>>,
    pub regions: Vec<Region>,
    pub test_id: usize,
}

impl TestCase {
    /// Number of columns of the canvas.
    pub open spec fn n(&self) -> int {
        self.expected@.len() as int
    }

    /// Number of rows of the canvas.
    pub open spec fn m(&self) -> int {
        self.expected@[0]@.len() as int
    }

    /// The canvas has at least one pixel, no side above `MAX_SIDE`, both
    /// pictures have its size, and there is a seed region, each of which
    /// lies inside the canvas.
    pub open spec fn wf(&self) -> bool {
        &&& 1 <= self.n() <= MAX_SIDE
        &&& 1 <= self.m() <= MAX_SIDE
        &&& is_grid(self.expected@, self.n(), self.m())
        &&& is_grid(self.start_field@, self.n(), self.m())
        &&& self.regions@.len() >= 1
        &&& forall|i: int|
            0 <= i < self.regions@.len() ==> (#[trigger] self.regions@[i]).rect.inside(
                self.n(),
                self.m(),
            )
    }

    /// Base cost of a line cut for an instance with identifier `test_id`.
    pub open spec fn line_cut_cost_of(test_id: usize) -> nat {
        if test_id <= 35 || test_id > 40 {
            7
        } else {
            2
        }
    }

    /// Base cost of a point cut for an instance with identifier `test_id`.
    pub open spec fn point_cut_cost_of(test_id: usize) -> nat {
        if test_id <= 35 || test_id > 40 {
            10
        } else {
            3
        }
    }

    /// Columns and rows of the canvas.
    pub fn get_size(&self) -> (r: (usize, usize))
        requires
            self.expected@.len() >= 1,
        ensures
            r.0 == self.n(),
            r.1 == self.m(),
    {
        (self.expected.len(), self.expected[0].len())
    }

    /// Tells whether the instance is well formed.
    pub fn is_well_formed(&self) -> (r: bool)
        ensures
            r == self.wf(),
    {
        let n = self.expected.len();
        if n < 1 || n > MAX_SIDE {
            return false;
        }
        let m = self.expected[0].len();
        if m < 1 || m > MAX_SIDE {
            return false;
        }
        if !has_size(&self.expected, n, m) || !has_size(&self.start_field, n, m) {
            return false;
        }
        if self.regions.len() < 1 {
            return false;
        }
        let mut i: usize = 0;
        while i < self.regions.len()
            invariant
                i <= self.regions@.len(),
                n == self.n(),
                m == self.m(),
                1 <= n <= MAX_SIDE,
                1 <= m <= MAX_SIDE,
                forall|k: int|
                    0 <= k < i ==> (#[trigger] self.regions@[k]).rect.inside(n as int, m as int),
            decreases self.regions@.len() - i,
        {
            let r = self.regions[i].rect;
            if !(0 <= r.from.x && r.from.x < r.to.x && r.to.x as usize <= n && 0 <= r.from.y
                && r.from.y < r.to.y && r.to.y as usize <= m) {
                return false;
            }
            i = i + 1;
        }
        true
    }

    /// Base cost of a line cut.
    pub fn get_line_cut_cost(&self) -> (r: u128)
        ensures
            r == Self::line_cut_cost_of(self.test_id),
    {
        if self.test_id <= 35 || self.test_id > 40 {
            7
        } else {
            2
        }
    }

    /// Base cost of a point cut.
    pub fn get_point_cut_cost(&self) -> (r: u128)
        ensures
            r == Self::point_cut_cost_of(self.test_id),
    {
        if self.test_id <= 35 || self.test_id > 40 {
            10
        } else {
            3
        }
    }
}

} // verus!
