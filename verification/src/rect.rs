//! Axis-aligned rectangles on an integer grid, with inclusive bounds.

use vstd::prelude::*;

verus! {

/// An axis-aligned rectangle on the integer grid. Its cells are the points
/// `(px, py)` with `left <= px <= right` and `bottom <= py <= top`.
#[derive(Debug, Clone, Copy, PartialEq, Eq, Structural)]
pub struct Rect {
    pub x: i64,
    pub y: i64,
    pub width: i64,
    pub height: i64,
}

impl Rect {
    /// The leftmost column of the rectangle.
    pub open spec fn spec_left(&self) -> int {
        self.x as int
    }

    /// The rightmost column of the rectangle (inclusive).
    pub open spec fn spec_right(&self) -> int {
        self.x + self.width - 1
    }

    /// The lowest row of the rectangle.
    pub open spec fn spec_bottom(&self) -> int {
        self.y as int
    }

    /// The highest row of the rectangle (inclusive).
    pub open spec fn spec_top(&self) -> int {
        self.y + self.height - 1
    }

    /// A rectangle is well formed when it has at least one cell and its
    /// right and top bounds are representable.
    pub open spec fn wf(&self) -> bool {
        &&& self.width > 0
        &&& self.height > 0
        &&& self.spec_right() <= i64::MAX
        &&& self.spec_top() <= i64::MAX
    }

    /// Whether the cell `(px, py)` belongs to the rectangle.
    pub open spec fn contains(&self, px: int, py: int) -> bool {
        &&& self.spec_left() <= px <= self.spec_right()
        &&& self.spec_bottom() <= py <= self.spec_top()
    }

    /// Whether every cell of `self` is a cell of `outer`.
    pub open spec fn within(&self, outer: &Rect) -> bool {
        &&& outer.spec_left() <= self.spec_left()
        &&& self.spec_right() <= outer.spec_right()
        &&& outer.spec_bottom() <= self.spec_bottom()
        &&& self.spec_top() <= outer.spec_top()
    }

    /// Two rectangles intersect unless one lies strictly to one side of the
    /// other along an axis.
    pub open spec fn spec_intersects(&self, other: &Rect) -> bool {
        !(self.spec_left() > other.spec_right() || self.spec_right() < other.spec_left()
            || self.spec_bottom() > other.spec_top() || self.spec_top() < other.spec_bottom())
    }

    /// The rectangle with its lower left cell at `(x, y)`, `width` columns
    /// wide and `height` rows high. Nothing is checked: a rectangle without
    /// cells can be built, and `wf` tells.
    pub fn new(x: i64, y: i64, width: i64, height: i64) -> (r: Self)
        ensures
            r.x == x,
            r.y == y,
            r.width == width,
            r.height == height,
    {
        Self { x, y, width, height }
    }

    /// Whether the rectangle is well formed: the test that a caller makes
    /// before asking for `right`, `top` or a decomposition.
    pub fn is_well_formed(&self) -> (b: bool)
        ensures
            b == self.wf(),
    {
        self.width > 0 && self.height > 0 && self.x <= i64::MAX - (self.width - 1) && self.y
            <= i64::MAX - (self.height - 1)
    }

    /// The leftmost column.
    pub fn left(&self) -> (v: i64)
        ensures
            v == self.spec_left(),
    {
        self.x
    }

    /// The rightmost column.
    pub fn right(&self) -> (v: i64)
        requires
            self.wf(),
        ensures
            v == self.spec_right(),
    {
        self.x + (self.width - 1)
    }

    /// The highest row.
    pub fn top(&self) -> (v: i64)
        requires
            self.wf(),
        ensures
            v == self.spec_top(),
    {
        self.y + (self.height - 1)
    }

    /// The lowest row.
    pub fn bottom(&self) -> (v: i64)
        ensures
            v == self.spec_bottom(),
    {
        self.y
    }

    /// Whether the two rectangles share a cell: bounds are inclusive, so
    /// rectangles that share a boundary coordinate intersect, and rectangles
    /// that only touch edge to edge do not.
    pub fn intersects(&self, other: &Rect) -> (b: bool)
        requires
            self.wf(),
            other.wf(),
        ensures
            b == self.spec_intersects(other),
    {
        if self.left() > other.right() || self.right() < other.left() || self.bottom()
            > other.top() || self.top() < other.bottom() {
            return false;
        }
        true
    }
}

/// Well-formed rectangles intersect exactly when they share a cell.
pub proof fn lemma_intersects_iff_shared_cell(a: Rect, b: Rect)
    requires
        a.wf(),
        b.wf(),
    ensures
        a.spec_intersects(&b) <==> exists|px: int, py: int| #[trigger] a.contains(px, py) && b.contains(px, py),
{
    if a.spec_intersects(&b) {
        let px = if a.spec_left() >= b.spec_left() { a.spec_left() } else { b.spec_left() };
        let py = if a.spec_bottom() >= b.spec_bottom() { a.spec_bottom() } else { b.spec_bottom() };
        assert(a.contains(px, py) && b.contains(px, py));
    }
}

} // verus!
