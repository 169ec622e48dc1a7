//! Page geometry in fixed-point coordinates.
//!
//! Every coordinate and length is an integer number of thousandths of a PDF
//! point (1 pt = 1000 units). The y axis points up, as in PDF user space.
//! A rectangle is given by its origin corner `(x, y)` and its signed extent
//! `(width, height)`; its edges are `x`, `x + width`, `y` and `y + height`.
use vstd::prelude::*;

verus! {

/// Largest magnitude that any edge of a well-formed rectangle may have
/// (one billion points, far beyond any page).
pub const COORD_LIMIT: i64 = 1_000_000_000_000;

/// A coordinate that stays within the page-space limit.
pub open spec fn coord_ok(v: int) -> bool {
    -COORD_LIMIT <= v <= COORD_LIMIT
}

/// A point in page space.
#[derive(Debug, Clone, Copy, PartialEq, Eq, Structural)]
pub struct Point {
    pub x: i64,
    pub y: i64,
}

/// An axis-aligned rectangle in page space.
#[derive(Debug, Clone, Copy, PartialEq, Eq, Structural)]
pub struct Rect {
    pub x: i64,
    pub y: i64,
    pub width: i64,
    pub height: i64,
}

/// `floor(v / 2)` on integers.
pub open spec fn half_floor(v: int) -> int {
    v / 2
}

/// `|v|` on integers.
pub open spec fn abs_int(v: int) -> int {
    if v < 0 { -v } else { v }
}

/// Exact `floor(v / 2)` for values well inside the `i64` range.
pub fn floor_half(v: i64) -> (r: i64)
    requires
        -0x4000_0000_0000_0000 <= v <= 0x4000_0000_0000_0000,
    ensures
        r == half_floor(v as int),
{
    if v >= 0 {
        v / 2
    } else {
        let p: i64 = -v;
        let q: i64 = (p + 1) / 2;
        proof {
            let ghost vi = v as int;
            let ghost qi = q as int;
            assert(qi * 2 == -vi || qi * 2 == -vi + 1);
            assert(vi == 2 * (-qi) + (2 * qi + vi));
        }
        -q
    }
}

/// Absolute value of an `i64` that is not `i64::MIN`.
pub fn abs_i64(v: i64) -> (r: i64)
    requires
        v > i64::MIN,
    ensures
        r == abs_int(v as int),
{
    if v < 0 { -v } else { v }
}

impl Rect {
    /// Every edge lies within the coordinate limit.
    pub open spec fn wf(self) -> bool {
        &&& coord_ok(self.x as int)
        &&& coord_ok(self.y as int)
        &&& coord_ok(self.x + self.width)
        &&& coord_ok(self.y + self.height)
    }

    pub open spec fn spec_right(self) -> int {
        self.x + self.width
    }

    pub open spec fn spec_bottom(self) -> int {
        self.y + self.height
    }

    pub open spec fn spec_center_x(self) -> int {
        half_floor(2 * self.x + self.width)
    }

    pub open spec fn spec_center_y(self) -> int {
        half_floor(2 * self.y + self.height)
    }

    /// Strict overlap of the two rectangles (touching edges do not count).
    pub open spec fn spec_intersects(self, other: Rect) -> bool {
        &&& self.x < other.spec_right()
        &&& self.spec_right() > other.x
        &&& self.y < other.spec_bottom()
        &&& self.spec_bottom() > other.y
    }

    pub open spec fn spec_contains_rect(self, other: Rect) -> bool {
        &&& other.x >= self.x
        &&& other.spec_right() <= self.spec_right()
        &&& other.y >= self.y
        &&& other.spec_bottom() <= self.spec_bottom()
    }

    /// The smallest rectangle spanning the origin corners and far edges of both.
    pub open spec fn spec_union(self, other: Rect) -> Rect {
        let x = if self.x <= other.x { self.x } else { other.x };
        let y = if self.y <= other.y { self.y } else { other.y };
        let r = if self.spec_right() >= other.spec_right() { self.spec_right() } else { other.spec_right() };
        let b = if self.spec_bottom() >= other.spec_bottom() { self.spec_bottom() } else { other.spec_bottom() };
        Rect { x, y, width: (r - x) as i64, height: (b - y) as i64 }
    }

    /// Create a rectangle from its origin corner and extent.
    pub fn new(x: i64, y: i64, width: i64, height: i64) -> (r: Rect)
        ensures
            r == (Rect { x, y, width, height }),
    {
        Rect { x, y, width, height }
    }

    /// Left edge: the origin's x coordinate.
    pub fn left(&self) -> (r: i64)
        ensures
            r == self.x,
    {
        self.x
    }

    /// Right edge: `x + width`.
    pub fn right(&self) -> (r: i64)
        requires
            self.wf(),
        ensures
            r == self.spec_right(),
    {
        self.x + self.width
    }

    /// Top edge, in the page geometry's naming: the origin's y coordinate.
    pub fn top(&self) -> (r: i64)
        ensures
            r == self.y,
    {
        self.y
    }

    /// Bottom edge, in the page geometry's naming: `y + height`.
    pub fn bottom(&self) -> (r: i64)
        requires
            self.wf(),
        ensures
            r == self.spec_bottom(),
    {
        self.y + self.height
    }

    /// Centre of the rectangle, rounded down to a whole unit.
    pub fn center(&self) -> (p: Point)
        requires
            self.wf(),
        ensures
            p.x == self.spec_center_x(),
            p.y == self.spec_center_y(),
            coord_ok(p.x as int),
            coord_ok(p.y as int),
    {
        let cx = floor_half(2 * self.x + self.width);
        let cy = floor_half(2 * self.y + self.height);
        Point { x: cx, y: cy }
    }

    /// Whether the two rectangles overlap in an area (touching is not enough).
    pub fn intersects(&self, other: &Rect) -> (b: bool)
        requires
            self.wf(),
            other.wf(),
        ensures
            b == self.spec_intersects(*other),
    {
        self.x < other.x + other.width && self.x + self.width > other.x && self.y < other.y
            + other.height && self.y + self.height > other.y
    }

    /// The bounding rectangle of both rectangles.
    pub fn union(&self, other: &Rect) -> (r: Rect)
        requires
            self.wf(),
            other.wf(),
        ensures
            r == self.spec_union(*other),
            r.wf(),
    {
        let x = if self.x <= other.x { self.x } else { other.x };
        let y = if self.y <= other.y { self.y } else { other.y };
        let sr = self.x + self.width;
        let orr = other.x + other.width;
        let sb = self.y + self.height;
        let ob = other.y + other.height;
        let r = if sr >= orr { sr } else { orr };
        let b = if sb >= ob { sb } else { ob };
        Rect { x, y, width: r - x, height: b - y }
    }
}

} // verus!
