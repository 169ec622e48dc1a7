//! Vector paths drawn on a page.
use crate::geometry::{abs_int, abs_i64, coord_ok, Rect};
use vstd::prelude::*;

verus! {

/// The shape a path draws.
#[derive(Debug, Clone, Copy, PartialEq, Eq, Structural)]
pub enum PathShape {
    /// A single straight segment.
    Line,
    /// A closed axis-aligned rectangle.
    Rectangle,
    /// Any other outline.
    Other,
}

/// A vector path with its bounding box.
#[derive(Debug, Clone, Copy)]
pub struct PathContent {
    /// What the path draws.
    pub shape: PathShape,
    /// The path's bounding box.
    pub bbox: Rect,
}

/// Tolerance, in thousandths of a point, under which a segment counts as
/// horizontal or vertical when deciding whether it can bound a table.
pub const PRIMITIVE_AXIS_TOL: i64 = 2000;

impl PathContent {
    pub open spec fn spec_is_horizontal_line(self, tolerance: int) -> bool {
        self.shape == PathShape::Line && abs_int(self.bbox.height as int) <= tolerance
    }

    pub open spec fn spec_is_vertical_line(self, tolerance: int) -> bool {
        self.shape == PathShape::Line && abs_int(self.bbox.width as int) <= tolerance
    }

    pub open spec fn spec_is_table_primitive(self) -> bool {
        ||| self.spec_is_horizontal_line(PRIMITIVE_AXIS_TOL as int)
        ||| self.spec_is_vertical_line(PRIMITIVE_AXIS_TOL as int)
        ||| self.shape == PathShape::Rectangle
    }

    /// A straight segment from `(x1, y1)` to `(x2, y2)`.
    pub fn line(x1: i64, y1: i64, x2: i64, y2: i64) -> (p: PathContent)
        requires
            coord_ok(x1 as int),
            coord_ok(y1 as int),
            coord_ok(x2 as int),
            coord_ok(y2 as int),
        ensures
            p.shape == PathShape::Line,
            p.bbox.x == if x1 <= x2 { x1 } else { x2 },
            p.bbox.y == if y1 <= y2 { y1 } else { y2 },
            p.bbox.width == abs_int(x2 - x1),
            p.bbox.height == abs_int(y2 - y1),
            p.bbox.wf(),
    {
        let x = if x1 <= x2 { x1 } else { x2 };
        let y = if y1 <= y2 { y1 } else { y2 };
        PathContent { shape: PathShape::Line, bbox: Rect::new(x, y, abs_i64(x2 - x1), abs_i64(y2 - y1)) }
    }

    /// A rectangle with origin `(x, y)` and extent `(width, height)`.
    pub fn rect(x: i64, y: i64, width: i64, height: i64) -> (p: PathContent)
        ensures
            p.shape == PathShape::Rectangle,
            p.bbox == (Rect { x, y, width, height }),
    {
        PathContent { shape: PathShape::Rectangle, bbox: Rect::new(x, y, width, height) }
    }

    /// A straight segment whose height is within `tolerance`.
    pub fn is_horizontal_line(&self, tolerance: i64) -> (b: bool)
        requires
            self.bbox.height > i64::MIN,
        ensures
            b == self.spec_is_horizontal_line(tolerance as int),
    {
        self.shape == PathShape::Line && abs_i64(self.bbox.height) <= tolerance
    }

    /// A straight segment whose width is within `tolerance`.
    pub fn is_vertical_line(&self, tolerance: i64) -> (b: bool)
        requires
            self.bbox.width > i64::MIN,
        ensures
            b == self.spec_is_vertical_line(tolerance as int),
    {
        self.shape == PathShape::Line && abs_i64(self.bbox.width) <= tolerance
    }

    /// Whether the path can bound table cells: an axis-aligned segment or a rectangle.
    pub fn is_table_primitive(&self) -> (b: bool)
        requires
            self.bbox.height > i64::MIN,
            self.bbox.width > i64::MIN,
        ensures
            b == self.spec_is_table_primitive(),
    {
        self.is_horizontal_line(PRIMITIVE_AXIS_TOL) || self.is_vertical_line(PRIMITIVE_AXIS_TOL)
            || self.shape == PathShape::Rectangle
    }
}

} // verus!
