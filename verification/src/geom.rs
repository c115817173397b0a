//! Geometry primitives: points and directed segments in continuous 2D
//! raster coordinates (origin top-left, x right, y down, 16.16 fixed-point
//! pixel units).

use crate::fixed::COORD_LIMIT;
use vstd::prelude::*;

verus! {

/// A point in raster space.  Fractional positions are meaningful; one pixel
/// is `SCALE` units.
#[derive(Clone, Copy, PartialEq, Eq, Structural, Debug)]
pub struct Point {
    pub x: i64,
    pub y: i64,
}

impl Point {
    /// Both coordinates lie within the engine's supported range.
    pub open spec fn wf(self) -> bool {
        &&& -COORD_LIMIT <= self.x <= COORD_LIMIT
        &&& -COORD_LIMIT <= self.y <= COORD_LIMIT
    }

    /// Runtime check of `wf`, for callers outside the verified world.
    pub fn is_wf(&self) -> (r: bool)
        ensures
            r == self.wf(),
    {
        -COORD_LIMIT <= self.x && self.x <= COORD_LIMIT && -COORD_LIMIT <= self.y && self.y
            <= COORD_LIMIT
    }

    pub fn new(x: i64, y: i64) -> (p: Point)
        requires
            -COORD_LIMIT <= x <= COORD_LIMIT,
            -COORD_LIMIT <= y <= COORD_LIMIT,
        ensures
            p == (Point { x, y }),
            p.wf(),
    {
        Point { x, y }
    }
}

/// An ordered pair of points; implicitly directed, and the direction
/// determines the sign of its area contribution.
#[derive(Clone, Copy, PartialEq, Eq, Structural, Debug)]
pub struct Segment {
    pub a: Point,
    pub b: Point,
}

impl Segment {
    pub open spec fn wf(self) -> bool {
        self.a.wf() && self.b.wf()
    }
}

} // verus!
