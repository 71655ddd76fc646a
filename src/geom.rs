//! Plain geometry: coordinates, sizes and rectangles.

use vstd::prelude::*;

verus! {

/// A position on the surface, in pixels; `.0` grows rightwards, `.1` downwards.
#[derive(Clone, Copy, Debug, PartialEq, Eq, Structural)]
pub struct Coord(pub i32, pub i32);

/// A width and a height, in pixels.
#[derive(Clone, Copy, Debug, PartialEq, Eq, Structural)]
pub struct Size(pub u32, pub u32);

/// An axis-aligned rectangle: its top-left corner and its size.
#[derive(Clone, Copy, Debug, PartialEq, Eq, Structural)]
pub struct Rect {
    pub pos: Coord,
    pub size: Size,
}

/// Whether `c` lies inside `r`: the top and left edges are included, the
/// bottom and right edges are not.
pub open spec fn rect_contains(r: Rect, c: Coord) -> bool {
    &&& r.pos.0 <= c.0 < r.pos.0 + r.size.0
    &&& r.pos.1 <= c.1 < r.pos.1 + r.size.1
}

/// The integer `v`, held to the range of `i32`.
pub open spec fn clamp_i32(v: int) -> i32 {
    if v < i32::MIN {
        i32::MIN
    } else if v > i32::MAX {
        i32::MAX
    } else {
        v as i32
    }
}

/// `v` held to the range of `i32`.
pub fn sat_i32(v: i64) -> (r: i32)
    ensures
        r == clamp_i32(v as int),
{
    if v < i32::MIN as i64 {
        i32::MIN
    } else if v > i32::MAX as i64 {
        i32::MAX
    } else {
        v as i32
    }
}

impl Coord {
    /// The origin.
    pub fn zero() -> (r: Coord)
        ensures
            r == Coord(0, 0),
    {
        Coord(0, 0)
    }

    /// `self - other` on both axes, held to the range of `i32`.
    pub fn sub_sat(self, other: Coord) -> (r: Coord)
        ensures
            r.0 == clamp_i32(self.0 - other.0),
            r.1 == clamp_i32(self.1 - other.1),
    {
        Coord(
            sat_i32(self.0 as i64 - other.0 as i64),
            sat_i32(self.1 as i64 - other.1 as i64),
        )
    }
}

impl Rect {
    pub fn new(pos: Coord, size: Size) -> (r: Rect)
        ensures
            r.pos == pos,
            r.size == size,
    {
        Rect { pos, size }
    }

    /// Whether `c` lies inside this rectangle.
    pub fn contains(&self, c: Coord) -> (r: bool)
        ensures
            r == rect_contains(*self, c),
    {
        let x = c.0 as i64;
        let y = c.1 as i64;
        let x0 = self.pos.0 as i64;
        let y0 = self.pos.1 as i64;
        x0 <= x && x < x0 + self.size.0 as i64 && y0 <= y && y < y0 + self.size.1 as i64
    }
}

} // verus!
