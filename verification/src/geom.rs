//! Geometry primitives: integer points, view coordinates, the frame-strip
//! extent, colors, and the coordinate bounds under which the rasterizers
//! are free of overflow.

use vstd::prelude::*;

verus! {

/// Largest coordinate magnitude the engine accepts. Keeping coordinates
/// within this bound keeps every intermediate value of the rasterizers and
/// of point expansion inside `i32`.
pub const MAX_COORD: i32 = 0x1fff_ffff;

/// An integer 2D point in an arbitrary 2D space.
#[derive(PartialEq, Eq, Copy, Clone, Debug, Structural)]
pub struct Point2 {
    pub x: i32,
    pub y: i32,
}

impl Point2 {
    pub fn new(x: i32, y: i32) -> (p: Point2)
        ensures
            p == (Point2 { x, y }),
    {
        Point2 { x, y }
    }
}

/// An integer 2D point in the pixel-grid coordinate space of the views;
/// the same representation as [`Point2`], but semantically distinct.
#[derive(PartialEq, Eq, Copy, Clone, Debug, Structural)]
pub struct ViewCoords {
    pub x: i32,
    pub y: i32,
}

impl ViewCoords {
    pub fn new(x: i32, y: i32) -> (p: ViewCoords)
        ensures
            p == (ViewCoords { x, y }),
    {
        ViewCoords { x, y }
    }

    /// The same point, seen as a point of the generic 2D space.
    pub open spec fn as_point(self) -> Point2 {
        Point2 { x: self.x, y: self.y }
    }

    pub fn to_point(self) -> (p: Point2)
        ensures
            p == self.as_point(),
    {
        Point2 { x: self.x, y: self.y }
    }
}

/// Whether a point lies within the coordinate bounds of the engine.
pub open spec fn in_bounds(p: Point2) -> bool {
    -MAX_COORD <= p.x <= MAX_COORD && -MAX_COORD <= p.y <= MAX_COORD
}

/// Whether every point of a sequence lies within the coordinate bounds.
pub open spec fn all_in_bounds(s: Seq<Point2>) -> bool {
    forall|i: int| 0 <= i < s.len() ==> in_bounds(s[i])
}

/// A horizontal strip of `nframes` equally sized frames sharing one
/// coordinate space.
#[derive(PartialEq, Eq, Copy, Clone, Debug, Structural)]
pub struct ViewExtent {
    /// Width of one frame, in pixels.
    pub fw: u32,
    /// Height of the strip, in pixels.
    pub fh: u32,
    /// Number of frames in the strip.
    pub nframes: u32,
}

impl ViewExtent {
    pub fn new(fw: u32, fh: u32, nframes: u32) -> (e: ViewExtent)
        ensures
            e == (ViewExtent { fw, fh, nframes }),
    {
        ViewExtent { fw, fh, nframes }
    }

    /// Machine bounds under which point expansion is free of overflow.
    pub open spec fn wf(self) -> bool {
        1 <= self.fw <= 0x10_0000
        && 1 <= self.fh <= 0x10_0000
        && 1 <= self.nframes
        && (self.fw as int) * (self.nframes as int) <= 0x4000_0000
    }
}

/// An 8-bit RGBA color.
#[derive(PartialEq, Eq, Copy, Clone, Debug, Structural)]
pub struct Rgba8 {
    pub r: u8,
    pub g: u8,
    pub b: u8,
    pub a: u8,
}

impl Rgba8 {
    pub fn new(r: u8, g: u8, b: u8, a: u8) -> (c: Rgba8)
        ensures
            c == (Rgba8 { r, g, b, a }),
    {
        Rgba8 { r, g, b, a }
    }

    /// The fully transparent color.
    pub fn transparent() -> (c: Rgba8)
        ensures
            c == (Rgba8 { r: 0, g: 0, b: 0, a: 0 }),
    {
        Rgba8 { r: 0, g: 0, b: 0, a: 0 }
    }

    /// Opaque white.
    pub fn white() -> (c: Rgba8)
        ensures
            c == (Rgba8 { r: 255, g: 255, b: 255, a: 255 }),
    {
        Rgba8 { r: 255, g: 255, b: 255, a: 255 }
    }
}

/// How a brush footprint is aligned to the brush position.
#[derive(PartialEq, Eq, Copy, Clone, Debug, Structural)]
pub enum Align {
    Center,
    BottomLeft,
}

} // verus!
