//! Plain integer geometry: positions, sizes, rectangles, and the fractional
//! output scale used to convert between logical and physical pixels.
//!
//! Coordinates are logical pixels unless a function says otherwise.  An output
//! scale is kept as an exact rational `num / den`, and every conversion rounds
//! half away from zero, clipping to the `i32` range.

use vstd::prelude::*;

verus! {

/// A position, in logical or physical pixels.
#[derive(Clone, Copy, PartialEq, Eq, Structural, Debug)]
pub struct Point {
    pub x: i32,
    pub y: i32,
}

/// An extent, in logical or physical pixels.
#[derive(Clone, Copy, PartialEq, Eq, Structural, Debug)]
pub struct Size {
    pub w: i32,
    pub h: i32,
}

/// An axis-aligned rectangle: a position and an extent.
#[derive(Clone, Copy, PartialEq, Eq, Structural, Debug)]
pub struct Rect {
    pub loc: Point,
    pub size: Size,
}

/// A fractional output scale, the exact rational `num / den`.
#[derive(Clone, Copy, PartialEq, Eq, Structural, Debug)]
pub struct Scale {
    pub num: u32,
    pub den: u32,
}

/// Largest numerator or denominator a well-formed scale may have.
pub const SCALE_LIMIT: u32 = 100000;

impl Size {
    pub open spec fn wf(self) -> bool {
        self.w >= 0 && self.h >= 0
    }
}

impl Scale {
    pub open spec fn wf(self) -> bool {
        1 <= self.num <= SCALE_LIMIT && 1 <= self.den <= SCALE_LIMIT
    }
}

impl Rect {
    /// Whether `p` lies inside the rectangle (right and bottom edges excluded).
    pub open spec fn spec_contains(self, p: Point) -> bool {
        &&& self.loc.x <= p.x < self.loc.x + self.size.w
        &&& self.loc.y <= p.y < self.loc.y + self.size.h
    }

    /// Whether the two rectangles share at least one pixel.
    pub open spec fn spec_overlaps(self, other: Rect) -> bool {
        &&& self.loc.x < other.loc.x + other.size.w
        &&& other.loc.x < self.loc.x + self.size.w
        &&& self.loc.y < other.loc.y + other.size.h
        &&& other.loc.y < self.loc.y + self.size.h
    }

    pub fn contains(&self, p: Point) -> (r: bool)
        ensures
            r == self.spec_contains(p),
    {
        let x0: i64 = self.loc.x as i64;
        let y0: i64 = self.loc.y as i64;
        (p.x as i64) >= x0 && (p.x as i64) < x0 + self.size.w as i64 && (p.y as i64) >= y0
            && (p.y as i64) < y0 + self.size.h as i64
    }

    pub fn overlaps(&self, other: &Rect) -> (r: bool)
        ensures
            r == self.spec_overlaps(*other),
    {
        (self.loc.x as i64) < other.loc.x as i64 + other.size.w as i64
            && (other.loc.x as i64) < self.loc.x as i64 + self.size.w as i64
            && (self.loc.y as i64) < other.loc.y as i64 + other.size.h as i64
            && (other.loc.y as i64) < self.loc.y as i64 + self.size.h as i64
    }
}

/// `a / b` rounded to the nearest integer, halves away from zero; `b > 0`.
pub open spec fn round_div(a: int, b: int) -> int
    recommends
        b > 0,
{
    if a >= 0 {
        (2 * a + b) / (2 * b)
    } else {
        -((2 * (-a) + b) / (2 * b))
    }
}

/// `v` clipped to the range of `i32`.
pub open spec fn clip_i32(v: int) -> int {
    if v < i32::MIN as int {
        i32::MIN as int
    } else if v > i32::MAX as int {
        i32::MAX as int
    } else {
        v
    }
}

/// A coordinate multiplied by the exact rational `num / den`, rounded to the
/// nearest integer and clipped to `i32`.
pub open spec fn scale_spec(x: int, num: int, den: int) -> int {
    clip_i32(round_div(x * num, den))
}

/// A logical point taken to physical pixels under scale `s`.
pub open spec fn to_physical_spec(p: Point, s: Scale) -> Point {
    Point {
        x: scale_spec(p.x as int, s.num as int, s.den as int) as i32,
        y: scale_spec(p.y as int, s.num as int, s.den as int) as i32,
    }
}

/// A physical extent taken to logical pixels under scale `s` (the division by
/// the scale, rounded per coordinate).
pub open spec fn to_logical_spec(m: Size, s: Scale) -> Size {
    Size {
        w: scale_spec(m.w as int, s.den as int, s.num as int) as i32,
        h: scale_spec(m.h as int, s.den as int, s.num as int) as i32,
    }
}

/// Bound on the dividend accepted by `round_div_i64`: comfortably past any
/// `i32` coordinate times any well-formed scale component.
pub const ROUND_DIV_ARG_LIMIT: i64 = 0x1000_0000_0000_0000;

fn round_div_i64(a: i64, b: i64) -> (r: i64)
    requires
        1 <= b <= 2 * SCALE_LIMIT as i64,
        -ROUND_DIV_ARG_LIMIT <= a <= ROUND_DIV_ARG_LIMIT,
    ensures
        r == round_div(a as int, b as int),
{
    if a >= 0 {
        (2 * a + b) / (2 * b)
    } else {
        -((2 * (-a) + b) / (2 * b))
    }
}

/// `x * num / den` rounded to nearest, clipped to `i32`.
pub fn scale_coord(x: i32, num: u32, den: u32) -> (r: i32)
    requires
        1 <= num <= SCALE_LIMIT,
        1 <= den <= SCALE_LIMIT,
    ensures
        r as int == scale_spec(x as int, num as int, den as int),
{
    proof {
        assert((x as int) * (num as int) <= 0x8000_0000 * SCALE_LIMIT as int && (x as int) * (
        num as int) >= -0x8000_0000 * SCALE_LIMIT as int) by (nonlinear_arith)
            requires
                -0x8000_0000 <= x as int <= 0x7fff_ffff,
                1 <= num as int <= SCALE_LIMIT as int,
        ;
    }
    let a: i64 = (x as i64) * (num as i64);
    let q: i64 = round_div_i64(a, den as i64);
    if q < i32::MIN as i64 {
        i32::MIN
    } else if q > i32::MAX as i64 {
        i32::MAX
    } else {
        q as i32
    }
}

/// `a + b`, clipped to the range of `i32`.
pub open spec fn add_clip(a: int, b: int) -> int {
    clip_i32(a + b)
}

/// `a + b`, clipped to the range of `i32`.
pub fn add_i32_clip(a: i32, b: i32) -> (r: i32)
    ensures
        r as int == add_clip(a as int, b as int),
{
    let v: i64 = a as i64 + b as i64;
    if v < i32::MIN as i64 {
        i32::MIN
    } else if v > i32::MAX as i64 {
        i32::MAX
    } else {
        v as i32
    }
}

/// `a - b`, clipped to the range of `i32`.
pub open spec fn sub_clip(a: int, b: int) -> int {
    clip_i32(a - b)
}

/// `a - b`, clipped to the range of `i32`.
pub fn sub_i32_clip(a: i32, b: i32) -> (r: i32)
    ensures
        r as int == sub_clip(a as int, b as int),
{
    let v: i64 = a as i64 - b as i64;
    if v < i32::MIN as i64 {
        i32::MIN
    } else if v > i32::MAX as i64 {
        i32::MAX
    } else {
        v as i32
    }
}

/// Where a window dragged out of an output-filling state lands horizontally:
/// the pointer keeps the same fractional position over the window, so the
/// window's left edge is the pointer minus the window width scaled by the
/// pointer's fraction of the output width (`ow >= 1`), rounded, clipped.
pub open spec fn move_anchor_x(px: int, w: int, ow: int) -> int {
    clip_i32(px - round_div(w * px, ow))
}

/// Exec form of `move_anchor_x`.
pub fn compute_move_anchor_x(px: i32, w: i32, ow: i32) -> (r: i32)
    requires
        ow >= 1,
    ensures
        r as int == move_anchor_x(px as int, w as int, ow as int),
{
    proof {
        assert((w as int) * (px as int) <= 0x4000_0000_0000_0000 && (w as int) * (px as int)
            >= -0x4000_0000_0000_0000) by (nonlinear_arith)
            requires
                -0x8000_0000 <= w as int <= 0x7fff_ffff,
                -0x8000_0000 <= px as int <= 0x7fff_ffff,
        ;
    }
    let a: i128 = (w as i128) * (px as i128);
    let b: i128 = ow as i128;
    let q: i128 = if a >= 0 {
        (2 * a + b) / (2 * b)
    } else {
        -((2 * (-a) + b) / (2 * b))
    };
    proof {
        assert(q == round_div(a as int, b as int));
    }
    let v: i128 = (px as i128) - q;
    if v < i32::MIN as i128 {
        i32::MIN
    } else if v > i32::MAX as i128 {
        i32::MAX
    } else {
        v as i32
    }
}

/// A logical point taken to physical pixels under scale `s`.
pub fn to_physical(p: Point, s: Scale) -> (r: Point)
    requires
        s.wf(),
    ensures
        r == to_physical_spec(p, s),
{
    Point { x: scale_coord(p.x, s.num, s.den), y: scale_coord(p.y, s.num, s.den) }
}

/// A physical extent taken to logical pixels under scale `s`.
pub fn to_logical(m: Size, s: Scale) -> (r: Size)
    requires
        s.wf(),
    ensures
        r == to_logical_spec(m, s),
{
    Size { w: scale_coord(m.w, s.den, s.num), h: scale_coord(m.h, s.den, s.num) }
}

} // verus!
