//! Points, sizes and rectangles in whole pixels, with saturating arithmetic.
//!
//! Every coordinate and extent is an `i32`. Sums and differences that leave the
//! range of `i32` stop at its bounds, so geometry is defined for every input.

use vstd::prelude::*;
use crate::direction::DirectionMode;

verus! {

/// The length that stands for "no bound" on an axis.
pub const UNBOUNDED: i32 = 2147483647;

/// `v` brought into the range of `i32`.
pub open spec fn saturate(v: int) -> int {
    if v < i32::MIN {
        i32::MIN as int
    } else if v > i32::MAX {
        i32::MAX as int
    } else {
        v
    }
}

/// `v`, or zero where `v` is negative.
pub open spec fn at_least_zero(v: int) -> int {
    if v < 0 {
        0
    } else {
        v
    }
}

/// The larger of two integers.
pub open spec fn larger(a: int, b: int) -> int {
    if a < b {
        b
    } else {
        a
    }
}

/// Brings a wide value into the range of `i32`.
pub fn narrow(v: i64) -> (r: i32)
    ensures
        r == saturate(v as int),
{
    if v < -2147483648i64 {
        i32::MIN
    } else if v > 2147483647i64 {
        i32::MAX
    } else {
        v as i32
    }
}

/// Saturating sum.
pub fn plus(a: i32, b: i32) -> (r: i32)
    ensures
        r == saturate(a + b),
{
    narrow(a as i64 + b as i64)
}

/// Saturating difference.
pub fn minus(a: i32, b: i32) -> (r: i32)
    ensures
        r == saturate(a - b),
{
    narrow(a as i64 - b as i64)
}

/// Clamps a negative extent to zero.
pub fn floor_zero(v: i32) -> (r: i32)
    ensures
        r == at_least_zero(v as int),
{
    if v < 0 {
        0
    } else {
        v
    }
}

/// The larger of two lengths.
pub fn max_of(a: i32, b: i32) -> (r: i32)
    ensures
        r == larger(a as int, b as int),
{
    if a < b {
        b
    } else {
        a
    }
}

/// A length in whole pixels, as written in a sizing rule.
#[derive(Clone, Copy, Debug, PartialEq, Eq, Structural)]
pub struct Length(pub i32);

impl Length {
    pub fn new(value: i32) -> (r: Self)
        ensures
            r.0 == value,
    {
        Length(value)
    }

    pub fn get(&self) -> (r: i32)
        ensures
            r == self.0,
    {
        self.0
    }
}

/// A position.
#[derive(Clone, Copy, Debug, PartialEq, Eq, Structural)]
pub struct Point2D {
    pub x: i32,
    pub y: i32,
}

impl Point2D {
    pub fn new(x: i32, y: i32) -> (r: Self)
        ensures
            r == (Point2D { x, y }),
    {
        Point2D { x, y }
    }

    /// The coordinate along the main axis of `direction`.
    pub open spec fn main_axis(self, direction: DirectionMode) -> int {
        if direction.horizontal() {
            self.x as int
        } else {
            self.y as int
        }
    }

    /// The coordinate along the cross axis of `direction`.
    pub open spec fn cross_axis(self, direction: DirectionMode) -> int {
        if direction.horizontal() {
            self.y as int
        } else {
            self.x as int
        }
    }

    /// The coordinate along the main axis of `direction`.
    pub fn main_of(&self, direction: &DirectionMode) -> (r: i32)
        ensures
            r == self.main_axis(*direction),
    {
        if direction.is_horizontal() {
            self.x
        } else {
            self.y
        }
    }

    /// The coordinate along the cross axis of `direction`.
    pub fn cross_of(&self, direction: &DirectionMode) -> (r: i32)
        ensures
            r == self.cross_axis(*direction),
    {
        if direction.is_horizontal() {
            self.y
        } else {
            self.x
        }
    }
}

/// A width and a height.
#[derive(Clone, Copy, Debug, PartialEq, Eq, Structural)]
pub struct Size2D {
    pub width: i32,
    pub height: i32,
}

impl Size2D {
    pub fn new(width: i32, height: i32) -> (r: Self)
        ensures
            r == (Size2D { width, height }),
    {
        Size2D { width, height }
    }

    /// The extent along the main axis of `direction`.
    pub open spec fn main_axis(self, direction: DirectionMode) -> int {
        if direction.horizontal() {
            self.width as int
        } else {
            self.height as int
        }
    }

    /// The extent along the cross axis of `direction`.
    pub open spec fn cross_axis(self, direction: DirectionMode) -> int {
        if direction.horizontal() {
            self.height as int
        } else {
            self.width as int
        }
    }

    /// The size whose extents along the axes of `direction` are `main` and `cross`.
    pub open spec fn on_axes(direction: DirectionMode, main: i32, cross: i32) -> Size2D {
        if direction.horizontal() {
            Size2D { width: main, height: cross }
        } else {
            Size2D { width: cross, height: main }
        }
    }

    /// The extent along the main axis of `direction`.
    pub fn main_of(&self, direction: &DirectionMode) -> (r: i32)
        ensures
            r == self.main_axis(*direction),
    {
        if direction.is_horizontal() {
            self.width
        } else {
            self.height
        }
    }

    /// The extent along the cross axis of `direction`.
    pub fn cross_of(&self, direction: &DirectionMode) -> (r: i32)
        ensures
            r == self.cross_axis(*direction),
    {
        if direction.is_horizontal() {
            self.height
        } else {
            self.width
        }
    }

    /// The size whose extents along the axes of `direction` are `main` and `cross`.
    pub fn from_axes(direction: &DirectionMode, main: i32, cross: i32) -> (r: Self)
        ensures
            r == Size2D::on_axes(*direction, main, cross),
    {
        if direction.is_horizontal() {
            Size2D { width: main, height: cross }
        } else {
            Size2D { width: cross, height: main }
        }
    }
}

/// A rectangle: an origin and a size.
#[derive(Clone, Copy, Debug, PartialEq, Eq, Structural)]
pub struct Rect {
    pub origin: Point2D,
    pub size: Size2D,
}

/// The rectangle of a node on screen.
pub type Area = Rect;

impl Rect {
    pub fn new(origin: Point2D, size: Size2D) -> (r: Self)
        ensures
            r == (Rect { origin, size }),
    {
        Rect { origin, size }
    }

    /// The rectangle that starts at (`main`, `cross`) along the axes of
    /// `direction` and extends by `main_len` and `cross_len` along them.
    pub open spec fn on_axes(
        direction: DirectionMode,
        main: i32,
        cross: i32,
        main_len: i32,
        cross_len: i32,
    ) -> Rect {
        if direction.horizontal() {
            Rect {
                origin: Point2D { x: main, y: cross },
                size: Size2D { width: main_len, height: cross_len },
            }
        } else {
            Rect {
                origin: Point2D { x: cross, y: main },
                size: Size2D { width: cross_len, height: main_len },
            }
        }
    }

    /// The rectangle that starts at (`main`, `cross`) along the axes of
    /// `direction` and extends by `main_len` and `cross_len` along them.
    pub fn from_axes(
        direction: &DirectionMode,
        main: i32,
        cross: i32,
        main_len: i32,
        cross_len: i32,
    ) -> (r: Self)
        ensures
            r == Rect::on_axes(*direction, main, cross, main_len, cross_len),
    {
        if direction.is_horizontal() {
            Rect {
                origin: Point2D { x: main, y: cross },
                size: Size2D { width: main_len, height: cross_len },
            }
        } else {
            Rect {
                origin: Point2D { x: cross, y: main },
                size: Size2D { width: cross_len, height: main_len },
            }
        }
    }

    pub fn width(&self) -> (r: i32)
        ensures
            r == self.size.width,
    {
        self.size.width
    }

    pub fn height(&self) -> (r: i32)
        ensures
            r == self.size.height,
    {
        self.size.height
    }

    pub fn min_x(&self) -> (r: i32)
        ensures
            r == self.origin.x,
    {
        self.origin.x
    }

    pub fn min_y(&self) -> (r: i32)
        ensures
            r == self.origin.y,
    {
        self.origin.y
    }

    /// The right edge, saturating.
    pub fn max_x(&self) -> (r: i32)
        ensures
            r == saturate(self.origin.x + self.size.width),
    {
        plus(self.origin.x, self.size.width)
    }

    /// The bottom edge, saturating.
    pub fn max_y(&self) -> (r: i32)
        ensures
            r == saturate(self.origin.y + self.size.height),
    {
        plus(self.origin.y, self.size.height)
    }
}

/// Space kept free on the four sides of a node, inside its area.
#[derive(Clone, Copy, Debug, PartialEq, Eq, Structural)]
pub struct Gaps {
    pub top: i32,
    pub right: i32,
    pub bottom: i32,
    pub left: i32,
}

impl Gaps {
    pub fn new(top: i32, right: i32, bottom: i32, left: i32) -> (r: Self)
        ensures
            r == (Gaps { top, right, bottom, left }),
    {
        Gaps { top, right, bottom, left }
    }

    /// The same gap on every side.
    pub fn all(gap: i32) -> (r: Self)
        ensures
            r == (Gaps { top: gap, right: gap, bottom: gap, left: gap }),
    {
        Gaps { top: gap, right: gap, bottom: gap, left: gap }
    }

    /// The left and right gaps together; a negative gap counts as none.
    pub open spec fn horizontal(self) -> int {
        saturate(at_least_zero(self.left as int) + at_least_zero(self.right as int))
    }

    /// The top and bottom gaps together; a negative gap counts as none.
    pub open spec fn vertical(self) -> int {
        saturate(at_least_zero(self.top as int) + at_least_zero(self.bottom as int))
    }

    /// The left and right gaps together; a negative gap counts as none.
    pub fn horizontal_sum(&self) -> (r: i32)
        ensures
            r == self.horizontal(),
    {
        plus(floor_zero(self.left), floor_zero(self.right))
    }

    /// The top and bottom gaps together; a negative gap counts as none.
    pub fn vertical_sum(&self) -> (r: i32)
        ensures
            r == self.vertical(),
    {
        plus(floor_zero(self.top), floor_zero(self.bottom))
    }
}

} // verus!
