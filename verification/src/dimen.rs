//! Integer 2D vectors and axis-aligned rectangles, used as plain value types
//! throughout the cache: pixel positions, bitmap sizes and atlas regions.

use vstd::prelude::*;

verus! {

/// A two-dimensional vector of unsigned pixel coordinates.
#[derive(Clone, Copy, Debug, Hash, PartialEq, Eq, Structural)]
pub struct UVec2 {
    pub x: u32,
    pub y: u32,
}

impl UVec2 {
    pub fn new(x: u32, y: u32) -> (r: UVec2)
        ensures
            r.x == x,
            r.y == y,
    {
        UVec2 { x, y }
    }

    pub fn zero() -> (r: UVec2)
        ensures
            r.x == 0,
            r.y == 0,
    {
        UVec2 { x: 0, y: 0 }
    }
}

/// A two-dimensional vector of signed pixel coordinates.
#[derive(Clone, Copy, Debug, Hash, PartialEq, Eq, Structural)]
pub struct IVec2 {
    pub x: i32,
    pub y: i32,
}

impl IVec2 {
    pub fn new(x: i32, y: i32) -> (r: IVec2)
        ensures
            r.x == x,
            r.y == y,
    {
        IVec2 { x, y }
    }

    pub fn add(self, rhs: IVec2) -> (r: IVec2)
        requires
            i32::MIN <= self.x + rhs.x <= i32::MAX,
            i32::MIN <= self.y + rhs.y <= i32::MAX,
        ensures
            r.x == self.x + rhs.x,
            r.y == self.y + rhs.y,
    {
        IVec2 { x: self.x + rhs.x, y: self.y + rhs.y }
    }

    pub fn sub(self, rhs: IVec2) -> (r: IVec2)
        requires
            i32::MIN <= self.x - rhs.x <= i32::MAX,
            i32::MIN <= self.y - rhs.y <= i32::MAX,
        ensures
            r.x == self.x - rhs.x,
            r.y == self.y - rhs.y,
    {
        IVec2 { x: self.x - rhs.x, y: self.y - rhs.y }
    }

    pub fn mul(self, rhs: i32) -> (r: IVec2)
        requires
            i32::MIN <= self.x * rhs <= i32::MAX,
            i32::MIN <= self.y * rhs <= i32::MAX,
        ensures
            r.x == self.x * rhs,
            r.y == self.y * rhs,
    {
        IVec2 { x: self.x * rhs, y: self.y * rhs }
    }

    /// Componentwise division by a positive divisor, truncating toward zero.
    pub fn div(self, rhs: i32) -> (r: IVec2)
        requires
            rhs > 0,
            self.x > i32::MIN,
            self.y > i32::MIN,
        ensures
            r.x == spec_trunc_div(self.x as int, rhs as int),
            r.y == spec_trunc_div(self.y as int, rhs as int),
    {
        IVec2 { x: trunc_div(self.x, rhs), y: trunc_div(self.y, rhs) }
    }
}

/// Integer division truncating toward zero, as machine division does.
pub open spec fn spec_trunc_div(a: int, b: int) -> int {
    if a >= 0 {
        a / b
    } else {
        -((-a) / b)
    }
}

/// Divide, truncating toward zero.
fn trunc_div(a: i32, b: i32) -> (r: i32)
    requires
        b > 0,
        a > i32::MIN,
    ensures
        r == spec_trunc_div(a as int, b as int),
{
    if a >= 0 {
        let q: u32 = (a as u32) / (b as u32);
        q as i32
    } else {
        let q: u32 = ((-a) as u32) / (b as u32);
        -(q as i32)
    }
}

/// An axis-aligned rectangle with unsigned corner coordinates.
/// `top_left` is inclusive and `bottom_right` exclusive.
#[derive(Clone, Copy, Debug, Hash, PartialEq, Eq, Structural)]
pub struct URect {
    pub top_left: UVec2,
    pub bottom_right: UVec2,
}

impl URect {
    /// The corners are properly ordered.
    pub open spec fn wf(self) -> bool {
        self.top_left.x <= self.bottom_right.x && self.top_left.y <= self.bottom_right.y
    }

    pub open spec fn spec_width(self) -> int {
        self.bottom_right.x - self.top_left.x
    }

    pub open spec fn spec_height(self) -> int {
        self.bottom_right.y - self.top_left.y
    }

    pub open spec fn spec_is_zero_area(self) -> bool {
        self.spec_width() == 0 || self.spec_height() == 0
    }

    pub fn new(top_left: UVec2, bottom_right: UVec2) -> (r: URect)
        ensures
            r.top_left == top_left,
            r.bottom_right == bottom_right,
    {
        URect { top_left, bottom_right }
    }

    pub fn from_tuples(top_left: (u32, u32), bottom_right: (u32, u32)) -> (r: URect)
        ensures
            r.top_left.x == top_left.0,
            r.top_left.y == top_left.1,
            r.bottom_right.x == bottom_right.0,
            r.bottom_right.y == bottom_right.1,
    {
        URect {
            top_left: UVec2 { x: top_left.0, y: top_left.1 },
            bottom_right: UVec2 { x: bottom_right.0, y: bottom_right.1 },
        }
    }

    pub fn width(&self) -> (r: u32)
        requires
            self.wf(),
        ensures
            r == self.spec_width(),
    {
        self.bottom_right.x - self.top_left.x
    }

    pub fn height(&self) -> (r: u32)
        requires
            self.wf(),
        ensures
            r == self.spec_height(),
    {
        self.bottom_right.y - self.top_left.y
    }

    pub fn size(&self) -> (r: UVec2)
        requires
            self.wf(),
        ensures
            r.x == self.spec_width(),
            r.y == self.spec_height(),
    {
        UVec2 { x: self.width(), y: self.height() }
    }

    pub fn is_zero_area(&self) -> (r: bool)
        requires
            self.wf(),
        ensures
            r == self.spec_is_zero_area(),
    {
        self.top_left.x == self.bottom_right.x || self.top_left.y == self.bottom_right.y
    }

    /// The pixel at column `x`, row `y` lies inside the rectangle.
    pub open spec fn spec_contains_pixel(self, x: int, y: int) -> bool {
        self.top_left.x <= x < self.bottom_right.x && self.top_left.y <= y < self.bottom_right.y
    }

    /// The rectangles share no pixel.
    pub open spec fn spec_disjoint(self, other: URect) -> bool {
        ||| self.spec_is_zero_area()
        ||| other.spec_is_zero_area()
        ||| self.bottom_right.x <= other.top_left.x
        ||| other.bottom_right.x <= self.top_left.x
        ||| self.bottom_right.y <= other.top_left.y
        ||| other.bottom_right.y <= self.top_left.y
    }

    /// Every pixel of `self` lies inside `other`.
    pub open spec fn spec_contained_in(self, other: URect) -> bool {
        self.spec_is_zero_area() || (other.top_left.x <= self.top_left.x && self.bottom_right.x
            <= other.bottom_right.x && other.top_left.y <= self.top_left.y && self.bottom_right.y
            <= other.bottom_right.y)
    }
}

/// Disjoint rectangles have no pixel in common.
pub proof fn lemma_disjoint_no_common_pixel(a: URect, b: URect, x: int, y: int)
    requires
        a.wf(),
        b.wf(),
        a.spec_disjoint(b),
        a.spec_contains_pixel(x, y),
    ensures
        !b.spec_contains_pixel(x, y),
{
}

/// A rectangle contained in one half of a disjoint pair is itself disjoint
/// from the other half.
pub proof fn lemma_contained_in_disjoint(a: URect, sup: URect, b: URect)
    requires
        a.wf(),
        sup.wf(),
        b.wf(),
        a.spec_contained_in(sup),
        sup.spec_disjoint(b),
    ensures
        a.spec_disjoint(b),
{
}

/// An axis-aligned rectangle with signed corner coordinates.
/// `top_left` is inclusive and `bottom_right` exclusive.
#[derive(Clone, Copy, Debug, Hash, PartialEq, Eq, Structural)]
pub struct IRect {
    pub top_left: IVec2,
    pub bottom_right: IVec2,
}

impl IRect {
    /// The corners are properly ordered.
    pub open spec fn wf(self) -> bool {
        self.top_left.x <= self.bottom_right.x && self.top_left.y <= self.bottom_right.y
    }

    pub open spec fn spec_width(self) -> int {
        self.bottom_right.x - self.top_left.x
    }

    pub open spec fn spec_height(self) -> int {
        self.bottom_right.y - self.top_left.y
    }

    /// The overlap of two rectangles, or `None` when they share no area.
    pub open spec fn spec_intersect(self, other: IRect) -> Option<IRect> {
        let tlx = if self.top_left.x >= other.top_left.x {
            self.top_left.x
        } else {
            other.top_left.x
        };
        let tly = if self.top_left.y >= other.top_left.y {
            self.top_left.y
        } else {
            other.top_left.y
        };
        let brx = if self.bottom_right.x <= other.bottom_right.x {
            self.bottom_right.x
        } else {
            other.bottom_right.x
        };
        let bry = if self.bottom_right.y <= other.bottom_right.y {
            self.bottom_right.y
        } else {
            other.bottom_right.y
        };
        if tlx < brx && tly < bry {
            Some(
                IRect {
                    top_left: IVec2 { x: tlx, y: tly },
                    bottom_right: IVec2 { x: brx, y: bry },
                },
            )
        } else {
            None
        }
    }

    pub fn new(top_left: IVec2, bottom_right: IVec2) -> (r: IRect)
        ensures
            r.top_left == top_left,
            r.bottom_right == bottom_right,
    {
        IRect { top_left, bottom_right }
    }

    pub fn from_tuples(top_left: (i32, i32), bottom_right: (i32, i32)) -> (r: IRect)
        ensures
            r.top_left.x == top_left.0,
            r.top_left.y == top_left.1,
            r.bottom_right.x == bottom_right.0,
            r.bottom_right.y == bottom_right.1,
    {
        IRect {
            top_left: IVec2 { x: top_left.0, y: top_left.1 },
            bottom_right: IVec2 { x: bottom_right.0, y: bottom_right.1 },
        }
    }

    pub fn intersect(&self, other: &IRect) -> (r: Option<IRect>)
        ensures
            r == self.spec_intersect(*other),
    {
        let tlx: i32 = if self.top_left.x >= other.top_left.x {
            self.top_left.x
        } else {
            other.top_left.x
        };
        let tly: i32 = if self.top_left.y >= other.top_left.y {
            self.top_left.y
        } else {
            other.top_left.y
        };
        let brx: i32 = if self.bottom_right.x <= other.bottom_right.x {
            self.bottom_right.x
        } else {
            other.bottom_right.x
        };
        let bry: i32 = if self.bottom_right.y <= other.bottom_right.y {
            self.bottom_right.y
        } else {
            other.bottom_right.y
        };
        if tlx < brx && tly < bry {
            Some(
                IRect {
                    top_left: IVec2 { x: tlx, y: tly },
                    bottom_right: IVec2 { x: brx, y: bry },
                },
            )
        } else {
            None
        }
    }
}

} // verus!
