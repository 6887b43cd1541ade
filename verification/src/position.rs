//! Pixel-space coordinates and axis-aligned rectangles.

use vstd::prelude::*;

verus! {

/// An immutable pair of non-negative integer coordinates in pixel space.
#[derive(Debug, Clone, Copy, PartialEq, Eq, Structural)]
pub struct Position {
    pub x: u32,
    pub y: u32,
}

impl Position {
    pub fn new(x: u32, y: u32) -> (p: Position)
        ensures
            p.x() == x,
            p.y() == y,
    {
        Position { x, y }
    }

    #[verifier::allow_in_spec]
    pub fn x(&self) -> (r: u32)
        returns
            self.x,
    {
        self.x
    }

    #[verifier::allow_in_spec]
    pub fn y(&self) -> (r: u32)
        returns
            self.y,
    {
        self.y
    }

    /// Component-wise sum.
    pub fn add(self, other: Position) -> (r: Position)
        requires
            self.x + other.x <= u32::MAX,
            self.y + other.y <= u32::MAX,
        ensures
            r.x() == self.x + other.x,
            r.y() == self.y + other.y,
    {
        Position { x: self.x + other.x, y: self.y + other.y }
    }

    /// Component-wise difference.
    pub fn sub(self, other: Position) -> (r: Position)
        requires
            other.x <= self.x,
            other.y <= self.y,
        ensures
            r.x() == self.x - other.x,
            r.y() == self.y - other.y,
    {
        Position { x: self.x - other.x, y: self.y - other.y }
    }

    /// Component-wise quotient.
    pub fn div(self, other: Position) -> (r: Position)
        requires
            other.x > 0,
            other.y > 0,
        ensures
            r.x() == self.x as int / other.x as int,
            r.y() == self.y as int / other.y as int,
    {
        Position { x: self.x / other.x, y: self.y / other.y }
    }

    /// Component-wise remainder.
    pub fn rem(self, other: Position) -> (r: Position)
        requires
            other.x > 0,
            other.y > 0,
        ensures
            r.x() == self.x as int % other.x as int,
            r.y() == self.y as int % other.y as int,
    {
        Position { x: self.x % other.x, y: self.y % other.y }
    }

    /// Both components scaled by the same factor.
    pub fn mul_scalar(self, k: u32) -> (r: Position)
        requires
            self.x * k <= u32::MAX,
            self.y * k <= u32::MAX,
        ensures
            r.x() == self.x * k,
            r.y() == self.y * k,
    {
        Position { x: self.x * k, y: self.y * k }
    }

    /// Both components divided by the same divisor.
    pub fn div_scalar(self, k: u32) -> (r: Position)
        requires
            k > 0,
        ensures
            r.x() == self.x as int / k as int,
            r.y() == self.y as int / k as int,
    {
        Position { x: self.x / k, y: self.y / k }
    }
}

/// An axis-aligned rectangle, half-open on the high end of both axes.
///
/// The invariant `top_left <= bottom_right` (component-wise) is established
/// by [`Region::new`], the only way to construct a value.
#[derive(Debug, Clone, Copy)]
pub struct Region {
    top_left: Position,
    bottom_right: Position,
}

impl Region {
    /// The low corner.
    pub closed spec fn spec_top_left(self) -> Position {
        self.top_left
    }

    /// The high corner, just past the rectangle on both axes.
    pub closed spec fn spec_bottom_right(self) -> Position {
        self.bottom_right
    }

    /// Component-wise ordering of the two corners.
    pub open spec fn wf(self) -> bool {
        self.spec_top_left().x <= self.spec_bottom_right().x
            && self.spec_top_left().y <= self.spec_bottom_right().y
    }

    /// Whether `(px, py)` lies in the half-open rectangle.
    pub open spec fn spec_contains(self, px: int, py: int) -> bool {
        &&& self.spec_top_left().x <= px < self.spec_bottom_right().x
        &&& self.spec_top_left().y <= py < self.spec_bottom_right().y
    }

    /// Fails (rather than clamps) when the corners are out of order.
    pub fn new(top_left: Position, bottom_right: Position) -> (r: Option<Region>)
        ensures
            match r {
                Some(region) => {
                    &&& top_left.x() <= bottom_right.x()
                    &&& top_left.y() <= bottom_right.y()
                    &&& region.top_left() == top_left
                    &&& region.bottom_right() == bottom_right
                    &&& region.wf()
                },
                None => top_left.x() > bottom_right.x() || top_left.y() > bottom_right.y(),
            },
    {
        if top_left.x() <= bottom_right.x() && top_left.y() <= bottom_right.y() {
            Some(Region { top_left, bottom_right })
        } else {
            None
        }
    }

    pub fn dimensions(&self) -> (d: Position)
        requires
            self.wf(),
        ensures
            d.x() == self.bottom_right().x() - self.top_left().x(),
            d.y() == self.bottom_right().y() - self.top_left().y(),
    {
        self.bottom_right().sub(self.top_left())
    }

    #[verifier::allow_in_spec]
    pub fn top_left(&self) -> (r: Position)
        returns
            self.spec_top_left(),
    {
        self.top_left
    }

    #[verifier::allow_in_spec]
    pub fn bottom_right(&self) -> (r: Position)
        returns
            self.spec_bottom_right(),
    {
        self.bottom_right
    }

    /// Half-open containment test on both axes.
    pub fn contains(&self, position: Position) -> (r: bool)
        ensures
            r == self.spec_contains(position.x() as int, position.y() as int),
    {
        (position.x() >= self.top_left.x() && position.x() < self.bottom_right.x())
            && (position.y() >= self.top_left.y() && position.y() < self.bottom_right.y())
    }
}

} // verus!
