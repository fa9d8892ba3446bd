//! Axis-aligned rectangles on an integer grid.
//!
//! A rectangle is the half of the plan geometry that never changes once
//! created: subdivision only ever carves a rectangle into smaller ones.
//! Coordinates are capped at `MAX_COORD` so that an area, and every product
//! the acceptance arithmetic needs, fits comfortably in a `u64`.

use vstd::prelude::*;

verus! {

/// Largest coordinate a well-formed rectangle may reach.
pub const MAX_COORD: u64 = 268435456;

/// An axis-aligned rectangle given by its minimum and maximum corners.
/// `min_x <= max_x` and `min_y <= max_y` hold for every well-formed value;
/// a rectangle with a zero-width or zero-height side is degenerate but legal.
#[derive(Clone, Copy, Debug, PartialEq, Eq, Structural)]
pub struct Rect {
    pub min_x: u64,
    pub min_y: u64,
    pub max_x: u64,
    pub max_y: u64,
}

impl Rect {
    /// The corners are ordered and lie on the bounded grid.
    pub open spec fn wf(self) -> bool {
        &&& self.min_x <= self.max_x
        &&& self.min_y <= self.max_y
        &&& self.max_x <= MAX_COORD
        &&& self.max_y <= MAX_COORD
    }

    pub open spec fn spec_width(self) -> int {
        self.max_x - self.min_x
    }

    pub open spec fn spec_height(self) -> int {
        self.max_y - self.min_y
    }

    pub open spec fn spec_area(self) -> int {
        self.spec_width() * self.spec_height()
    }

    /// Two rectangles intersect when they share at least one point;
    /// touching along an edge or a corner counts.
    pub open spec fn spec_intersects(self, other: Rect) -> bool {
        &&& self.min_x <= other.max_x
        &&& other.min_x <= self.max_x
        &&& self.min_y <= other.max_y
        &&& other.min_y <= self.max_y
    }

    pub fn new(min_x: u64, min_y: u64, max_x: u64, max_y: u64) -> (r: Rect)
        ensures
            r == (Rect { min_x, min_y, max_x, max_y }),
    {
        Rect { min_x, min_y, max_x, max_y }
    }

    pub fn width(&self) -> (w: u64)
        requires
            self.wf(),
        ensures
            w == self.spec_width(),
    {
        self.max_x - self.min_x
    }

    pub fn height(&self) -> (h: u64)
        requires
            self.wf(),
        ensures
            h == self.spec_height(),
    {
        self.max_y - self.min_y
    }

    pub fn area(&self) -> (a: u64)
        requires
            self.wf(),
        ensures
            a == self.spec_area(),
    {
        proof {
            lemma_area_bounded(*self);
        }
        (self.max_x - self.min_x) * (self.max_y - self.min_y)
    }

    pub fn intersects(&self, other: &Rect) -> (b: bool)
        ensures
            b == self.spec_intersects(*other),
    {
        self.min_x <= other.max_x && other.min_x <= self.max_x && self.min_y <= other.max_y
            && other.min_y <= self.max_y
    }

    /// Whether this rectangle touches the boundary of `outer`: some edge of
    /// it lies on an edge of `outer`. For a rectangle contained in `outer`
    /// this says it reaches the outer perimeter rather than sitting strictly
    /// inside — mere containment in `outer` is not enough.
    pub open spec fn spec_touches_boundary(self, outer: Rect) -> bool {
        ||| self.min_x == outer.min_x
        ||| self.max_x == outer.max_x
        ||| self.min_y == outer.min_y
        ||| self.max_y == outer.max_y
    }

    pub fn touches_boundary(&self, outer: &Rect) -> (b: bool)
        ensures
            b == self.spec_touches_boundary(*outer),
    {
        self.min_x == outer.min_x || self.max_x == outer.max_x || self.min_y == outer.min_y
            || self.max_y == outer.max_y
    }
}

/// A well-formed rectangle's area fits in a `u64`.
pub proof fn lemma_area_bounded(r: Rect)
    requires
        r.wf(),
    ensures
        0 <= r.spec_area() <= MAX_COORD * MAX_COORD,
{
    let w = r.spec_width();
    let h = r.spec_height();
    assert(0 <= w <= MAX_COORD);
    assert(0 <= h <= MAX_COORD);
    assert(w * h <= MAX_COORD * MAX_COORD) by (nonlinear_arith)
        requires
            0 <= w <= MAX_COORD,
            0 <= h <= MAX_COORD,
    ;
    assert(0 <= w * h) by (nonlinear_arith)
        requires
            0 <= w,
            0 <= h,
    ;
}

} // verus!
