//! Point type for finding the convex hull.

use vstd::prelude::*;

verus! {

/// A basic representation of a point.
///
/// With an x and y coordinate, a `Point2D` is a point in the 2D euclidean
/// plane. Coordinates are exact integers: every predicate below is decided
/// by exact arithmetic in `i128`, which is wide enough that no difference,
/// product or sum of products of `i32` coordinates can overflow.
#[derive(Clone, Copy, Debug, PartialEq, Eq, Structural)]
pub struct Point2D {
    /// x-coordinate value
    pub x: i32,
    /// y-coordinate value
    pub y: i32,
}

/// The 2D cross product of `(b - a)` with `(c - a)`: positive when the walk
/// `a -> b -> c` turns counterclockwise, zero when the three points are
/// collinear, negative when it turns clockwise.
pub open spec fn cross(a: Point2D, b: Point2D, c: Point2D) -> int {
    (b.x - a.x) * (c.y - a.y) - (b.y - a.y) * (c.x - a.x)
}

/// The squared euclidean distance from `a` to `b`: exact, where the
/// distance itself is not.
pub open spec fn dist2(a: Point2D, b: Point2D) -> int {
    (b.x - a.x) * (b.x - a.x) + (b.y - a.y) * (b.y - a.y)
}

/// `a` comes no later than `b` in the bottom-most-then-left-most order
/// that picks the canonical hull pivot.
pub open spec fn lex_le(a: Point2D, b: Point2D) -> bool {
    a.y < b.y || (a.y == b.y && a.x <= b.x)
}

/// What `Point2D::pick_left` returns: the lower of the two points, ties on
/// y broken by the smaller x, and `b` when the two are equal.
pub open spec fn pick_left_spec(a: Point2D, b: Point2D) -> Point2D {
    if a == b {
        b
    } else if a.y != b.y {
        if a.y < b.y {
            a
        } else {
            b
        }
    } else if a.x < b.x {
        a
    } else {
        b
    }
}

impl Point2D {
    /// Constructor for `Point2D`.
    pub fn new(x: i32, y: i32) -> (r: Point2D)
        ensures
            r == (Point2D { x, y }),
    {
        Point2D { x, y }
    }

    /// Comparison of point position relative to another point.
    ///
    /// Given two points, returns the bottom-most one, ties on y broken by
    /// the smaller x; two equal points yield `other`. This is used to find
    /// the pivot vertex of the hull, which always lies on it.
    pub fn pick_left<'a>(&'a self, other: &'a Point2D) -> (r: &'a Point2D)
        ensures
            *r == pick_left_spec(*self, *other),
            *r == *self || *r == *other,
            lex_le(*r, *self),
            lex_le(*r, *other),
    {
        if self == other {
            other
        } else if self.y != other.y {
            if self.y < other.y {
                self
            } else {
                other
            }
        } else {
            if self.x < other.x {
                self
            } else {
                other
            }
        }
    }

    /// Determine the turn direction around the corner formed by the points
    /// `self`, `point_b` and `point_c`: true for a strictly counterclockwise
    /// turn, false for collinearity or a clockwise turn.
    pub fn ccw(&self, point_b: &Point2D, point_c: &Point2D) -> (r: bool)
        ensures
            r == (cross(*self, *point_b, *point_c) > 0),
    {
        cross_value(self, point_b, point_c) > 0
    }
}

/// The exact value of the orientation cross product of a point triple.
pub fn cross_value(a: &Point2D, b: &Point2D, c: &Point2D) -> (r: i128)
    ensures
        r == cross(*a, *b, *c),
{
    let bx = b.x as i128 - a.x as i128;
    let by = b.y as i128 - a.y as i128;
    let cx = c.x as i128 - a.x as i128;
    let cy = c.y as i128 - a.y as i128;
    proof {
        lemma_small_product_bounds(bx as int, cy as int);
        lemma_small_product_bounds(by as int, cx as int);
    }
    bx * cy - by * cx
}

/// Determine the exact squared distance between two points.
pub fn compute_distance2(point1: &Point2D, point2: &Point2D) -> (r: i128)
    ensures
        r == dist2(*point1, *point2),
{
    let dx = point2.x as i128 - point1.x as i128;
    let dy = point2.y as i128 - point1.y as i128;
    proof {
        lemma_small_product_bounds(dx as int, dx as int);
        lemma_small_product_bounds(dy as int, dy as int);
    }
    dx * dx + dy * dy
}

/// A product of two values no larger than coordinate differences is far
/// inside the `i128` range.
pub proof fn lemma_small_product_bounds(x: int, y: int)
    requires
        -0x1_0000_0000 <= x <= 0x1_0000_0000,
        -0x1_0000_0000 <= y <= 0x1_0000_0000,
    ensures
        -0x1_0000_0000_0000_0000 <= x * y <= 0x1_0000_0000_0000_0000,
{
    assert(-0x1_0000_0000_0000_0000 <= x * y <= 0x1_0000_0000_0000_0000) by (nonlinear_arith)
        requires
            -0x1_0000_0000 <= x <= 0x1_0000_0000,
            -0x1_0000_0000 <= y <= 0x1_0000_0000,
    ;
}

} // verus!
