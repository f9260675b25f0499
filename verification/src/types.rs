//! A type for storing additional properties of a point derived from the
//! pivot vertex. These details are used for sorting points around the pivot.

use vstd::prelude::*;
use crate::points::Point2D;

verus! {

/// A point annotated with its position relative to a pivot vertex.
///
/// `(dx, dy)` is the exact offset of the point from the pivot; it carries
/// the polar angle `atan2(dy, dx)` of the point as seen from the pivot
/// without rounding it to a float, and `dist2` is the exact squared
/// euclidean distance to the pivot. The order by angle is decided from
/// `(dx, dy)` alone, by half-plane class and cross products.
#[derive(Clone, Copy, Debug, PartialEq, Eq, Structural)]
pub struct Fatpoint2D {
    /// x-coordinate value of the point itself
    pub x: i32,
    /// y-coordinate value of the point itself
    pub y: i32,
    /// x-offset of the point from the pivot
    pub dx: i64,
    /// y-offset of the point from the pivot
    pub dy: i64,
    /// exact squared distance from the pivot
    pub dist2: i128,
}

/// Ranks the direction `(dx, dy)` by which stretch of the `atan2` range
/// `(-pi, pi]` its polar angle falls in: directions below the x-axis come
/// first (negative angles), then the positive x-axis (angle zero, where
/// `atan2` also sends the zero vector), then directions above the axis,
/// then the negative x-axis (angle pi).
pub open spec fn angle_class(k: Fatpoint2D) -> int {
    if k.dy < 0 {
        0
    } else if k.dy == 0 && k.dx >= 0 {
        1
    } else if k.dy > 0 {
        2
    } else {
        3
    }
}

/// Cross product of the two offset vectors: within one angle class its sign
/// orders the polar angles.
pub open spec fn dir_cross(a: Fatpoint2D, b: Fatpoint2D) -> int {
    a.dx * b.dy - a.dy * b.dx
}

/// The polar angle of `a` around the pivot is strictly smaller than that
/// of `b`.
pub open spec fn angle_lt(a: Fatpoint2D, b: Fatpoint2D) -> bool {
    angle_class(a) < angle_class(b) || (angle_class(a) == angle_class(b) && dir_cross(a, b) > 0)
}

/// `a` and `b` have the same polar angle around the pivot: they lie on one
/// ray out of it.
pub open spec fn angle_eq(a: Fatpoint2D, b: Fatpoint2D) -> bool {
    angle_class(a) == angle_class(b) && dir_cross(a, b) == 0
}

/// The sort order of the angular sweep: ascending polar angle, ties on the
/// angle broken by ascending squared distance from the pivot, so that the
/// farthest point of each ray comes last.
pub open spec fn sweep_lt(a: Fatpoint2D, b: Fatpoint2D) -> bool {
    angle_lt(a, b) || (angle_eq(a, b) && a.dist2 < b.dist2)
}

/// The offsets of a key are consistent with its squared distance.
pub open spec fn key_wf(k: Fatpoint2D) -> bool {
    &&& k.dist2 == k.dx * k.dx + k.dy * k.dy
    &&& -0x1_0000_0000 <= k.dx <= 0x1_0000_0000
    &&& -0x1_0000_0000 <= k.dy <= 0x1_0000_0000
}

/// The point that a key was made from.
pub open spec fn key_point(k: Fatpoint2D) -> Point2D {
    Point2D { x: k.x, y: k.y }
}

impl Fatpoint2D {
    /// Create the angular key of `point` relative to `vertex`, usually the
    /// pivot: the point's own coordinates, its exact offset from the
    /// vertex, and its exact squared distance to the vertex.
    pub fn new(point: &Point2D, vertex: &Point2D) -> (r: Fatpoint2D)
        ensures
            r.x == point.x,
            r.y == point.y,
            r.dx == point.x - vertex.x,
            r.dy == point.y - vertex.y,
            r.dist2 == crate::points::dist2(*vertex, *point),
            key_wf(r),
            key_point(r) == *point,
    {
        let dx = point.x as i64 - vertex.x as i64;
        let dy = point.y as i64 - vertex.y as i64;
        proof {
            crate::points::lemma_small_product_bounds(dx as int, dx as int);
            crate::points::lemma_small_product_bounds(dy as int, dy as int);
        }
        let d2 = (dx as i128) * (dx as i128) + (dy as i128) * (dy as i128);
        Fatpoint2D { x: point.x, y: point.y, dx, dy, dist2: d2 }
    }

    /// The angle class of this key, decided at run time.
    pub fn angle_class_value(&self) -> (c: u8)
        ensures
            c as int == angle_class(*self),
    {
        if self.dy < 0 {
            0
        } else if self.dy == 0 && self.dx >= 0 {
            1
        } else if self.dy > 0 {
            2
        } else {
            3
        }
    }
}

/// Whether the polar angle of `a` is strictly below that of `b`, decided
/// at run time. Cross products are compared as products, never subtracted,
/// so no intermediate value can overflow even for keys built by hand with
/// extreme offsets.
pub fn angle_lt_value(a: &Fatpoint2D, b: &Fatpoint2D) -> (r: bool)
    ensures
        r == angle_lt(*a, *b),
{
    let ca = a.angle_class_value();
    let cb = b.angle_class_value();
    if ca != cb {
        ca < cb
    } else {
        proof {
            lemma_i64_product_fits(a.dx as int, b.dy as int);
            lemma_i64_product_fits(a.dy as int, b.dx as int);
        }
        (a.dx as i128) * (b.dy as i128) > (a.dy as i128) * (b.dx as i128)
    }
}

/// Whether `a` and `b` lie on one ray out of the pivot, decided at run time.
pub fn angle_eq_value(a: &Fatpoint2D, b: &Fatpoint2D) -> (r: bool)
    ensures
        r == angle_eq(*a, *b),
{
    let ca = a.angle_class_value();
    let cb = b.angle_class_value();
    if ca != cb {
        false
    } else {
        proof {
            lemma_i64_product_fits(a.dx as int, b.dy as int);
            lemma_i64_product_fits(a.dy as int, b.dx as int);
        }
        (a.dx as i128) * (b.dy as i128) == (a.dy as i128) * (b.dx as i128)
    }
}

/// Whether `a` comes strictly before `b` in the angular sweep order,
/// decided at run time.
pub fn sweep_lt_value(a: &Fatpoint2D, b: &Fatpoint2D) -> (r: bool)
    ensures
        r == sweep_lt(*a, *b),
{
    if angle_lt_value(a, b) {
        true
    } else if angle_eq_value(a, b) {
        a.dist2 < b.dist2
    } else {
        false
    }
}

/// The sweep order is asymmetric: two keys never each come strictly
/// before the other.
pub proof fn lemma_sweep_lt_asym(a: Fatpoint2D, b: Fatpoint2D)
    ensures
        !(sweep_lt(a, b) && sweep_lt(b, a)),
{
    assert(dir_cross(a, b) + dir_cross(b, a) == 0) by (nonlinear_arith);
}

/// A product of two `i64` values fits in `i128`.
proof fn lemma_i64_product_fits(x: int, y: int)
    requires
        i64::MIN <= x <= i64::MAX,
        i64::MIN <= y <= i64::MAX,
    ensures
        i128::MIN <= x * y <= i128::MAX,
{
    assert(i128::MIN <= x * y <= i128::MAX) by (nonlinear_arith)
        requires
            -0x8000_0000_0000_0000 <= x <= 0x7fff_ffff_ffff_ffff,
            -0x8000_0000_0000_0000 <= y <= 0x7fff_ffff_ffff_ffff,
    ;
}

impl PartialOrd for Fatpoint2D {
    /// Compare two keys in the angular sweep order: by polar angle around
    /// the pivot, ties on the angle broken by squared distance from the
    /// pivot, the nearer key first. Keys are equal only when they lie on
    /// one ray at one distance.
    fn partial_cmp(&self, other: &Fatpoint2D) -> (r: Option<core::cmp::Ordering>) {
        if sweep_lt_value(self, other) {
            Some(core::cmp::Ordering::Less)
        } else if sweep_lt_value(other, self) {
            Some(core::cmp::Ordering::Greater)
        } else {
            Some(core::cmp::Ordering::Equal)
        }
    }
}

impl vstd::std_specs::cmp::PartialOrdSpecImpl for Fatpoint2D {
    open spec fn obeys_partial_cmp_spec() -> bool {
        true
    }

    open spec fn partial_cmp_spec(&self, other: &Fatpoint2D) -> Option<core::cmp::Ordering> {
        if sweep_lt(*self, *other) {
            Some(core::cmp::Ordering::Less)
        } else if sweep_lt(*other, *self) {
            Some(core::cmp::Ordering::Greater)
        } else {
            Some(core::cmp::Ordering::Equal)
        }
    }
}

} // verus!
