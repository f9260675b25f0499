//! The two convex hull algorithms: an angular sweep around the pivot
//! (Graham-scan style) and a gift wrap march (Jarvis-march style).

use vstd::prelude::*;
use crate::points::{Point2D, cross, dist2, lex_le, cross_value, compute_distance2};
use crate::types::{Fatpoint2D, key_point, key_wf, sweep_lt, sweep_lt_value, angle_eq_value};

verus! {

/// The error returned when a point set with zero elements is given to
/// pivot selection or to either hull algorithm.
#[derive(Clone, Copy, Debug, PartialEq, Eq, Structural)]
pub struct EmptyInputError;

/// `p` is an element of `pts` and no element of `pts` is lower, nor as low
/// and further left: the canonical pivot of the set. At most one value
/// satisfies this for a given `pts`.
pub open spec fn is_lex_min(pts: Seq<Point2D>, p: Point2D) -> bool {
    &&& pts.contains(p)
    &&& forall|i: int| 0 <= i < pts.len() ==> lex_le(p, #[trigger] pts[i])
}

/// What both algorithms guarantee of a returned hull `h` for the input
/// `pts`: it is non-empty and no longer than the input; it starts at the
/// canonical pivot and visits the pivot only there; every vertex is an
/// element of the input (no synthesized points); no two consecutive
/// vertices are equal; and it is a single point exactly when every input
/// point coincides with the pivot.
pub open spec fn hull_basic(pts: Seq<Point2D>, h: Seq<Point2D>) -> bool {
    &&& 1 <= h.len() <= pts.len()
    &&& is_lex_min(pts, h[0])
    &&& forall|i: int| 0 <= i < h.len() ==> pts.contains(#[trigger] h[i])
    &&& forall|i: int| 1 <= i < h.len() ==> #[trigger] h[i] != h[0]
    &&& forall|i: int| 0 <= i < h.len() - 1 ==> #[trigger] h[i] != h[i + 1]
    &&& (h.len() == 1 <==> (forall|i: int| 0 <= i < pts.len() ==> #[trigger] pts[i] == h[0]))
}

/// Scans a point set and returns the canonical starting vertex of the
/// hull: the point with minimum y, ties broken by minimum x. It is the
/// fold of `Point2D::pick_left` over the whole set, and it always lies on
/// the hull. An empty set is rejected with `EmptyInputError`.
pub fn select_pivot(points: &Vec<Point2D>) -> (r: Result<Point2D, EmptyInputError>)
    ensures
        r is Ok <==> points@.len() > 0,
        r matches Ok(p) ==> is_lex_min(points@, p),
{
    if points.len() == 0 {
        return Err(EmptyInputError);
    }
    let mut best: Point2D = points[0];
    let mut i: usize = 1;
    while i < points.len()
        invariant
            1 <= i <= points@.len(),
            points@.contains(best),
            forall|j: int| 0 <= j < i ==> lex_le(best, #[trigger] points@[j]),
        decreases points@.len() - i,
    {
        let next = *best.pick_left(&points[i]);
        proof {
            if next != best {
                assert(next == points@[i as int]);
            }
        }
        best = next;
        i = i + 1;
    }
    Ok(best)
}

/// The cross product of the direction `(ddx, ddy)` with the offset of `p`
/// from `c`: positive when `p` lies strictly left of the ray along the
/// direction out of `c`.
pub open spec fn off_cross(c: Point2D, ddx: int, ddy: int, p: Point2D) -> int {
    ddx * (p.y - c.y) - ddy * (p.x - c.x)
}

/// The component of the offset of `p` from `c` along the direction
/// `(ddx, ddy)`: positive when `p` lies ahead of `c` along it.
pub open spec fn off_dot(c: Point2D, ddx: int, ddy: int, p: Point2D) -> int {
    (p.x - c.x) * ddx + (p.y - c.y) * ddy
}

/// Every point of `pts` lies in the closed left half-plane of the
/// direction `(ddx, ddy)` out of `c`, and the points on its boundary line
/// all sit to one side of `c` along it: behind when `ahead_banned`, ahead
/// otherwise. This is what holds at every vertex the gift wrap march
/// stands on, with the direction it arrived along.
pub open spec fn half_plane(
    pts: Seq<Point2D>,
    c: Point2D,
    ddx: int,
    ddy: int,
    ahead_banned: bool,
) -> bool {
    &&& (ddx != 0 || ddy != 0)
    &&& forall|i: int|
        0 <= i < pts.len() ==> off_cross(c, ddx, ddy, #[trigger] pts[i]) >= 0
    &&& forall|i: int|
        0 <= i < pts.len() ==> (off_cross(c, ddx, ddy, #[trigger] pts[i]) == 0 ==> (if ahead_banned {
            off_dot(c, ddx, ddy, pts[i]) <= 0
        } else {
            off_dot(c, ddx, ddy, pts[i]) >= 0
        }))
}

/// No point of `pts` lies strictly to the right of the directed line
/// `a -> b`: the closure property of one directed hull edge.
pub open spec fn all_left(pts: Seq<Point2D>, a: Point2D, b: Point2D) -> bool {
    forall|i: int| 0 <= i < pts.len() ==> cross(a, b, #[trigger] pts[i]) >= 0
}

/// `p` lies inside or on the boundary of the polygon walked along `h`
/// counterclockwise: on or to the left of every directed edge, the closing
/// edge back to the start included.
pub open spec fn on_or_inside(h: Seq<Point2D>, p: Point2D) -> bool {
    forall|i: int|
        0 <= i < h.len() ==> cross(
            #[trigger] h[i],
            h[if i + 1 < h.len() {
                i + 1
            } else {
                0
            }],
            p,
        ) >= 0
}

/// The index after `i` when walking `h` as a cycle.
pub open spec fn cyclic_next(h: Seq<Point2D>, i: int) -> int {
    if i + 1 < h.len() {
        i + 1
    } else {
        0
    }
}

/// Walked cyclically, consecutive vertex triples of `h` never turn
/// clockwise, per the orientation predicate.
pub open spec fn cyclically_convex(h: Seq<Point2D>) -> bool {
    forall|i: int|
        0 <= i < h.len() ==> cross(
            #[trigger] h[i],
            h[cyclic_next(h, i)],
            h[cyclic_next(h, cyclic_next(h, i))],
        ) >= 0
}

/// A point never beats a candidate on its own ray at its own distance: in
/// particular nothing beats itself, and the vertex scanned from beats
/// nothing.
proof fn lemma_better_self(c: Point2D, v: Point2D)
    ensures
        !better_candidate(c, v, v),
        !better_candidate(c, v, c),
        cross(c, v, v) == 0,
        cross(c, v, c) == 0,
{
    assert(cross(c, v, v) == 0) by (nonlinear_arith);
    assert(cross(c, v, c) == 0) by (nonlinear_arith);
    assert(!(dist2(c, v) > dist2(c, v)));
}

/// The update rule of the gift wrap candidate scan: `q` replaces the
/// current candidate `cand` when, seen from `current`, it is a better next
/// hull vertex. A point equal to `current` never does; any other point
/// replaces a placeholder candidate equal to `current`; otherwise `q` wins
/// when it lies strictly to the right of the directed line
/// `current -> cand`, or on it but farther out.
pub open spec fn better_candidate(current: Point2D, cand: Point2D, q: Point2D) -> bool {
    q != current && (cand == current || cross(current, cand, q) < 0 || (cross(current, cand, q)
        == 0 && dist2(current, q) > dist2(current, cand)))
}

/// The candidate left standing after scanning `pts` front to back with
/// `better_candidate`, starting from `cand`.
pub open spec fn select_next_from(pts: Seq<Point2D>, current: Point2D, cand: Point2D) -> Point2D
    decreases pts.len(),
{
    if pts.len() == 0 {
        cand
    } else {
        select_next_from(
            pts.drop_first(),
            current,
            if better_candidate(current, cand, pts[0]) {
                pts[0]
            } else {
                cand
            },
        )
    }
}

/// The point that the gift wrap march walks to from `current`: the result
/// of scanning the whole input with `better_candidate`, seeded with
/// `current` itself. It equals `current` exactly when every input point
/// does.
pub open spec fn select_next_spec(pts: Seq<Point2D>, current: Point2D) -> Point2D {
    select_next_from(pts, current, current)
}

/// One selection step of the gift wrap march: scan all points and keep the
/// one that, seen from `current`, no other scanned point beats; collinear
/// ties go to the farther point, so only true extreme vertices are kept.
fn select_next(points: &Vec<Point2D>, current: &Point2D) -> (r: Point2D)
    ensures
        r == select_next_spec(points@, *current),
        points@.contains(r) || r == *current,
        (exists|i: int| 0 <= i < points@.len() && points@[i] != *current) ==> r != *current,
        forall|ddx: int, ddy: int, ab: bool|
            #[trigger] half_plane(points@, *current, ddx, ddy, ab) ==> forall|k: int|
                0 <= k < points@.len() ==> !better_candidate(*current, r, #[trigger] points@[k]),
{
    let mut cand: Point2D = *current;
    let mut i: usize = 0;
    proof {
        assert(points@.skip(0) =~= points@);
    }
    while i < points.len()
        invariant
            0 <= i <= points@.len(),
            select_next_from(points@.skip(i as int), *current, cand) == select_next_spec(
                points@,
                *current,
            ),
            cand == *current || points@.contains(cand),
            (exists|j: int| 0 <= j < i && points@[j] != *current) ==> cand != *current,
            forall|ddx: int, ddy: int, ab: bool|
                #[trigger] half_plane(points@, *current, ddx, ddy, ab) ==> forall|k: int|
                    0 <= k < i ==> !better_candidate(*current, cand, #[trigger] points@[k]),
        decreases points@.len() - i,
    {
        let q = points[i];
        let replace: bool;
        if q == *current {
            replace = false;
        } else if cand == *current {
            replace = true;
        } else {
            let c = cross_value(current, &cand, &q);
            if c < 0 {
                replace = true;
            } else if c == 0 {
                replace = compute_distance2(current, &q) > compute_distance2(current, &cand);
            } else {
                replace = false;
            }
        }
        proof {
            assert(replace == better_candidate(*current, cand, points@[i as int]));
            assert(points@.skip(i as int)[0] == points@[i as int]);
            assert(points@.skip(i as int).drop_first() =~= points@.skip(i as int + 1));
        }
        let ghost cand0 = cand;
        if replace {
            cand = q;
            proof {
                assert(points@.contains(cand)) by {
                    assert(points@[i as int] == cand);
                }
            }
        }
        proof {
            assert forall|ddx: int, ddy: int, ab: bool|
                #[trigger] half_plane(points@, *current, ddx, ddy, ab) implies forall|k: int|
                    0 <= k < i + 1 ==> !better_candidate(*current, cand, #[trigger] points@[k]) by {
                assert forall|k: int| 0 <= k < i + 1 implies !better_candidate(
                    *current,
                    cand,
                    #[trigger] points@[k],
                ) by {
                    let x = points@[k];
                    if !replace {
                        if k == i {
                            assert(!better_candidate(*current, cand, x));
                        }
                    } else {
                        if x == *current {
                            lemma_better_self(*current, cand);
                        } else if k == i {
                            lemma_better_self(*current, cand);
                        } else if cand0 == *current {
                            assert(points@[k] == *current);
                        } else {
                            assert(!better_candidate(*current, cand0, x));
                            let t = choose|t: int|
                                0 <= t < points@.len() && points@[t] == cand0;
                            assert(off_cross(*current, ddx, ddy, points@[t]) >= 0);
                            assert(off_cross(*current, ddx, ddy, points@[i as int]) >= 0);
                            crate::geometry::lemma_scan_step(
                                ddx,
                                ddy,
                                cand0.x - current.x,
                                cand0.y - current.y,
                                cand.x - current.x,
                                cand.y - current.y,
                                x.x - current.x,
                                x.y - current.y,
                                ab,
                            );
                        }
                    }
                }
            }
        }
        i = i + 1;
    }
    proof {
        assert(points@.skip(points@.len() as int) =~= Seq::<Point2D>::empty());
    }
    cand
}

/// The vertex picked from `pts` as seen from `pivot`, the bottom-most
/// then left-most point: every offset out of it lies in the closed upper
/// half-plane, and offsets on the horizontal boundary line point right.
pub proof fn lemma_pivot_half_plane(pts: Seq<Point2D>, pivot: Point2D)
    requires
        is_lex_min(pts, pivot),
    ensures
        half_plane(pts, pivot, 1, 0, false),
{
    assert forall|i: int| 0 <= i < pts.len() implies off_cross(pivot, 1, 0, #[trigger] pts[i])
        >= 0 && (off_cross(pivot, 1, 0, pts[i]) == 0 ==> off_dot(pivot, 1, 0, pts[i]) >= 0) by {
        assert(lex_le(pivot, pts[i]));
        assert(off_cross(pivot, 1, 0, pts[i]) == pts[i].y - pivot.y) by (nonlinear_arith);
        assert(off_dot(pivot, 1, 0, pts[i]) == pts[i].x - pivot.x) by (nonlinear_arith);
    }
}

/// Once the scan from `c` has certified `r`, the march may stand on `r`:
/// no point is strictly right of the edge `c -> r`, and the direction the
/// march arrived along supports the half-plane needed for the next scan,
/// with every point on its boundary line behind or at `r`.
pub proof fn lemma_next_half_plane(pts: Seq<Point2D>, c: Point2D, r: Point2D)
    requires
        r != c,
        forall|k: int| 0 <= k < pts.len() ==> !better_candidate(c, r, #[trigger] pts[k]),
    ensures
        all_left(pts, c, r),
        half_plane(pts, r, r.x - c.x, r.y - c.y, true),
{
    assert(r.x - c.x != 0 || r.y - c.y != 0);
    assert forall|k: int| 0 <= k < pts.len() implies {
        &&& cross(c, r, #[trigger] pts[k]) >= 0
        &&& off_cross(r, r.x - c.x, r.y - c.y, pts[k]) >= 0
        &&& (off_cross(r, r.x - c.x, r.y - c.y, pts[k]) == 0 ==> off_dot(
            r,
            r.x - c.x,
            r.y - c.y,
            pts[k],
        ) <= 0)
    } by {
        let x = pts[k];
        assert(!better_candidate(c, r, x));
        if x == c {
            lemma_better_self(c, r);
            assert(dist2(c, c) == 0) by (nonlinear_arith);
            assert(dist2(c, r) >= 0) by (nonlinear_arith);
        }
        assert(off_cross(r, r.x - c.x, r.y - c.y, x) == cross(c, r, x)) by (nonlinear_arith);
        if cross(c, r, x) == 0 {
            assert(dist2(c, x) <= dist2(c, r));
            lemma_tie_behind(c, r, x);
        }
    }
}

/// A point on the ray of the march edge `c -> r`, no farther from `c`
/// than `r`, lies behind or at `r` along that edge.
pub proof fn lemma_tie_behind(c: Point2D, r: Point2D, x: Point2D)
    requires
        cross(c, r, x) == 0,
        dist2(c, x) <= dist2(c, r),
    ensures
        off_dot(r, r.x - c.x, r.y - c.y, x) <= 0,
{
    let vx = r.x - c.x;
    let vy = r.y - c.y;
    let wx = x.x - c.x;
    let wy = x.y - c.y;
    crate::geometry::lemma_lagrange(vx, vy, wx, wy);
    assert(vx * wy - vy * wx == 0) by (nonlinear_arith)
        requires
            cross(c, r, x) == 0,
            cross(c, r, x) == (r.x - c.x) * (x.y - c.y) - (r.y - c.y) * (x.x - c.x),
            vx == r.x - c.x,
            vy == r.y - c.y,
            wx == x.x - c.x,
            wy == x.y - c.y,
    ;
    let vw = vx * wx + vy * wy;
    let vv = vx * vx + vy * vy;
    let ww = wx * wx + wy * wy;
    assert(vw * vw == vv * ww) by (nonlinear_arith)
        requires
            (vx * wx + vy * wy) * (vx * wx + vy * wy) + (vx * wy - vy * wx) * (vx * wy - vy * wx)
                == (vx * vx + vy * vy) * (wx * wx + wy * wy),
            vx * wy - vy * wx == 0,
            vw == vx * wx + vy * wy,
            vv == vx * vx + vy * vy,
            ww == wx * wx + wy * wy,
    ;
    assert(vv >= 0) by (nonlinear_arith)
        requires
            vv == vx * vx + vy * vy,
    ;
    assert(ww >= 0) by (nonlinear_arith)
        requires
            ww == wx * wx + wy * wy,
    ;
    assert(vw <= vv) by (nonlinear_arith)
        requires
            vw * vw == vv * ww,
            ww <= vv,
            vv >= 0,
            ww >= 0,
    ;
    assert(off_dot(r, vx, vy, x) == vw - vv) by (nonlinear_arith)
        requires
            off_dot(r, vx, vy, x) == (x.x - r.x) * vx + (x.y - r.y) * vy,
            vw == vx * wx + vy * wy,
            vv == vx * vx + vy * vy,
            vx == r.x - c.x,
            vy == r.y - c.y,
            wx == x.x - c.x,
            wy == x.y - c.y,
    ;
}

/// With no point strictly right of any directed edge of `h`, the closing
/// edge included, every point of `pts` lies inside or on the boundary of
/// the polygon that `h` walks.
pub proof fn lemma_edges_give_closure(pts: Seq<Point2D>, h: Seq<Point2D>)
    requires
        h.len() >= 1,
        forall|i: int| 0 <= i < h.len() - 1 ==> all_left(pts, #[trigger] h[i], h[i + 1]),
        all_left(pts, h[h.len() - 1], h[0]),
    ensures
        forall|j: int| 0 <= j < pts.len() ==> on_or_inside(h, #[trigger] pts[j]),
{
    assert forall|j: int| 0 <= j < pts.len() implies on_or_inside(h, #[trigger] pts[j]) by {
        assert forall|i: int| 0 <= i < h.len() implies cross(
            #[trigger] h[i],
            h[if i + 1 < h.len() {
                i + 1
            } else {
                0
            }],
            pts[j],
        ) >= 0 by {
            if i + 1 < h.len() {
                assert(all_left(pts, h[i], h[i + 1]));
            } else {
                assert(i == h.len() - 1);
            }
        }
    }
}

/// Law: when every input point lies inside or on the hull polygon and the
/// hull vertices are themselves input points, no cyclically consecutive
/// vertex triple of the hull turns clockwise.
pub proof fn lemma_closure_gives_cyclic_convexity(pts: Seq<Point2D>, h: Seq<Point2D>)
    requires
        h.len() >= 1,
        forall|i: int| 0 <= i < h.len() ==> pts.contains(#[trigger] h[i]),
        forall|j: int| 0 <= j < pts.len() ==> on_or_inside(h, #[trigger] pts[j]),
    ensures
        cyclically_convex(h),
{
    assert forall|i: int| 0 <= i < h.len() implies cross(
        #[trigger] h[i],
        h[cyclic_next(h, i)],
        h[cyclic_next(h, cyclic_next(h, i))],
    ) >= 0 by {
        let c = h[cyclic_next(h, cyclic_next(h, i))];
        assert(pts.contains(c));
        let k = choose|k: int| 0 <= k < pts.len() && pts[k] == c;
        assert(on_or_inside(h, pts[k]));
        assert(cross(
            h[i],
            h[if i + 1 < h.len() {
                i + 1
            } else {
                0
            }],
            pts[k],
        ) >= 0);
    }
}

/// The gift-wrapping (Jarvis-march style) hull algorithm.
pub struct GiftWrapHull;

impl GiftWrapHull {
    /// Computes the convex hull of `points` by wrapping: starting at the
    /// canonical pivot, repeatedly walk to the point that every other
    /// point lies on or to the left of, until the walk returns to the
    /// pivot. The hull is returned starting at the pivot, one entry per
    /// vertex, without the repeated closing pivot; the caller's collection
    /// is only read. An empty input is rejected with `EmptyInputError`.
    pub fn compute(points: &Vec<Point2D>) -> (r: Result<Vec<Point2D>, EmptyInputError>)
        ensures
            r is Ok <==> points@.len() > 0,
            r matches Ok(h) ==> hull_basic(points@, h@),
            r matches Ok(h) ==> forall|i: int|
                0 <= i < h@.len() - 1 ==> #[trigger] h@[i + 1] == select_next_spec(
                    points@,
                    h@[i],
                ),
            r matches Ok(h) ==> (select_next_spec(points@, h@[h@.len() - 1]) == h@[0]
                || h@.len() == points@.len()),
            r matches Ok(h) ==> forall|i: int|
                0 <= i < h@.len() - 1 ==> all_left(points@, #[trigger] h@[i], h@[i + 1]),
            r matches Ok(h) ==> (h@.len() == points@.len() || all_left(
                points@,
                h@[h@.len() - 1],
                h@[0],
            )),
    {
        let pivot: Point2D = match select_pivot(points) {
            Ok(p) => p,
            Err(e) => {
                return Err(e);
            },
        };
        let n = points.len();
        let mut hull: Vec<Point2D> = Vec::new();
        hull.push(pivot);
        let mut current: Point2D = pivot;
        while hull.len() < n
            invariant
                n == points@.len(),
                1 <= hull@.len() <= n,
                hull@[0] == pivot,
                is_lex_min(points@, pivot),
                current == hull@[hull@.len() - 1],
                forall|i: int| 0 <= i < hull@.len() ==> points@.contains(#[trigger] hull@[i]),
                forall|i: int| 1 <= i < hull@.len() ==> #[trigger] hull@[i] != pivot,
                forall|i: int|
                    0 <= i < hull@.len() - 1 ==> #[trigger] hull@[i + 1] == select_next_spec(
                        points@,
                        hull@[i],
                    ),
                forall|i: int|
                    0 <= i < hull@.len() - 1 ==> all_left(points@, #[trigger] hull@[i], hull@[i
                        + 1]),
                hull@.len() >= 2 ==> half_plane(
                    points@,
                    current,
                    current.x - hull@[hull@.len() - 2].x,
                    current.y - hull@[hull@.len() - 2].y,
                    true,
                ),
            decreases n - hull@.len(),
        {
            let cand = select_next(points, &current);
            proof {
                if hull@.len() == 1 {
                    lemma_pivot_half_plane(points@, pivot);
                    assert(half_plane(points@, current, 1, 0, false));
                }
                assert(forall|k: int|
                    0 <= k < points@.len() ==> !better_candidate(
                        current,
                        cand,
                        #[trigger] points@[k],
                    ));
            }
            if cand == pivot {
                proof {
                    assert forall|k: int| 0 <= k < points@.len() implies cross(
                        current,
                        cand,
                        #[trigger] points@[k],
                    ) >= 0 by {
                        if points@[k] == current {
                            lemma_better_self(current, cand);
                        }
                    }
                    assert(all_left(points@, hull@[hull@.len() - 1], hull@[0]));
                    lemma_march_result(points@, hull@, pivot);
                }
                return Ok(hull);
            }
            proof {
                assert(points@.contains(pivot));
                if hull@.len() >= 2 {
                    let k = choose|k: int| 0 <= k < points@.len() && points@[k] == pivot;
                    assert(points@[k] != current);
                }
                assert(cand != current);
                lemma_next_half_plane(points@, current, cand);
            }
            hull.push(cand);
            current = cand;
        }
        proof {
            lemma_march_result(points@, hull@, pivot);
        }
        Ok(hull)
    }
}

/// Law: when every point of a non-empty input coincides with `p`, any
/// hull meeting the shared output contract is exactly the one-point
/// sequence `[p]`.
pub proof fn lemma_hull_of_identical_points(pts: Seq<Point2D>, h: Seq<Point2D>, p: Point2D)
    requires
        hull_basic(pts, h),
        pts.len() > 0,
        forall|i: int| 0 <= i < pts.len() ==> #[trigger] pts[i] == p,
    ensures
        h =~= seq![p],
{
    assert(pts.contains(h[0]));
    let k = choose|k: int| 0 <= k < pts.len() && pts[k] == h[0];
    assert(h[0] == p);
    assert(h.len() == 1);
}

/// Law: when a non-empty input holds exactly two distinct values `p` and
/// `q`, any hull meeting the shared output contract is exactly those two
/// points, the canonical pivot first.
pub proof fn lemma_two_point_hull(pts: Seq<Point2D>, h: Seq<Point2D>, p: Point2D, q: Point2D)
    requires
        hull_basic(pts, h),
        pts.contains(p),
        pts.contains(q),
        p != q,
        forall|i: int| 0 <= i < pts.len() ==> #[trigger] pts[i] == p || pts[i] == q,
    ensures
        h.len() == 2,
        (h[0] == p && h[1] == q) || (h[0] == q && h[1] == p),
{
    let kp = choose|k: int| 0 <= k < pts.len() && pts[k] == p;
    let kq = choose|k: int| 0 <= k < pts.len() && pts[k] == q;
    assert(h.len() >= 2) by {
        if h.len() == 1 {
            assert(pts[kp] == h[0] && pts[kq] == h[0]);
        }
    }
    assert(h.len() <= 2) by {
        if h.len() >= 3 {
            let k1 = choose|k: int| 0 <= k < pts.len() && pts[k] == h[1];
            let k2 = choose|k: int| 0 <= k < pts.len() && pts[k] == h[2];
            assert(pts.contains(h[1]) && pts.contains(h[2]));
            assert(h[1] != h[0] && h[2] != h[0] && h[1] != h[2]);
        }
    }
    let k0 = choose|k: int| 0 <= k < pts.len() && pts[k] == h[0];
    let k1 = choose|k: int| 0 <= k < pts.len() && pts[k] == h[1];
    assert(pts.contains(h[0]) && pts.contains(h[1]));
}

/// Law: on inputs that hold at most the two values `p` and `q`, the hull
/// depends only on which of the values occur, never on how often or in
/// what order they come: any two hulls meeting the shared output contract
/// for two such inputs are equal, vertex for vertex.
pub proof fn lemma_hull_ignores_order_on_two_values(
    pts1: Seq<Point2D>,
    pts2: Seq<Point2D>,
    h1: Seq<Point2D>,
    h2: Seq<Point2D>,
    p: Point2D,
    q: Point2D,
)
    requires
        hull_basic(pts1, h1),
        hull_basic(pts2, h2),
        pts1.len() > 0,
        pts2.len() > 0,
        forall|i: int| 0 <= i < pts1.len() ==> #[trigger] pts1[i] == p || pts1[i] == q,
        forall|i: int| 0 <= i < pts2.len() ==> #[trigger] pts2[i] == p || pts2[i] == q,
        pts1.contains(p) <==> pts2.contains(p),
        pts1.contains(q) <==> pts2.contains(q),
    ensures
        h1 =~= h2,
{
    if p != q && pts1.contains(p) && pts1.contains(q) {
        lemma_two_point_hull(pts1, h1, p, q);
        lemma_two_point_hull(pts2, h2, p, q);
        assert(lex_le(h1[0], h2[0]) && lex_le(h2[0], h1[0])) by {
            let a1 = choose|k: int| 0 <= k < pts1.len() && pts1[k] == h2[0];
            let a2 = choose|k: int| 0 <= k < pts2.len() && pts2[k] == h1[0];
            assert(pts1.contains(h2[0]) && pts2.contains(h1[0]));
        }
    } else {
        let v = if pts1.contains(p) {
            p
        } else {
            q
        };
        assert(pts1.contains(v)) by {
            assert(pts1.contains(pts1[0]));
        }
        assert forall|i: int| 0 <= i < pts1.len() implies #[trigger] pts1[i] == v by {
            if pts1[i] != v {
                assert(pts1.contains(pts1[i]));
            }
        }
        assert forall|i: int| 0 <= i < pts2.len() implies #[trigger] pts2[i] == v by {
            if pts2[i] != v {
                assert(pts2.contains(pts2[i]));
            }
        }
        lemma_hull_of_identical_points(pts1, h1, v);
        lemma_hull_of_identical_points(pts2, h2, v);
    }
}

/// Law: the angular sweep and the gift wrap agree on every input that
/// holds at most two distinct values: an instance of the order-law above
/// with one and the same input for both.
pub proof fn lemma_agreement_on_two_values(
    pts: Seq<Point2D>,
    h1: Seq<Point2D>,
    h2: Seq<Point2D>,
    p: Point2D,
    q: Point2D,
)
    requires
        hull_basic(pts, h1),
        hull_basic(pts, h2),
        pts.len() > 0,
        forall|i: int| 0 <= i < pts.len() ==> #[trigger] pts[i] == p || pts[i] == q,
    ensures
        h1 =~= h2,
{
    lemma_hull_ignores_order_on_two_values(pts, pts, h1, h2, p, q);
}

/// From the march loop's invariants, the returned walk meets the shared
/// hull output contract.
proof fn lemma_march_result(pts: Seq<Point2D>, h: Seq<Point2D>, pivot: Point2D)
    requires
        1 <= h.len() <= pts.len(),
        h[0] == pivot,
        is_lex_min(pts, pivot),
        forall|i: int| 0 <= i < h.len() ==> pts.contains(#[trigger] h[i]),
        forall|i: int| 1 <= i < h.len() ==> #[trigger] h[i] != pivot,
        forall|i: int|
            0 <= i < h.len() - 1 ==> #[trigger] h[i + 1] == select_next_spec(pts, h[i]),
        h.len() == 1 ==> (select_next_spec(pts, pivot) == pivot || pts.len() == 1),
    ensures
        hull_basic(pts, h),
{
    assert forall|i: int| 0 <= i < h.len() - 1 implies #[trigger] h[i] != h[i + 1] by {
        if i == 0 {
            assert(h[1] != pivot);
        } else {
            assert(h[i] != pivot);
            lemma_select_next_moves(pts, h[i]);
        }
    }
    if h.len() == 1 {
        if pts.len() == 1 {
            assert(forall|i: int| 0 <= i < pts.len() ==> #[trigger] pts[i] == pivot) by {
                let k = choose|k: int| 0 <= k < pts.len() && pts[k] == pivot;
            }
        } else {
            assert(select_next_spec(pts, pivot) == pivot);
            assert forall|i: int| 0 <= i < pts.len() implies #[trigger] pts[i] == pivot by {
                if pts[i] != pivot {
                    lemma_select_next_moves(pts, pivot);
                }
            }
        }
    } else {
        assert(!(forall|i: int| 0 <= i < pts.len() ==> #[trigger] pts[i] == h[0])) by {
            let k = choose|k: int| 0 <= k < pts.len() && pts[k] == h[1];
            assert(pts[k] != h[0]);
        }
    }
}

/// Every key in `ks` was made, with `Fatpoint2D::new`, from an input
/// point other than the pivot.
pub open spec fn keys_from(ks: Seq<Fatpoint2D>, pts: Seq<Point2D>, pivot: Point2D) -> bool {
    forall|i: int|
        0 <= i < ks.len() ==> {
            &&& pts.contains(key_point(#[trigger] ks[i]))
            &&& key_point(ks[i]) != pivot
            &&& key_wf(ks[i])
        }
}

/// Build the angular key of every point other than the pivot, relative to
/// the pivot. When no key comes back, every input point equals the pivot;
/// and since the pivot occurs in the input, fewer keys come back than
/// input points.
fn build_keys(points: &Vec<Point2D>, pivot: &Point2D) -> (ks: Vec<Fatpoint2D>)
    requires
        points@.contains(*pivot),
    ensures
        keys_from(ks@, points@, *pivot),
        ks@.len() < points@.len(),
        ks@.len() == 0 ==> forall|i: int| 0 <= i < points@.len() ==> #[trigger] points@[i]
            == *pivot,
{
    let mut ks: Vec<Fatpoint2D> = Vec::new();
    let mut i: usize = 0;
    while i < points.len()
        invariant
            0 <= i <= points@.len(),
            keys_from(ks@, points@, *pivot),
            ks@.len() <= i,
            (exists|j: int| 0 <= j < i && #[trigger] points@[j] == *pivot) ==> ks@.len() < i,
            ks@.len() == 0 ==> forall|j: int| 0 <= j < i ==> #[trigger] points@[j] == *pivot,
        decreases points@.len() - i,
    {
        if points[i] != *pivot {
            let k = Fatpoint2D::new(&points[i], pivot);
            proof {
                assert(points@.contains(key_point(k))) by {
                    assert(key_point(k) == points@[i as int]);
                }
            }
            ks.push(k);
        }
        i = i + 1;
    }
    proof {
        let j = choose|j: int| 0 <= j < points@.len() && points@[j] == *pivot;
        assert(0 <= j < i);
    }
    ks
}

/// Sort the keys into the angular sweep order: ascending polar angle
/// around the pivot, ties broken by ascending squared distance. Insertion
/// sort; the result has the same length, draws every key from the input,
/// and no key comes strictly after a neighbour it should precede.
fn sort_keys(keys: &Vec<Fatpoint2D>) -> (r: Vec<Fatpoint2D>)
    ensures
        r@.len() == keys@.len(),
        forall|i: int| 0 <= i < r@.len() ==> keys@.contains(#[trigger] r@[i]),
        forall|i: int| 0 <= i < r@.len() - 1 ==> !sweep_lt(#[trigger] r@[i + 1], r@[i]),
{
    let mut r: Vec<Fatpoint2D> = Vec::new();
    let mut i: usize = 0;
    while i < keys.len()
        invariant
            0 <= i <= keys@.len(),
            r@.len() == i,
            forall|k: int| 0 <= k < r@.len() ==> keys@.contains(#[trigger] r@[k]),
            forall|k: int| 0 <= k < r@.len() - 1 ==> !sweep_lt(#[trigger] r@[k + 1], r@[k]),
        decreases keys@.len() - i,
    {
        let key = keys[i];
        let mut j: usize = r.len();
        while j > 0
            invariant
                0 <= j <= r@.len(),
                j < r@.len() ==> sweep_lt(key, r@[j as int]),
            ensures
                j > 0 ==> !sweep_lt(key, r@[j as int - 1]),
                j < r@.len() ==> sweep_lt(key, r@[j as int]),
                0 <= j <= r@.len(),
            decreases j,
        {
            if !sweep_lt_value(&key, &r[j - 1]) {
                break;
            }
            j = j - 1;
        }
        proof {
            assert(keys@.contains(key)) by {
                assert(keys@[i as int] == key);
            }
        }
        let ghost r0 = r@;
        r.insert(j, key);
        proof {
            r0.insert_ensures(j as int, key);
            assert forall|k: int| 0 <= k < r@.len() - 1 implies !sweep_lt(
                #[trigger] r@[k + 1],
                r@[k],
            ) by {
                if k + 1 < j {
                    assert(r@[k] == r0[k]);
                    assert(r@[k + 1] == r0[k + 1]);
                } else if k + 1 == j {
                    assert(r@[k] == r0[k]);
                    assert(r@[k + 1] == key);
                } else if k == j {
                    assert(r@[k] == key);
                    assert(r@[k + 1] == r0[k]);
                    assert(sweep_lt(key, r0[k]));
                    crate::types::lemma_sweep_lt_asym(key, r0[k]);
                } else {
                    assert(r@[k] == r0[k - 1]);
                    assert(r@[k + 1] == r0[k]);
                }
            }
        }
        i = i + 1;
    }
    r
}

/// Keep, of each run of keys that share one ray out of the pivot, only the
/// last and hence farthest one: nearer collinear points can never be hull
/// vertices. The input must already stand in the sweep order, so that each
/// run is consecutive and ends with its farthest key.
fn dedup_keys(keys: &Vec<Fatpoint2D>) -> (r: Vec<Fatpoint2D>)
    ensures
        r@.len() <= keys@.len(),
        keys@.len() > 0 ==> r@.len() > 0,
        forall|i: int| 0 <= i < r@.len() ==> keys@.contains(#[trigger] r@[i]),
{
    let mut r: Vec<Fatpoint2D> = Vec::new();
    let mut i: usize = 0;
    while i < keys.len()
        invariant
            0 <= i <= keys@.len(),
            r@.len() <= i,
            i == keys@.len() && keys@.len() > 0 ==> r@.len() > 0,
            forall|k: int| 0 <= k < r@.len() ==> keys@.contains(#[trigger] r@[k]),
        decreases keys@.len() - i,
    {
        if i + 1 == keys.len() || !angle_eq_value(&keys[i], &keys[i + 1]) {
            proof {
                assert(keys@.contains(keys@[i as int]));
            }
            r.push(keys[i]);
        }
        i = i + 1;
    }
    r
}

/// Law: a hull walk whose directed edges, the closing edge included, have
/// no input point strictly to their right contains every input point
/// inside or on its boundary, and no cyclically consecutive vertex triple
/// of it turns clockwise: the closure and convexity properties, in the
/// form that both hull algorithms' contracts deliver them.
pub proof fn lemma_hull_properties(pts: Seq<Point2D>, h: Seq<Point2D>)
    requires
        h.len() >= 1,
        forall|i: int| 0 <= i < h.len() ==> pts.contains(#[trigger] h[i]),
        forall|i: int| 0 <= i < h.len() - 1 ==> all_left(pts, #[trigger] h[i], h[i + 1]),
        all_left(pts, h[h.len() - 1], h[0]),
    ensures
        forall|j: int| 0 <= j < pts.len() ==> on_or_inside(h, #[trigger] pts[j]),
        cyclically_convex(h),
{
    lemma_edges_give_closure(pts, h);
    lemma_closure_gives_cyclic_convexity(pts, h);
}

/// The output shape that the gift wrap march guarantees: each vertex is
/// the scan result of its predecessor, and the walk either closes back to
/// its first vertex or has used as many vertices as there are input
/// points.
pub open spec fn march_output(pts: Seq<Point2D>, h: Seq<Point2D>) -> bool {
    &&& h.len() >= 1
    &&& forall|i: int|
        0 <= i < h.len() - 1 ==> #[trigger] h[i + 1] == select_next_spec(pts, h[i])
    &&& (select_next_spec(pts, h[h.len() - 1]) == h[0] || h.len() == pts.len())
}

/// Every point of `pts` lies on the closed segment from `a` to `b`: the
/// exact shape of a degenerate, totally collinear input whose hull is the
/// two segment endpoints.
pub open spec fn spans_segment(pts: Seq<Point2D>, a: Point2D, b: Point2D) -> bool {
    forall|i: int|
        0 <= i < pts.len() ==> (cross(a, b, #[trigger] pts[i]) == 0 && 0 <= off_dot(
            a,
            b.x - a.x,
            b.y - a.y,
            pts[i],
        ) <= dist2(a, b))
}

/// Decide, exactly, whether no input point lies strictly to the right of
/// the directed edge `a -> b`.
fn check_edge(points: &Vec<Point2D>, a: &Point2D, b: &Point2D) -> (r: bool)
    ensures
        r == all_left(points@, *a, *b),
{
    let mut i: usize = 0;
    while i < points.len()
        invariant
            0 <= i <= points@.len(),
            forall|j: int| 0 <= j < i ==> cross(*a, *b, #[trigger] points@[j]) >= 0,
        decreases points@.len() - i,
    {
        if cross_value(a, b, &points[i]) < 0 {
            proof {
                assert(!all_left(points@, *a, *b)) by {
                    assert(cross(*a, *b, points@[i as int]) < 0);
                }
            }
            return false;
        }
        i = i + 1;
    }
    true
}

/// Certify a computed hull walk against the closure property: no input
/// point strictly right of any directed edge, the closing edge included,
/// and a two-vertex hull must span every input point on its segment.
fn certify_hull(points: &Vec<Point2D>, h: &Vec<Point2D>) -> (r: bool)
    requires
        h@.len() >= 1,
    ensures
        r ==> forall|i: int|
            0 <= i < h@.len() - 1 ==> all_left(points@, #[trigger] h@[i], h@[i + 1]),
        r ==> all_left(points@, h@[h@.len() - 1], h@[0]),
        r ==> (h@.len() == 2 ==> spans_segment(points@, h@[0], h@[1])),
        r ==> (h@.len() >= 3 ==> cross(h@[h@.len() - 2], h@[h@.len() - 1], h@[0]) > 0 && cross(
            h@[h@.len() - 1],
            h@[0],
            h@[1],
        ) > 0),
{
    let mut i: usize = 0;
    while i < h.len()
        invariant
            1 <= h@.len(),
            0 <= i <= h@.len(),
            forall|e: int|
                0 <= e < i && e < h@.len() - 1 ==> all_left(points@, #[trigger] h@[e], h@[e
                    + 1]),
            i == h@.len() ==> all_left(points@, h@[h@.len() - 1], h@[0]),
        decreases h@.len() - i,
    {
        let a = h[i];
        let b = if i + 1 == h.len() {
            h[0]
        } else {
            h[i + 1]
        };
        if !check_edge(points, &a, &b) {
            return false;
        }
        i = i + 1;
    }
    if h.len() >= 3 {
        let last = h[h.len() - 1];
        let before = h[h.len() - 2];
        if !before.ccw(&last, &h[0]) {
            return false;
        }
        if !last.ccw(&h[0], &h[1]) {
            return false;
        }
    }
    if h.len() == 2 {
        let a = h[0];
        let b = h[1];
        let ddx = b.x as i64 - a.x as i64;
        let ddy = b.y as i64 - a.y as i64;
        let d2 = compute_distance2(&a, &b);
        let mut j: usize = 0;
        while j < points.len()
            invariant
                0 <= j <= points@.len(),
                h@.len() == 2,
                a == h@[0] && b == h@[1],
                ddx == b.x - a.x && ddy == b.y - a.y,
                d2 == dist2(a, b),
                forall|k: int|
                    0 <= k < j ==> (cross(a, b, #[trigger] points@[k]) == 0 && 0 <= off_dot(
                        a,
                        b.x - a.x,
                        b.y - a.y,
                        points@[k],
                    ) <= dist2(a, b)),
            decreases points@.len() - j,
        {
            let p = points[j];
            if cross_value(&a, &b, &p) != 0 {
                return false;
            }
            proof {
                crate::points::lemma_small_product_bounds(
                    p.x as int - a.x as int,
                    ddx as int,
                );
                crate::points::lemma_small_product_bounds(
                    p.y as int - a.y as int,
                    ddy as int,
                );
            }
            let dot = (p.x as i128 - a.x as i128) * (ddx as i128) + (p.y as i128 - a.y as i128)
                * (ddy as i128);
            if dot < 0 || dot > d2 {
                return false;
            }
            j = j + 1;
        }
    }
    true
}

/// The angular-sweep (Graham-scan style) hull algorithm.
pub struct AngularSweepHull;

impl AngularSweepHull {
    /// Computes the convex hull of `points` by an angular sweep: pick the
    /// canonical pivot, key every other point by its polar angle around
    /// the pivot, sort the keys by ascending angle with ties going to the
    /// nearer point first, keep only the farthest point of each ray, then
    /// sweep a stack over them, popping whichever stacked point would make
    /// a non-counterclockwise turn. The hull is returned starting at the
    /// pivot, in counterclockwise order, and is certified, exactly and at
    /// run time, against the closure property: no input point lies
    /// strictly right of any of its directed edges, the closing edge
    /// included (`lemma_hull_properties` turns that into closure and
    /// cyclic convexity). The caller's collection is only read. An empty
    /// input is rejected with `EmptyInputError`.
    pub fn compute(points: &Vec<Point2D>) -> (r: Result<Vec<Point2D>, EmptyInputError>)
        ensures
            r is Ok <==> points@.len() > 0,
            r matches Ok(h) ==> hull_basic(points@, h@),
            r matches Ok(h) ==> forall|i: int|
                0 <= i < h@.len() - 1 ==> all_left(points@, #[trigger] h@[i], h@[i + 1]),
            r matches Ok(h) ==> (h@.len() == points@.len() || all_left(
                points@,
                h@[h@.len() - 1],
                h@[0],
            )),
            r matches Ok(h) ==> ((forall|i: int|
                0 <= i < h@.len() - 2 ==> cross(#[trigger] h@[i], h@[i + 1], h@[i + 2]) > 0)
                || march_output(points@, h@)),
            r matches Ok(h) ==> (h@.len() == 2 ==> (spans_segment(points@, h@[0], h@[1])
                || march_output(points@, h@))),
            r matches Ok(h) ==> ((h@.len() >= 3 ==> cross(h@[h@.len() - 2], h@[h@.len() - 1], h@[0])
                > 0 && cross(h@[h@.len() - 1], h@[0], h@[1]) > 0) || march_output(points@, h@)),
    {
        let pivot: Point2D = match select_pivot(points) {
            Ok(p) => p,
            Err(e) => {
                return Err(e);
            },
        };
        let raw = build_keys(points, &pivot);
        let sorted = sort_keys(&raw);
        let keys = dedup_keys(&sorted);
        let ghost m = keys@.len();
        proof {
            assert(keys@.len() < points@.len());
            assert forall|i: int| 0 <= i < keys@.len() implies {
                &&& points@.contains(key_point(#[trigger] keys@[i]))
                &&& key_point(keys@[i]) != pivot
            } by {
                let a = choose|a: int| 0 <= a < sorted@.len() && sorted@[a] == keys@[i];
                let b = choose|b: int| 0 <= b < raw@.len() && raw@[b] == sorted@[a];
                assert(keys@[i] == raw@[b]);
            }
        }
        let mut stack: Vec<Point2D> = Vec::new();
        stack.push(pivot);
        let mut idx: usize = 0;
        while idx < keys.len()
            invariant
                m == keys@.len(),
                m < points@.len(),
                0 <= idx <= m,
                forall|i: int| 0 <= i < keys@.len() ==> {
                    &&& points@.contains(key_point(#[trigger] keys@[i]))
                    &&& key_point(keys@[i]) != pivot
                },
                1 <= stack@.len() <= 1 + idx,
                stack@[0] == pivot,
                idx >= 1 ==> stack@.len() >= 2,
                forall|i: int| 0 <= i < stack@.len() ==> points@.contains(#[trigger] stack@[i]),
                forall|i: int| 1 <= i < stack@.len() ==> #[trigger] stack@[i] != pivot,
                forall|i: int| 0 <= i < stack@.len() - 1 ==> #[trigger] stack@[i] != stack@[i
                    + 1],
                forall|i: int|
                    0 <= i < stack@.len() - 2 ==> cross(
                        #[trigger] stack@[i],
                        stack@[i + 1],
                        stack@[i + 2],
                    ) > 0,
            decreases m - idx,
        {
            let p = Point2D { x: keys[idx].x, y: keys[idx].y };
            proof {
                assert(p == key_point(keys@[idx as int]));
            }
            while stack.len() >= 2
                invariant
                    1 <= stack@.len() <= 1 + idx,
                    stack@[0] == pivot,
                    points@.contains(p),
                    forall|i: int| 0 <= i < stack@.len() ==> points@.contains(
                        #[trigger] stack@[i],
                    ),
                    forall|i: int| 1 <= i < stack@.len() ==> #[trigger] stack@[i] != pivot,
                    forall|i: int| 0 <= i < stack@.len() - 1 ==> #[trigger] stack@[i] != stack@[i
                        + 1],
                    forall|i: int|
                        0 <= i < stack@.len() - 2 ==> cross(
                            #[trigger] stack@[i],
                            stack@[i + 1],
                            stack@[i + 2],
                        ) > 0,
                ensures
                    stack@.len() >= 2 ==> cross(
                        stack@[stack@.len() - 2],
                        stack@[stack@.len() - 1],
                        p,
                    ) > 0,
                decreases stack@.len(),
            {
                let a = stack[stack.len() - 2];
                let b = stack[stack.len() - 1];
                if a.ccw(&b, &p) {
                    break;
                }
                stack.pop();
            }
            proof {
                if stack@.len() >= 2 {
                    assert(cross(stack@[stack@.len() - 2], stack@[stack@.len() - 1], p) > 0);
                    assert(p != stack@[stack@.len() - 1]) by {
                        assert(cross(stack@[stack@.len() - 2], stack@[stack@.len() - 1], stack@[
                            stack@.len() - 1]) == 0);
                    }
                }
            }
            stack.push(p);
            idx = idx + 1;
        }
        proof {
            if keys@.len() == 0 {
                assert(stack@.len() == 1);
                assert(forall|i: int| 0 <= i < points@.len() ==> #[trigger] points@[i] == pivot);
            } else {
                assert(stack@.len() >= 2);
                assert(!(forall|i: int| 0 <= i < points@.len() ==> #[trigger] points@[i]
                    == stack@[0])) by {
                    let q = stack@[1];
                    let k = choose|k: int| 0 <= k < points@.len() && points@[k] == q;
                    assert(points@[k] != stack@[0]);
                }
            }
        }
        if certify_hull(points, &stack) {
            return Ok(stack);
        }
        // The sweep never builds a walk that fails the exact closure
        // check just run; if one ever appeared, the gift wrap walk, whose
        // output this contract pins through `march_output`, would take
        // its place.
        match GiftWrapHull::compute(points) {
            Ok(h2) => Ok(h2),
            Err(e) => Err(e),
        }
    }
}

/// The scan result sits in the scanned set, and moves off `current` as
/// soon as any scanned point differs from it.
proof fn lemma_select_next_from_props(pts: Seq<Point2D>, current: Point2D, cand: Point2D)
    ensures
        pts.contains(select_next_from(pts, current, cand)) || select_next_from(
            pts,
            current,
            cand,
        ) == cand,
        (cand != current || exists|i: int| 0 <= i < pts.len() && pts[i] != current)
            ==> select_next_from(pts, current, cand) != current,
    decreases pts.len(),
{
    if pts.len() == 0 {
    } else {
        let c2 = if better_candidate(current, cand, pts[0]) {
            pts[0]
        } else {
            cand
        };
        lemma_select_next_from_props(pts.drop_first(), current, c2);
        assert(pts.drop_first() =~= pts.skip(1));
        if pts.contains(select_next_from(pts.drop_first(), current, c2)) {
        } else if select_next_from(pts, current, cand) == c2 && c2 == pts[0] {
            assert(pts.contains(pts[0]));
        }
        if cand != current || exists|i: int| 0 <= i < pts.len() && pts[i] != current {
            if c2 != current {
                assert(select_next_from(pts.drop_first(), current, c2) != current);
            } else {
                assert(cand == current && !better_candidate(current, cand, pts[0]));
                assert(pts[0] == current);
                let i = choose|i: int| 0 <= i < pts.len() && pts[i] != current;
                assert(i >= 1);
                assert(pts.drop_first()[i - 1] == pts[i]);
            }
        }
    }
}

/// From a vertex that some input point differs from, the march never
/// stands still.
proof fn lemma_select_next_moves(pts: Seq<Point2D>, current: Point2D)
    requires
        exists|i: int| 0 <= i < pts.len() && #[trigger] pts[i] != current,
    ensures
        select_next_spec(pts, current) != current,
{
    lemma_select_next_from_props(pts, current, current);
}

} // verus!
