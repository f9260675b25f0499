use rustalgo::convexhull::{AngularSweepHull, EmptyInputError, GiftWrapHull, select_pivot};
use rustalgo::points::{Point2D, cross_value};
use rustalgo::types::Fatpoint2D;

fn pt(x: i32, y: i32) -> Point2D {
    Point2D::new(x, y)
}

/// True when `a` and `b` hold the same points, regardless of order and
/// multiplicity.
fn same_vertex_set(a: &Vec<Point2D>, b: &Vec<Point2D>) -> bool {
    a.iter().all(|p| b.contains(p)) && b.iter().all(|p| a.contains(p))
}

/// Every input point must lie inside or on the boundary of the hull: on or
/// to the left of every directed hull edge, walked cyclically.
fn assert_closure(points: &Vec<Point2D>, hull: &Vec<Point2D>) {
    assert!(hull.len() >= 1);
    if hull.len() < 3 {
        return;
    }
    for p in points {
        for i in 0..hull.len() {
            let a = hull[i];
            let b = hull[(i + 1) % hull.len()];
            assert!(cross_value(&a, &b, p) >= 0);
        }
    }
}

/// Consecutive hull-vertex triples, walked cyclically, must turn strictly
/// counterclockwise.
fn assert_convex(hull: &Vec<Point2D>) {
    if hull.len() < 3 {
        return;
    }
    for i in 0..hull.len() {
        let a = hull[i];
        let b = hull[(i + 1) % hull.len()];
        let c = hull[(i + 2) % hull.len()];
        assert!(a.ccw(&b, &c));
    }
}

#[test]
fn test_add_new_points_details() {
    let point_a = Point2D::new(1, 2);
    let point_b = Point2D::new(1, 3);
    assert_eq!(
        Fatpoint2D { x: 1, y: 2, dx: 0, dy: -1, dist2: 1 },
        Fatpoint2D::new(&point_a, &point_b)
    );
}

#[test]
fn test_fat_pt_cmp() {
    let fat_point_a = Fatpoint2D { x: 1, y: 2, dx: -1, dy: 3, dist2: 10 };
    let fat_point_b = Fatpoint2D { x: 1, y: 3, dx: 3, dy: 1, dist2: 10 };
    let mut set = vec![&fat_point_a, &fat_point_b];
    set.sort_by(|a, b| a.partial_cmp(b).unwrap());
    assert_eq!(vec![&fat_point_b, &fat_point_a], set);
}

#[test]
fn test_add_pick_vertex() {
    let point_a = Point2D::new(1, 2);
    let point_b = Point2D::new(1, 3);
    let point_c = Point2D::new(1, 4);
    let point_d = Point2D::new(1, 2);
    let input_set = vec![point_a, point_b, point_c];
    assert_eq!(point_d, select_pivot(&input_set).unwrap());
}

#[test]
fn test_pick_left_cases() {
    let low = pt(5, -1);
    let high = pt(-3, 4);
    assert_eq!(*low.pick_left(&high), low);
    assert_eq!(*high.pick_left(&low), low);
    let left = pt(-2, 7);
    let right = pt(6, 7);
    assert_eq!(*left.pick_left(&right), left);
    assert_eq!(*right.pick_left(&left), left);
    let a = pt(1, 1);
    let b = pt(1, 1);
    assert_eq!(*a.pick_left(&b), b);
}

#[test]
fn test_ccw_examples() {
    let point_a = Point2D::new(2, 2);
    let point_b = Point2D::new(4, 4);
    let point_c = Point2D::new(6, 5);
    assert_eq!(false, point_a.ccw(&point_b, &point_c));

    let point_a = Point2D::new(0, 0);
    let point_b = Point2D::new(1, 1);
    let point_c = Point2D::new(2, 0);
    assert_eq!(true, point_a.ccw(&point_c, &point_b));
    assert_eq!(false, point_a.ccw(&point_b, &point_c));
}

#[test]
fn test_empty_input_fails() {
    let empty: Vec<Point2D> = Vec::new();
    assert_eq!(select_pivot(&empty), Err(EmptyInputError));
    assert_eq!(AngularSweepHull::compute(&empty), Err(EmptyInputError));
    assert_eq!(GiftWrapHull::compute(&empty), Err(EmptyInputError));
}

#[test]
fn test_single_point_hull() {
    let points = vec![pt(7, -3)];
    assert_eq!(AngularSweepHull::compute(&points).unwrap(), points);
    assert_eq!(GiftWrapHull::compute(&points).unwrap(), points);
}

#[test]
fn test_identical_points_hull() {
    let points = vec![pt(2, 5), pt(2, 5), pt(2, 5)];
    assert_eq!(AngularSweepHull::compute(&points).unwrap(), vec![pt(2, 5)]);
    assert_eq!(GiftWrapHull::compute(&points).unwrap(), vec![pt(2, 5)]);
}

#[test]
fn test_two_point_hull() {
    let p = pt(4, 4);
    let q = pt(0, 1);
    let points = vec![p, q];
    let sweep = AngularSweepHull::compute(&points).unwrap();
    let wrap = GiftWrapHull::compute(&points).unwrap();
    assert_eq!(sweep, vec![q, p]);
    assert_eq!(wrap, vec![q, p]);
}

#[test]
fn test_diamond_with_interior_point() {
    let points = vec![pt(0, 0), pt(1, 1), pt(2, 0), pt(1, -1), pt(1, 0)];
    let expected = vec![pt(0, 0), pt(2, 0), pt(1, 1), pt(1, -1)];
    let sweep = AngularSweepHull::compute(&points).unwrap();
    let wrap = GiftWrapHull::compute(&points).unwrap();
    assert_eq!(sweep.len(), 4);
    assert_eq!(wrap.len(), 4);
    assert!(same_vertex_set(&sweep, &expected));
    assert!(same_vertex_set(&wrap, &expected));
    assert!(!sweep.contains(&pt(1, 0)));
    assert!(!wrap.contains(&pt(1, 0)));
}

#[test]
fn test_collinear_points_hull() {
    let points = vec![pt(0, 0), pt(1, 0), pt(2, 0)];
    let expected = vec![pt(0, 0), pt(2, 0)];
    let sweep = AngularSweepHull::compute(&points).unwrap();
    let wrap = GiftWrapHull::compute(&points).unwrap();
    assert_eq!(sweep, expected);
    assert_eq!(wrap, expected);
}

#[test]
fn test_cross_algorithm_agreement() {
    let inputs = vec![
        vec![pt(0, 0), pt(1, 1), pt(2, 0), pt(1, -1), pt(1, 0)],
        vec![pt(0, 0), pt(1, 0), pt(2, 0), pt(0, 2), pt(2, 2), pt(1, 1)],
        vec![pt(-5, 3), pt(4, -2), pt(0, 0), pt(7, 8), pt(-3, -6), pt(2, 2), pt(4, -2)],
        vec![pt(0, 0), pt(10, 0), pt(10, 10), pt(0, 10), pt(5, 5), pt(3, 2), pt(9, 1)],
    ];
    for points in &inputs {
        let sweep = AngularSweepHull::compute(points).unwrap();
        let wrap = GiftWrapHull::compute(points).unwrap();
        assert!(same_vertex_set(&sweep, &wrap));
    }
}

#[test]
fn test_shuffle_idempotence() {
    let base = vec![pt(0, 0), pt(1, 1), pt(2, 0), pt(1, -1), pt(1, 0)];
    let shuffles = vec![
        vec![pt(1, 0), pt(1, -1), pt(2, 0), pt(1, 1), pt(0, 0)],
        vec![pt(2, 0), pt(0, 0), pt(1, 0), pt(1, 1), pt(1, -1)],
        vec![pt(1, 1), pt(1, -1), pt(0, 0), pt(1, 0), pt(2, 0)],
    ];
    let sweep_base = AngularSweepHull::compute(&base).unwrap();
    let wrap_base = GiftWrapHull::compute(&base).unwrap();
    for points in &shuffles {
        let sweep = AngularSweepHull::compute(points).unwrap();
        let wrap = GiftWrapHull::compute(points).unwrap();
        assert!(same_vertex_set(&sweep, &sweep_base));
        assert!(same_vertex_set(&wrap, &wrap_base));
    }
}

#[test]
fn test_closure_of_both_hulls() {
    let inputs = vec![
        vec![pt(0, 0), pt(1, 1), pt(2, 0), pt(1, -1), pt(1, 0)],
        vec![pt(0, 0), pt(10, 0), pt(10, 10), pt(0, 10), pt(5, 5), pt(3, 2), pt(9, 1)],
        vec![pt(-5, 3), pt(4, -2), pt(0, 0), pt(7, 8), pt(-3, -6), pt(2, 2)],
    ];
    for points in &inputs {
        let sweep = AngularSweepHull::compute(points).unwrap();
        let wrap = GiftWrapHull::compute(points).unwrap();
        assert_closure(points, &sweep);
        assert_closure(points, &wrap);
    }
}

#[test]
fn test_convexity_of_both_hulls() {
    let inputs = vec![
        vec![pt(0, 0), pt(1, 1), pt(2, 0), pt(1, -1), pt(1, 0)],
        vec![pt(0, 0), pt(10, 0), pt(10, 10), pt(0, 10), pt(5, 5), pt(3, 2), pt(9, 1)],
        vec![pt(-5, 3), pt(4, -2), pt(0, 0), pt(7, 8), pt(-3, -6), pt(2, 2)],
    ];
    for points in &inputs {
        let sweep = AngularSweepHull::compute(points).unwrap();
        let wrap = GiftWrapHull::compute(points).unwrap();
        assert_convex(&sweep);
        assert_convex(&wrap);
    }
}

#[test]
fn test_pivot_on_angle_ties() {
    // All points on one ray out of the pivot: only the two extremes stay.
    let points = vec![pt(0, 0), pt(1, 1), pt(2, 2), pt(3, 3)];
    let expected = vec![pt(0, 0), pt(3, 3)];
    assert_eq!(AngularSweepHull::compute(&points).unwrap(), expected);
    assert_eq!(GiftWrapHull::compute(&points).unwrap(), expected);
}

#[test]
fn test_fatpoint_new_offsets() {
    let point = pt(4, 7);
    let vertex = pt(1, 1);
    let key = Fatpoint2D::new(&point, &vertex);
    assert_eq!(key.x, 4);
    assert_eq!(key.y, 7);
    assert_eq!(key.dx, 3);
    assert_eq!(key.dy, 6);
    assert_eq!(key.dist2, 45);
}

#[test]
fn test_fat_pt_cmp_distance_tie_break() {
    // Two keys on one ray out of the pivot: the nearer orders first.
    let near = Fatpoint2D { x: 1, y: 1, dx: 1, dy: 1, dist2: 2 };
    let far = Fatpoint2D { x: 3, y: 3, dx: 3, dy: 3, dist2: 18 };
    assert_eq!(near.partial_cmp(&far), Some(std::cmp::Ordering::Less));
    assert_eq!(far.partial_cmp(&near), Some(std::cmp::Ordering::Greater));
    let twin = Fatpoint2D { x: 1, y: 1, dx: 1, dy: 1, dist2: 2 };
    assert_eq!(near.partial_cmp(&twin), Some(std::cmp::Ordering::Equal));
}
