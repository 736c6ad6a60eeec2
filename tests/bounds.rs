use raytracing_one_weekend::bvh::{axis, Bounds};
use raytracing_one_weekend::vectors::Vector3;

fn v(x: i64, y: i64, z: i64) -> Vector3<i64> {
    Vector3 { x, y, z }
}

#[test]
fn new_is_the_empty_sentinel() {
    let b = Bounds::new();
    assert_eq!(b.min, v(i64::MAX, i64::MAX, i64::MAX));
    assert_eq!(b.max, v(i64::MIN, i64::MIN, i64::MIN));
}

#[test]
fn infinity_spans_the_grid() {
    let b = Bounds::infinity();
    assert_eq!(b.min, v(i64::MIN, i64::MIN, i64::MIN));
    assert_eq!(b.max, v(i64::MAX, i64::MAX, i64::MAX));
}

#[test]
fn from_sphere_is_center_plus_minus_radius() {
    let b = Bounds::fromSphere(v(1, -2, 3), 4);
    assert_eq!(b.min, v(-3, -6, -1));
    assert_eq!(b.max, v(5, 2, 7));
}

#[test]
fn fit_points_covers_points_with_exact_midpoint() {
    let mut b = Bounds::new();
    b.fitPoints(vec![v(1, 5, -3), v(-2, 7, 4), v(3, 6, 0)]);
    assert_eq!(b.min, v(-2, 5, -3));
    assert_eq!(b.max, v(3, 7, 4));
    assert!(b.min.x <= b.max.x && b.min.y <= b.max.y && b.min.z <= b.max.z);
    assert_eq!(b.center_twice(axis::x), 1);
    assert_eq!(b.center_twice(axis::y), 12);
    assert_eq!(b.center_twice(axis::z), 1);
}

#[test]
fn fit_points_single_point_is_degenerate_box() {
    let mut b = Bounds::new();
    b.fitPoints(vec![v(7, -8, 9)]);
    assert_eq!(b.min, v(7, -8, 9));
    assert_eq!(b.max, v(7, -8, 9));
    assert_eq!(b.center_twice(axis::y), -16);
}

#[test]
fn fit_points_with_no_points_keeps_box() {
    let mut b = Bounds::fromSphere(v(0, 0, 0), 1);
    b.fitPoints(vec![]);
    assert_eq!(b.min, v(-1, -1, -1));
    assert_eq!(b.max, v(1, 1, 1));
}

#[test]
fn fit_points_extends_existing_box() {
    let mut b = Bounds::fromSphere(v(0, 0, 0), 1);
    b.fitPoints(vec![v(10, 0, 0)]);
    assert_eq!(b.min, v(-1, -1, -1));
    assert_eq!(b.max, v(10, 1, 1));
}

#[test]
fn union_with_empty_is_identity() {
    let a = Bounds::fromSphere(v(2, 3, 4), 1);
    let u = a.union(&Bounds::new());
    assert_eq!(u.min, a.min);
    assert_eq!(u.max, a.max);
    let w = Bounds::new().union(&a);
    assert_eq!(w.min, a.min);
    assert_eq!(w.max, a.max);
}

#[test]
fn union_of_two_boxes() {
    let a = Bounds::fromSphere(v(0, 0, 0), 1);
    let b = Bounds::fromSphere(v(5, -5, 2), 2);
    let u = a.union(&b);
    assert_eq!(u.min, v(-1, -7, -1));
    assert_eq!(u.max, v(7, 1, 4));
}

fn box_of(min: (i64, i64, i64), max: (i64, i64, i64)) -> Bounds {
    Bounds { min: Vector3::from_tuple(min), max: Vector3::from_tuple(max) }
}

#[test]
fn longest_axis_picks_strictly_longest() {
    assert_eq!(box_of((0, 0, 0), (5, 1, 1)).getLongestAxis(), axis::x);
    assert_eq!(box_of((0, 0, 0), (1, 5, 1)).getLongestAxis(), axis::y);
    assert_eq!(box_of((0, 0, 0), (1, 1, 5)).getLongestAxis(), axis::z);
}

#[test]
fn longest_axis_ties() {
    // x and y equal: y wins.
    assert_eq!(box_of((0, 0, 0), (4, 4, 1)).getLongestAxis(), axis::y);
    // z equal to the larger of x and y: z wins.
    assert_eq!(box_of((0, 0, 0), (4, 1, 4)).getLongestAxis(), axis::z);
    assert_eq!(box_of((0, 0, 0), (1, 4, 4)).getLongestAxis(), axis::z);
    assert_eq!(box_of((0, 0, 0), (3, 3, 3)).getLongestAxis(), axis::z);
}

#[test]
fn longest_axis_uses_absolute_extent() {
    // The empty box has negative extents; their sizes still decide.
    assert_eq!(box_of((0, 10, 0), (6, 0, 0)).getLongestAxis(), axis::y);
    assert_eq!(Bounds::new().getLongestAxis(), axis::z);
}

#[test]
fn index_picks_corner() {
    let b = box_of((1, 2, 3), (4, 5, 6));
    assert_eq!(b.index(1), v(4, 5, 6));
    assert_eq!(b.index(0), v(1, 2, 3));
    assert_eq!(b.index(7), v(1, 2, 3));
}

#[test]
fn vector_from_tuple_and_vector() {
    assert_eq!(Vector3::from_tuple((1, 2, 3)), v(1, 2, 3));
    assert_eq!(Vector3::from_vector(vec![4, 5, 6, 7]), v(4, 5, 6));
    assert_eq!(v(4, 5, 6).get(axis::y), 5);
}

#[test]
fn extreme_corners_do_not_overflow() {
    let b = box_of((i64::MIN, 0, -5), (i64::MAX, 1, 5));
    assert_eq!(b.getLongestAxis(), axis::x);
    assert_eq!(b.center_twice(axis::x), -1);
    assert_eq!(b.center_twice(axis::z), 0);
    let s = Bounds::fromSphere(v(i64::MAX - 3, i64::MIN + 3, 0), 3);
    assert_eq!(s.min, v(i64::MAX - 6, i64::MIN, -3));
    assert_eq!(s.max, v(i64::MAX, i64::MIN + 6, 3));
    let mut f = Bounds::new();
    f.fitPoints(vec![v(i64::MAX, i64::MIN, 0)]);
    assert_eq!(f.min, v(i64::MAX, i64::MIN, 0));
    assert_eq!(f.max, v(i64::MAX, i64::MIN, 0));
}

#[test]
fn infinity_absorbs_any_union() {
    let u = Bounds::infinity().union(&Bounds::fromSphere(v(3, 4, 5), 100));
    assert_eq!(u.min, Bounds::infinity().min);
    assert_eq!(u.max, Bounds::infinity().max);
}
