use rustree::{BoundingBox, Point};

#[test]
fn test_intersects() {
    let bb1 = BoundingBox::new(-2, -2, 1, 1);
    let bb2 = BoundingBox::new(-1, -1, 2, 2);
    assert!(bb1.intersects(&bb2));
    let bb3 = BoundingBox::new(-2, -2, -1, -1);
    let bb4 = BoundingBox::new(1, 1, 2, 2);
    assert!(!bb3.intersects(&bb4));
}

#[test]
fn touching_edges_intersect() {
    let left = BoundingBox::new(0, 0, 1, 1);
    let right = BoundingBox::new(1, 0, 2, 1);
    assert!(left.intersects(&right));
    assert!(right.intersects(&left));
}

#[test]
fn touching_corners_intersect() {
    let a = BoundingBox::new(0, 0, 1, 1);
    let b = BoundingBox::new(1, 1, 2, 2);
    assert!(a.intersects(&b));
}

#[test]
fn separated_on_one_axis_do_not_intersect() {
    let a = BoundingBox::new(0, 0, 1, 1);
    let b = BoundingBox::new(0, 2, 1, 3);
    assert!(!a.intersects(&b));
    assert!(!b.intersects(&a));
}

#[test]
fn new_sets_both_corners() {
    let b = BoundingBox::new(1, 2, 3, 4);
    assert_eq!(b.min, Point::new(1, 2));
    assert_eq!(b.max, Point::new(3, 4));
    assert_eq!(b, BoundingBox::from_minmax(Point { x: 1, y: 2 }, Point { x: 3, y: 4 }));
}

#[test]
fn union_takes_least_and_greatest() {
    let a = BoundingBox::new(0, 0, 2, 2);
    let b = BoundingBox::new(1, -3, 5, 1);
    assert_eq!(a.get_union(&b), BoundingBox::new(0, -3, 5, 2));
    assert_eq!(b.get_union(&a), BoundingBox::new(0, -3, 5, 2));
    assert_eq!(a.get_union(&a), a);
}

#[test]
fn area_is_width_times_height() {
    assert_eq!(BoundingBox::new(0, 0, 3, 4).get_area(), 12);
    assert_eq!(BoundingBox::new(-2, -2, 1, 1).get_area(), 9);
}

#[test]
fn area_of_degenerate_box_is_zero() {
    assert_eq!(BoundingBox::new(5, 5, 5, 5).get_area(), 0);
    assert_eq!(BoundingBox::new(0, 0, 7, 0).get_area(), 0);
}

#[test]
fn area_of_inverted_box_is_signed() {
    assert_eq!(BoundingBox::new(3, 0, 0, 4).get_area(), -12);
    assert_eq!(BoundingBox::new(3, 4, 0, 0).get_area(), 12);
}

#[test]
fn area_of_widest_box_fits() {
    let b = BoundingBox::new(i32::MIN, i32::MIN, i32::MAX, i32::MAX);
    assert_eq!(b.get_area(), 4294967295i128 * 4294967295i128);
}

#[test]
fn union_is_no_smaller_than_operands() {
    let a = BoundingBox::new(0, 0, 2, 3);
    let b = BoundingBox::new(10, 10, 11, 12);
    let u = a.get_union(&b);
    assert_eq!(u.get_area(), 11 * 12);
    assert!(u.get_area() >= a.get_area());
    assert!(u.get_area() >= b.get_area());
}

#[test]
fn points_are_equal_by_coordinates() {
    assert_eq!(Point::new(1, 2), Point { x: 1, y: 2 });
    assert_ne!(Point::new(1, 2), Point::new(2, 1));
}
