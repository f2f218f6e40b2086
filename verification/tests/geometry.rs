use raster_core::{signed_area, try_signed_area, Point2, PointI32};

fn p(x: i32, y: i32) -> PointI32 {
    Point2::new(x, y)
}

#[test]
fn signed_area_is_positive_for_a_clockwise_triangle() {
    // y points down: right, then down, is a clockwise turn
    assert_eq!(signed_area(p(0, 0), p(1, 0), p(1, 1)), 1);
    assert_eq!(signed_area(p(0, 0), p(1, 1), p(1, 0)), -1);
    assert_eq!(signed_area(p(0, 0), p(4, 0), p(0, 3)), 12);
    assert_eq!(signed_area(p(2, 5), p(-3, 7), p(10, -1)), 14);
}

#[test]
fn signed_area_of_points_on_a_line_is_zero() {
    assert_eq!(signed_area(p(0, 0), p(1, 1), p(5, 5)), 0);
    assert_eq!(signed_area(p(3, 3), p(3, 3), p(7, 9)), 0);
    assert_eq!(signed_area(p(-2, 4), p(0, 4), p(9, 4)), 0);
}

#[test]
fn signed_area_changes_sign_when_two_corners_are_swapped() {
    let (a, b, c) = (p(1, 2), p(7, -3), p(-4, 9));
    assert_eq!(signed_area(a, b, c), -signed_area(a, c, b));
    assert_eq!(signed_area(a, b, c), -signed_area(b, a, c));
    assert_eq!(signed_area(a, b, c), 17);
}

#[test]
fn try_signed_area_tells_when_the_area_does_not_fit() {
    assert_eq!(try_signed_area(p(0, 0), p(1, 0), p(1, 1)), Some(1));
    assert_eq!(try_signed_area(p(0, 0), p(46341, 0), p(0, 46341)), None);
    assert_eq!(try_signed_area(p(0, 0), p(46340, 0), p(0, 46340)), Some(2147395600));
    assert_eq!(try_signed_area(p(i32::MIN, i32::MIN), p(i32::MAX, i32::MIN), p(i32::MAX, i32::MAX)), None);
    // large coordinates, small area
    assert_eq!(
        try_signed_area(p(i32::MAX, i32::MAX), p(i32::MAX - 1, i32::MAX), p(i32::MAX, i32::MAX - 1)),
        Some(1)
    );
    assert_eq!(try_signed_area(p(0, 0), p(0, 65536), p(32768, 0)), Some(i32::MIN));
}

#[test]
fn points_hold_their_coordinates() {
    let q = Point2::new(3u8, 4u8);
    assert_eq!((q.x, q.y), (3, 4));
    assert_eq!(p(1, 2), Point2 { x: 1, y: 2 });
}
