//! Points of the plane and the orientation test on integer points.

use vstd::prelude::*;

verus! {

/// A point of the plane with coordinates of type `T`.
#[derive(Debug, PartialEq, Eq, Default)]
pub struct Point2<T> {
    pub x: T,
    pub y: T,
}

impl<T: Copy> Clone for Point2<T> {
    fn clone(&self) -> (copy: Self)
        ensures
            copy == *self,
    {
        *self
    }
}

impl<T: Copy> Copy for Point2<T> {

}

/// A point with integer pixel coordinates.
pub type PointI32 = Point2<i32>;

impl<T> Point2<T> {
    /// The point `(x, y)`.
    pub fn new(x: T, y: T) -> (p: Self)
        ensures
            p.x == x,
            p.y == y,
    {
        Point2 { x, y }
    }
}

/// Twice the signed area of the triangle `p1 p2 p3`: the cross product of
/// `p2 - p1` and `p3 - p1`. With the origin in the top left corner and `y`
/// pointing down, a positive value means that the triangle winds clockwise.
pub open spec fn doubled_area(p1: PointI32, p2: PointI32, p3: PointI32) -> int {
    (p2.x - p1.x) * (p3.y - p1.y) - (p3.x - p1.x) * (p2.y - p1.y)
}

/// Twice the signed area of the triangle `p1 p2 p3`, or `None` where it
/// does not fit in an `i32`.
pub fn try_signed_area(p1: PointI32, p2: PointI32, p3: PointI32) -> (area: Option<i32>)
    ensures
        area == if i32::MIN <= doubled_area(p1, p2, p3) <= i32::MAX {
            Some(doubled_area(p1, p2, p3) as i32)
        } else {
            None::<i32>
        },
{
    let ax: i128 = (p2.x as i128) - (p1.x as i128);
    let ay: i128 = (p3.y as i128) - (p1.y as i128);
    let bx: i128 = (p3.x as i128) - (p1.x as i128);
    let by: i128 = (p2.y as i128) - (p1.y as i128);
    assert(-0x1_0000_0000_0000_0000 <= ax * ay <= 0x1_0000_0000_0000_0000) by (nonlinear_arith)
        requires
            -0x1_0000_0000 <= ax <= 0x1_0000_0000,
            -0x1_0000_0000 <= ay <= 0x1_0000_0000,
    ;
    assert(-0x1_0000_0000_0000_0000 <= bx * by <= 0x1_0000_0000_0000_0000) by (nonlinear_arith)
        requires
            -0x1_0000_0000 <= bx <= 0x1_0000_0000,
            -0x1_0000_0000 <= by <= 0x1_0000_0000,
    ;
    let doubled: i128 = ax * ay - bx * by;
    if doubled >= -0x8000_0000 && doubled <= 0x7fff_ffff {
        Some(doubled as i32)
    } else {
        None
    }
}

/// Twice the signed area of the triangle `p1 p2 p3`; positive for a
/// clockwise triangle when the origin is the top left corner.
pub fn signed_area(p1: PointI32, p2: PointI32, p3: PointI32) -> (area: i32)
    requires
        i32::MIN <= doubled_area(p1, p2, p3) <= i32::MAX,
    ensures
        area == doubled_area(p1, p2, p3),
{
    match try_signed_area(p1, p2, p3) {
        Some(area) => area,
        None => 0,
    }
}

/// Swapping two corners of a triangle flips the sign of its area, and a
/// triangle with two equal corners has none.
pub proof fn law_area_antisymmetric(p1: PointI32, p2: PointI32, p3: PointI32)
    ensures
        doubled_area(p1, p3, p2) == -doubled_area(p1, p2, p3),
        doubled_area(p2, p1, p3) == -doubled_area(p1, p2, p3),
        doubled_area(p1, p1, p3) == 0,
        doubled_area(p1, p2, p2) == 0,
{
    let (x1, y1) = (p1.x as int, p1.y as int);
    let (x2, y2) = (p2.x as int, p2.y as int);
    let (x3, y3) = (p3.x as int, p3.y as int);
    assert((x1 - x2) * (y3 - y2) - (x3 - x2) * (y1 - y2) == -((x2 - x1) * (y3 - y1) - (x3 - x1) * (
    y2 - y1))) by (nonlinear_arith);
    assert((x3 - x1) * (y2 - y1) - (x2 - x1) * (y3 - y1) == -((x2 - x1) * (y3 - y1) - (x3 - x1) * (
    y2 - y1))) by (nonlinear_arith);
    assert((x2 - x1) * (y2 - y1) - (x2 - x1) * (y2 - y1) == 0);
    assert((x1 - x1) * (y3 - y1) == 0) by (nonlinear_arith);
    assert((x3 - x1) * (y1 - y1) == 0) by (nonlinear_arith);
}

} // verus!
