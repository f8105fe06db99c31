//! Grid points, triangles and the small predicates over them.

use crate::error::Error;
use num_integer::Roots;
use vstd::prelude::*;

pub mod point;
pub mod triangle;

pub use point::Point;
pub use triangle::Triangle;

verus! {

/// A closed contour: its points in order. The edge from the last point back to
/// the first is implied.
pub type Polygon = Vec<Point>;

/// The point lists of a list of polygons.
pub open spec fn views(polygons: Seq<Polygon>) -> Seq<Seq<Point>> {
    polygons.map_values(|polygon: Polygon| polygon@)
}

/// The largest distance that is still a coordinate.
pub const MAX_DISTANCE: u64 = 0xFFFF;

/// The square of the distance between `a` and `b`.
pub open spec fn squared_distance(a: Point, b: Point) -> nat {
    ((a.x - b.x) * (a.x - b.x) + (a.y - b.y) * (a.y - b.y)) as nat
}

/// `r` is the square root of `n`, rounded down.
pub open spec fn is_floor_sqrt(r: nat, n: nat) -> bool {
    r * r <= n < (r + 1) * (r + 1)
}

/// The square root of `n`, rounded down.
pub open spec fn floor_sqrt(n: nat) -> nat {
    choose|r: nat| #[trigger] is_floor_sqrt(r, n)
}

/// The distance between `a` and `b`, rounded down to a whole number.
pub open spec fn whole_distance(a: Point, b: Point) -> nat {
    floor_sqrt(squared_distance(a, b))
}

/// Twice the signed area of the triangle `a`, `b`, `c`: the cross product of
/// the step from `a` to `b` with the step from `b` to `c`.
pub open spec fn spec_cross_product(a: Point, b: Point, c: Point) -> int {
    (b.x - a.x) * (c.y - b.y) - (b.y - a.y) * (c.x - b.x)
}

/// `point` lies strictly on the same side of all three edges of the triangle.
pub open spec fn spec_is_point_inside_triangle(triangle: Triangle, point: Point) -> bool {
    let ab = spec_cross_product(triangle.0, triangle.1, point);
    let bc = spec_cross_product(triangle.1, triangle.2, point);
    let ca = spec_cross_product(triangle.2, triangle.0, point);
    (ab < 0 && bc < 0 && ca < 0) || (ab > 0 && bc > 0 && ca > 0)
}

/// The turn that a polygon takes at the corner after its point `i`: the cross
/// product over the points `i`, `i + 1` and `i + 2`, counted round the polygon.
pub open spec fn turn(polygon: Seq<Point>, i: int) -> int {
    spec_cross_product(
        polygon[i],
        polygon[(i + 1) % (polygon.len() as int)],
        polygon[(i + 2) % (polygon.len() as int)],
    )
}

/// A polygon is convex where no two of its turns go opposite ways. Straight
/// corners count for neither way.
pub open spec fn spec_is_convex(polygon: Seq<Point>) -> bool {
    forall|i: int, j: int|
        0 <= i < polygon.len() && 0 <= j < polygon.len() ==> !(#[trigger] turn(polygon, i) > 0
            && #[trigger] turn(polygon, j) < 0)
}

/// Finds a rounded-down square root of `n`, counting up from zero.
proof fn lemma_some_floor_sqrt(n: nat) -> (r: nat)
    ensures
        is_floor_sqrt(r, n),
    decreases n,
{
    if n == 0 {
        assert(is_floor_sqrt(0, 0)) by (nonlinear_arith);
        0
    } else {
        let below = lemma_some_floor_sqrt((n - 1) as nat);
        let next = below + 1;
        if next * next <= n {
            assert(is_floor_sqrt(next, n)) by (nonlinear_arith)
                requires
                    next == below + 1,
                    next * next <= n,
                    n - 1 < (below + 1) * (below + 1),
            ;
            next
        } else {
            assert(is_floor_sqrt(below, n)) by (nonlinear_arith)
                requires
                    below * below <= n - 1,
                    !((below + 1) * (below + 1) <= n),
            ;
            below
        }
    }
}

/// Every number has a rounded-down square root, and `floor_sqrt` is it: its
/// square is at most `n`, and the square of its successor is above `n`.
pub proof fn lemma_floor_sqrt(n: nat)
    ensures
        is_floor_sqrt(floor_sqrt(n), n),
{
    let r = lemma_some_floor_sqrt(n);
    assert(is_floor_sqrt(r, n));
}

/// Only one number is the rounded-down square root of `n`.
pub proof fn lemma_floor_sqrt_is(n: nat, r: nat)
    requires
        is_floor_sqrt(r, n),
    ensures
        floor_sqrt(n) == r,
{
    let s = floor_sqrt(n);
    assert(is_floor_sqrt(s, n));
    assert(s == r) by (nonlinear_arith)
        requires
            s * s <= n < (s + 1) * (s + 1),
            r * r <= n < (r + 1) * (r + 1),
    ;
}

/// What an index is when counted round `n` items, for an index that has run
/// past the end by at most `n`.
proof fn lemma_wrapped_index(i: int, n: int)
    requires
        0 < n,
        0 <= i <= 2 * n,
    ensures
        i % n == if i < n {
            i
        } else if i < 2 * n {
            i - n
        } else {
            0
        },
{
    if i < n {
        vstd::arithmetic::div_mod::lemma_fundamental_div_mod_converse(i, n, 0, i);
    } else if i < 2 * n {
        vstd::arithmetic::div_mod::lemma_fundamental_div_mod_converse(i, n, 1, i - n);
    } else {
        vstd::arithmetic::div_mod::lemma_fundamental_div_mod_converse(i, n, 2, 0);
    }
}

/// `Roots::sqrt` of the crate num-integer, on a `u64`: the square root rounded
/// down, which is the one number whose square is at most `n` while the square
/// of its successor is above `n`.
#[verifier::external_body]
fn integer_sqrt(n: u64) -> (root: u64)
    ensures
        root * root <= n < (root + 1) * (root + 1),
{
    n.sqrt()
}

/// The distance between two points, rounded down. Fails with
/// `CoordinateOverflow` where that is above 65535.
pub fn distance(a: Point, b: Point) -> (d: Result<u16, Error>)
    ensures
        match d {
            Ok(length) => length == whole_distance(a, b) && is_floor_sqrt(
                length as nat,
                squared_distance(a, b),
            ),
            Err(e) => e == Error::CoordinateOverflow && whole_distance(a, b) > MAX_DISTANCE
                && squared_distance(a, b) >= 0x1_0000_0000,
        },
{
    let dx: u64 = if a.x >= b.x {
        (a.x - b.x) as u64
    } else {
        (b.x - a.x) as u64
    };
    let dy: u64 = if a.y >= b.y {
        (a.y - b.y) as u64
    } else {
        (b.y - a.y) as u64
    };
    assert(dx * dx + dy * dy == squared_distance(a, b) && dx * dx + dy * dy <= 2 * 0xFFFF * 0xFFFF)
        by (nonlinear_arith)
        requires
            dx == a.x - b.x || dx == b.x - a.x,
            dy == a.y - b.y || dy == b.y - a.y,
            dx <= 0xFFFF,
            dy <= 0xFFFF,
    ;
    let root = integer_sqrt(dx * dx + dy * dy);
    proof {
        lemma_floor_sqrt_is(squared_distance(a, b), root as nat);
    }
    if root > MAX_DISTANCE {
        assert(root * root >= 0x1_0000 * 0x1_0000) by (nonlinear_arith)
            requires
                root >= 0x1_0000,
        ;
        Err(Error::CoordinateOverflow)
    } else {
        Ok(root as u16)
    }
}

/// The cross product of the step from `a` to `b` with the step from `b` to
/// `c`: positive for a turn one way, negative for the other, zero where the
/// three points lie on a line.
pub fn cross_product(a: Point, b: Point, c: Point) -> (cross: i64)
    ensures
        cross == spec_cross_product(a, b, c),
{
    let abx: i64 = b.x as i64 - a.x as i64;
    let aby: i64 = b.y as i64 - a.y as i64;
    let bcx: i64 = c.x as i64 - b.x as i64;
    let bcy: i64 = c.y as i64 - b.y as i64;
    assert(-0xFFFF * 0xFFFF <= abx * bcy <= 0xFFFF * 0xFFFF && -0xFFFF * 0xFFFF <= aby * bcx <= 0xFFFF
        * 0xFFFF) by (nonlinear_arith)
        requires
            -0xFFFF <= abx <= 0xFFFF,
            -0xFFFF <= aby <= 0xFFFF,
            -0xFFFF <= bcx <= 0xFFFF,
            -0xFFFF <= bcy <= 0xFFFF,
    ;
    abx * bcy - aby * bcx
}

/// Whether `point` lies strictly inside `triangle`. A point on an edge or on a
/// vertex is not inside, and nothing is inside a triangle without area.
pub fn is_point_inside_triangle(triangle: &Triangle, point: Point) -> (inside: bool)
    ensures
        inside == spec_is_point_inside_triangle(*triangle, point),
{
    let ab = cross_product(triangle.0, triangle.1, point);
    let bc = cross_product(triangle.1, triangle.2, point);
    let ca = cross_product(triangle.2, triangle.0, point);
    (ab < 0 && bc < 0 && ca < 0) || (ab > 0 && bc > 0 && ca > 0)
}

/// Whether all corners of `polygon` turn the same way. A polygon without
/// points is convex.
pub fn is_convex(polygon: &Polygon) -> (convex: bool)
    ensures
        convex == spec_is_convex(polygon@),
{
    let n = polygon.len();
    let mut left: bool = false;
    let mut right: bool = false;
    let ghost mut left_at: int = 0;
    let ghost mut right_at: int = 0;
    let mut i: usize = 0;
    while i < n
        invariant
            n == polygon.len(),
            i <= n,
            !(left && right),
            left ==> 0 <= left_at < i && turn(polygon@, left_at) > 0,
            right ==> 0 <= right_at < i && turn(polygon@, right_at) < 0,
            !left ==> forall|k: int| 0 <= k < i ==> #[trigger] turn(polygon@, k) <= 0,
            !right ==> forall|k: int| 0 <= k < i ==> #[trigger] turn(polygon@, k) >= 0,
        decreases n - i,
    {
        let next = if i + 1 == n {
            0
        } else {
            i + 1
        };
        let after = if next + 1 == n {
            0
        } else {
            next + 1
        };
        proof {
            lemma_wrapped_index(i + 1, n as int);
            lemma_wrapped_index(i + 2, n as int);
        }
        let cross = cross_product(polygon[i], polygon[next], polygon[after]);
        assert(cross == turn(polygon@, i as int));
        if cross > 0 {
            if right {
                return false;
            }
            left = true;
            proof {
                left_at = i as int;
            }
        } else if cross < 0 {
            if left {
                return false;
            }
            right = true;
            proof {
                right_at = i as int;
            }
        }
        i += 1;
    }
    true
}

} // verus!
