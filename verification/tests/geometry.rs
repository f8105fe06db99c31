use hitbox_mesh::error::Error;
use hitbox_mesh::geometry::{
    cross_product, distance, is_convex, is_point_inside_triangle, Point, Polygon, Triangle,
};

#[test]
fn geometry_test_distance() {
    let a = Point { x: 0, y: 0 };
    let b = Point { x: 3, y: 4 };
    assert_eq!(distance(a, b), Ok(5));
}

#[test]
fn mod_test_distance() {
    let a = Point { x: 0, y: 0 };
    let b = Point { x: 3, y: 4 };
    assert_eq!(distance(a, b), Ok(5));
}

#[test]
fn test_cross_product() {
    let a = Point { x: 0, y: 0 };
    let b = Point { x: 3, y: 4 };
    let c = Point { x: 4, y: 3 };
    assert_eq!(cross_product(a, b, c), -7);
}

#[test]
fn geometry_test_is_point_inside_triangle_on_side() {
    let triangle = Triangle(
        Point { x: 0, y: 0 },
        Point { x: 3, y: 4 },
        Point { x: 4, y: 0 },
    );
    let point = Point { x: 2, y: 2 };
    assert!(is_point_inside_triangle(&triangle, point));
}

#[test]
fn mod_test_is_point_inside_triangle_on_side() {
    let triangle = Triangle(
        Point { x: 0, y: 0 },
        Point { x: 3, y: 4 },
        Point { x: 4, y: 0 },
    );
    let point = Point { x: 2, y: 2 };
    assert!(is_point_inside_triangle(&triangle, point));
}

#[test]
fn geometry_test_is_point_inside_triangle() {
    let triangle = Triangle(
        Point { x: 0, y: 0 },
        Point { x: 3, y: 4 },
        Point { x: 4, y: 0 },
    );
    let point = Point { x: 2, y: 1 };
    assert!(is_point_inside_triangle(&triangle, point));
}

#[test]
fn mod_test_is_point_inside_triangle() {
    let triangle = Triangle(
        Point { x: 0, y: 0 },
        Point { x: 3, y: 4 },
        Point { x: 4, y: 0 },
    );
    let point = Point { x: 2, y: 1 };
    assert!(is_point_inside_triangle(&triangle, point));
}

#[test]
fn geometry_test_is_point_outside_triangle() {
    let triangle = Triangle(
        Point { x: 0, y: 0 },
        Point { x: 3, y: 4 },
        Point { x: 4, y: 0 },
    );
    let point = Point { x: 2, y: 3 };
    assert!(!is_point_inside_triangle(&triangle, point));
}

#[test]
fn mod_test_is_point_outside_triangle() {
    let triangle = Triangle(
        Point { x: 0, y: 0 },
        Point { x: 3, y: 4 },
        Point { x: 4, y: 0 },
    );
    let point = Point { x: 2, y: 3 };
    assert!(!is_point_inside_triangle(&triangle, point));
}

#[test]
fn test_is_convex() {
    let polygon: Polygon = vec![
        Point { x: 0, y: 0 },
        Point { x: 3, y: 4 },
        Point { x: 5, y: 1 },
        Point { x: 3, y: 0 },
    ];
    assert!(is_convex(&polygon));
}

#[test]
fn test_is_not_convex() {
    let polygon = vec![
        Point { x: 0, y: 0 },
        Point { x: 3, y: 4 },
        Point { x: 4, y: 0 },
        Point { x: 3, y: 2 },
    ];
    assert!(!is_convex(&polygon));
}

#[test]
fn distance_is_rounded_down() {
    let origin = Point::new(0, 0);
    assert_eq!(distance(origin, Point::new(1, 1)), Ok(1));
    assert_eq!(distance(origin, Point::new(2, 2)), Ok(2));
    assert_eq!(distance(origin, Point::new(0, 0)), Ok(0));
    assert_eq!(distance(Point::new(7, 9), Point::new(7, 2)), Ok(7));
    assert_eq!(distance(Point::new(65535, 0), origin), Ok(65535));
    assert_eq!(distance(origin, Point::new(46340, 46340)), Ok(65534));
}

#[test]
fn distance_beyond_the_coordinate_range_is_an_error() {
    let origin = Point::new(0, 0);
    assert_eq!(distance(origin, Point::new(65535, 65535)), Err(Error::CoordinateOverflow));
    assert_eq!(distance(Point::new(65535, 1), Point::new(0, 400)), Err(Error::CoordinateOverflow));
}

#[test]
fn cross_product_of_far_points_is_exact() {
    let a = Point::new(0, 65535);
    let b = Point::new(65535, 0);
    let c = Point::new(0, 0);
    assert_eq!(cross_product(a, b, c), -4294836225);
    assert_eq!(cross_product(c, b, a), 4294836225);
    assert_eq!(cross_product(a, a, a), 0);
}

#[test]
fn neighbours_stop_at_the_coordinate_range() {
    let corner = Point::new(0, 0);
    assert_eq!(corner.left(), None);
    assert_eq!(corner.up(), None);
    assert_eq!(corner.left_up(), None);
    assert_eq!(corner.left_down(), None);
    assert_eq!(corner.right_up(), None);
    assert_eq!(corner.right(), Some(Point::new(1, 0)));
    assert_eq!(corner.down(), Some(Point::new(0, 1)));
    assert_eq!(corner.right_down(), Some(Point::new(1, 1)));
    let far = Point::new(65535, 65535);
    assert_eq!(far.right(), None);
    assert_eq!(far.down(), None);
    assert_eq!(far.right_down(), None);
    assert_eq!(far.right_up(), None);
    assert_eq!(far.left_down(), None);
    assert_eq!(far.left(), Some(Point::new(65534, 65535)));
    assert_eq!(far.up(), Some(Point::new(65535, 65534)));
    assert_eq!(far.left_up(), Some(Point::new(65534, 65534)));
}

#[test]
fn neighbours_of_an_inner_point() {
    let p = Point::new(10, 20);
    assert_eq!(p.right(), Some(Point::new(11, 20)));
    assert_eq!(p.left(), Some(Point::new(9, 20)));
    assert_eq!(p.up(), Some(Point::new(10, 19)));
    assert_eq!(p.down(), Some(Point::new(10, 21)));
    assert_eq!(p.right_up(), Some(Point::new(11, 19)));
    assert_eq!(p.right_down(), Some(Point::new(11, 21)));
    assert_eq!(p.left_up(), Some(Point::new(9, 19)));
    assert_eq!(p.left_down(), Some(Point::new(9, 21)));
}

#[test]
fn points_are_ordered_by_x_then_y() {
    assert!(Point::new(1, 9) < Point::new(2, 0));
    assert!(Point::new(2, 0) < Point::new(2, 1));
    assert!(!(Point::new(2, 1) < Point::new(2, 1)));
    assert!(Point::new(3, 0) > Point::new(2, 65535));
    let mut points = vec![Point::new(2, 1), Point::new(1, 9), Point::new(2, 0)];
    points.sort();
    assert_eq!(points, vec![Point::new(1, 9), Point::new(2, 0), Point::new(2, 1)]);
}

#[test]
fn triangle_equality_ignores_vertex_order() {
    let a = Point::new(0, 0);
    let b = Point::new(3, 4);
    let c = Point::new(4, 0);
    assert_eq!(Triangle(a, b, c), Triangle(c, a, b));
    assert_eq!(Triangle(c, a, b), Triangle(b, c, a));
    assert_eq!(Triangle(a, b, c), Triangle(b, c, a));
    assert_eq!(Triangle(a, b, c), Triangle(a, c, b));
    assert_eq!(Triangle(a, b, c), Triangle(b, a, c));
    assert_eq!(Triangle(a, b, c), Triangle(c, b, a));
    assert_eq!(Triangle(a, b, c), Triangle(a, b, c));
}

#[test]
fn triangles_with_different_vertices_differ() {
    let a = Point::new(0, 0);
    let b = Point::new(3, 4);
    let c = Point::new(4, 0);
    let d = Point::new(4, 1);
    assert_ne!(Triangle(a, b, c), Triangle(a, b, d));
    assert_ne!(Triangle(a, a, b), Triangle(a, b, b));
    assert_eq!(Triangle(a, a, b), Triangle(a, b, a));
}

#[test]
fn triangle_lists_its_vertices_in_order() {
    let a = Point::new(0, 0);
    let b = Point::new(3, 4);
    let c = Point::new(4, 0);
    assert_eq!(Triangle(b, c, a).points(), vec![b, c, a]);
}

#[test]
fn point_on_an_edge_is_not_inside() {
    let triangle = Triangle(Point::new(0, 0), Point::new(4, 4), Point::new(4, 0));
    assert!(!is_point_inside_triangle(&triangle, Point::new(2, 2)));
    assert!(!is_point_inside_triangle(&triangle, Point::new(0, 0)));
    assert!(is_point_inside_triangle(&triangle, Point::new(3, 1)));
}

#[test]
fn polygons_without_a_turn_are_convex() {
    let empty: Polygon = vec![];
    assert!(is_convex(&empty));
    assert!(is_convex(&vec![Point::new(1, 1)]));
    assert!(is_convex(&vec![Point::new(0, 0), Point::new(5, 5)]));
    assert!(is_convex(&vec![Point::new(0, 0), Point::new(1, 1), Point::new(2, 2)]));
}

#[test]
fn distance_squared_brackets_the_squared_distance() {
    let pairs = [
        (Point::new(0, 0), Point::new(1, 2)),
        (Point::new(17, 4), Point::new(3, 90)),
        (Point::new(65535, 0), Point::new(0, 1)),
        (Point::new(40000, 40000), Point::new(1, 2)),
        (Point::new(5, 5), Point::new(5, 5)),
    ];
    for (a, b) in pairs {
        let dx = (i64::from(a.x) - i64::from(b.x)).abs();
        let dy = (i64::from(a.y) - i64::from(b.y)).abs();
        let squared = dx * dx + dy * dy;
        match distance(a, b) {
            Ok(length) => {
                let root = i64::from(length);
                assert!(root * root <= squared && squared < (root + 1) * (root + 1));
            }
            Err(e) => {
                assert_eq!(e, Error::CoordinateOverflow);
                assert!(squared >= 65536 * 65536);
            }
        }
    }
    assert_eq!(distance(Point::new(65535, 0), Point::new(0, 1)), Ok(65535));
    assert_eq!(distance(Point::new(65535, 0), Point::new(0, 363)), Err(Error::CoordinateOverflow));
    assert_eq!(distance(Point::new(65535, 0), Point::new(0, 362)), Ok(65535));
}
