use hitbox_mesh::error::Error;
use hitbox_mesh::geometry::{Point, Polygon, Triangle};
use hitbox_mesh::image::ImagePolygon;
use hitbox_mesh::rdp::{rdp, Tolerance};
use hitbox_mesh::triangulation::{assemble, Assembly};

fn points(list: &[(u16, u16)]) -> Polygon {
    list.iter().map(|&(x, y)| Point::new(x, y)).collect()
}

fn ear_clip(assembly: &Assembly) -> Result<Vec<usize>, Error> {
    let coordinates: Vec<f64> = assembly.coordinates().iter().map(|&c| f64::from(c)).collect();
    match earcutr::earcut(&coordinates, &assembly.hole_indices, 2) {
        Ok(indices) => Ok(indices),
        Err(_) => Err(Error::Triangulation),
    }
}

fn triangulate(polygon: &Polygon, holes: Option<&Vec<Polygon>>) -> Result<Vec<Triangle>, Error> {
    let assembly = assemble(polygon, holes)?;
    let outcome = ear_clip(&assembly);
    assembly.triangles(outcome)
}

#[test]
fn test_triangulate() {
    let polygon = vec![
        Point { x: 0, y: 0 },
        Point { x: 3, y: 4 },
        Point { x: 4, y: 0 },
        Point { x: 2, y: 2 },
    ];

    let triangles = match triangulate(&polygon, None) {
        Ok(triangles) => triangles,
        Err(_) => panic!("Error"),
    };

    assert_eq!(triangles.len(), polygon.len() - 2);
}

#[test]
fn test_triangulate_2() {
    let polygon = vec![
        Point { x: 0, y: 0 },
        Point { x: 3, y: 4 },
        Point { x: 4, y: 0 },
        Point { x: 6, y: 1 },
        Point { x: 7, y: 0 },
        Point { x: 7, y: 3 },
        Point { x: 6, y: 5 },
        Point { x: 1, y: 8 },
    ];

    let triangles = triangulate(&polygon, None).unwrap();

    assert_eq!(triangles.len(), polygon.len() - 2);
}

#[test]
fn test_triangulate_3() {
    let polygon = vec![
        Point { x: 0, y: 0 },
        Point { x: 4, y: 0 },
        Point { x: 5, y: 2 },
        Point { x: 8, y: 1 },
        Point { x: 10, y: 6 },
        Point { x: 6, y: 4 },
        Point { x: 10, y: 8 },
        Point { x: 6, y: 10 },
        Point { x: 6, y: 16 },
        Point { x: 5, y: 14 },
        Point { x: 4, y: 15 },
        Point { x: 0, y: 16 },
        Point { x: 2, y: 8 },
    ];

    let triangles = triangulate(&polygon, None).unwrap();

    assert_eq!(triangles.len(), polygon.len() - 2);
}

#[test]
fn test_triangulate_triangle() {
    let polygon = vec![
        Point { x: 0, y: 0 },
        Point { x: 3, y: 4 },
        Point { x: 4, y: 0 },
    ];
    let triangles = match triangulate(&polygon, None) {
        Ok(triangles) => triangles,
        Err(_) => panic!("Error"),
    };

    assert_eq!(triangles.len(), 1);
    assert_eq!(triangles[0], Triangle(polygon[0], polygon[1], polygon[2]));
}

#[test]
fn fewer_than_three_points_are_degenerate() {
    assert!(matches!(assemble(&points(&[]), None), Err(Error::DegeneratePolygon)));
    assert!(matches!(assemble(&points(&[(1, 1)]), None), Err(Error::DegeneratePolygon)));
    assert!(matches!(assemble(&points(&[(1, 1), (2, 2)]), None), Err(Error::DegeneratePolygon)));
    let holes = vec![points(&[(0, 0), (5, 0), (5, 5), (0, 5)])];
    assert!(matches!(
        assemble(&points(&[(1, 1), (2, 2)]), Some(&holes)),
        Err(Error::DegeneratePolygon)
    ));
    assert_eq!(triangulate(&points(&[(1, 1), (2, 2)]), None), Err(Error::DegeneratePolygon));
    assert!(assemble(&points(&[(1, 1), (2, 2), (3, 1)]), None).is_ok());
}

#[test]
fn outer_contour_alone_has_no_hole_indices() {
    let polygon = points(&[(0, 0), (3, 4), (4, 0)]);
    let assembly = match assemble(&polygon, None) {
        Ok(assembly) => assembly,
        Err(_) => panic!("three points"),
    };
    assert_eq!(assembly.points, polygon);
    assert_eq!(assembly.hole_indices, Vec::<usize>::new());
    assert_eq!(assembly.coordinates(), vec![0, 0, 3, 4, 4, 0]);
    let no_holes: Vec<Polygon> = vec![];
    let same = match assemble(&polygon, Some(&no_holes)) {
        Ok(assembly) => assembly,
        Err(_) => panic!("three points"),
    };
    assert_eq!(same.points, polygon);
    assert_eq!(same.hole_indices, Vec::<usize>::new());
}

#[test]
fn holes_start_where_the_points_before_them_end() {
    let outer = points(&[(0, 0), (20, 0), (20, 20), (0, 20)]);
    let holes = vec![
        points(&[(2, 2), (4, 2), (4, 4)]),
        points(&[(9, 9), (9, 10)]),
        points(&[(6, 6), (8, 6), (8, 8), (6, 8)]),
        points(&[(1, 1)]),
        points(&[]),
        points(&[(12, 12), (14, 12), (14, 14)]),
    ];
    let assembly = match assemble(&outer, Some(&holes)) {
        Ok(assembly) => assembly,
        Err(_) => panic!("four points"),
    };
    assert_eq!(assembly.hole_indices, vec![4, 7, 11]);
    assert_eq!(
        assembly.points,
        points(&[
            (0, 0),
            (20, 0),
            (20, 20),
            (0, 20),
            (2, 2),
            (4, 2),
            (4, 4),
            (6, 6),
            (8, 6),
            (8, 8),
            (6, 8),
            (12, 12),
            (14, 12),
            (14, 14)
        ])
    );
    assert_eq!(
        assembly.coordinates(),
        vec![
            0, 0, 20, 0, 20, 20, 0, 20, 2, 2, 4, 2, 4, 4, 6, 6, 8, 6, 8, 8, 6, 8, 12, 12, 14, 12,
            14, 14
        ]
    );
}

#[test]
fn indices_become_triangles_three_at_a_time() {
    let assembly = Assembly {
        points: points(&[(0, 0), (4, 0), (4, 4), (0, 4)]),
        hole_indices: vec![],
    };
    let triangles = match assembly.triangles(Ok(vec![3, 0, 1, 1, 2, 3])) {
        Ok(triangles) => triangles,
        Err(_) => panic!("the indices describe two triangles"),
    };
    assert_eq!(triangles.len(), 2);
    assert_eq!(
        triangles[0].points(),
        vec![Point::new(0, 4), Point::new(0, 0), Point::new(4, 0)]
    );
    assert_eq!(
        triangles[1].points(),
        vec![Point::new(4, 0), Point::new(4, 4), Point::new(0, 4)]
    );
    assert_eq!(assembly.triangles(Ok(vec![])), Ok(vec![]));
}

#[test]
fn indices_that_describe_no_triangles_are_a_triangulation_error() {
    let assembly = Assembly {
        points: points(&[(0, 0), (4, 0), (4, 4), (0, 4)]),
        hole_indices: vec![],
    };
    assert_eq!(assembly.triangles(Ok(vec![0, 1])), Err(Error::Triangulation));
    assert_eq!(assembly.triangles(Ok(vec![0, 1, 2, 3])), Err(Error::Triangulation));
    assert_eq!(assembly.triangles(Ok(vec![0, 1, 4])), Err(Error::Triangulation));
    assert_eq!(assembly.triangles(Ok(vec![0, 1, 2, 4, 0, 1])), Err(Error::Triangulation));
    assert_eq!(assembly.triangles(Ok(vec![0, 1, 2, 0, 1, usize::MAX])), Err(Error::Triangulation));
    assert_eq!(assembly.triangles(Ok(vec![4, 4, 4, 4])), Err(Error::Triangulation));
}

#[test]
fn failure_of_the_triangulator_is_passed_on() {
    let assembly = Assembly {
        points: points(&[(0, 0), (4, 0), (4, 4), (0, 4)]),
        hole_indices: vec![],
    };
    assert_eq!(assembly.triangles(Err(Error::Triangulation)), Err(Error::Triangulation));
    assert_eq!(assembly.triangles(Err(Error::Decode)), Err(Error::Decode));
}

#[test]
fn hole_index_beyond_the_points_fails_in_the_triangulator() {
    let assembly = Assembly {
        points: points(&[(0, 0), (4, 0), (4, 4), (0, 4)]),
        hole_indices: vec![9],
    };
    let outcome = ear_clip(&assembly);
    assert_eq!(outcome, Err(Error::Triangulation));
    assert_eq!(assembly.triangles(outcome), Err(Error::Triangulation));
}

#[test]
fn square_with_a_hole_is_triangulated_round_the_hole() {
    let outer = points(&[(0, 0), (10, 0), (10, 10), (0, 10)]);
    let holes = vec![points(&[(4, 4), (6, 4), (6, 6), (4, 6)]), points(&[(1, 1), (2, 2)])];
    let triangles = match triangulate(&outer, Some(&holes)) {
        Ok(triangles) => triangles,
        Err(_) => panic!("the square and its hole are simple"),
    };
    assert_eq!(triangles.len(), 8);
    let all = [&outer[..], &holes[0][..]].concat();
    for triangle in &triangles {
        for vertex in triangle.points() {
            assert!(all.contains(&vertex));
        }
    }
}

#[test]
fn opaque_square_becomes_two_triangles() {
    let image = match ImagePolygon::new(4, 4, vec![65535; 16]) {
        Ok(image) => image,
        Err(_) => panic!("sixteen samples for four by four pixels"),
    };
    assert_eq!(image.get_edges_points().len(), 12);
    let (outer, holes) = match image.to_polygon() {
        Ok(contours) => contours,
        Err(_) => panic!("the square is opaque"),
    };
    assert_eq!(outer[0], Point::new(0, 0));
    assert_eq!(outer.len(), 12);
    assert!(holes.is_empty());
    let one = match Tolerance::from_bits(1.0f64.to_bits()) {
        Some(tolerance) => tolerance,
        None => panic!("one is a tolerance"),
    };
    let simplified = match rdp(&outer, one) {
        Ok(kept) => kept,
        Err(_) => panic!("no chord is too long"),
    };
    assert_eq!(simplified, points(&[(0, 0), (3, 0), (3, 3), (0, 3), (0, 1)]));
    // The walk ends on (0, 1), and a simplification keeps both ends of its
    // input: the four corners come with that point on the closing edge.
    let triangles = match triangulate(&simplified, Some(&holes)) {
        Ok(triangles) => triangles,
        Err(_) => panic!("the square is simple"),
    };
    assert_eq!(triangles.len(), 3);
    let corners = points(&[(0, 0), (3, 0), (3, 3), (0, 3)]);
    assert_eq!(simplified[..4], corners[..]);
    let triangles = match triangulate(&corners, Some(&holes)) {
        Ok(triangles) => triangles,
        Err(_) => panic!("the square is simple"),
    };
    assert_eq!(triangles.len(), 2);
    for triangle in &triangles {
        for vertex in triangle.points() {
            assert!(corners.contains(&vertex));
        }
    }
    assert_ne!(triangles[0], triangles[1]);
}
