use bounded_voronoi::clip::{clip, Clipped};
use bounded_voronoi::geometry::{
    bisector, coincident, det_lines, floor_quotient, meet, rounded_quotient, BoundingBox, Line,
    Point, Vertex, COINCIDENCE_TOLERANCE, COORD_MAX,
};
use bounded_voronoi::relax::centroid;
use bounded_voronoi::render::{to_pixel, to_pixels};
use bounded_voronoi::tessellation::{
    box_polygon, build_cell, clip_to_box, has_triple_coincidence, VoronoiError,
};

#[test]
fn point_arithmetic() {
    let p = Point::new(7, -3);
    let q = Point::new(2, 5);
    assert_eq!(p.minus(q), Point::new(5, -8));
    assert_eq!(q.minus(p), Point::new(-5, 8));
    assert_eq!(p.scaled(3), Some(Point::new(21, -9)));
    assert_eq!(p.scaled(0), Some(Point::new(0, 0)));
    assert_eq!(Point::new(i64::MAX, 1).scaled(2), None);
    assert_eq!(Point::new(1, i64::MIN).scaled(-1), None);
}

#[test]
fn bounding_box_bounds() {
    let b = BoundingBox::new(Point::new(3, -4), 10, 2).unwrap();
    assert_eq!((b.left(), b.right(), b.bottom(), b.top()), (-7, 13, -6, -2));
    assert!(b.is_inside(&Point::new(-7, -6)));
    assert!(b.is_inside(&Point::new(13, -2)));
    assert!(!b.is_inside(&Point::new(14, -2)));
    assert!(!b.is_inside(&Point::new(0, -1)));
    assert_eq!(BoundingBox::new(Point::new(0, 0), 0, 5), None);
    assert_eq!(BoundingBox::new(Point::new(0, 0), 5, -1), None);
    assert_eq!(BoundingBox::new(Point::new(COORD_MAX, 0), 1, 1), None);
    assert!(BoundingBox::new(Point::new(0, 0), COORD_MAX, COORD_MAX).is_some());
    let s = BoundingBox::new_centered_square(10);
    assert_eq!((s.left(), s.right(), s.bottom(), s.top()), (-10, 10, -10, 10));
}

#[test]
fn bisector_coefficients() {
    let l = bisector(&Point::new(-5, 0), &Point::new(5, 0));
    assert_eq!(l, Line { a: 20, b: 0, c: 0 });
    let l = bisector(&Point::new(1, 2), &Point::new(4, 6));
    assert_eq!(l, Line { a: 6, b: 8, c: 5 - 52 });
    assert!(l.a * 1 + l.b * 2 + l.c < 0);
    assert!(l.a * 4 + l.b * 6 + l.c > 0);
}

#[test]
fn determinant_and_meeting_point() {
    let bottom = Line { a: 0, b: -1, c: -10 };
    let right = Line { a: 1, b: 0, c: -10 };
    let v = meet(&bottom, &right);
    assert_eq!(v, Vertex { x: 10, y: -10, w: 1 });
    let g = Line { a: 20, b: 0, c: 0 };
    assert_eq!(det_lines(&g, &bottom, &right), 200);
    let u = Line { a: 2, b: 3, c: 5 };
    let w = Line { a: -1, b: 4, c: 7 };
    let t = Line { a: 6, b: -2, c: 1 };
    assert_eq!(det_lines(&u, &w, &t), 2 * (4 + 14) - 3 * (-1 - 42) + 5 * (2 - 24));
    let m = meet(&w, &t);
    assert_eq!(m, Vertex { x: 4 + 14, y: 42 + 1, w: 2 - 24 });
}

#[test]
fn quotients() {
    assert_eq!(floor_quotient(7, 2), 3);
    assert_eq!(floor_quotient(-7, 2), -4);
    assert_eq!(floor_quotient(-8, 2), -4);
    assert_eq!(floor_quotient(0, 5), 0);
    assert_eq!(rounded_quotient(7, 2), 4);
    assert_eq!(rounded_quotient(-7, 2), -3);
    assert_eq!(rounded_quotient(5, 3), 2);
    assert_eq!(rounded_quotient(4, 3), 1);
    assert_eq!(rounded_quotient(-4, 3), -1);
    assert_eq!(rounded_quotient(-5, 3), -2);
}

#[test]
fn clipping_the_box() {
    let bbox = BoundingBox::new_centered_square(10);
    let poly = box_polygon(&bbox);
    assert_eq!(poly.len(), 4);
    let far = Line { a: 1, b: 0, c: -20 };
    assert!(matches!(clip(&poly, &far), Clipped::Whole));
    let touching = Line { a: 1, b: 0, c: -10 };
    assert!(matches!(clip(&poly, &touching), Clipped::Whole));
    let away = Line { a: 1, b: 0, c: 20 };
    assert!(matches!(clip(&poly, &away), Clipped::Nothing));
    let border = Line { a: 1, b: 0, c: 10 };
    assert!(matches!(clip(&poly, &border), Clipped::Nothing));
    let half = Line { a: 1, b: 0, c: 0 };
    match clip(&poly, &half) {
        Clipped::Part(q) => {
            assert_eq!(q.len(), 4);
            assert!(q.contains(&half));
            assert!(!q.contains(&Line { a: 1, b: 0, c: -10 }));
        },
        _ => panic!("the box straddles the line"),
    }
    let corner = Line { a: 1, b: 1, c: -15 };
    match clip(&poly, &corner) {
        Clipped::Part(q) => assert_eq!(q.len(), 5),
        _ => panic!("the line cuts a corner off"),
    }
    let diagonal = Line { a: 1, b: -1, c: 0 };
    match clip(&poly, &diagonal) {
        Clipped::Part(q) => assert_eq!(q.len(), 3),
        _ => panic!("the diagonal halves the box"),
    }
}

#[test]
fn cell_of_one_site_among_many() {
    let bbox = BoundingBox::new_centered_square(10);
    let sites = vec![Point::new(0, 0), Point::new(4, 0), Point::new(-4, 0), Point::new(0, 4)];
    let lines = build_cell(&sites, &bbox, 0);
    assert_eq!(lines.len(), 4);
    assert!(lines.contains(&Line { a: 8, b: 0, c: -16 }));
    assert!(lines.contains(&Line { a: -8, b: 0, c: -16 }));
    assert!(lines.contains(&Line { a: 0, b: 8, c: -16 }));
    assert!(lines.contains(&Line { a: 0, b: -1, c: -10 }));
}

#[test]
fn triple_coincidence_is_found() {
    let p = Point::new(1, 1);
    let q = Point::new(2, 2);
    assert!(!has_triple_coincidence(&vec![]));
    assert!(!has_triple_coincidence(&vec![p, q, p, q]));
    assert!(has_triple_coincidence(&vec![p, q, p, q, p]));
    assert!(has_triple_coincidence(&vec![q, q, q]));
}

#[test]
fn centroid_of_polygons() {
    let square = vec![Point::new(0, 0), Point::new(4, 0), Point::new(4, 4), Point::new(0, 4)];
    assert_eq!(centroid(&square), Ok(Point::new(2, 2)));
    let clockwise: Vec<Point> = square.iter().rev().cloned().collect();
    assert_eq!(centroid(&clockwise), Ok(Point::new(2, 2)));
    let triangle = vec![Point::new(0, 0), Point::new(6, 0), Point::new(0, 3)];
    assert_eq!(centroid(&triangle), Ok(Point::new(2, 1)));
    let shifted = vec![Point::new(-10, -10), Point::new(-4, -10), Point::new(-10, -7)];
    assert_eq!(centroid(&shifted), Ok(Point::new(-8, -9)));
    let rounded_down = vec![Point::new(0, 0), Point::new(1, 0), Point::new(0, 1)];
    assert_eq!(centroid(&rounded_down), Ok(Point::new(0, 0)));
    let below = vec![Point::new(0, 0), Point::new(0, -1), Point::new(-1, 0)];
    assert_eq!(centroid(&below), Ok(Point::new(-1, -1)));
}

#[test]
fn centroid_without_area() {
    let degenerate = Err(VoronoiError::DegenerateGeometry);
    assert_eq!(centroid(&vec![]), degenerate);
    assert_eq!(centroid(&vec![Point::new(1, 1)]), degenerate);
    assert_eq!(centroid(&vec![Point::new(1, 1), Point::new(5, 2)]), degenerate);
    assert_eq!(
        centroid(&vec![Point::new(0, 0), Point::new(2, 2), Point::new(5, 5)]),
        degenerate
    );
    assert_eq!(
        centroid(&vec![Point::new(3, 3), Point::new(3, 3), Point::new(3, 3)]),
        degenerate
    );
    let bow_tie = vec![Point::new(0, 0), Point::new(2, 2), Point::new(2, 0), Point::new(0, 2)];
    assert_eq!(centroid(&bow_tie), degenerate);
}

#[test]
fn pixels() {
    assert_eq!(to_pixel(0, 50, 1000, 250), 250);
    assert_eq!(to_pixel(5000, 50, 1000, 250), 500);
    assert_eq!(to_pixel(-5000, 50, 1000, 250), 0);
    assert_eq!(to_pixel(1234, 50, 1000, 250), 311);
    assert_eq!(to_pixel(-5010, 50, 1000, 250), 0);
    assert_eq!(to_pixel(-5030, 50, 1000, 250), -1);
    assert_eq!(to_pixel(COORD_MAX, i32::MAX, 1, 0), i32::MAX);
    assert_eq!(to_pixel(-COORD_MAX, i32::MAX, 1, 0), i32::MIN);
    let corners = vec![Point::new(-5000, 5000), Point::new(20, -20)];
    assert_eq!(to_pixels(&corners, 50, 1000, 250), vec![(0, 500), (251, 249)]);
}

#[test]
fn clipping_a_triangle_to_the_box() {
    let bbox = BoundingBox::new_centered_square(10);
    let triangle =
        vec![Line { a: 0, b: -1, c: -30 }, Line { a: 2, b: 1, c: -30 }, Line { a: -2, b: 1, c: -30 }];
    match clip_to_box(&triangle, &bbox) {
        Clipped::Part(q) => {
            assert_eq!(q.len(), 4);
            for side in box_polygon(&bbox) {
                assert!(q.contains(&side));
            }
        },
        _ => panic!("the triangle reaches beyond the box"),
    }
    let small =
        vec![Line { a: 0, b: -1, c: -3 }, Line { a: 2, b: 1, c: -3 }, Line { a: -2, b: 1, c: -3 }];
    assert!(matches!(clip_to_box(&small, &bbox), Clipped::Whole));
    let far = BoundingBox::new(Point::new(100, 0), 10, 10).unwrap();
    assert!(matches!(clip_to_box(&small, &far), Clipped::Nothing));
    let beside = BoundingBox::new(Point::new(13, 0), 10, 10).unwrap();
    assert!(matches!(clip_to_box(&small, &beside), Clipped::Nothing));
    let across = BoundingBox::new(Point::new(11, 0), 10, 10).unwrap();
    match clip_to_box(&small, &across) {
        Clipped::Part(q) => assert_eq!(q.len(), 3),
        _ => panic!("the triangle straddles the left side of the box"),
    }
}

#[test]
fn coincidence_is_equality_on_the_grid() {
    assert_eq!(COINCIDENCE_TOLERANCE, 0);
    assert!(coincident(&Point::new(3, -4), &Point::new(3, -4)));
    assert!(!coincident(&Point::new(3, -4), &Point::new(3, -3)));
    assert!(!coincident(&Point::new(3, -4), &Point::new(4, -4)));
}
