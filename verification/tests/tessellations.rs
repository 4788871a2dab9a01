use bounded_voronoi::builder::VoronoiBuilder;
use bounded_voronoi::geometry::{BoundingBox, Point, COORD_MAX};
use bounded_voronoi::relax::{lloyd_step, relax, tessellate};
use bounded_voronoi::tessellation::{Tessellation, VoronoiError};
use rand::rngs::StdRng;
use rand::{Rng, SeedableRng};

/// Rotates a cycle of points so that it starts at its smallest point.
fn canonical(cycle: &[Point]) -> Vec<(i64, i64)> {
    let pairs: Vec<(i64, i64)> = cycle.iter().map(|p| (p.x, p.y)).collect();
    if pairs.is_empty() {
        return pairs;
    }
    let start = (0..pairs.len()).min_by_key(|&i| pairs[i]).unwrap();
    (0..pairs.len()).map(|i| pairs[(start + i) % pairs.len()]).collect()
}

fn displacement(before: &[Point], after: &[Point]) -> f64 {
    before
        .iter()
        .zip(after.iter())
        .map(|(a, b)| (((a.x - b.x) as f64).powi(2) + ((a.y - b.y) as f64).powi(2)).sqrt())
        .sum()
}

#[test]
fn single_site_cell_is_the_box() {
    let bbox = BoundingBox::new_centered_square(10);
    let t = Tessellation::build(vec![Point::new(0, 0)], bbox).unwrap();
    assert_eq!(t.len(), 1);
    let cell = t.cell_polygon(0);
    assert_eq!(canonical(&cell), vec![(-10, -10), (10, -10), (10, 10), (-10, 10)]);
}

#[test]
fn two_sites_split_the_box_at_the_axis() {
    let bbox = BoundingBox::new_centered_square(10);
    let t = Tessellation::build(vec![Point::new(-5, 0), Point::new(5, 0)], bbox).unwrap();
    assert_eq!(t.len(), 2);
    assert_eq!(canonical(&t.cell_polygon(0)), vec![(-10, -10), (0, -10), (0, 10), (-10, 10)]);
    assert_eq!(canonical(&t.cell_polygon(1)), vec![(0, -10), (10, -10), (10, 10), (0, 10)]);
}

#[test]
fn three_coincident_sites_are_degenerate() {
    let bbox = BoundingBox::new_centered_square(10);
    let p = Point::new(3, -2);
    let r = Tessellation::build(vec![p, p, p], bbox);
    assert_eq!(r.err(), Some(VoronoiError::DegenerateGeometry));
    let r = Tessellation::build(vec![p, Point::new(0, 0), p, Point::new(1, 1), p], bbox);
    assert_eq!(r.err(), Some(VoronoiError::DegenerateGeometry));
}

#[test]
fn no_sites_is_empty_input() {
    let bbox = BoundingBox::new_centered_square(10);
    let r = Tessellation::build(Vec::new(), bbox);
    assert_eq!(r.err(), Some(VoronoiError::EmptyInput));
    let r = tessellate(Vec::new(), bbox, 3);
    assert_eq!(r.err(), Some(VoronoiError::EmptyInput));
}

#[test]
fn two_coincident_sites_give_the_region_to_the_first() {
    let bbox = BoundingBox::new_centered_square(10);
    let p = Point::new(2, 2);
    let t = Tessellation::build(vec![p, p], bbox).unwrap();
    assert_eq!(canonical(&t.cell_polygon(0)), vec![(-10, -10), (10, -10), (10, 10), (-10, 10)]);
    assert!(t.cell(1).is_empty());
    assert!(t.cell_polygon(1).is_empty());
}

#[test]
fn site_on_the_box_edge_has_a_cell_flush_with_the_edge() {
    let bbox = BoundingBox::new_centered_square(10);
    let t = Tessellation::build(vec![Point::new(-10, 0), Point::new(10, 0)], bbox).unwrap();
    assert_eq!(canonical(&t.cell_polygon(0)), vec![(-10, -10), (0, -10), (0, 10), (-10, 10)]);
    let t = Tessellation::build(vec![Point::new(-10, -10), Point::new(10, 10)], bbox).unwrap();
    assert_eq!(canonical(&t.cell_polygon(0)), vec![(-10, -10), (10, -10), (-10, 10)]);
    assert_eq!(canonical(&t.cell_polygon(1)), vec![(-10, 10), (10, -10), (10, 10)]);
}

#[test]
fn four_sites_meet_in_one_corner() {
    let bbox = BoundingBox::new_centered_square(10);
    let sites =
        vec![Point::new(-5, -5), Point::new(5, -5), Point::new(5, 5), Point::new(-5, 5)];
    let t = Tessellation::build(sites, bbox).unwrap();
    assert_eq!(canonical(&t.cell_polygon(0)), vec![(-10, -10), (0, -10), (0, 0), (-10, 0)]);
    assert_eq!(canonical(&t.cell_polygon(1)), vec![(0, -10), (10, -10), (10, 0), (0, 0)]);
    assert_eq!(canonical(&t.cell_polygon(2)), vec![(0, 0), (10, 0), (10, 10), (0, 10)]);
    assert_eq!(canonical(&t.cell_polygon(3)), vec![(-10, 0), (0, 0), (0, 10), (-10, 10)]);
}

#[test]
fn outlines_come_in_the_order_of_the_sites() {
    let bbox = BoundingBox::new_centered_square(10);
    let sites = vec![Point::new(-5, 0), Point::new(5, 0), Point::new(0, 7)];
    let t = Tessellation::build(sites.clone(), bbox).unwrap();
    let first = t.outlines();
    let second = t.outlines();
    assert_eq!(first.len(), 3);
    for (i, (site, corners)) in first.iter().enumerate() {
        assert_eq!(*site, i);
        assert_eq!(t.cell(i).site(), i);
        assert_eq!(t.cell(i).site_position(), sites[i]);
        assert_eq!(canonical(corners), canonical(&t.cell_polygon(i)));
        assert_eq!(canonical(corners), canonical(&second[i].1));
    }
    assert_eq!(t.sites(), &sites);
    assert_eq!(*t.bounding_box(), bbox);
    assert_eq!(t.cells().len(), 3);
}

#[test]
fn relaxing_zero_times_changes_nothing() {
    let bbox = BoundingBox::new_centered_square(100);
    let sites = vec![Point::new(-50, 3), Point::new(40, -20), Point::new(7, 77)];
    let built = Tessellation::build(sites.clone(), bbox).unwrap();
    let before = built.outlines();
    let lines: Vec<_> = built.cells().iter().map(|c| c.lines.clone()).collect();
    let after = relax(built, 0).unwrap();
    assert_eq!(after.sites(), &sites);
    assert_eq!(after.outlines(), before);
    let lines_after: Vec<_> = after.cells().iter().map(|c| c.lines.clone()).collect();
    assert_eq!(lines, lines_after);
}

#[test]
fn one_step_moves_two_sites_to_the_middles_of_their_halves() {
    let bbox = BoundingBox::new_centered_square(10);
    let t = Tessellation::build(vec![Point::new(-1, 0), Point::new(1, 0)], bbox).unwrap();
    let next = lloyd_step(&t).unwrap();
    assert_eq!(next.sites(), &vec![Point::new(-5, 0), Point::new(5, 0)]);
    let again = lloyd_step(&next).unwrap();
    assert_eq!(again.sites(), &vec![Point::new(-5, 0), Point::new(5, 0)]);
    let relaxed = tessellate(vec![Point::new(-1, 0), Point::new(1, 0)], bbox, 5).unwrap();
    assert_eq!(relaxed.sites(), &vec![Point::new(-5, 0), Point::new(5, 0)]);
}

#[test]
fn relaxation_fails_on_an_empty_cell() {
    let bbox = BoundingBox::new_centered_square(10);
    let p = Point::new(2, 2);
    let t = Tessellation::build(vec![p, p, Point::new(-3, 0)], bbox).unwrap();
    let r = relax(t, 4);
    assert_eq!(r.err(), Some(VoronoiError::RelaxationFailed { iteration: 0 }));
    let r = tessellate(vec![p, p, Point::new(-3, 0)], bbox, 1);
    assert_eq!(r.err(), Some(VoronoiError::RelaxationFailed { iteration: 0 }));
    let r = tessellate(vec![p, p, p], bbox, 1);
    assert_eq!(r.err(), Some(VoronoiError::DegenerateGeometry));
}

#[test]
fn relaxation_settles_down() {
    let bbox = BoundingBox::new_centered_square(100_000);
    let trials = 50;
    let mut calmer = 0;
    for seed in 0..trials {
        let mut rng = StdRng::seed_from_u64(seed);
        let sites: Vec<Point> = (0..10)
            .map(|_| Point::new(rng.gen_range(-100_000..100_000), rng.gen_range(-100_000..100_000)))
            .collect();
        let mut current = match Tessellation::build(sites, bbox) {
            Ok(t) => t,
            Err(_) => continue,
        };
        let mut moves = Vec::new();
        let mut failed = false;
        for _ in 0..5 {
            match lloyd_step(&current) {
                Ok(next) => {
                    moves.push(displacement(current.sites(), next.sites()));
                    current = next;
                },
                Err(_) => {
                    failed = true;
                    break;
                },
            }
        }
        if !failed && moves[4] < moves[0] {
            calmer += 1;
        }
    }
    assert!(calmer * 10 >= trials * 9, "only {} of {} trials settled", calmer, trials);
}

#[test]
fn builder_defaults_and_settings() {
    let b = VoronoiBuilder::default();
    assert!(b.sites.is_empty());
    assert_eq!(b.iterations, 0);
    assert_eq!(b.bounding_box, BoundingBox::new_centered_square(COORD_MAX));
    assert!(b.is_ready());
    assert_eq!(b.build().err(), Some(VoronoiError::EmptyInput));

    let bbox = BoundingBox::new_centered_square(10);
    let b = VoronoiBuilder::new()
        .set_sites(vec![Point::new(-1, 0), Point::new(1, 0)])
        .set_bounding_box(bbox)
        .set_lloyd_relaxation_iterations(3);
    assert_eq!(b.iterations, 3);
    assert!(b.is_ready());
    let t = b.build().unwrap();
    assert_eq!(t.sites(), &vec![Point::new(-5, 0), Point::new(5, 0)]);

    let outside = VoronoiBuilder::new().set_sites(vec![Point::new(11, 0)]).set_bounding_box(bbox);
    assert!(!outside.is_ready());
    let flat = VoronoiBuilder::new().set_bounding_box(BoundingBox {
        center: Point::new(0, 0),
        half_width: 0,
        half_height: 4,
    });
    assert!(!flat.is_ready());
}
