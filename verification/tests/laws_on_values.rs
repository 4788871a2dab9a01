use bounded_voronoi::geometry::{BoundingBox, Line, Point, Vertex};
use bounded_voronoi::tessellation::Tessellation;
use rand::rngs::StdRng;
use rand::{Rng, SeedableRng};

fn random_sites(seed: u64, count: usize, half: i64) -> Vec<Point> {
    let mut rng = StdRng::seed_from_u64(seed);
    (0..count).map(|_| Point::new(rng.gen_range(-half..half), rng.gen_range(-half..half))).collect()
}

fn value(line: &Line, x: i64, y: i64) -> i128 {
    line.a as i128 * x as i128 + line.b as i128 * y as i128 + line.c as i128
}

fn area(corners: &[Vertex]) -> f64 {
    let n = corners.len();
    let mut twice = 0.0;
    for k in 0..n {
        let p = &corners[k];
        let q = &corners[(k + 1) % n];
        let (px, py) = (p.x as f64 / p.w as f64, p.y as f64 / p.w as f64);
        let (qx, qy) = (q.x as f64 / q.w as f64, q.y as f64 / q.w as f64);
        twice += px * qy - qx * py;
    }
    twice / 2.0
}

#[test]
fn cell_areas_add_up_to_the_box() {
    for seed in 0..20 {
        let bbox = BoundingBox::new_centered_square(1000);
        let t = Tessellation::build(random_sites(seed, 40, 1000), bbox).unwrap();
        let total: f64 = t.cells().iter().map(|c| area(&c.vertices())).sum();
        assert!((total - 4_000_000.0).abs() < 1e-3, "seed {}: total area {}", seed, total);
    }
}

#[test]
fn every_point_lies_in_a_cell_and_inside_at_most_one() {
    let bbox = BoundingBox::new_centered_square(50);
    let t = Tessellation::build(random_sites(7, 25, 50), bbox).unwrap();
    for x in -50..=50 {
        for y in -50..=50 {
            let holding = t
                .cells()
                .iter()
                .filter(|c| !c.is_empty() && c.lines.iter().all(|l| value(l, x, y) <= 0))
                .count();
            let strictly = t
                .cells()
                .iter()
                .filter(|c| !c.is_empty() && c.lines.iter().all(|l| value(l, x, y) < 0))
                .count();
            assert!(holding >= 1, "({}, {}) lies in no cell", x, y);
            assert!(strictly <= 1, "({}, {}) lies inside {} cells", x, y, strictly);
            if strictly == 1 {
                assert_eq!(holding, 1);
            }
        }
    }
}

#[test]
fn every_cell_holds_its_site_and_stays_in_the_box() {
    for seed in 0..20 {
        let bbox = BoundingBox::new_centered_square(1000);
        let sites = random_sites(seed, 30, 1000);
        let t = Tessellation::build(sites.clone(), bbox).unwrap();
        for (i, cell) in t.cells().iter().enumerate() {
            let shadowed = sites[..i].contains(&sites[i]);
            assert_eq!(cell.is_empty(), shadowed);
            if shadowed {
                continue;
            }
            assert!(cell.lines.len() >= 3);
            assert!(cell.lines.iter().all(|l| value(l, sites[i].x, sites[i].y) <= 0));
            for corner in t.cell_polygon(i) {
                assert!(bbox.is_inside(&corner));
            }
            for v in cell.vertices() {
                assert!(v.w > 0);
                for l in &cell.lines {
                    let at = l.a as i128 * v.x + l.b as i128 * v.y + l.c as i128 * v.w;
                    assert!(at <= 0);
                }
            }
        }
    }
}

#[test]
fn every_corner_is_nearest_to_its_own_site() {
    let bbox = BoundingBox::new_centered_square(1000);
    let sites = random_sites(3, 30, 1000);
    let t = Tessellation::build(sites.clone(), bbox).unwrap();
    for (i, cell) in t.cells().iter().enumerate() {
        for v in cell.vertices() {
            let (x, y) = (v.x as f64 / v.w as f64, v.y as f64 / v.w as f64);
            let own = (x - sites[i].x as f64).powi(2) + (y - sites[i].y as f64).powi(2);
            for s in &sites {
                let other = (x - s.x as f64).powi(2) + (y - s.y as f64).powi(2);
                assert!(own <= other + 1e-6);
            }
        }
    }
}
