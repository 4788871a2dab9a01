//! Centroidal relaxation: each site moves to the centroid of its cell, and the
//! tessellation is built anew.
//!
//! The centroid is taken of the cell's corners moved to the nearest grid
//! points, and is itself rounded down to the grid.

use vstd::prelude::*;
use crate::geometry::{BoundingBox, COORD_MAX, Point, floor_quotient, lemma_product_bound};
use crate::polygon::succ;
use crate::tessellation::{
    Tessellation,
    VoronoiError,
    all_inside,
    grid_polygon,
    triple_coincidence,
};

verus! {

/// Twice the signed area of the triangle from the origin over edge `k`.
pub open spec fn edge_area(poly: Seq<Point>, k: int) -> int {
    let p = poly[k];
    let q = poly[succ(k, poly.len() as int)];
    p.x * q.y - q.x * p.y
}

/// Twice the signed area spanned by the first `n` edges.
pub open spec fn twice_area_upto(poly: Seq<Point>, n: int) -> int
    decreases n,
{
    if n <= 0 {
        0
    } else {
        twice_area_upto(poly, n - 1) + edge_area(poly, n - 1)
    }
}

/// Twice the signed area of the polygon: positive when counter-clockwise.
pub open spec fn twice_area(poly: Seq<Point>) -> int {
    twice_area_upto(poly, poly.len() as int)
}

pub open spec fn moment_x_upto(poly: Seq<Point>, n: int) -> int
    decreases n,
{
    if n <= 0 {
        0
    } else {
        moment_x_upto(poly, n - 1) + (poly[n - 1].x + poly[succ(n - 1, poly.len() as int)].x)
            * edge_area(poly, n - 1)
    }
}

pub open spec fn moment_y_upto(poly: Seq<Point>, n: int) -> int
    decreases n,
{
    if n <= 0 {
        0
    } else {
        moment_y_upto(poly, n - 1) + (poly[n - 1].y + poly[succ(n - 1, poly.len() as int)].y)
            * edge_area(poly, n - 1)
    }
}

/// Six times the area times the first centroid coordinate.
pub open spec fn moment_x(poly: Seq<Point>) -> int {
    moment_x_upto(poly, poly.len() as int)
}

/// Six times the area times the second centroid coordinate.
pub open spec fn moment_y(poly: Seq<Point>) -> int {
    moment_y_upto(poly, poly.len() as int)
}

/// The quotient of a moment by three times the doubled area, rounded down.
pub open spec fn centroid_coordinate(moment: int, area2: int) -> int {
    if area2 > 0 {
        moment / (3 * area2)
    } else {
        (-moment) / (-(3 * area2))
    }
}

/// The area-weighted centroid of the polygon, rounded down to the grid.
pub open spec fn centroid_of(poly: Seq<Point>) -> (int, int) {
    (
        centroid_coordinate(moment_x(poly), twice_area(poly)),
        centroid_coordinate(moment_y(poly), twice_area(poly)),
    )
}

pub open spec fn in_coord_range(v: int) -> bool {
    -COORD_MAX <= v <= COORD_MAX
}

/// The polygon has an area, and its centroid lies in the coordinate range.
pub open spec fn has_centroid(poly: Seq<Point>) -> bool {
    &&& twice_area(poly) != 0
    &&& in_coord_range(centroid_of(poly).0)
    &&& in_coord_range(centroid_of(poly).1)
}

pub open spec fn all_in_range(poly: Seq<Point>) -> bool {
    forall|k: int| 0 <= k < poly.len() ==> (#[trigger] poly[k]).in_range()
}

/// Largest absolute value of `edge_area` for points in range.
pub const EDGE_AREA_MAX: i128 = 2_199_023_255_552;

/// Largest absolute value of one term of a moment for points in range.
pub const EDGE_MOMENT_MAX: i128 = 4_611_686_018_427_387_904;

/// Largest absolute value of a doubled area, whatever the number of points.
pub const AREA_SUM_MAX: i128 = 40_564_819_207_303_340_847_894_502_572_032;

/// Largest absolute value of a moment, whatever the number of points.
pub const MOMENT_SUM_MAX: i128 = 85_070_591_730_234_615_865_843_651_857_942_052_864;

proof fn lemma_edge_bounds(poly: Seq<Point>, k: int)
    requires
        all_in_range(poly),
        0 <= k < poly.len(),
    ensures
        -EDGE_AREA_MAX <= edge_area(poly, k) <= EDGE_AREA_MAX,
        -EDGE_MOMENT_MAX <= (poly[k].x + poly[succ(k, poly.len() as int)].x) * edge_area(poly, k)
            <= EDGE_MOMENT_MAX,
        -EDGE_MOMENT_MAX <= (poly[k].y + poly[succ(k, poly.len() as int)].y) * edge_area(poly, k)
            <= EDGE_MOMENT_MAX,
{
    let p = poly[k];
    let q = poly[succ(k, poly.len() as int)];
    assert(p.in_range());
    assert(q.in_range());
    let m = COORD_MAX as int;
    lemma_product_bound(p.x as int, q.y as int, m, m);
    lemma_product_bound(q.x as int, p.y as int, m, m);
    lemma_product_bound(p.x + q.x, edge_area(poly, k), 2 * m, 2 * (m * m));
    lemma_product_bound(p.y + q.y, edge_area(poly, k), 2 * m, 2 * (m * m));
    assert(m * m == 1_099_511_627_776) by (nonlinear_arith)
        requires
            m == 1_048_576,
    ;
    assert((2 * m) * (2 * (m * m)) == 4_611_686_018_427_387_904) by (nonlinear_arith)
        requires
            m == 1_048_576,
            m * m == 1_099_511_627_776,
    ;
}

proof fn lemma_sum_bounds(poly: Seq<Point>, n: int)
    requires
        all_in_range(poly),
        0 <= n <= poly.len(),
    ensures
        -n * EDGE_AREA_MAX <= twice_area_upto(poly, n) <= n * EDGE_AREA_MAX,
        -n * EDGE_MOMENT_MAX <= moment_x_upto(poly, n) <= n * EDGE_MOMENT_MAX,
        -n * EDGE_MOMENT_MAX <= moment_y_upto(poly, n) <= n * EDGE_MOMENT_MAX,
    decreases n,
{
    if n > 0 {
        lemma_sum_bounds(poly, n - 1);
        lemma_edge_bounds(poly, n - 1);
        assert(n * EDGE_AREA_MAX == (n - 1) * EDGE_AREA_MAX + EDGE_AREA_MAX) by (nonlinear_arith);
        assert(n * EDGE_MOMENT_MAX == (n - 1) * EDGE_MOMENT_MAX + EDGE_MOMENT_MAX)
            by (nonlinear_arith);
    }
}

/// The sums over at most `usize::MAX` edges fit in 128 bits.
proof fn lemma_sums_fit(poly: Seq<Point>, n: int)
    requires
        all_in_range(poly),
        0 <= n <= poly.len(),
        poly.len() <= usize::MAX,
    ensures
        -AREA_SUM_MAX <= twice_area_upto(poly, n) <= AREA_SUM_MAX,
        -MOMENT_SUM_MAX <= moment_x_upto(poly, n) <= MOMENT_SUM_MAX,
        -MOMENT_SUM_MAX <= moment_y_upto(poly, n) <= MOMENT_SUM_MAX,
{
    lemma_sum_bounds(poly, n);
    assert(n * 2_199_023_255_552 <= 40_564_819_207_303_340_847_894_502_572_032)
        by (nonlinear_arith)
        requires
            0 <= n <= 0x1_0000_0000_0000_0000,
    ;
    assert(n * 4_611_686_018_427_387_904 <= 85_070_591_730_234_615_865_843_651_857_942_052_864)
        by (nonlinear_arith)
        requires
            0 <= n <= 0x1_0000_0000_0000_0000,
    ;
}

/// One coordinate of the centroid, when it lies in the coordinate range.
fn centroid_part(moment: i128, area2: i128) -> (r: Option<i64>)
    requires
        area2 != 0,
        -AREA_SUM_MAX <= area2 <= AREA_SUM_MAX,
        -MOMENT_SUM_MAX <= moment <= MOMENT_SUM_MAX,
    ensures
        r.is_some() <==> in_coord_range(centroid_coordinate(moment as int, area2 as int)),
        r matches Some(c) ==> c == centroid_coordinate(moment as int, area2 as int),
{
    let q = if area2 > 0 {
        floor_quotient(moment, 3 * area2)
    } else {
        floor_quotient(-moment, -(3 * area2))
    };
    if -(COORD_MAX as i128) <= q && q <= COORD_MAX as i128 {
        Some(q as i64)
    } else {
        None
    }
}

/// The area-weighted centroid of a polygon on the grid, rounded down.
///
/// A polygon without area has none. Neither has one whose centroid leaves the
/// coordinate range, which only a polygon that crosses itself can do.
pub fn centroid(poly: &Vec<Point>) -> (r: Result<Point, VoronoiError>)
    requires
        all_in_range(poly@),
    ensures
        r is Ok <==> has_centroid(poly@),
        r matches Ok(c) ==> c.x == centroid_of(poly@).0 && c.y == centroid_of(poly@).1,
        r matches Err(e) ==> e == VoronoiError::DegenerateGeometry,
{
    let n = poly.len();
    let mut area2: i128 = 0;
    let mut mx: i128 = 0;
    let mut my: i128 = 0;
    let mut k: usize = 0;
    while k < n
        invariant
            n == poly.len(),
            all_in_range(poly@),
            0 <= k <= n,
            area2 == twice_area_upto(poly@, k as int),
            mx == moment_x_upto(poly@, k as int),
            my == moment_y_upto(poly@, k as int),
        decreases n - k,
    {
        let kn = if k + 1 == n {
            0
        } else {
            k + 1
        };
        let p = poly[k];
        let q = poly[kn];
        proof {
            lemma_sums_fit(poly@, k as int);
            lemma_sums_fit(poly@, k + 1);
            lemma_edge_bounds(poly@, k as int);
            assert(p.in_range());
            assert(q.in_range());
            lemma_product_bound(p.x as int, q.y as int, COORD_MAX as int, COORD_MAX as int);
            lemma_product_bound(q.x as int, p.y as int, COORD_MAX as int, COORD_MAX as int);
            assert(COORD_MAX * COORD_MAX == 1_099_511_627_776) by (nonlinear_arith);
        }
        let e: i128 = (p.x as i128) * (q.y as i128) - (q.x as i128) * (p.y as i128);
        let sx: i128 = (p.x as i128) + (q.x as i128);
        let sy: i128 = (p.y as i128) + (q.y as i128);
        area2 = area2 + e;
        mx = mx + sx * e;
        my = my + sy * e;
        k += 1;
    }
    proof {
        lemma_sums_fit(poly@, n as int);
    }
    if area2 == 0 {
        return Err(VoronoiError::DegenerateGeometry);
    }
    match (centroid_part(mx, area2), centroid_part(my, area2)) {
        (Some(x), Some(y)) => Ok(Point { x, y }),
        _ => Err(VoronoiError::DegenerateGeometry),
    }
}

/// Where relaxation moves site `i`: to the centroid of its cell, if the cell
/// has one and it lies in the bounding box.
pub open spec fn relaxed_site(t: Tessellation, i: int) -> Option<Point> {
    let poly = grid_polygon(t.cells[i].polygon());
    let c = Point { x: centroid_of(poly).0 as i64, y: centroid_of(poly).1 as i64 };
    if has_centroid(poly) && t.bbox.holds(c) {
        Some(c)
    } else {
        None
    }
}

/// The sites after one relaxation step.
pub open spec fn next_sites(t: Tessellation) -> Seq<Point> {
    Seq::new(t.cells.len() as nat, |i: int| relaxed_site(t, i).unwrap())
}

/// Every site can move, and no three of them move to one grid point.
pub open spec fn can_step(t: Tessellation) -> bool {
    &&& forall|i: int| 0 <= i < t.cells.len() ==> (#[trigger] relaxed_site(t, i)).is_some()
    &&& !triple_coincidence(next_sites(t))
}

/// `n` is a tessellation of the sites of `t` after one relaxation step.
pub open spec fn stepped(t: Tessellation, n: Tessellation) -> bool {
    n.wf() && n.bbox == t.bbox && n.sites@ == next_sites(t)
}

/// `n` comes from `t` by `k` relaxation steps.
pub open spec fn relaxed(t: Tessellation, n: Tessellation, k: nat) -> bool
    decreases k,
{
    if k == 0 {
        n == t
    } else {
        exists|mid: Tessellation|
            relaxed(t, mid, (k - 1) as nat) && can_step(mid) && #[trigger] stepped(mid, n)
    }
}

/// One relaxation step: every site moves to the centroid of its cell, and the
/// tessellation of the moved sites is built.
pub fn lloyd_step(t: &Tessellation) -> (r: Result<Tessellation, VoronoiError>)
    requires
        t.wf(),
    ensures
        r is Ok <==> can_step(*t),
        r matches Ok(n) ==> stepped(*t, n),
        r matches Err(e) ==> e == VoronoiError::DegenerateGeometry,
{
    let n = t.cells.len();
    let mut moved: Vec<Point> = Vec::new();
    let mut i: usize = 0;
    while i < n
        invariant
            t.wf(),
            n == t.cells.len(),
            0 <= i <= n,
            moved.len() == i,
            forall|k: int| 0 <= k < i ==> relaxed_site(*t, k) == Some(#[trigger] moved[k]),
        decreases n - i,
    {
        let poly = t.cell_polygon(i);
        proof {
            assert forall|k: int| 0 <= k < poly.len() implies (#[trigger] poly[k]).in_range() by {
                assert(t.bbox.holds(poly[k]));
            }
        }
        match centroid(&poly) {
            Ok(c) => {
                if !t.bbox.is_inside(&c) {
                    assert(relaxed_site(*t, i as int).is_none());
                    return Err(VoronoiError::DegenerateGeometry);
                }
                moved.push(c);
            },
            Err(_) => {
                assert(relaxed_site(*t, i as int).is_none());
                return Err(VoronoiError::DegenerateGeometry);
            },
        }
        i += 1;
    }
    proof {
        assert forall|k: int| 0 <= k < t.cells.len() implies (#[trigger] relaxed_site(
            *t,
            k,
        )).is_some() by {
            assert(relaxed_site(*t, k) == Some(moved[k]));
        }
        assert(moved@ =~= next_sites(*t));
        assert forall|k: int| 0 <= k < moved.len() implies t.bbox.holds(#[trigger] moved[k]) by {
            assert(relaxed_site(*t, k) == Some(moved[k]));
        }
    }
    match Tessellation::build(moved, t.bbox) {
        Ok(next) => Ok(next),
        Err(_) => Err(VoronoiError::DegenerateGeometry),
    }
}

/// Runs `iterations` relaxation steps on `t`.
///
/// With no iterations the tessellation comes back as it is. When a step cannot
/// be done, the error names it and no tessellation is returned.
pub fn relax(t: Tessellation, iterations: usize) -> (r: Result<Tessellation, VoronoiError>)
    requires
        t.wf(),
    ensures
        iterations == 0 ==> r == Ok::<Tessellation, VoronoiError>(t),
        r matches Ok(n) ==> n.wf() && n.bbox == t.bbox && n.sites.len() == t.sites.len() && relaxed(
            t,
            n,
            iterations as nat,
        ),
        r matches Err(e) ==> e matches VoronoiError::RelaxationFailed { iteration } && iteration
            < iterations && exists|mid: Tessellation| #[trigger]
            relaxed(t, mid, iteration as nat) && !can_step(mid),
{
    let ghost start = t;
    let mut current = t;
    let mut j: usize = 0;
    while j < iterations
        invariant
            0 <= j <= iterations,
            start == t,
            current.wf(),
            current.bbox == start.bbox,
            current.sites.len() == start.sites.len(),
            relaxed(start, current, j as nat),
            j == 0 ==> current == start,
        decreases iterations - j,
    {
        match lloyd_step(&current) {
            Ok(next) => {
                proof {
                    assert(stepped(current, next));
                    assert(relaxed(start, next, (j + 1) as nat));
                }
                current = next;
            },
            Err(_) => {
                proof {
                    assert(relaxed(start, current, j as nat) && !can_step(current));
                }
                return Err(VoronoiError::RelaxationFailed { iteration: j });
            },
        }
        j += 1;
    }
    Ok(current)
}

/// Builds the tessellation of `sites` in `bbox` and relaxes it `iterations` times.
pub fn tessellate(sites: Vec<Point>, bbox: BoundingBox, iterations: usize) -> (r: Result<
    Tessellation,
    VoronoiError,
>)
    requires
        bbox.wf(),
        all_inside(sites@, bbox),
    ensures
        r matches Err(VoronoiError::EmptyInput) <==> sites.len() == 0,
        r matches Err(VoronoiError::DegenerateGeometry) <==> sites.len() > 0 && triple_coincidence(
            sites@,
        ),
        r matches Ok(n) ==> n.wf() && n.bbox == bbox && n.sites.len() == sites.len(),
        r matches Ok(n) ==> exists|first: Tessellation|
            #![trigger relaxed(first, n, iterations as nat)]
            first.wf() && first.sites@ == sites@ && first.bbox == bbox && relaxed(
                first,
                n,
                iterations as nat,
            ),
        r matches Ok(n) ==> (iterations == 0 ==> n.sites@ == sites@),
        r matches Err(VoronoiError::RelaxationFailed { iteration }) ==> iteration < iterations
            && exists|first: Tessellation, mid: Tessellation|
            #![trigger relaxed(first, mid, iteration as nat)]
            first.wf() && first.sites@ == sites@ && first.bbox == bbox && relaxed(
                first,
                mid,
                iteration as nat,
            ) && !can_step(mid),
{
    match Tessellation::build(sites, bbox) {
        Err(e) => Err(e),
        Ok(first) => {
            let ghost start = first;
            let r = relax(first, iterations);
            proof {
                if r is Ok {
                    assert(relaxed(start, r->Ok_0, iterations as nat));
                } else {
                    let j = r->Err_0->iteration;
                    let mid = choose|mid: Tessellation| #[trigger]
                        relaxed(start, mid, j as nat) && !can_step(mid);
                    assert(relaxed(start, mid, j as nat) && !can_step(mid));
                }
            }
            r
        },
    }
}

} // verus!
