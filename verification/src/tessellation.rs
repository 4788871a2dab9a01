//! The bounded Voronoi tessellation of a list of sites.
//!
//! Each site gets the part of the bounding box that is at least as near to it
//! as to any other site. A cell is built by clipping the box with the bisector
//! of the site and each other site in turn. Two sites on the same grid point
//! share one region: the earlier site gets it and the later one an empty cell;
//! three sites on one grid point are refused.

use vstd::prelude::*;
use crate::algebra::{V3, dot, cross};
use crate::clip::{Clipped, all_bounded, clip, lines_of};
use crate::geometry::{
    BoundingBox,
    Line,
    Point,
    Vertex,
    bisector,
    bisector_of,
    coincide,
    coincident,
    dist2,
    lemma_bisector_nearer,
    lemma_round_between,
    meet,
    round_div,
    rounded_quotient,
};
use crate::polygon::{contains, contains_strictly, convex, proper, succ, vertex};

verus! {

/// Why a tessellation could not be built or relaxed.
#[derive(Clone, Copy, Debug, PartialEq, Eq, Structural)]
pub enum VoronoiError {
    /// No site was given.
    EmptyInput,
    /// Three or more sites lie on one grid point, or a polygon has no area.
    DegenerateGeometry,
    /// The relaxation step with this index (counted from zero) could not be done.
    RelaxationFailed { iteration: usize },
}

/// The point `z` is at least as near to `p` as to `q`.
pub open spec fn nearer(z: V3, p: Point, q: Point) -> bool {
    dist2(z, p) <= dist2(z, q)
}

/// The point `z` lies in the box and is at least as near to site `i` as to
/// each of the first `n` sites.
pub open spec fn in_cell_upto(sites: Seq<Point>, bbox: BoundingBox, i: int, n: int, z: V3) -> bool {
    &&& bbox.holds_point(z)
    &&& forall|j: int| 0 <= j < n ==> #[trigger] nearer(z, sites[i], sites[j])
}

/// The point `z` lies in the box and no site is nearer to it than site `i`.
pub open spec fn in_cell(sites: Seq<Point>, bbox: BoundingBox, i: int, z: V3) -> bool {
    in_cell_upto(sites, bbox, i, sites.len() as int, z)
}

/// An earlier site is coincident with site `i`.
pub open spec fn shadowed(sites: Seq<Point>, i: int) -> bool {
    exists|j: int| 0 <= j < i && coincide(#[trigger] sites[j], sites[i])
}

/// Three sites are coincident.
pub open spec fn triple_coincidence(sites: Seq<Point>) -> bool {
    exists|i: int, j: int, k: int|
        #![trigger sites[i], sites[j], sites[k]]
        0 <= i < j < k < sites.len() && coincide(sites[i], sites[j]) && coincide(
            sites[j],
            sites[k],
        )
}

pub open spec fn all_inside(sites: Seq<Point>, bbox: BoundingBox) -> bool {
    forall|i: int| 0 <= i < sites.len() ==> bbox.holds(#[trigger] sites[i])
}

/// The four sides of the box, counter-clockwise from the bottom side.
pub open spec fn box_lines(b: BoundingBox) -> Seq<V3> {
    seq![
        V3 { x: 0, y: -1, w: b.y_min() },
        V3 { x: 1, y: 0, w: -b.x_max() },
        V3 { x: 0, y: 1, w: -b.y_max() },
        V3 { x: -1, y: 0, w: b.x_min() },
    ]
}

/// The meeting point of two lines whose normals are unit vectors along the axes.
proof fn lemma_axis_meet(u: V3, v: V3)
    by (nonlinear_arith)
    requires
        -1 <= u.x <= 1,
        -1 <= u.y <= 1,
        -1 <= v.x <= 1,
        -1 <= v.y <= 1,
    ensures
        u.x == 0 && u.y == -1 && v.x == 1 && v.y == 0 ==> cross(u, v) == (V3 {
            x: -v.w,
            y: u.w,
            w: 1,
        }),
        u.x == 1 && u.y == 0 && v.x == 0 && v.y == 1 ==> cross(u, v) == (V3 {
            x: -u.w,
            y: -v.w,
            w: 1,
        }),
        u.x == 0 && u.y == 1 && v.x == -1 && v.y == 0 ==> cross(u, v) == (V3 {
            x: v.w,
            y: -u.w,
            w: 1,
        }),
        u.x == -1 && u.y == 0 && v.x == 0 && v.y == -1 ==> cross(u, v) == (V3 {
            x: u.w,
            y: v.w,
            w: 1,
        }),
{
}

/// The value at a point of a line whose normal is a unit vector along an axis.
proof fn lemma_axis_dot(u: V3, z: V3)
    by (nonlinear_arith)
    ensures
        u.x == 0 && u.y == -1 ==> dot(u, z) == u.w * z.w - z.y,
        u.x == 1 && u.y == 0 ==> dot(u, z) == z.x + u.w * z.w,
        u.x == 0 && u.y == 1 ==> dot(u, z) == z.y + u.w * z.w,
        u.x == -1 && u.y == 0 ==> dot(u, z) == u.w * z.w - z.x,
{
}

/// The box is a convex polygon that holds exactly the points of the box.
pub proof fn lemma_box_convex(b: BoundingBox)
    requires
        b.wf(),
    ensures
        convex(box_lines(b)),
        proper(box_lines(b)),
        forall|z: V3| z.w > 0 ==> (#[trigger] contains(box_lines(b), z) <==> b.holds_point(z)),
        vertex(box_lines(b), 0) == (V3 { x: b.x_max(), y: b.y_min(), w: 1 }),
        vertex(box_lines(b), 1) == (V3 { x: b.x_max(), y: b.y_max(), w: 1 }),
        vertex(box_lines(b), 2) == (V3 { x: b.x_min(), y: b.y_max(), w: 1 }),
        vertex(box_lines(b), 3) == (V3 { x: b.x_min(), y: b.y_min(), w: 1 }),
{
    let p = box_lines(b);
    assert(p.len() == 4);
    assert(p[0] == V3 { x: 0, y: -1, w: b.y_min() });
    assert(p[1] == V3 { x: 1, y: 0, w: -b.x_max() });
    assert(p[2] == V3 { x: 0, y: 1, w: -b.y_max() });
    assert(p[3] == V3 { x: -1, y: 0, w: b.x_min() });
    lemma_axis_meet(p[0], p[1]);
    lemma_axis_meet(p[1], p[2]);
    lemma_axis_meet(p[2], p[3]);
    lemma_axis_meet(p[3], p[0]);
    assert(vertex(p, 0) == V3 { x: b.x_max(), y: b.y_min(), w: 1 });
    assert(vertex(p, 1) == V3 { x: b.x_max(), y: b.y_max(), w: 1 });
    assert(vertex(p, 2) == V3 { x: b.x_min(), y: b.y_max(), w: 1 });
    assert(vertex(p, 3) == V3 { x: b.x_min(), y: b.y_min(), w: 1 });
    assert forall|z: V3|
        #![trigger dot(p[0], z)]
        #![trigger dot(p[1], z)]
        #![trigger dot(p[2], z)]
        #![trigger dot(p[3], z)]
        dot(p[0], z) == b.y_min() * z.w - z.y && dot(p[1], z) == z.x - b.x_max() * z.w && dot(
            p[2],
            z,
        ) == z.y - b.y_max() * z.w && dot(p[3], z) == b.x_min() * z.w - z.x by {
        lemma_axis_dot(p[0], z);
        lemma_axis_dot(p[1], z);
        lemma_axis_dot(p[2], z);
        lemma_axis_dot(p[3], z);
        assert((-b.x_max()) * z.w == -(b.x_max() * z.w)) by (nonlinear_arith);
        assert((-b.y_max()) * z.w == -(b.y_max() * z.w)) by (nonlinear_arith);
    }
    assert forall|k: int| 0 <= k < p.len() implies (#[trigger] vertex(p, k)).w > 0 by {
        assert(k == 0 || k == 1 || k == 2 || k == 3);
    }
    assert forall|j: int, k: int| 0 <= j < p.len() && 0 <= k < p.len() implies dot(
        #[trigger] p[j],
        #[trigger] vertex(p, k),
    ) <= 0 by {
        assert(k == 0 || k == 1 || k == 2 || k == 3);
        assert(j == 0 || j == 1 || j == 2 || j == 3);
    }
    assert forall|j: int, k: int|
        0 <= j < p.len() && 0 <= k < p.len() && j != k && j != succ(k, p.len() as int) implies dot(
            #[trigger] p[j],
            #[trigger] vertex(p, k),
        ) < 0 by {
        assert(k == 0 || k == 1 || k == 2 || k == 3);
        assert(j == 0 || j == 1 || j == 2 || j == 3);
    }
    assert forall|z: V3| z.w > 0 implies (#[trigger] contains(p, z) <==> b.holds_point(z)) by {
        if contains(p, z) {
            assert(dot(p[0], z) <= 0);
            assert(dot(p[1], z) <= 0);
            assert(dot(p[2], z) <= 0);
            assert(dot(p[3], z) <= 0);
        }
        if b.holds_point(z) {
            assert forall|k: int| 0 <= k < p.len() implies dot(#[trigger] p[k], z) <= 0 by {
                assert(k == 0 || k == 1 || k == 2 || k == 3);
            }
        }
    }
}

/// The box as a polygon.
pub fn box_polygon(b: &BoundingBox) -> (v: Vec<Line>)
    requires
        b.wf(),
    ensures
        v.len() == 4,
        lines_of(v@) == box_lines(*b),
        all_bounded(v@),
{
    let mut v: Vec<Line> = Vec::new();
    v.push(Line { a: 0, b: -1, c: b.bottom() });
    v.push(Line { a: 1, b: 0, c: -b.right() });
    v.push(Line { a: 0, b: 1, c: -b.top() });
    v.push(Line { a: -1, b: 0, c: b.left() });
    proof {
        assert(lines_of(v@) =~= box_lines(*b));
    }
    v
}

/// The values of the four sides of the box at a point.
pub proof fn lemma_box_sides(b: BoundingBox, z: V3)
    ensures
        dot(box_lines(b)[0], z) == b.y_min() * z.w - z.y,
        dot(box_lines(b)[1], z) == z.x - b.x_max() * z.w,
        dot(box_lines(b)[2], z) == z.y - b.y_max() * z.w,
        dot(box_lines(b)[3], z) == b.x_min() * z.w - z.x,
{
    let p = box_lines(b);
    lemma_axis_dot(p[0], z);
    lemma_axis_dot(p[1], z);
    lemma_axis_dot(p[2], z);
    lemma_axis_dot(p[3], z);
    assert((-b.x_max()) * z.w == -(b.x_max() * z.w)) by (nonlinear_arith);
    assert((-b.y_max()) * z.w == -(b.y_max() * z.w)) by (nonlinear_arith);
}

/// The point `z` lies in the box and obeys the first `n` sides of it.
pub open spec fn obeys_sides(poly: Seq<V3>, b: BoundingBox, n: int, z: V3) -> bool {
    &&& contains(poly, z)
    &&& forall|s: int| 0 <= s < n ==> dot(#[trigger] box_lines(b)[s], z) <= 0
}

/// Clips the convex polygon `poly` to the box, one side after the other.
pub fn clip_to_box(poly: &Vec<Line>, bbox: &BoundingBox) -> (r: Clipped)
    requires
        convex(lines_of(poly@)),
        proper(lines_of(poly@)),
        all_bounded(poly@),
        bbox.wf(),
    ensures
        r is Whole <==> forall|z: V3|
            z.w > 0 && #[trigger] contains(lines_of(poly@), z) ==> bbox.holds_point(z),
        match r {
            Clipped::Whole => forall|z: V3|
                z.w > 0 && #[trigger] contains(lines_of(poly@), z) ==> bbox.holds_point(z),
            Clipped::Nothing => forall|z: V3|
                z.w > 0 && #[trigger] contains(lines_of(poly@), z) ==> !bbox.holds_point_strictly(
                    z,
                ),
            Clipped::Part(q) => {
                &&& convex(lines_of(q@))
                &&& proper(lines_of(q@))
                &&& all_bounded(q@)
                &&& forall|z: V3|
                    z.w > 0 ==> (#[trigger] contains(lines_of(q@), z) <==> contains(
                        lines_of(poly@),
                        z,
                    ) && bbox.holds_point(z))
            },
        },
{
    let sides = box_polygon(bbox);
    let ghost p = lines_of(poly@);
    let mut current: Vec<Line> = Vec::new();
    let mut changed = false;
    let ghost mut beyond = V3 { x: 0, y: 0, w: 1 };
    let mut j: usize = 0;
    while j < 4
        invariant
            bbox.wf(),
            changed ==> beyond.w > 0 && contains(p, beyond) && !bbox.holds_point(beyond),
            p == lines_of(poly@),
            convex(p),
            proper(p),
            all_bounded(poly@),
            lines_of(sides@) == box_lines(*bbox),
            sides.len() == 4,
            all_bounded(sides@),
            0 <= j <= 4,
            changed ==> convex(lines_of(current@)) && proper(lines_of(current@)) && all_bounded(
                current@,
            ),
            changed ==> forall|z: V3|
                z.w > 0 ==> (#[trigger] contains(lines_of(current@), z) <==> obeys_sides(
                    p,
                    *bbox,
                    j as int,
                    z,
                )),
            !changed ==> forall|z: V3|
                z.w > 0 && #[trigger] contains(p, z) ==> obeys_sides(p, *bbox, j as int, z),
        decreases 4 - j,
    {
        let side = sides[j];
        assert(side@ == lines_of(sides@)[j as int]);
        let ghost before = if changed {
            lines_of(current@)
        } else {
            p
        };
        let part = if changed {
            clip(&current, &side)
        } else {
            clip(poly, &side)
        };
        proof {
            assert forall|z: V3| z.w > 0 implies (#[trigger] contains(before, z) <==> obeys_sides(
                p,
                *bbox,
                j as int,
                z,
            )) by {
                if !changed {
                    if contains(p, z) {
                        assert(obeys_sides(p, *bbox, j as int, z));
                    }
                }
            }
            assert forall|z: V3| #[trigger]
                obeys_sides(p, *bbox, j + 1, z) <==> obeys_sides(p, *bbox, j as int, z) && dot(
                    side@,
                    z,
                ) <= 0 by {
                if obeys_sides(p, *bbox, j as int, z) && dot(side@, z) <= 0 {
                    assert forall|s: int| 0 <= s < j + 1 implies dot(
                        #[trigger] box_lines(*bbox)[s],
                        z,
                    ) <= 0 by {}
                }
                if obeys_sides(p, *bbox, j + 1, z) {
                    assert(dot(box_lines(*bbox)[j as int], z) <= 0);
                }
            }
        }
        proof {
            if !(part is Whole) {
                let k = choose|k: int|
                    0 <= k < before.len() && !(crate::clip::sigma(before, side@, k) <= 0);
                let z = vertex(before, k);
                assert(z.w > 0);
                assert forall|l: int| 0 <= l < before.len() implies dot(
                    #[trigger] before[l],
                    z,
                ) <= 0 by {
                    assert(dot(before[l], vertex(before, k)) <= 0);
                }
                assert(contains(before, z));
                assert(obeys_sides(p, *bbox, j as int, z));
                lemma_box_convex(*bbox);
                if bbox.holds_point(z) {
                    assert(contains(box_lines(*bbox), z));
                    assert(dot(box_lines(*bbox)[j as int], z) <= 0);
                }
                beyond = z;
            }
        }
        match part {
            Clipped::Whole => {
                proof {
                    assert forall|z: V3| z.w > 0 && contains(before, z) implies obeys_sides(
                        p,
                        *bbox,
                        j + 1,
                        z,
                    ) by {
                        assert(obeys_sides(p, *bbox, j as int, z));
                    }
                }
            },
            Clipped::Part(q) => {
                proof {
                    assert forall|z: V3| z.w > 0 implies (#[trigger] contains(lines_of(q@), z)
                        <==> obeys_sides(p, *bbox, j + 1, z)) by {
                        assert(contains(before, z) <==> obeys_sides(p, *bbox, j as int, z));
                    }
                }
                current = q;
                changed = true;
            },
            Clipped::Nothing => {
                proof {
                    assert forall|z: V3| z.w > 0 && #[trigger] contains(p, z) implies 
                        !bbox.holds_point_strictly(z) by {
                        lemma_box_sides(*bbox, z);
                        if bbox.holds_point_strictly(z) {
                            assert forall|s: int| 0 <= s < j implies dot(
                                #[trigger] box_lines(*bbox)[s],
                                z,
                            ) <= 0 by {}
                            assert(obeys_sides(p, *bbox, j as int, z));
                            assert(contains(before, z));
                        }
                    }
                }
                return Clipped::Nothing;
            },
        }
        j += 1;
    }
    proof {
        lemma_box_convex(*bbox);
        assert forall|z: V3| z.w > 0 implies (#[trigger] obeys_sides(p, *bbox, 4, z) <==> contains(
            p,
            z,
        ) && bbox.holds_point(z)) by {
            let b = box_lines(*bbox);
            if obeys_sides(p, *bbox, 4, z) {
                assert forall|k: int| 0 <= k < b.len() implies dot(#[trigger] b[k], z) <= 0 by {}
                assert(contains(b, z));
            }
            if contains(p, z) && bbox.holds_point(z) {
                assert(contains(b, z));
                assert forall|s: int| 0 <= s < 4 implies dot(#[trigger] b[s], z) <= 0 by {}
            }
        }
    }
    if changed {
        Clipped::Part(current)
    } else {
        Clipped::Whole
    }
}

/// A site is strictly on its own side of the bisector with a different site.
pub proof fn lemma_site_inside_bisector(p: Point, q: Point)
    requires
        p != q,
    ensures
        dot(bisector_of(p, q), p.homog()) < 0,
{
    let px = p.x as int;
    let py = p.y as int;
    let qx = q.x as int;
    let qy = q.y as int;
    assert(2 * (qx - px) * px + 2 * (qy - py) * py + (px * px + py * py - qx * qx - qy * qy) * 1
        == -((px - qx) * (px - qx)) - (py - qy) * (py - qy)) by (nonlinear_arith);
    assert((px - qx) * (px - qx) + (py - qy) * (py - qy) > 0) by (nonlinear_arith)
        requires
            px != qx || py != qy,
    ;
}

/// No site is nearer to a site than the site itself.
pub proof fn lemma_site_nearest(p: Point, q: Point)
    ensures
        nearer(p.homog(), p, q),
        dist2(p.homog(), p) == 0,
{
    let z = p.homog();
    assert((z.x - q.x * z.w) * (z.x - q.x * z.w) >= 0) by (nonlinear_arith);
    assert((z.y - q.y * z.w) * (z.y - q.y * z.w) >= 0) by (nonlinear_arith);
    assert(p.x * z.w == p.x && p.y * z.w == p.y) by (nonlinear_arith)
        requires
            z.w == 1,
    ;
    assert((z.x - p.x * z.w) * (z.x - p.x * z.w) == 0) by (nonlinear_arith)
        requires
            z.x - p.x * z.w == 0,
    ;
    assert((z.y - p.y * z.w) * (z.y - p.y * z.w) == 0) by (nonlinear_arith)
        requires
            z.y - p.y * z.w == 0,
    ;
}

/// What must hold of the lines of cell `i`: none for a shadowed site, else a
/// convex polygon with distinct corners that holds exactly the points of the
/// box to which no site is nearer than site `i`.
pub open spec fn cell_ok(sites: Seq<Point>, bbox: BoundingBox, i: int, lines: Seq<V3>) -> bool {
    if shadowed(sites, i) {
        lines.len() == 0
    } else {
        &&& convex(lines)
        &&& proper(lines)
        &&& forall|z: V3|
            z.w > 0 ==> (#[trigger] contains(lines, z) <==> in_cell(sites, bbox, i, z))
    }
}

/// The first index from `from` on whose site lies on the grid point of site `i`.
fn next_on_same_point(sites: &Vec<Point>, i: usize, from: usize) -> (r: Option<usize>)
    requires
        i < sites.len(),
    ensures
        match r {
            Some(j) => from <= j < sites.len() && coincide(sites[j as int], sites[i as int])
                && forall|t: int| from <= t < j ==> !coincide(#[trigger] sites[t], sites[i as int]),
            None => forall|t: int|
                from <= t < sites.len() ==> !coincide(#[trigger] sites[t], sites[i as int]),
        },
{
    let mut j = from;
    while j < sites.len()
        invariant
            i < sites.len(),
            from <= j,
            forall|t: int|
                from <= t < j && t < sites.len() ==> !coincide(#[trigger] sites[t], sites[i as int]),
        decreases sites.len() - j,
    {
        if coincident(&sites[j], &sites[i]) {
            return Some(j);
        }
        j += 1;
    }
    None
}

/// Whether three of the sites lie on one grid point.
pub fn has_triple_coincidence(sites: &Vec<Point>) -> (b: bool)
    ensures
        b == triple_coincidence(sites@),
{
    let mut i: usize = 0;
    while i < sites.len()
        invariant
            0 <= i <= sites.len(),
            forall|a: int, b: int, c: int|
                #![trigger sites@[a], sites@[b], sites@[c]]
                0 <= a < i && a < b < c < sites.len() ==> !(coincide(sites@[a], sites@[b])
                    && coincide(sites@[b], sites@[c])),
        decreases sites.len() - i,
    {
        match next_on_same_point(sites, i, i + 1) {
            Some(j) => {
                match next_on_same_point(sites, i, j + 1) {
                    Some(k) => {
                        assert(coincide(sites@[i as int], sites@[j as int]) && coincide(
                            sites@[j as int],
                            sites@[k as int],
                        ));
                        return true;
                    },
                    None => {},
                }
            },
            None => {},
        }
        i += 1;
    }
    false
}

/// The lines of the cell of site `i`.
pub fn build_cell(sites: &Vec<Point>, bbox: &BoundingBox, i: usize) -> (lines: Vec<Line>)
    requires
        bbox.wf(),
        all_inside(sites@, *bbox),
        i < sites.len(),
    ensures
        all_bounded(lines@),
        cell_ok(sites@, *bbox, i as int, lines_of(lines@)),
        sites.len() == 1 ==> lines_of(lines@) == box_lines(*bbox),
{
    let own = sites[i];
    match next_on_same_point(sites, i, 0) {
        Some(j) => {
            if j < i {
                let empty: Vec<Line> = Vec::new();
                proof {
                    assert(coincide(sites@[j as int], sites@[i as int]));
                    assert(shadowed(sites@, i as int));
                    assert(lines_of(empty@) =~= Seq::<V3>::empty());
                }
                return empty;
            }
        },
        None => {},
    }
    assert(!shadowed(sites@, i as int));
    let mut poly = box_polygon(bbox);
    proof {
        lemma_box_convex(*bbox);
    }
    let mut j: usize = 0;
    while j < sites.len()
        invariant
            bbox.wf(),
            all_inside(sites@, *bbox),
            i < sites.len(),
            own == sites@[i as int],
            0 <= j <= sites.len(),
            all_bounded(poly@),
            convex(lines_of(poly@)),
            proper(lines_of(poly@)),
            forall|z: V3|
                z.w > 0 ==> (#[trigger] contains(lines_of(poly@), z) <==> in_cell_upto(
                    sites@,
                    *bbox,
                    i as int,
                    j as int,
                    z,
                )),
            sites.len() == 1 ==> lines_of(poly@) == box_lines(*bbox),
        decreases sites.len() - j,
    {
        let other = sites[j];
        let ghost before = lines_of(poly@);
        if !coincident(&other, &own) {
            assert(bbox.holds(sites@[j as int]));
            assert(bbox.holds(sites@[i as int]));
            let g = bisector(&own, &other);
            let part = clip(&poly, &g);
            proof {
                assert forall|z: V3| z.w > 0 implies (dot(g@, z) <= 0 <==> #[trigger] nearer(
                    z,
                    own,
                    other,
                )) by {
                    lemma_bisector_nearer(own, other, z);
                }
                let s = own.homog();
                assert(in_cell_upto(sites@, *bbox, i as int, j as int, s)) by {
                    assert forall|t: int| 0 <= t < j implies #[trigger] nearer(
                        s,
                        sites@[i as int],
                        sites@[t],
                    ) by {
                        lemma_site_nearest(own, sites@[t]);
                    }
                }
                assert(contains(before, s));
                lemma_site_inside_bisector(own, other);
            }
            match part {
                Clipped::Whole => {},
                Clipped::Part(q) => {
                    poly = q;
                },
                Clipped::Nothing => {},
            }
            proof {
                assert forall|z: V3| z.w > 0 implies (#[trigger] contains(lines_of(poly@), z)
                    <==> in_cell_upto(sites@, *bbox, i as int, j + 1, z)) by {
                    assert(contains(before, z) <==> in_cell_upto(
                        sites@,
                        *bbox,
                        i as int,
                        j as int,
                        z,
                    ));
                    assert(dot(g@, z) <= 0 <==> nearer(z, own, other));
                    if in_cell_upto(sites@, *bbox, i as int, j + 1, z) {
                        assert(nearer(z, sites@[i as int], sites@[j as int]));
                        assert(in_cell_upto(sites@, *bbox, i as int, j as int, z));
                    }
                    if contains(before, z) && nearer(z, own, other) {
                        assert forall|t: int| 0 <= t < j + 1 implies #[trigger] nearer(
                            z,
                            sites@[i as int],
                            sites@[t],
                        ) by {
                            if t < j {
                                assert(nearer(z, sites@[i as int], sites@[t]));
                            }
                        }
                    }
                }
            }
        } else {
            proof {
                assert forall|z: V3| z.w > 0 implies (#[trigger] contains(lines_of(poly@), z)
                    <==> in_cell_upto(sites@, *bbox, i as int, j + 1, z)) by {
                    assert(contains(before, z) <==> in_cell_upto(
                        sites@,
                        *bbox,
                        i as int,
                        j as int,
                        z,
                    ));
                    if in_cell_upto(sites@, *bbox, i as int, j as int, z) {
                        assert forall|t: int| 0 <= t < j + 1 implies #[trigger] nearer(
                            z,
                            sites@[i as int],
                            sites@[t],
                        ) by {
                            if t < j {
                                assert(nearer(z, sites@[i as int], sites@[t]));
                            }
                        }
                    }
                    if in_cell_upto(sites@, *bbox, i as int, j + 1, z) {
                        assert(in_cell_upto(sites@, *bbox, i as int, j as int, z));
                    }
                }
            }
        }
        j += 1;
    }
    poly
}

/// The region of one site: its identity, its position, and the lines of its
/// polygon in counter-clockwise order.
#[derive(Debug)]
pub struct Cell {
    pub site: usize,
    pub position: Point,
    pub lines: Vec<Line>,
}

impl Cell {
    /// The lines of the cell as vectors.
    pub open spec fn polygon(&self) -> Seq<V3> {
        lines_of(self.lines@)
    }

    /// The point `z` belongs to the cell, border included.
    pub open spec fn holds(&self, z: V3) -> bool {
        self.lines.len() > 0 && contains(self.polygon(), z)
    }

    /// The point `z` belongs to the interior of the cell.
    pub open spec fn holds_strictly(&self, z: V3) -> bool {
        self.lines.len() > 0 && contains_strictly(self.polygon(), z)
    }

    /// The index of the site among the sites of the tessellation.
    pub fn site(&self) -> (i: usize)
        ensures
            i == self.site,
    {
        self.site
    }

    pub fn site_position(&self) -> (p: Point)
        ensures
            p == self.position,
    {
        self.position
    }

    /// Whether the cell has no polygon: its site is shadowed by an earlier one.
    pub fn is_empty(&self) -> (b: bool)
        ensures
            b == (self.lines.len() == 0),
    {
        self.lines.len() == 0
    }

    /// The corners of the cell, exact, in counter-clockwise order.
    pub fn vertices(&self) -> (v: Vec<Vertex>)
        requires
            all_bounded(self.lines@),
        ensures
            v.len() == self.lines.len(),
            forall|k: int| 0 <= k < v.len() ==> (#[trigger] v[k])@ == vertex(self.polygon(), k),
            forall|k: int| 0 <= k < v.len() ==> (#[trigger] v[k]).bounded(),
    {
        let m = self.lines.len();
        let mut v: Vec<Vertex> = Vec::new();
        let mut k: usize = 0;
        while k < m
            invariant
                m == self.lines.len(),
                all_bounded(self.lines@),
                0 <= k <= m,
                v.len() == k,
                forall|t: int| 0 <= t < k ==> (#[trigger] v[t])@ == vertex(self.polygon(), t),
                forall|t: int| 0 <= t < k ==> (#[trigger] v[t]).bounded(),
            decreases m - k,
        {
            let kn = if k + 1 == m {
                0
            } else {
                k + 1
            };
            let x = meet(&self.lines[k], &self.lines[kn]);
            v.push(x);
            k += 1;
        }
        v
    }
}

/// The corners of a polygon of lines, each moved to the nearest grid point.
pub open spec fn grid_polygon(lines: Seq<V3>) -> Seq<Point> {
    Seq::new(
        lines.len(),
        |k: int|
            Point {
                x: round_div(vertex(lines, k).x, vertex(lines, k).w) as i64,
                y: round_div(vertex(lines, k).y, vertex(lines, k).w) as i64,
            },
    )
}

/// The cells of a list of sites in a bounding box, one per site and in the order of the sites.
#[derive(Debug)]
pub struct Tessellation {
    pub bbox: BoundingBox,
    pub sites: Vec<Point>,
    pub cells: Vec<Cell>,
}

impl Tessellation {
    /// The sites lie in the box, no three on one grid point, and cell `i` is the region of site `i`.
    pub open spec fn wf(&self) -> bool {
        &&& self.bbox.wf()
        &&& self.sites.len() >= 1
        &&& all_inside(self.sites@, self.bbox)
        &&& !triple_coincidence(self.sites@)
        &&& self.cells.len() == self.sites.len()
        &&& forall|i: int|
            0 <= i < self.cells.len() ==> {
                &&& (#[trigger] self.cells[i]).site == i
                &&& self.cells[i].position == self.sites[i]
                &&& all_bounded(self.cells[i].lines@)
                &&& cell_ok(self.sites@, self.bbox, i, self.cells[i].polygon())
            }
    }

    /// Builds the tessellation of `sites` in `bbox`.
    pub fn build(sites: Vec<Point>, bbox: BoundingBox) -> (r: Result<Tessellation, VoronoiError>)
        requires
            bbox.wf(),
            all_inside(sites@, bbox),
        ensures
            r matches Err(VoronoiError::EmptyInput) <==> sites.len() == 0,
            r matches Err(VoronoiError::DegenerateGeometry) <==> sites.len() > 0
                && triple_coincidence(sites@),
            !(r matches Err(VoronoiError::RelaxationFailed { .. })),
            r matches Ok(t) ==> t.wf() && t.sites@ == sites@ && t.bbox == bbox,
            r matches Ok(t) ==> (sites.len() == 1 ==> t.cells[0].polygon() == box_lines(bbox)),
    {
        if sites.len() == 0 {
            return Err(VoronoiError::EmptyInput);
        }
        if has_triple_coincidence(&sites) {
            return Err(VoronoiError::DegenerateGeometry);
        }
        let mut cells: Vec<Cell> = Vec::new();
        let mut i: usize = 0;
        while i < sites.len()
            invariant
                bbox.wf(),
                all_inside(sites@, bbox),
                0 <= i <= sites.len(),
                cells.len() == i,
                forall|t: int|
                    0 <= t < i ==> {
                        &&& (#[trigger] cells[t]).site == t
                        &&& cells[t].position == sites[t]
                        &&& all_bounded(cells[t].lines@)
                        &&& cell_ok(sites@, bbox, t, cells[t].polygon())
                    },
                sites.len() == 1 && i == 1 ==> cells[0].polygon() == box_lines(bbox),
            decreases sites.len() - i,
        {
            let lines = build_cell(&sites, &bbox, i);
            cells.push(Cell { site: i, position: sites[i], lines });
            i += 1;
        }
        Ok(Tessellation { bbox, sites, cells })
    }

    /// The number of sites, which is the number of cells.
    pub fn len(&self) -> (n: usize)
        ensures
            n == self.sites.len(),
    {
        self.sites.len()
    }

    pub fn sites(&self) -> (s: &Vec<Point>)
        ensures
            s@ == self.sites@,
    {
        &self.sites
    }

    pub fn bounding_box(&self) -> (b: &BoundingBox)
        ensures
            *b == self.bbox,
    {
        &self.bbox
    }

    /// The cells in the order of their sites.
    pub fn cells(&self) -> (c: &Vec<Cell>)
        ensures
            c@ == self.cells@,
    {
        &self.cells
    }

    /// The cell of site `i`.
    pub fn cell(&self, i: usize) -> (c: &Cell)
        requires
            i < self.cells.len(),
        ensures
            *c == self.cells[i as int],
    {
        &self.cells[i]
    }

    /// Every corner of a cell lies in the bounding box.
    pub proof fn lemma_corner_in_box(&self, i: int, k: int)
        requires
            self.wf(),
            0 <= i < self.cells.len(),
            0 <= k < self.cells[i].lines.len(),
        ensures
            vertex(self.cells[i].polygon(), k).w > 0,
            in_cell(self.sites@, self.bbox, i, vertex(self.cells[i].polygon(), k)),
    {
        let p = self.cells[i].polygon();
        let z = vertex(p, k);
        assert(cell_ok(self.sites@, self.bbox, i, p));
        assert(p.len() > 0);
        assert(convex(p));
        assert(z.w > 0);
        assert forall|j: int| 0 <= j < p.len() implies dot(#[trigger] p[j], z) <= 0 by {
            assert(dot(p[j], vertex(p, k)) <= 0);
        }
        assert(contains(p, z));
    }

    /// The corners of cell `i`, each moved to the nearest grid point, in
    /// counter-clockwise order. Empty for the cell of a shadowed site.
    pub fn cell_polygon(&self, i: usize) -> (v: Vec<Point>)
        requires
            self.wf(),
            i < self.cells.len(),
        ensures
            v@ == grid_polygon(self.cells[i as int].polygon()),
            forall|k: int| 0 <= k < v.len() ==> self.bbox.holds(#[trigger] v[k]),
    {
        let cell = &self.cells[i];
        let exact = cell.vertices();
        let mut v: Vec<Point> = Vec::new();
        let mut k: usize = 0;
        while k < exact.len()
            invariant
                self.wf(),
                i < self.cells.len(),
                *cell == self.cells[i as int],
                exact.len() == cell.lines.len(),
                forall|t: int|
                    0 <= t < exact.len() ==> (#[trigger] exact[t])@ == vertex(cell.polygon(), t),
                forall|t: int| 0 <= t < exact.len() ==> (#[trigger] exact[t]).bounded(),
                0 <= k <= exact.len(),
                v.len() == k,
                forall|t: int| 0 <= t < k ==> #[trigger] v[t] == grid_polygon(cell.polygon())[t],
                forall|t: int| 0 <= t < k ==> self.bbox.holds(#[trigger] v[t]),
            decreases exact.len() - k,
        {
            let z = exact[k];
            proof {
                self.lemma_corner_in_box(i as int, k as int);
                assert(z@ == vertex(cell.polygon(), k as int));
                assert(self.bbox.holds_point(z@));
                lemma_round_between(z@.x, z@.w, self.bbox.x_min(), self.bbox.x_max());
                lemma_round_between(z@.y, z@.w, self.bbox.y_min(), self.bbox.y_max());
            }
            let x = rounded_quotient(z.x, z.w);
            let y = rounded_quotient(z.y, z.w);
            v.push(Point { x: x as i64, y: y as i64 });
            k += 1;
        }
        proof {
            assert(v@ =~= grid_polygon(cell.polygon()));
        }
        v
    }

    /// Every cell as its site's index and its corners on the grid, in the order of the sites.
    pub fn outlines(&self) -> (v: Vec<(usize, Vec<Point>)>)
        requires
            self.wf(),
        ensures
            v.len() == self.cells.len(),
            forall|i: int|
                0 <= i < v.len() ==> (#[trigger] v[i]).0 == i && v[i].1@ == grid_polygon(
                    self.cells[i].polygon(),
                ),
    {
        let mut v: Vec<(usize, Vec<Point>)> = Vec::new();
        let mut i: usize = 0;
        while i < self.cells.len()
            invariant
                self.wf(),
                0 <= i <= self.cells.len(),
                v.len() == i,
                forall|t: int|
                    0 <= t < i ==> (#[trigger] v[t]).0 == t && v[t].1@ == grid_polygon(
                        self.cells[t].polygon(),
                    ),
            decreases self.cells.len() - i,
        {
            let corners = self.cell_polygon(i);
            v.push((i, corners));
            i += 1;
        }
        v
    }
}

} // verus!
