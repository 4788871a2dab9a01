//! What holds of every tessellation: the cells fill the bounding box, stay
//! inside it, overlap only on their borders, hold their sites, and have the
//! corners that the sites and the box determine.

use vstd::prelude::*;
use crate::algebra::{V3, dot};
use crate::geometry::{Point, bisector_of, coincide, dist2, lemma_bisector_nearer};
use crate::polygon::{
    contains,
    convex,
    lemma_corners_determined,
    lemma_hull_strict,
    same_point,
    vertex,
};
use crate::tessellation::{
    Tessellation,
    cell_ok,
    in_cell,
    lemma_site_nearest,
    nearer,
    shadowed,
};

verus! {

/// Among the first `n` sites, the first of those nearest to `z`.
proof fn lemma_first_nearest(sites: Seq<Point>, z: V3, n: int) -> (i: int)
    requires
        1 <= n <= sites.len(),
    ensures
        0 <= i < n,
        forall|j: int| 0 <= j < n ==> #[trigger] nearer(z, sites[i], sites[j]),
        forall|j: int| 0 <= j < i ==> dist2(z, #[trigger] sites[j]) > dist2(z, sites[i]),
    decreases n,
{
    if n == 1 {
        0
    } else {
        let before = lemma_first_nearest(sites, z, n - 1);
        if dist2(z, sites[n - 1]) < dist2(z, sites[before]) {
            assert forall|j: int| 0 <= j < n implies #[trigger] nearer(z, sites[n - 1], sites[j]) by {
                if j < n - 1 {
                    assert(nearer(z, sites[before], sites[j]));
                }
            }
            assert forall|j: int| 0 <= j < n - 1 implies dist2(z, #[trigger] sites[j]) > dist2(
                z,
                sites[n - 1],
            ) by {
                assert(nearer(z, sites[before], sites[j]));
            }
            n - 1
        } else {
            assert forall|j: int| 0 <= j < n implies #[trigger] nearer(z, sites[before], sites[j]) by {
                if j < n - 1 {
                    assert(nearer(z, sites[before], sites[j]));
                }
            }
            before
        }
    }
}

/// The cells fill the bounding box: every point of the box belongs to the
/// cell of the first of its nearest sites.
pub proof fn lemma_cells_fill_box(t: Tessellation, z: V3) -> (i: int)
    requires
        t.wf(),
        z.w > 0,
        t.bbox.holds_point(z),
    ensures
        0 <= i < t.cells.len(),
        t.cells[i].holds(z),
{
    let sites = t.sites@;
    let i = lemma_first_nearest(sites, z, sites.len() as int);
    if shadowed(sites, i) {
        let j = choose|j: int| 0 <= j < i && coincide(#[trigger] sites[j], sites[i]);
        assert(dist2(z, sites[j]) > dist2(z, sites[i]));
    }
    assert(cell_ok(sites, t.bbox, i, t.cells[i].polygon()));
    assert(in_cell(sites, t.bbox, i, z));
    i
}

/// A cell stays in the bounding box, and no site is nearer to any of its
/// points than its own.
pub proof fn lemma_cell_is_nearest_region(t: Tessellation, i: int, z: V3)
    requires
        t.wf(),
        0 <= i < t.cells.len(),
        z.w > 0,
        t.cells[i].holds(z),
    ensures
        t.bbox.holds_point(z),
        forall|j: int| 0 <= j < t.sites.len() ==> #[trigger] nearer(z, t.sites[i], t.sites[j]),
{
    assert(cell_ok(t.sites@, t.bbox, i, t.cells[i].polygon()));
    assert(in_cell(t.sites@, t.bbox, i, z));
}

/// Two cells overlap on their borders only: a point in the interior of a cell
/// belongs to no other cell.
pub proof fn lemma_interiors_disjoint(t: Tessellation, i: int, j: int, z: V3)
    requires
        t.wf(),
        0 <= i < t.cells.len(),
        0 <= j < t.cells.len(),
        z.w > 0,
        t.cells[i].holds_strictly(z),
        t.cells[j].holds(z),
    ensures
        i == j,
{
    let sites = t.sites@;
    let p = t.cells[i].polygon();
    assert(cell_ok(sites, t.bbox, i, p));
    assert(cell_ok(sites, t.bbox, j, t.cells[j].polygon()));
    if i != j {
        let own = sites[i];
        let other = sites[j];
        if coincide(own, other) {
            if i < j {
                assert(coincide(sites[i], sites[j]));
                assert(shadowed(sites, j));
            } else {
                assert(coincide(sites[j], sites[i]));
                assert(shadowed(sites, i));
            }
        }
        let f = bisector_of(own, other);
        assert forall|k: int| 0 <= k < p.len() implies dot(f, #[trigger] vertex(p, k)) <= 0 by {
            t.lemma_corner_in_box(i, k);
            assert(nearer(vertex(p, k), sites[i], sites[j]));
            lemma_bisector_nearer(own, other, vertex(p, k));
        }
        lemma_hull_strict(p, f, z);
        lemma_bisector_nearer(own, other, z);
        assert(in_cell(sites, t.bbox, j, z));
        assert(nearer(z, sites[j], sites[i]));
    }
}

/// Every cell holds its site, unless an earlier site on the same grid point
/// shadows it.
pub proof fn lemma_cell_holds_site(t: Tessellation, i: int)
    requires
        t.wf(),
        0 <= i < t.cells.len(),
        !shadowed(t.sites@, i),
    ensures
        t.cells[i].holds(t.sites[i].homog()),
{
    let sites = t.sites@;
    let s = sites[i].homog();
    assert(cell_ok(sites, t.bbox, i, t.cells[i].polygon()));
    assert(t.bbox.holds(sites[i]));
    assert(t.bbox.x_min() * s.w == t.bbox.x_min() && t.bbox.x_max() * s.w == t.bbox.x_max()
        && t.bbox.y_min() * s.w == t.bbox.y_min() && t.bbox.y_max() * s.w == t.bbox.y_max())
        by (nonlinear_arith)
        requires
            s.w == 1,
    ;
    assert forall|j: int| 0 <= j < sites.len() implies #[trigger] nearer(s, sites[i], sites[j]) by {
        lemma_site_nearest(sites[i], sites[j]);
    }
    assert(in_cell(sites, t.bbox, i, s));
    assert(convex(t.cells[i].polygon()));
}

/// The sites and the box determine the corners of every cell: whatever lines
/// two tessellations of the same sites in the same box hold, every corner of
/// a cell of the one is a corner of that cell of the other.
pub proof fn lemma_cells_determined(s: Tessellation, t: Tessellation, i: int, k: int) -> (j: int)
    requires
        s.wf(),
        t.wf(),
        s.sites@ == t.sites@,
        s.bbox == t.bbox,
        0 <= i < s.cells.len(),
        0 <= k < s.cells[i].lines.len(),
    ensures
        0 <= j < t.cells[i].lines.len(),
        same_point(vertex(s.cells[i].polygon(), k), vertex(t.cells[i].polygon(), j)),
{
    let p = s.cells[i].polygon();
    let q = t.cells[i].polygon();
    assert(cell_ok(s.sites@, s.bbox, i, p));
    assert(cell_ok(t.sites@, t.bbox, i, q));
    assert forall|z: V3| z.w > 0 implies (#[trigger] contains(p, z) <==> contains(q, z)) by {
        assert(contains(p, z) <==> in_cell(s.sites@, s.bbox, i, z));
        assert(contains(q, z) <==> in_cell(t.sites@, t.bbox, i, z));
    }
    lemma_corners_determined(p, q, k)
}

} // verus!
