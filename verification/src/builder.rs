//! Collects the sites, the bounding box and the number of relaxation steps,
//! and builds the tessellation from them.

use vstd::prelude::*;
use crate::geometry::{BoundingBox, COORD_MAX, Point};
use crate::relax::{can_step, relaxed, tessellate};
use crate::tessellation::{Tessellation, VoronoiError, all_inside, triple_coincidence};

verus! {

/// What a tessellation is built from. Without further settings: no sites, the
/// whole grid as the bounding box, and no relaxation.
pub struct VoronoiBuilder {
    pub sites: Vec<Point>,
    pub bounding_box: BoundingBox,
    pub iterations: usize,
}

impl VoronoiBuilder {
    pub fn new() -> (b: VoronoiBuilder)
        ensures
            b.sites@.len() == 0,
            b.bounding_box.wf(),
            b.bounding_box == (BoundingBox {
                center: Point { x: 0, y: 0 },
                half_width: COORD_MAX,
                half_height: COORD_MAX,
            }),
            b.iterations == 0,
    {
        VoronoiBuilder {
            sites: Vec::new(),
            bounding_box: BoundingBox::new_centered_square(COORD_MAX),
            iterations: 0,
        }
    }

    pub fn set_sites(self, sites: Vec<Point>) -> (b: VoronoiBuilder)
        ensures
            b.sites@ == sites@,
            b.bounding_box == self.bounding_box,
            b.iterations == self.iterations,
    {
        VoronoiBuilder { sites, bounding_box: self.bounding_box, iterations: self.iterations }
    }

    pub fn set_bounding_box(self, bounding_box: BoundingBox) -> (b: VoronoiBuilder)
        ensures
            b.sites@ == self.sites@,
            b.bounding_box == bounding_box,
            b.iterations == self.iterations,
    {
        VoronoiBuilder { sites: self.sites, bounding_box, iterations: self.iterations }
    }

    pub fn set_lloyd_relaxation_iterations(self, iterations: usize) -> (b: VoronoiBuilder)
        ensures
            b.sites@ == self.sites@,
            b.bounding_box == self.bounding_box,
            b.iterations == iterations,
    {
        VoronoiBuilder { sites: self.sites, bounding_box: self.bounding_box, iterations }
    }

    /// Whether `build` may be called: the box is well formed and holds every site.
    pub fn is_ready(&self) -> (b: bool)
        ensures
            b == (self.bounding_box.wf() && all_inside(self.sites@, self.bounding_box)),
    {
        let bb = self.bounding_box;
        if BoundingBox::new(bb.center, bb.half_width, bb.half_height).is_none() {
            return false;
        }
        let mut i: usize = 0;
        while i < self.sites.len()
            invariant
                bb == self.bounding_box,
                bb.wf(),
                0 <= i <= self.sites.len(),
                forall|t: int| 0 <= t < i ==> bb.holds(#[trigger] self.sites[t]),
            decreases self.sites.len() - i,
        {
            if !bb.is_inside(&self.sites[i]) {
                return false;
            }
            i += 1;
        }
        true
    }

    /// Builds the tessellation of the sites and relaxes it as often as was set.
    pub fn build(self) -> (r: Result<Tessellation, VoronoiError>)
        requires
            self.bounding_box.wf(),
            all_inside(self.sites@, self.bounding_box),
        ensures
            r matches Err(VoronoiError::EmptyInput) <==> self.sites.len() == 0,
            r matches Err(VoronoiError::DegenerateGeometry) <==> self.sites.len() > 0
                && triple_coincidence(self.sites@),
            r matches Err(VoronoiError::RelaxationFailed { iteration }) ==> iteration
                < self.iterations && exists|first: Tessellation, mid: Tessellation|
                #![trigger relaxed(first, mid, iteration as nat)]
                first.wf() && first.sites@ == self.sites@ && first.bbox == self.bounding_box
                    && relaxed(first, mid, iteration as nat) && !can_step(mid),
            r matches Ok(n) ==> n.wf() && n.bbox == self.bounding_box && n.sites.len()
                == self.sites.len(),
            r matches Ok(n) ==> exists|first: Tessellation|
                #![trigger relaxed(first, n, self.iterations as nat)]
                first.wf() && first.sites@ == self.sites@ && first.bbox == self.bounding_box
                    && relaxed(first, n, self.iterations as nat),
            r matches Ok(n) ==> (self.iterations == 0 ==> n.sites@ == self.sites@),
    {
        tessellate(self.sites, self.bounding_box, self.iterations)
    }
}

impl Default for VoronoiBuilder {
    fn default() -> (b: VoronoiBuilder)
        ensures
            b.sites@.len() == 0,
            b.bounding_box.wf(),
            b.bounding_box == (BoundingBox {
                center: Point { x: 0, y: 0 },
                half_width: COORD_MAX,
                half_height: COORD_MAX,
            }),
            b.iterations == 0,
    {
        VoronoiBuilder::new()
    }
}

} // verus!
