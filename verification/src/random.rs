//! Random sites in a bounding box.

use vstd::prelude::*;
use rand::Rng;
use crate::geometry::{BoundingBox, Point};
use crate::tessellation::all_inside;

verus! {

/// A number drawn from `lo..hi` by the thread's generator.
///
/// Calls `Rng::gen_range` on `rand::thread_rng()`. The claim is the one that
/// holds of every draw: the number lies in the half-open range.
#[verifier::external_body]
fn random_in(lo: i64, hi: i64) -> (r: i64)
    requires
        lo < hi,
    ensures
        lo <= r < hi,
{
    rand::thread_rng().gen_range(lo..hi)
}

/// A random grid point of the box, off its right and top sides.
pub fn gen_rand_point(bounding_box: &BoundingBox) -> (p: Point)
    requires
        bounding_box.wf(),
    ensures
        bounding_box.holds(p),
        p.x < bounding_box.x_max(),
        p.y < bounding_box.y_max(),
{
    let x = random_in(bounding_box.left(), bounding_box.right());
    let y = random_in(bounding_box.bottom(), bounding_box.top());
    Point { x, y }
}

/// `count` random grid points of the box; none when `count` is negative.
pub fn gen_rand_sites(bounding_box: &BoundingBox, count: i32) -> (sites: Vec<Point>)
    requires
        bounding_box.wf(),
    ensures
        sites.len() == (if count > 0 {
            count as int
        } else {
            0
        }),
        all_inside(sites@, *bounding_box),
{
    let mut sites: Vec<Point> = Vec::new();
    let mut i: i32 = 0;
    while i < count
        invariant
            bounding_box.wf(),
            0 <= i,
            i <= count || (count < 0 && i == 0),
            sites.len() == i,
            all_inside(sites@, *bounding_box),
        decreases count - i,
    {
        let p = gen_rand_point(bounding_box);
        sites.push(p);
        i += 1;
    }
    sites
}

} // verus!
