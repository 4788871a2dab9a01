//! From grid coordinates to the pixels of an image.

use vstd::prelude::*;
use crate::geometry::{COORD_MAX, Point, lemma_product_bound};

verus! {

/// The quotient `n / d` rounded toward zero, for a positive divisor.
pub open spec fn toward_zero(n: int, d: int) -> int {
    if n >= 0 {
        n / d
    } else {
        -((-n) / d)
    }
}

pub open spec fn clamp_pixel(v: int) -> int {
    if v < i32::MIN {
        i32::MIN as int
    } else if v > i32::MAX {
        i32::MAX as int
    } else {
        v
    }
}

/// The pixel of the grid coordinate `c`, where `resolution` grid steps make
/// one unit, a unit is `scale` pixels wide and the origin sits at pixel
/// `offset`: the exact position rounded toward zero, kept in the 32-bit range.
pub open spec fn pixel_of(c: int, scale: int, resolution: int, offset: int) -> int {
    clamp_pixel(toward_zero(c * scale + offset * resolution, resolution))
}

/// The pixel of one grid coordinate.
pub fn to_pixel(c: i64, scale: i32, resolution: i64, offset: i32) -> (r: i32)
    requires
        -COORD_MAX <= c <= COORD_MAX,
        resolution > 0,
    ensures
        r == pixel_of(c as int, scale as int, resolution as int, offset as int),
{
    proof {
        lemma_product_bound(c as int, scale as int, COORD_MAX as int, 0x8000_0000);
        lemma_product_bound(offset as int, resolution as int, 0x8000_0000, 0x8000_0000_0000_0000);
    }
    let n: i128 = (c as i128) * (scale as i128) + (offset as i128) * (resolution as i128);
    let d: i128 = resolution as i128;
    let q: i128 = if n >= 0 {
        n / d
    } else {
        -((-n) / d)
    };
    if q < i32::MIN as i128 {
        i32::MIN
    } else if q > i32::MAX as i128 {
        i32::MAX
    } else {
        q as i32
    }
}

/// The pixels of the corners of a polygon, in the order of the corners.
pub fn to_pixels(corners: &Vec<Point>, scale: i32, resolution: i64, offset: i32) -> (v: Vec<
    (i32, i32),
>)
    requires
        forall|k: int| 0 <= k < corners.len() ==> (#[trigger] corners[k]).in_range(),
        resolution > 0,
    ensures
        v.len() == corners.len(),
        forall|k: int|
            0 <= k < v.len() ==> (#[trigger] v[k]).0 == pixel_of(
                corners[k].x as int,
                scale as int,
                resolution as int,
                offset as int,
            ) && v[k].1 == pixel_of(
                corners[k].y as int,
                scale as int,
                resolution as int,
                offset as int,
            ),
{
    let mut v: Vec<(i32, i32)> = Vec::new();
    let mut k: usize = 0;
    while k < corners.len()
        invariant
            forall|t: int| 0 <= t < corners.len() ==> (#[trigger] corners[t]).in_range(),
            resolution > 0,
            0 <= k <= corners.len(),
            v.len() == k,
            forall|t: int|
                0 <= t < k ==> (#[trigger] v[t]).0 == pixel_of(
                    corners[t].x as int,
                    scale as int,
                    resolution as int,
                    offset as int,
                ) && v[t].1 == pixel_of(
                    corners[t].y as int,
                    scale as int,
                    resolution as int,
                    offset as int,
                ),
        decreases corners.len() - k,
    {
        let p = corners[k];
        assert(p.in_range());
        let x = to_pixel(p.x, scale, resolution, offset);
        let y = to_pixel(p.y, scale, resolution, offset);
        v.push((x, y));
        k += 1;
    }
    v
}

} // verus!
