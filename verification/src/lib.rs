//! Bounded Voronoi tessellations on the integer grid, with centroidal
//! relaxation, in exact arithmetic.
//!
//! Sites are grid points in a bounding box. Each cell is a convex polygon
//! whose corners are exact rational points; it is proved to hold exactly the
//! points of the box to which no other site is nearer.

pub mod algebra;
pub mod args;
pub mod builder;
pub mod clip;
pub mod geometry;
pub mod laws;
pub mod polygon;
pub mod random;
pub mod relax;
pub mod render;
pub mod tessellation;
