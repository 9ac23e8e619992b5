//! A binary-space-partition tessellation of the unit square.
//!
//! The tree splits a convex region into smaller convex regions along
//! directed lines and keeps a payload with each leaf region.  All
//! geometry is carried out in exact rational arithmetic, so the split
//! planes, the point-location descent and the polygon clipping walk are
//! verified against their exact mathematical models.

pub mod frac;
pub mod geometry;
pub mod bsp;
