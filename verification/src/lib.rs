//! A bounding volume hierarchy over axis-aligned boxes on the integer lattice.
//!
//! All geometry is exact: coordinates are lattice steps held in `i32`, and every
//! derived quantity (extents, surface areas, split costs, ray parameters) is
//! computed without rounding in wider integers.

use vstd::prelude::*;

pub mod aabb;
pub mod ray;
pub mod cost;
pub mod partition;
pub mod bvh;
pub mod bounding_hierarchy;

verus! {

/// Smallest spread of box centres, in lattice steps, that is still worth splitting.
/// A group of shapes whose centres spread less than this along every axis is kept
/// together in one leaf.
pub const EPSILON: u32 = 1;

} // verus!
