//! Core of a ray tracer built around three ray-scene intersection
//! strategies: a linear scan, a bounding volume hierarchy built with a
//! surface-area heuristic, and a uniform voxel grid walked by incremental
//! traversal.  All geometry is carried in fixed-point integer coordinates so
//! that every intersection decision is exact.

pub mod aabb;
pub mod bvh;
pub mod data;
pub mod grid;
pub mod hit;
pub mod hittable_list;
pub mod num;
pub mod options;
pub mod material;
pub mod ray;
pub mod rng;
pub mod rat;
pub mod scene;
pub mod slab;
pub mod unit;
pub mod vec3i;
pub mod voxel;

use vstd::prelude::*;

verus! {

} // verus!
