//! The spatial index of a ray tracer: axis-aligned bounding boxes, a bounding
//! volume hierarchy over a list of primitives, and the nearest-hit query
//! that walks it.
//!
//! Box corners lie on an integer grid chosen by the caller, so unions,
//! extents and midpoints are exact. Distances along a ray are carried as
//! `i64` keys that order as the distances do. The geometry of a primitive
//! and of a ray stays with the types that implement [`hit::Hittable`] and
//! [`hit::SlabTest`]; this crate decides which of them are asked, in which
//! window, and which answer is kept.
pub mod bounds;
pub mod bvh;
pub mod hit;
pub mod split;
pub mod vectors;
