//! Construction of bounding volume hierarchies (BVHs) over triangle soups.
//!
//! The crate builds, from an unordered list of triangles, a compact
//! array-based spatial index: a binary tree of axis-aligned bounding boxes
//! whose leaves reference contiguous runs of a flat face array. Per-mesh
//! hierarchies can then be merged into scene-global arrays with offset
//! bookkeeping instead of index rewriting.
//!
//! Coordinates are plain `i32` values. A caller that works in another scalar
//! domain maps its coordinates onto this grid with an order-preserving
//! encoding before building; every decision the builder takes depends only
//! on the ordering and never on magnitudes.

pub mod bounds;
pub mod builder;
pub mod laws;
pub mod misc;
pub mod scene;
pub mod split;
pub mod types;
