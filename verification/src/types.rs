use vstd::prelude::*;

verus! {

/// A point on the integer coordinate grid the library works in.
///
/// Callers that measure positions in some other scalar domain map each
/// coordinate onto this grid with an order-preserving encoding; the builder
/// only ever compares coordinates and accumulates componentwise minima and
/// maxima, so the ordering is all that matters.
#[derive(Clone, Copy, PartialEq, Eq, Debug)]
pub struct Vec3 {
    pub x: i32,
    pub y: i32,
    pub z: i32,
}

/// One triangle of the soup: three vertex positions and three per-vertex
/// normals. Immutable, copyable value type; the normals are carried along
/// unchanged and never inspected by the builder.
#[derive(Clone, Copy, PartialEq, Eq, Debug)]
pub struct Triangle {
    pub v0: Vec3,
    pub v1: Vec3,
    pub v2: Vec3,
    pub n0: Vec3,
    pub n1: Vec3,
    pub n2: Vec3,
}

} // verus!
