//! Vertex formats understood by the draw pipelines.
//!
//! Coordinates are single-precision floats on the GPU side; the core carries
//! them as `f32` bit patterns and never computes on them. Geometry
//! generation — where the arithmetic happens — is the caller's business.

use vstd::prelude::*;

verus! {

/// A bare position vertex (`x`, `y`, `z` are `f32` bits).
#[derive(Clone, Copy, Debug, PartialEq, Eq, Structural)]
pub struct Vertex {
    pub x: u32,
    pub y: u32,
    pub z: u32,
}

/// A vertex carrying a position and an RGB color (all fields `f32` bits).
#[derive(Clone, Copy, Debug, PartialEq, Eq, Structural)]
pub struct VertexWithColor {
    pub x: u32,
    pub y: u32,
    pub z: u32,
    pub r: u32,
    pub g: u32,
    pub b: u32,
}

/// A vertex carrying a position and texture coordinates (all fields `f32`
/// bits).
#[derive(Clone, Copy, Debug, PartialEq, Eq, Structural)]
pub struct VertexWithTexture {
    pub x: u32,
    pub y: u32,
    pub z: u32,
    pub u: u32,
    pub v: u32,
}

} // verus!
