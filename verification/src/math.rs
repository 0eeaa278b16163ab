//! The 4x4 transform matrix carried by scene nodes and camera uniforms.

use vstd::prelude::*;

verus! {

/// Bit pattern of the `f32` value `0.0`.
pub const F32_ZERO: u32 = 0;

/// Bit pattern of the `f32` value `1.0`.
pub const F32_ONE: u32 = 0x3F80_0000;

/// A 4x4 single-precision matrix, stored column-major as `f32` bit patterns
/// (`mCR` is column `C`, row `R`). The core stores transforms and forwards
/// the camera's view-projection matrix to the uniform buffer; it never does
/// matrix arithmetic, so the raw bits are all it needs.
#[derive(Clone, Copy, Debug, PartialEq, Eq, Structural)]
pub struct Mat4 {
    pub m00: u32,
    pub m01: u32,
    pub m02: u32,
    pub m03: u32,
    pub m10: u32,
    pub m11: u32,
    pub m12: u32,
    pub m13: u32,
    pub m20: u32,
    pub m21: u32,
    pub m22: u32,
    pub m23: u32,
    pub m30: u32,
    pub m31: u32,
    pub m32: u32,
    pub m33: u32,
}

impl Mat4 {
    /// The identity matrix: ones on the diagonal, zeros elsewhere.
    pub fn identity() -> (m: Mat4)
        ensures
            m == Mat4::spec_identity(),
    {
        Mat4 {
            m00: F32_ONE,
            m01: F32_ZERO,
            m02: F32_ZERO,
            m03: F32_ZERO,
            m10: F32_ZERO,
            m11: F32_ONE,
            m12: F32_ZERO,
            m13: F32_ZERO,
            m20: F32_ZERO,
            m21: F32_ZERO,
            m22: F32_ONE,
            m23: F32_ZERO,
            m30: F32_ZERO,
            m31: F32_ZERO,
            m32: F32_ZERO,
            m33: F32_ONE,
        }
    }

    /// The identity matrix, as a spec-level value.
    pub open spec fn spec_identity() -> Mat4 {
        Mat4 {
            m00: F32_ONE,
            m01: F32_ZERO,
            m02: F32_ZERO,
            m03: F32_ZERO,
            m10: F32_ZERO,
            m11: F32_ONE,
            m12: F32_ZERO,
            m13: F32_ZERO,
            m20: F32_ZERO,
            m21: F32_ZERO,
            m22: F32_ONE,
            m23: F32_ZERO,
            m30: F32_ZERO,
            m31: F32_ZERO,
            m32: F32_ZERO,
            m33: F32_ONE,
        }
    }
}

} // verus!
