//! Material records: plain style data consumed when a node is constructed.
//!
//! The renderer does not keep materials around; they parameterize geometry
//! at construction time only.

use vstd::prelude::*;
use crate::color::Color;

verus! {

/// Flat-color material for meshes.
#[derive(Clone, Copy, Debug, PartialEq, Eq, Structural)]
pub struct MeshBasicMaterial {
    pub color: Color,
}

/// Style data for line objects.
///
/// `line_width` and `alpha` are `f32` bit patterns; `linecap` and `linejoin`
/// name the end-cap and joint styles (`"butt"`, `"round"`, `"square"`,
/// `"bevel"`, `"miter"`).
pub struct LineBasicMaterial {
    pub color: Color,
    pub line_width: u32,
    pub linecap: String,
    pub linejoin: String,
    pub alpha: u32,
}

} // verus!
