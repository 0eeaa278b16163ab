//! The scene's background color.

use vstd::prelude::*;

verus! {

/// Bit pattern of the `f64` channel value `0.0`.
pub const CHANNEL_ZERO: u64 = 0;

/// Bit pattern of the `f64` channel value `1.0`.
pub const CHANNEL_ONE: u64 = 0x3FF0_0000_0000_0000;

/// An RGBA color with double-precision channels, stored as `f64` bit
/// patterns. The renderer core never computes on channels — it stores them
/// and forwards them to the backend's clear pass — so carrying the raw bits
/// keeps the type free of floating point while losing nothing.
#[derive(Clone, Copy, Debug, PartialEq, Eq, Structural)]
pub struct Color {
    /// Red channel, as `f64` bits.
    pub r: u64,
    /// Green channel, as `f64` bits.
    pub g: u64,
    /// Blue channel, as `f64` bits.
    pub b: u64,
    /// Alpha channel, as `f64` bits.
    pub a: u64,
}

impl Color {
    /// Fully transparent black.
    pub fn transparent() -> (c: Color)
        ensures
            c == (Color { r: CHANNEL_ZERO, g: CHANNEL_ZERO, b: CHANNEL_ZERO, a: CHANNEL_ZERO }),
    {
        Color { r: CHANNEL_ZERO, g: CHANNEL_ZERO, b: CHANNEL_ZERO, a: CHANNEL_ZERO }
    }

    /// Opaque black.
    pub fn black() -> (c: Color)
        ensures
            c == (Color { r: CHANNEL_ZERO, g: CHANNEL_ZERO, b: CHANNEL_ZERO, a: CHANNEL_ONE }),
    {
        Color { r: CHANNEL_ZERO, g: CHANNEL_ZERO, b: CHANNEL_ZERO, a: CHANNEL_ONE }
    }

    /// Opaque white.
    pub fn white() -> (c: Color)
        ensures
            c == (Color { r: CHANNEL_ONE, g: CHANNEL_ONE, b: CHANNEL_ONE, a: CHANNEL_ONE }),
    {
        Color { r: CHANNEL_ONE, g: CHANNEL_ONE, b: CHANNEL_ONE, a: CHANNEL_ONE }
    }

    /// Opaque red.
    pub fn red() -> (c: Color)
        ensures
            c == (Color { r: CHANNEL_ONE, g: CHANNEL_ZERO, b: CHANNEL_ZERO, a: CHANNEL_ONE }),
    {
        Color { r: CHANNEL_ONE, g: CHANNEL_ZERO, b: CHANNEL_ZERO, a: CHANNEL_ONE }
    }

    /// Opaque green.
    pub fn green() -> (c: Color)
        ensures
            c == (Color { r: CHANNEL_ZERO, g: CHANNEL_ONE, b: CHANNEL_ZERO, a: CHANNEL_ONE }),
    {
        Color { r: CHANNEL_ZERO, g: CHANNEL_ONE, b: CHANNEL_ZERO, a: CHANNEL_ONE }
    }

    /// Opaque blue.
    pub fn blue() -> (c: Color)
        ensures
            c == (Color { r: CHANNEL_ZERO, g: CHANNEL_ZERO, b: CHANNEL_ONE, a: CHANNEL_ONE }),
    {
        Color { r: CHANNEL_ZERO, g: CHANNEL_ZERO, b: CHANNEL_ONE, a: CHANNEL_ONE }
    }
}

} // verus!
