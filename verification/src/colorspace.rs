//! The color spaces in which quantization and dithering take place.

use vstd::prelude::*;
use crate::color::{Color, Vec4};

verus! {

/// The transforms between RGBA8 and quantization space, and between
/// quantization space and the space in which dithering error is diffused.
///
/// Gamma curves are powers with fractional exponents, so an implementation
/// computes them in floating point and rounds to fixed point. What the library
/// relies on is that each transform is a function of its argument, and that
/// colors headed for storage stay in range.
///
/// Each transform has a model, of which the contracts of the library speak.
/// An implementation that is not verified defines the model of a transform as
/// the transform itself.
pub trait ColorSpace {
    /// The quantization-space color of an RGBA8 color.
    spec fn quantized(&self, color: Color) -> Vec4;

    /// The RGBA8 color that a quantization-space color is output as.
    spec fn output(&self, color: Vec4) -> Color;

    /// The dither-space image of a quantization-space color.
    spec fn dithered(&self, color: Vec4) -> Vec4;

    /// The quantization-space image of a dither-space color.
    spec fn undithered(&self, color: Vec4) -> Vec4;

    /// Converts an RGBA8 color to quantization space.
    fn to_float(&self, color: Color) -> (v: Vec4)
        ensures
            v == self.quantized(color),
            v.in_range(),
    ;

    /// Converts a quantization-space color back to RGBA8, clamping each
    /// channel into the 8-bit range.
    fn from_float(&self, color: Vec4) -> (c: Color)
        ensures
            c == self.output(color),
    ;

    /// Converts a quantization-space color to dither space.
    fn to_dither(&self, color: Vec4) -> (d: Vec4)
        ensures
            d == self.dithered(color),
            d.in_range(),
    ;

    /// Converts a dither-space color to quantization space.
    fn from_dither(&self, color: Vec4) -> (q: Vec4)
        ensures
            q == self.undithered(color),
    ;
}

} // verus!
