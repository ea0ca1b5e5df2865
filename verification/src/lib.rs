//! A color quantizer for RGBA8 images, verified with Verus.
//!
//! The library turns true-color image data into a palette and an indexed image:
//! a histogram of the input colors is split into buckets by a variance-driven
//! quantizer, the bucket means are refined with K-Means, and the image is
//! remapped to palette indices by nearest-color lookup in a k-d tree, optionally
//! with ordered or Floyd-Steinberg dithering.
//!
//! All arithmetic in quantization space is fixed-point: a channel value `v`
//! stands for the real number `v / 65536`. Gamma curves need floating point and
//! are supplied by the caller through the [`ColorSpace`] trait.

pub mod basicapi;
pub mod color;
pub mod colormap;
pub mod colorspace;
pub mod ditherer;
pub mod histogram;
pub mod kmeans;
pub mod moments;
pub mod optimizer;
pub mod palettesort;
pub mod quantizer;
pub mod random_sample;
pub mod remapper;
pub mod sorting;
pub mod testdata;

pub use basicapi::{convert_to_indexed, generate_palette};
pub use color::{Color, Vec4, Vector4};
pub use colormap::ColorMap;
pub use colorspace::ColorSpace;
pub use histogram::{ColorCount, Histogram};
pub use palettesort::sort_palette;
pub use quantizer::Quantizer;
pub use remapper::Remapper;
