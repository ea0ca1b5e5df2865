//! Remapping images to a palette.

use vstd::prelude::*;
use crate::color::{Color, Vec4};
use crate::colormap::{ColorMap, PALETTE_MAX};
use crate::colorspace::ColorSpace;
use crate::ditherer::Ditherer;

verus! {

/// The pixels in quantization space.
pub open spec fn quantized_image<C: ColorSpace>(colorspace: &C, image: Seq<Color>) -> Seq<Vec4> {
    Seq::new(image.len(), |k: int| colorspace.quantized(image[k]))
}

/// A helper type to very slightly simplify remapping images using a `Ditherer`.
///
/// The plain `remap` function remaps a `&Vec<Color>` to a `Vec<u8>`, while
/// `remap_usize` remaps to `usize` instead of `u8`, in case you need palettes
/// with more than 256 colors.
pub struct Remapper<'a, C: ColorSpace, D: Ditherer<C>> {
    map: ColorMap,
    colorspace: &'a C,
    ditherer: &'a D,
}

impl<'a, C: ColorSpace, D: Ditherer<C>> Remapper<'a, C, D> {
    /// The map of the palette that images are remapped to.
    pub closed spec fn map(&self) -> ColorMap {
        self.map
    }

    /// The color space in which the palette is looked up.
    pub closed spec fn colorspace(&self) -> &C {
        self.colorspace
    }

    /// The ditherer that picks the indices.
    pub closed spec fn ditherer(&self) -> &D {
        self.ditherer
    }

    /// The invariant of the remapper: its map is well-formed and its ditherer
    /// valid.
    pub closed spec fn wf(&self) -> bool {
        self.map.wf() && self.ditherer.valid()
    }

    /// The palette indices of the pixels of `image`, as the ditherer picks
    /// them.
    pub open spec fn remapped(&self, image: Seq<Color>, width: int) -> Seq<usize> {
        self.ditherer().remapped(
            quantized_image(self.colorspace(), image),
            width,
            self.map(),
            self.colorspace(),
        )
    }

    /// Create a new Remapper instance for the given palette, colorspace and ditherer.
    pub fn new(palette: &Vec<Color>, colorspace: &'a C, ditherer: &'a D) -> (r: Remapper<'a, C, D>)
        requires
            1 <= palette@.len() <= PALETTE_MAX,
            ditherer.valid(),
        ensures
            r.wf(),
            r.colorspace() == colorspace,
            r.ditherer() == ditherer,
            r.map().wf(),
            r.map().colors().len() == palette@.len(),
            forall|i: int|
                0 <= i < palette@.len() ==> #[trigger] r.map().colors()[i] == colorspace.quantized(
                    palette@[i],
                ),
    {
        Remapper { map: ColorMap::new(palette, colorspace), colorspace, ditherer }
    }

    /// Remap and dither a `&Vec<Color>` to a `Vec<u8>`.
    pub fn remap(&self, image: &Vec<Color>, width: usize) -> (indices: Vec<u8>)
        requires
            self.wf(),
            self.map().colors().len() <= 256,
            0 < width <= usize::MAX / 2,
        ensures
            indices@.len() == image@.len(),
            forall|k: int|
                0 <= k < image@.len() ==> #[trigger] indices@[k] as usize == self.remapped(
                    image@,
                    width as int,
                )[k],
            forall|k: int|
                0 <= k < image@.len() ==> (#[trigger] indices@[k] as int) < self.map().colors().len(),
    {
        let wide = self.remap_usize(image, width);
        let mut indices: Vec<u8> = Vec::with_capacity(wide.len());
        let mut k: usize = 0;
        while k < wide.len()
            invariant
                k <= wide@.len(),
                self.map().colors().len() <= 256,
                forall|j: int|
                    0 <= j < wide@.len() ==> #[trigger] wide@[j] < self.map().colors().len(),
                indices@.len() == k,
                forall|j: int| 0 <= j < k ==> #[trigger] indices@[j] as usize == wide@[j],
            decreases wide@.len() - k,
        {
            indices.push(wide[k] as u8);
            k += 1;
        }
        indices
    }

    /// Remap and dither a `&Vec<Color>` to a `Vec<usize>`.
    pub fn remap_usize(&self, image: &Vec<Color>, width: usize) -> (indices: Vec<usize>)
        requires
            self.wf(),
            0 < width <= usize::MAX / 2,
        ensures
            indices@ == self.remapped(image@, width as int),
            indices@.len() == image@.len(),
            forall|k: int|
                0 <= k < indices@.len() ==> #[trigger] indices@[k] < self.map().colors().len(),
    {
        let mut pixels: Vec<Vec4> = Vec::with_capacity(image.len());
        let mut k: usize = 0;
        while k < image.len()
            invariant
                k <= image@.len(),
                pixels@.len() == k,
                forall|j: int|
                    0 <= j < k ==> #[trigger] pixels@[j] == self.colorspace.quantized(image@[j]),
                forall|j: int| 0 <= j < k ==> (#[trigger] pixels@[j]).in_range(),
            decreases image@.len() - k,
        {
            pixels.push(self.colorspace.to_float(image[k]));
            k += 1;
        }
        assert(pixels@ =~= quantized_image(self.colorspace, image@));
        self.ditherer.remap(&pixels, width, &self.map, self.colorspace)
    }
}

} // verus!
