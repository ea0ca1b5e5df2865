//! The whole workflow in one call.

use vstd::prelude::*;
use crate::color::{integer_sqrt, Color};
use crate::colormap::{ColorMap, PALETTE_MAX};
use crate::colorspace::ColorSpace;
use crate::ditherer::{Ditherer, NoDither};
use crate::histogram::{ColorCount, Histogram};
use crate::moments::COUNT_MAX;
use crate::optimizer::{NoOptimizer, Optimizer};
use crate::palettesort::sort_palette;
use crate::quantizer::Quantizer;
use crate::remapper::Remapper;

verus! {

/// The square root of `n`, rounded to the nearest integer.
pub open spec fn rounded_sqrt(n: nat) -> nat {
    let r = crate::color::isqrt(n);
    if n > r * r + r {
        r + 1
    } else {
        r
    }
}

/// After how many quantizer steps the palette is optimized while it is
/// generated: after every step for up to 16 colors, about every square root
/// of the number of colors up to 64, and once at the end beyond that.
pub open spec fn optimization_interval(num_colors: nat) -> nat {
    if num_colors > 64 {
        num_colors
    } else if num_colors <= 16 {
        1
    } else {
        rounded_sqrt(num_colors)
    }
}

/// Computes `optimization_interval`.
pub fn kmeans_interval(num_colors: usize) -> (step: usize)
    requires
        num_colors <= PALETTE_MAX,
    ensures
        step == optimization_interval(num_colors as nat),
        step >= 1,
{
    if num_colors > 64 {
        num_colors
    } else if num_colors <= 16 {
        1
    } else {
        let r = integer_sqrt(num_colors as u128);
        proof {
            assert(r >= 1 && r <= 64) by (nonlinear_arith)
                requires
                    r * r <= num_colors,
                    num_colors < (r + 1) * (r + 1),
                    16 < num_colors <= 64,
            ;
            assert(r * r <= 64 * 64) by (nonlinear_arith)
                requires
                    0 <= r <= 64,
            ;
        }
        if num_colors as u64 > r * r + r {
            (r + 1) as usize
        } else {
            r as usize
        }
    }
}

/// The buckets after `steps` more steps of generating a palette: after each
/// quantization step the buckets are optimized with four iterations if their
/// number is a multiple of the interval.
pub open spec fn generated<O: Optimizer>(
    optimizer: &O,
    buckets: Seq<Seq<ColorCount>>,
    steps: nat,
    interval: nat,
) -> Seq<Seq<ColorCount>>
    decreases steps,
{
    if steps == 0 {
        buckets
    } else {
        let split = crate::quantizer::split_step(buckets);
        let next = if interval > 0 && split.len() % interval == 0 {
            crate::quantizer::optimized_buckets(optimizer, split, 4)
        } else {
            split
        };
        generated(optimizer, next, (steps - 1) as nat, interval)
    }
}

/// The palette that is generated for the entries of a histogram.
pub open spec fn generated_palette<C: ColorSpace, O: Optimizer>(
    colorspace: &C,
    optimizer: &O,
    entries: Seq<ColorCount>,
    num_colors: nat,
) -> Seq<Color> {
    crate::quantizer::palette_of(
        colorspace,
        generated(
            optimizer,
            seq![crate::quantizer::arranged(entries)],
            if num_colors >= 1 {
                (num_colors - 1) as nat
            } else {
                0
            },
            optimization_interval(num_colors),
        ),
    )
}

/// With an optimizer that is a no-op, generating is plain stepping.
pub proof fn lemma_generated_plainly<O: Optimizer>(
    optimizer: &O,
    buckets: Seq<Seq<ColorCount>>,
    steps: nat,
    interval: nat,
)
    requires
        optimizer.noop(),
    ensures
        generated(optimizer, buckets, steps, interval) == crate::quantizer::stepped(buckets, steps),
    decreases steps,
{
    if steps > 0 {
        let split = crate::quantizer::split_step(buckets);
        lemma_generated_plainly(optimizer, split, (steps - 1) as nat, interval);
        crate::quantizer::lemma_stepped_first(buckets, (steps - 1) as nat);
    }
}

/// A convenience function to just generate a palette from a histogram with sensible defaults:
/// the quantizer is stepped up to `num_colors` colors and optimized with four K-Means
/// iterations whenever the number of colors is a multiple of the optimization interval.
/// With an optimizer that is a no-op this is the palette of plain stepping.
pub fn generate_palette<C: ColorSpace, O: Optimizer>(
    hist: &Histogram,
    colorspace: &C,
    optimizer: &O,
    num_colors: usize,
) -> (palette: Vec<Color>)
    requires
        hist.wf(),
        hist.total() <= COUNT_MAX,
        num_colors <= PALETTE_MAX,
    ensures
        palette@ == generated_palette(
            colorspace,
            optimizer,
            crate::histogram::quantized_counts(colorspace, hist.entries()),
            num_colors as nat,
        ),
        palette@.len() == if num_colors >= 1 {
            num_colors as int
        } else {
            1
        },
        optimizer.noop() ==> palette@ == crate::quantizer::palette_of(
            colorspace,
            crate::quantizer::stepped(
                seq![
                    crate::quantizer::arranged(
                        crate::histogram::quantized_counts(colorspace, hist.entries()),
                    ),
                ],
                if num_colors >= 1 {
                    (num_colors - 1) as nat
                } else {
                    0
                },
            ),
        ),
{
    let mut quantizer = Quantizer::new(hist, colorspace);
    let ghost start = quantizer.buckets();
    let kmeans_step = kmeans_interval(num_colors);
    let ghost total: nat = if num_colors >= 1 {
        (num_colors - 1) as nat
    } else {
        0
    };
    while quantizer.num_colors() < num_colors
        invariant
            quantizer.wf(),
            start.len() == 1,
            quantizer.buckets().len() >= 1,
            quantizer.buckets().len() <= num_colors || quantizer.buckets().len() == 1,
            optimizer.noop() ==> quantizer.buckets() == crate::quantizer::stepped(
                start,
                (quantizer.buckets().len() - 1) as nat,
            ),
            generated(
                optimizer,
                quantizer.buckets(),
                if num_colors >= quantizer.buckets().len() {
                    (num_colors - quantizer.buckets().len()) as nat
                } else {
                    0
                },
                kmeans_step as nat,
            ) == generated(optimizer, start, total, kmeans_step as nat),
            num_colors <= PALETTE_MAX,
            kmeans_step >= 1,
        decreases num_colors - quantizer.buckets().len(),
    {
        quantizer.step();
        if quantizer.num_colors() % kmeans_step == 0 {
            quantizer = quantizer.optimize(optimizer, 4);
        }
    }
    quantizer.colors(colorspace)
}

/// Whether `sorted_palette` and `sorted_image` show the image remapped to
/// `palette`: `map` is the map of the palette, `picked` are the indices that
/// the ditherer picks for the pixels, `order` is the order in which the
/// palette is sorted for these indices, and the sorted palette and image are
/// the palette and the indices renumbered by it.
pub open spec fn is_indexed<C: ColorSpace, D: Ditherer<C>>(
    colorspace: &C,
    ditherer: &D,
    image: Seq<Color>,
    width: int,
    palette: Seq<Color>,
    map: ColorMap,
    picked: Seq<u8>,
    order: Seq<usize>,
    sorted_palette: Seq<Color>,
    sorted_image: Seq<u8>,
) -> bool {
    &&& map.wf()
    &&& map.colors().len() == palette.len()
    &&& forall|i: int|
        0 <= i < palette.len() ==> #[trigger] map.colors()[i] == colorspace.quantized(palette[i])
    &&& picked.len() == image.len()
    &&& forall|k: int|
        0 <= k < image.len() ==> #[trigger] picked[k] as usize == ditherer.remapped(
            crate::remapper::quantized_image(colorspace, image),
            width,
            map,
            colorspace,
        )[k]
    &&& crate::palettesort::is_palette_order(order, picked, palette.len() as int)
    &&& sorted_palette.len() == palette.len()
    &&& sorted_image.len() == image.len()
    &&& forall|a: int|
        0 <= a < palette.len() ==> #[trigger] sorted_palette[a] == palette[order[a] as int]
    &&& forall|k: int|
        0 <= k < image.len() ==> (#[trigger] sorted_image[k] as int) < palette.len()
            && order[sorted_image[k] as int] == picked[k]
}

/// An image of one color, remapped without dithering and sorted, is all
/// zeros, and the first color of its palette is the palette color nearest to
/// the color of the image.
pub proof fn lemma_constant_image_indexed<C: ColorSpace>(
    colorspace: &C,
    image: Seq<Color>,
    width: int,
    palette: Seq<Color>,
    map: ColorMap,
    picked: Seq<u8>,
    order: Seq<usize>,
    sorted_palette: Seq<Color>,
    sorted_image: Seq<u8>,
)
    requires
        is_indexed(
            colorspace,
            &NoDither,
            image,
            width,
            palette,
            map,
            picked,
            order,
            sorted_palette,
            sorted_image,
        ),
        image.len() > 0,
        palette.len() <= 256,
        forall|k: int| 0 <= k < image.len() ==> #[trigger] image[k] == image[0],
    ensures
        forall|k: int| 0 <= k < image.len() ==> #[trigger] sorted_image[k] == 0,
        sorted_palette[0] == palette[map.nearest(colorspace.quantized(image[0])) as int],
        forall|j: int|
            0 <= j < palette.len() ==> colorspace.quantized(image[0])@.dist_sq(
                colorspace.quantized(sorted_palette[0])@,
            ) <= colorspace.quantized(image[0])@.dist_sq(
                #[trigger] colorspace.quantized(palette[j])@,
            ),
        (palette.contains(image[0]) && forall|x: Color| #[trigger]
            colorspace.output(colorspace.quantized(x)) == x) ==> sorted_palette[0] == image[0],
{
    let color = colorspace.quantized(image[0]);
    let nearest = map.nearest(color);
    map.lemma_nearest(color);
    let pixels = crate::remapper::quantized_image(colorspace, image);
    let remapped = NoDither.remapped(pixels, width, map, colorspace);
    assert forall|k: int| 0 <= k < image.len() implies #[trigger] picked[k] == nearest as u8 by {
        assert(pixels[k] == colorspace.quantized(image[k]));
        assert(remapped[k] == map.nearest(pixels[k]));
        assert(picked[k] as usize == remapped[k]);
    }
    crate::palettesort::lemma_constant_image(
        order,
        picked,
        palette.len() as int,
        nearest as u8,
        sorted_image,
    );
    assert forall|j: int| 0 <= j < palette.len() implies color@.dist_sq(
        colorspace.quantized(sorted_palette[0])@,
    ) <= color@.dist_sq(#[trigger] colorspace.quantized(palette[j])@) by {
        assert(map.colors()[j] == colorspace.quantized(palette[j]));
        assert(map.colors()[nearest as int] == colorspace.quantized(palette[nearest as int]));
    }
    if palette.contains(image[0]) && forall|x: Color| #[trigger]
        colorspace.output(colorspace.quantized(x)) == x {
        let j = choose|j: int| 0 <= j < palette.len() && palette[j] == image[0];
        let found = colorspace.quantized(sorted_palette[0]);
        assert(color@.dist_sq(colorspace.quantized(palette[j])@) == 0) by {
            let d = color@.minus(color@);
            assert(d.norm_sq() == 0) by (nonlinear_arith)
                requires
                    d.x == 0 && d.y == 0 && d.z == 0 && d.w == 0,
                    d.norm_sq() == d.x * d.x + d.y * d.y + d.z * d.z + d.w * d.w,
            ;
        }
        crate::kmeans::lemma_zero_distance(color@, found@);
        assert(found == color);
        assert(colorspace.output(found) == sorted_palette[0]);
    }
}

/// The entries of the histogram of an image, in quantization space.
pub open spec fn image_entries<C: ColorSpace>(colorspace: &C, image: Seq<Color>) -> Seq<
    ColorCount,
> {
    crate::histogram::quantized_counts(
        colorspace,
        crate::histogram::with_pixels(Seq::empty(), image),
    )
}

/// The palette that an image is converted to, before it is sorted: the
/// palette generated from the histogram of the image, optimized with eight
/// more iterations.
pub open spec fn image_palette<C: ColorSpace, O: Optimizer>(
    colorspace: &C,
    optimizer: &O,
    image: Seq<Color>,
    num_colors: nat,
) -> Seq<Color> {
    crate::optimizer::optimized_palette(
        optimizer,
        colorspace,
        generated_palette(colorspace, optimizer, image_entries(colorspace, image), num_colors),
        image_entries(colorspace, image),
        8,
    )
}

/// An image of one color comes back as it was: converted without optimizer
/// and without dithering, in a color space that brings every RGBA8 color back
/// from quantization space unchanged, the first color of its palette is the
/// color of the image and every index is 0.
pub proof fn lemma_constant_image_round_trip<C: ColorSpace>(
    colorspace: &C,
    image: Seq<Color>,
    width: int,
    num_colors: nat,
    map: ColorMap,
    picked: Seq<u8>,
    order: Seq<usize>,
    sorted_palette: Seq<Color>,
    sorted_image: Seq<u8>,
)
    requires
        0 < image.len() <= usize::MAX,
        1 <= num_colors <= 256,
        forall|k: int| 0 <= k < image.len() ==> #[trigger] image[k] == image[0],
        forall|x: Color| #[trigger] colorspace.output(colorspace.quantized(x)) == x,
        is_indexed(
            colorspace,
            &NoDither,
            image,
            width,
            image_palette(colorspace, &NoOptimizer, image, num_colors),
            map,
            picked,
            order,
            sorted_palette,
            sorted_image,
        ),
    ensures
        sorted_palette[0] == image[0],
        forall|k: int| 0 <= k < image.len() ==> #[trigger] sorted_image[k] == 0,
{
    let color = image[0];
    let entries = image_entries(colorspace, image);
    let entry = ColorCount { color: colorspace.quantized(color), count: image.len() as usize };
    crate::histogram::lemma_constant_entries(image, color);
    assert(entries =~= seq![entry]);
    let steps = (num_colors - 1) as nat;
    let start = seq![crate::quantizer::arranged(entries)];
    lemma_generated_plainly(&NoOptimizer, start, steps, optimization_interval(num_colors));
    crate::quantizer::lemma_single_entry(colorspace, entry, steps);
    crate::quantizer::lemma_stepped_len(start, steps);
    let palette = image_palette(colorspace, &NoOptimizer, image, num_colors);
    assert(palette == crate::quantizer::palette_of(
        colorspace,
        crate::quantizer::stepped(start, steps),
    ));
    assert(palette.contains(color));
    lemma_constant_image_indexed(
        colorspace,
        image,
        width,
        palette,
        map,
        picked,
        order,
        sorted_palette,
        sorted_image,
    );
}

/// A convenience function to simply quantize an image with sensible defaults.
///
/// A palette is generated from the histogram of the image and optimized with eight K-Means
/// iterations, the image is remapped to it, and palette and image are sorted so that colors
/// that are neighbors in the image are neighbors in the palette. What is returned is that
/// palette in its sorted order, and the indices that the ditherer picked, renumbered to it.
pub fn convert_to_indexed<C: ColorSpace, D: Ditherer<C>, O: Optimizer>(
    image: &Vec<Color>,
    width: usize,
    num_colors: usize,
    colorspace: &C,
    optimizer: &O,
    ditherer: &D,
) -> (indexed: (Vec<Color>, Vec<u8>))
    requires
        image@.len() <= COUNT_MAX,
        1 <= num_colors <= 256,
        0 < width <= usize::MAX / 2,
        ditherer.valid(),
    ensures
        indexed.0@.len() == num_colors,
        indexed.1@.len() == image@.len(),
        forall|k: int| 0 <= k < image@.len() ==> (#[trigger] indexed.1@[k] as int) < num_colors,
        exists|map: ColorMap, picked: Seq<u8>, order: Seq<usize>| #[trigger]
            is_indexed(
                colorspace,
                ditherer,
                image@,
                width as int,
                image_palette(colorspace, optimizer, image@, num_colors as nat),
                map,
                picked,
                order,
                indexed.0@,
                indexed.1@,
            ),
{
    let hist = Histogram::from_pixels(image);
    let palette = generate_palette(&hist, colorspace, optimizer, num_colors);
    let palette = crate::optimizer::optimize_with(optimizer, colorspace, &palette, &hist, 8);
    let remapper = Remapper::new(&palette, colorspace, ditherer);
    let indices = remapper.remap(image, width);
    let sorted = sort_palette(&palette, &indices);
    proof {
        let order = choose|m: Seq<usize>|
            {
                &&& crate::palettesort::is_palette_order(m, indices@, palette@.len() as int)
                &&& forall|a: int|
                    0 <= a < palette@.len() ==> #[trigger] sorted.0@[a] == palette@[m[a] as int]
                &&& forall|k: int|
                    0 <= k < indices@.len() ==> m[#[trigger] sorted.1@[k] as int] == indices@[k]
            };
        let map = remapper.map();
        assert(palette@ == image_palette(colorspace, optimizer, image@, num_colors as nat));
        assert(remapper.remapped(image@, width as int) == ditherer.remapped(
            crate::remapper::quantized_image(colorspace, image@),
            width as int,
            map,
            colorspace,
        ));
        assert(is_indexed(
            colorspace,
            ditherer,
            image@,
            width as int,
            palette@,
            map,
            indices@,
            order,
            sorted.0@,
            sorted.1@,
        ));
    }
    sorted
}

} // verus!
