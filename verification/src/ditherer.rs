//! Dithered remapping

use vstd::prelude::*;
use crate::color::{div_floor, Vec4, Vector4, Wide4, CHANNEL_MAX};
use crate::colormap::ColorMap;
use crate::colorspace::ColorSpace;

verus! {

/// An interface for dithered color remapping.
///
/// End users of this library will most likely not call `remap` directly, but rather use
/// the `Remapper` helper.
///
/// The contracts of the library speak of a ditherer through `valid`, which says whether its
/// configuration is one that `remap` can work with, and `remapped`, the indices that `remap`
/// returns.
pub trait Ditherer<C: ColorSpace> {
    /// Whether the configuration of the ditherer is one that `remap` can
    /// work with.
    spec fn valid(&self) -> bool;

    /// The palette indices that `remap` returns.
    spec fn remapped(
        &self,
        image: Seq<Vec4>,
        width: int,
        map: ColorMap,
        colorspace: &C,
    ) -> Seq<usize>;

    /// Remaps the pixels of an image, given in quantization space and in row-major order, to
    /// palette indices.
    fn remap(
        &self,
        image: &Vec<Vec4>,
        width: usize,
        map: &ColorMap,
        colorspace: &C,
    ) -> (indices: Vec<usize>)
        requires
            self.valid(),
            map.wf(),
            0 < width <= usize::MAX / 2,
            forall|k: int| 0 <= k < image@.len() ==> (#[trigger] image@[k]).in_range(),
        ensures
            indices@ == self.remapped(image@, width as int, *map, colorspace),
            indices@.len() == image@.len(),
            forall|k: int| 0 <= k < indices@.len() ==> #[trigger] indices@[k] < map.colors().len(),
    ;
}

/// A Ditherer that simply remaps each pixel to the nearest palette index without any actual
/// dithering.
pub struct NoDither;

impl<C: ColorSpace> Ditherer<C> for NoDither {
    open spec fn valid(&self) -> bool {
        true
    }

    open spec fn remapped(
        &self,
        image: Seq<Vec4>,
        width: int,
        map: ColorMap,
        colorspace: &C,
    ) -> Seq<usize> {
        Seq::new(image.len(), |k: int| map.nearest(image[k]))
    }

    fn remap(
        &self,
        image: &Vec<Vec4>,
        width: usize,
        map: &ColorMap,
        colorspace: &C,
    ) -> (indices: Vec<usize>) {
        let mut indices: Vec<usize> = Vec::with_capacity(image.len());
        let mut k: usize = 0;
        while k < image.len()
            invariant
                k <= image@.len(),
                map.wf(),
                indices@.len() == k,
                forall|j: int| 0 <= j < k ==> #[trigger] indices@[j] == map.nearest(image@[j]),
                forall|j: int| 0 <= j < k ==> #[trigger] indices@[j] < map.colors().len(),
            decreases image@.len() - k,
        {
            indices.push(map.find_nearest(image[k]));
            k += 1;
        }
        assert(indices@ =~= Ditherer::<C>::remapped(self, image@, width as int, *map, colorspace));
        indices
    }
}

/// The 2x2 dither matrix at column `x` of row `y`, in 32nds of the distance
/// to the nearest neighbor: the Bayer matrix (-0.375, 0.125, 0.375, -0.125)
/// damped by 0.75.
pub open spec fn bayer(x: int, y: int) -> int {
    let cell = (x % 2) + (y % 2) * 2;
    if cell == 0 {
        -9
    } else if cell == 1 {
        3
    } else if cell == 2 {
        9
    } else {
        -3
    }
}

/// The color that ordered dithering looks up for the pixel `c` at column `x`
/// of row `y`: every channel is moved by the dither matrix times the distance
/// from the pixel's nearest palette color to that color's nearest neighbor.
pub open spec fn ordered_target(map: ColorMap, c: Vec4, x: int, y: int) -> Vec4 {
    let d = map.distance_to_neighbor(map.nearest(c) as int);
    let offset = (d * bayer(x, y)) / 32;
    Vec4::from_vector(
        Vector4 { x: c.x + offset, y: c.y + offset, z: c.z + offset, w: c.w + offset },
    )
}

/// The palette index that ordered dithering emits for the pixel `c` at column
/// `x` of row `y`. A palette of one color has no neighbor distance: the pixel
/// gets that color.
pub open spec fn ordered_index(map: ColorMap, c: Vec4, x: int, y: int) -> usize {
    if map.colors().len() == 1 {
        map.nearest(c)
    } else {
        map.nearest(ordered_target(map, c, x, y))
    }
}

/// A 2x2 ordered dithering.
///
/// An ordered ditherer features slightly worse dithering quality than a floyd-steinberg ditherer,
/// but might look more pleasing as it appears less like random noise. An ordered dithered image
/// also has the advantage of compressing a lot better than floyd-steinberg dithered ones.
///
/// Note: don't use ordered dithering on images that are intended to be down-scaled later or risk
/// moire artifacts.
pub struct Ordered;

impl Ordered {
    /// The distance between two palette colors, rounded down, is at most
    /// four channel bounds.
    proof fn lemma_neighbor_bound(map: ColorMap, i: int)
        requires
            map.wf(),
            0 <= i < map.colors().len(),
            map.colors().len() >= 2,
        ensures
            map.distance_to_neighbor(i) <= 4 * CHANNEL_MAX,
    {
        map.lemma_palette();
        map.lemma_neighbor_distance(i);
        let colors = map.colors();
        let d = map.distance_to_neighbor(i);
        let j = choose|j: int|
            0 <= j < colors.len() && j != i && d == crate::color::isqrt(
                #[trigger] colors[i]@.dist_sq(colors[j]@) as nat,
            );
        let v = colors[i]@.minus(colors[j]@);
        let b: int = 2 * CHANNEL_MAX;
        crate::color::lemma_product_bound(v.x, v.x, b);
        crate::color::lemma_product_bound(v.y, v.y, b);
        crate::color::lemma_product_bound(v.z, v.z, b);
        crate::color::lemma_product_bound(v.w, v.w, b);
        crate::color::lemma_square_nonnegative(v.x);
        crate::color::lemma_square_nonnegative(v.y);
        crate::color::lemma_square_nonnegative(v.z);
        crate::color::lemma_square_nonnegative(v.w);
        let r: nat = (4 * CHANNEL_MAX) as nat;
        assert(4 * (b * b) == r * r) by (nonlinear_arith)
            requires
                r == 2 * b,
        ;
        crate::color::lemma_isqrt_le(colors[i]@.dist_sq(colors[j]@) as nat, r);
    }
}

/// Ordered dithering never produces arbitrary indices: the color that is
/// looked up is the pixel moved by the same offset in every channel, the
/// offset is at most 9/32 of the distance from the pixel's nearest palette
/// color to that color's nearest neighbor (up to rounding), and the index
/// emitted is that of a palette color nearest to the color looked up.
pub proof fn lemma_ordered_dither(map: ColorMap, c: Vec4, x: int, y: int)
    requires
        map.wf(),
        c.in_range(),
        map.colors().len() >= 2,
    ensures
        ({
            let d = map.distance_to_neighbor(map.nearest(c) as int);
            let offset = (d * bayer(x, y)) / 32;
            let target = ordered_target(map, c, x, y);
            let emitted = ordered_index(map, c, x, y);
            &&& -(9 * d) - 31 <= 32 * offset <= 9 * d
            &&& target@ == c@.plus(Vector4 { x: offset, y: offset, z: offset, w: offset })
            &&& emitted < map.colors().len()
            &&& forall|j: int|
                0 <= j < map.colors().len() ==> target@.dist_sq(map.colors()[emitted as int]@)
                    <= target@.dist_sq(#[trigger] map.colors()[j]@)
        }),
{
    map.lemma_nearest(c);
    Ordered::lemma_neighbor_bound(map, map.nearest(c) as int);
    let d = map.distance_to_neighbor(map.nearest(c) as int) as int;
    let m = bayer(x, y);
    crate::color::lemma_scale_bound(m, d, 9);
    assert(m * d == d * m) by (nonlinear_arith);
    vstd::arithmetic::div_mod::lemma_fundamental_div_mod(d * m, 32);
    vstd::arithmetic::div_mod::lemma_mod_bound(d * m, 32);
    crate::color::lemma_div_bound(d * m, 32, 0x12_0000);
    map.lemma_nearest(ordered_target(map, c, x, y));
}

impl<C: ColorSpace> Ditherer<C> for Ordered {
    open spec fn valid(&self) -> bool {
        true
    }

    open spec fn remapped(
        &self,
        image: Seq<Vec4>,
        width: int,
        map: ColorMap,
        colorspace: &C,
    ) -> Seq<usize> {
        Seq::new(image.len(), |k: int| ordered_index(map, image[k], k % width, k / width))
    }

    fn remap(
        &self,
        image: &Vec<Vec4>,
        width: usize,
        map: &ColorMap,
        colorspace: &C,
    ) -> (indices: Vec<usize>) {
        let mut indices: Vec<usize> = Vec::with_capacity(image.len());
        let single = map.num_colors() == 1;
        let mut k: usize = 0;
        while k < image.len()
            invariant
                k <= image@.len(),
                map.wf(),
                width > 0,
                single == (map.colors().len() == 1),
                forall|k: int| 0 <= k < image@.len() ==> (#[trigger] image@[k]).in_range(),
                indices@.len() == k,
                forall|j: int|
                    0 <= j < k ==> #[trigger] indices@[j] == ordered_index(
                        *map,
                        image@[j],
                        j % (width as int),
                        j / (width as int),
                    ),
                forall|j: int| 0 <= j < k ==> #[trigger] indices@[j] < map.colors().len(),
            decreases image@.len() - k,
        {
            let color = image[k];
            let x = k % width;
            let y = k / width;
            let i = map.find_nearest(color);
            if single {
                indices.push(i);
            } else {
                let d = map.neighbor_distance(i);
                proof {
                    Self::lemma_neighbor_bound(*map, i as int);
                }
                let cell = (x % 2) + (y % 2) * 2;
                let dither: i128 = if cell == 0 {
                    -9
                } else if cell == 1 {
                    3
                } else if cell == 2 {
                    9
                } else {
                    -3
                };
                proof {
                    crate::color::lemma_scale_bound(dither as int, d as int, 9);
                    assert(dither * d == d * dither) by (nonlinear_arith);
                    crate::color::lemma_div_bound(d * dither, 32, 0x12_0000);
                }
                let offset: i128 = div_floor(d as i128 * dither, 32);
                let target = Vec4 {
                    x: (color.x as i128 + offset) as i32,
                    y: (color.y as i128 + offset) as i32,
                    z: (color.z as i128 + offset) as i32,
                    w: (color.w as i128 + offset) as i32,
                };
                assert(target == ordered_target(*map, color, x as int, y as int));
                indices.push(map.find_nearest(target));
            }
            k += 1;
        }
        assert(indices@ =~= Ditherer::<C>::remapped(self, image@, width as int, *map, colorspace));
        indices
    }
}

/// The coefficients of a Floyd-Steinberg ditherer: `a`, `b`, `c` and `d` are
/// the shares of a pixel's error that go to the pixel on its right and to
/// those below it on the left, straight below and on the right, in 32nds;
/// `e` is how much of the error carried to a pixel counts in its own error,
/// in 10ths.
pub struct Kernel {
    pub a: int,
    pub b: int,
    pub c: int,
    pub d: int,
    pub e: int,
}

/// A channel of an error, held to the range of a stored color.
pub open spec fn clamp_channel(v: int) -> int {
    if v < -CHANNEL_MAX {
        -CHANNEL_MAX as int
    } else if v > CHANNEL_MAX {
        CHANNEL_MAX as int
    } else {
        v
    }
}

/// An error vector, each channel held to the range of a stored color.
pub open spec fn clamp_error(v: Vector4) -> Vec4 {
    Vec4::from_vector(
        Vector4 {
            x: clamp_channel(v.x),
            y: clamp_channel(v.y),
            z: clamp_channel(v.z),
            w: clamp_channel(v.w),
        },
    )
}

/// The error of a pixel: its color in dither space, plus the damped error
/// carried to it, minus the palette color that was picked for it.
pub open spec fn pixel_error<C: ColorSpace>(
    kernel: Kernel,
    colorspace: &C,
    carried: Vec4,
    c: Vec4,
    picked: Vec4,
) -> Vector4 {
    colorspace.dithered(c)@.plus(carried@.scaled(kernel.e).divided(10)).minus(
        colorspace.dithered(picked)@,
    )
}

/// Where the cells of image row `y` start in the error buffer: even rows use
/// its first half, odd rows its second.
pub open spec fn buffer_row(y: int, width: int) -> int {
    if y % 2 == 0 {
        0
    } else {
        width
    }
}

/// The error buffer after the error of the pixel at column `x` of row `y` has
/// been distributed. The buffer holds two rows of `width` cells; the row of
/// the pixel and the row below it take turns in its halves. The share for
/// the pixel below on the right replaces what that cell held; the other
/// shares are added. Each share is rounded down. Columns wrap around.
pub open spec fn diffused(
    kernel: Kernel,
    errors: Seq<Vec4>,
    error: Vector4,
    x: int,
    y: int,
    width: int,
) -> Seq<Vec4> {
    let row = buffer_row(y, width);
    let other = buffer_row(y + 1, width);
    let right = (x + 1) % width;
    let left = (x + width - 1) % width;
    let share_a = error.scaled(kernel.a).divided(32);
    let share_b = error.scaled(kernel.b).divided(32);
    let share_c = error.scaled(kernel.c).divided(32);
    let share_d = error.scaled(kernel.d).divided(32);
    let to_right = errors.update(row + right, clamp_error(errors[row + right]@.plus(share_a)));
    let to_below_right = to_right.update(other + right, clamp_error(share_d));
    let to_below = to_below_right.update(
        other + x,
        clamp_error(to_below_right[other + x]@.plus(share_c)),
    );
    to_below.update(other + left, clamp_error(to_below[other + left]@.plus(share_b)))
}

/// The shares of a whole add up to the whole, less what rounding down
/// loses: less than one unit for each share.
proof fn lemma_shares_of_channel(e: int, a: int, b: int, c: int, d: int)
    requires
        a + b + c + d == 32,
    ensures
        e - 3 <= (e * a) / 32 + (e * b) / 32 + (e * c) / 32 + (e * d) / 32 <= e,
{
    vstd::arithmetic::div_mod::lemma_fundamental_div_mod(e * a, 32);
    vstd::arithmetic::div_mod::lemma_fundamental_div_mod(e * b, 32);
    vstd::arithmetic::div_mod::lemma_fundamental_div_mod(e * c, 32);
    vstd::arithmetic::div_mod::lemma_fundamental_div_mod(e * d, 32);
    vstd::arithmetic::div_mod::lemma_mod_bound(e * a, 32);
    vstd::arithmetic::div_mod::lemma_mod_bound(e * b, 32);
    vstd::arithmetic::div_mod::lemma_mod_bound(e * c, 32);
    vstd::arithmetic::div_mod::lemma_mod_bound(e * d, 32);
    vstd::arithmetic::mul::lemma_mul_is_distributive_add(e, a, b);
    vstd::arithmetic::mul::lemma_mul_is_distributive_add(e, a + b, c);
    vstd::arithmetic::mul::lemma_mul_is_distributive_add(e, a + b + c, d);
    assert(e * a + e * b + e * c + e * d == e * 32);
}

/// The four shares of a pixel's error add up to the error, less what
/// rounding loses: in each channel at most 3 units. What is distributed is
/// what was there, before clamping.
pub proof fn lemma_shares_conserve_error(kernel: Kernel, error: Vector4)
    requires
        valid_kernel(kernel),
    ensures
        ({
            let shares = error.scaled(kernel.a).divided(32).plus(
                error.scaled(kernel.b).divided(32),
            ).plus(error.scaled(kernel.c).divided(32)).plus(error.scaled(kernel.d).divided(32));
            &&& error.x - 3 <= shares.x <= error.x
            &&& error.y - 3 <= shares.y <= error.y
            &&& error.z - 3 <= shares.z <= error.z
            &&& error.w - 3 <= shares.w <= error.w
        }),
{
    lemma_shares_of_channel(error.x, kernel.a, kernel.b, kernel.c, kernel.d);
    lemma_shares_of_channel(error.y, kernel.a, kernel.b, kernel.c, kernel.d);
    lemma_shares_of_channel(error.z, kernel.a, kernel.b, kernel.c, kernel.d);
    lemma_shares_of_channel(error.w, kernel.a, kernel.b, kernel.c, kernel.d);
}

/// Without damping no error is lost at a pixel: the palette color picked for
/// it differs from the pixel, in dither space, by the error carried to it
/// minus the error it passes on.
pub proof fn lemma_undamped_error<C: ColorSpace>(
    kernel: Kernel,
    colorspace: &C,
    carried: Vec4,
    c: Vec4,
    picked: Vec4,
)
    requires
        kernel.e == 10,
    ensures
        colorspace.dithered(picked)@.minus(colorspace.dithered(c)@) == carried@.minus(
            pixel_error(kernel, colorspace, carried, c, picked),
        ),
{
    vstd::arithmetic::div_mod::lemma_fundamental_div_mod_converse(
        carried.x * 10,
        10,
        carried.x as int,
        0,
    );
    vstd::arithmetic::div_mod::lemma_fundamental_div_mod_converse(
        carried.y * 10,
        10,
        carried.y as int,
        0,
    );
    vstd::arithmetic::div_mod::lemma_fundamental_div_mod_converse(
        carried.z * 10,
        10,
        carried.z as int,
        0,
    );
    vstd::arithmetic::div_mod::lemma_fundamental_div_mod_converse(
        carried.w * 10,
        10,
        carried.w as int,
        0,
    );
}

/// The color that is looked up for a pixel: its color in dither space plus
/// the error carried to it, brought back to quantization space.
pub open spec fn dither_query<C: ColorSpace>(colorspace: &C, carried: Vec4, c: Vec4) -> Vec4 {
    colorspace.undithered(Vec4::from_vector(colorspace.dithered(c)@.plus(carried@)))
}

/// The error buffer and the palette indices after the first `k` pixels of the
/// image have been dithered.
pub open spec fn dither_state<C: ColorSpace>(
    kernel: Kernel,
    colorspace: &C,
    map: ColorMap,
    image: Seq<Vec4>,
    width: int,
    k: int,
) -> (Seq<Vec4>, Seq<usize>)
    decreases k,
{
    if k <= 0 {
        (Seq::new((2 * width) as nat, |i: int| Vec4 { x: 0, y: 0, z: 0, w: 0 }), Seq::empty())
    } else {
        let before = dither_state(kernel, colorspace, map, image, width, k - 1);
        let x = (k - 1) % width;
        let y = (k - 1) / width;
        let c = image[k - 1];
        let carried = before.0[buffer_row(y, width) + x];
        let index = map.nearest(dither_query(colorspace, carried, c));
        let error = pixel_error(kernel, colorspace, carried, c, map.colors()[index as int]);
        (diffused(kernel, before.0, error, x, y, width), before.1.push(index))
    }
}

/// A few variants of a Floyd-Steinberg ditherer.
pub struct FloydSteinberg {
    a: i32,
    b: i32,
    c: i32,
    d: i32,
    e: i32,
}

impl FloydSteinberg {
    /// The coefficients of the ditherer.
    pub closed spec fn kernel(&self) -> Kernel {
        Kernel {
            a: self.a as int,
            b: self.b as int,
            c: self.c as int,
            d: self.d as int,
            e: self.e as int,
        }
    }

    /// Returns a floyd-steinberg variant that reduces color bleeding.
    pub fn new() -> (fs: FloydSteinberg)
        ensures
            fs.kernel() == (Kernel { a: 14, b: 6, c: 10, d: 2, e: 8 }),
    {
        FloydSteinberg { a: 14, b: 6, c: 10, d: 2, e: 8 }
    }

    /// Returns a vanilla floyd-steinberg ditherer, with the coefficients of Floyd and Steinberg.
    pub fn vanilla() -> (fs: FloydSteinberg)
        ensures
            fs.kernel() == (Kernel { a: 14, b: 6, c: 10, d: 2, e: 10 }),
    {
        FloydSteinberg { a: 14, b: 6, c: 10, d: 2, e: 10 }
    }

    /// Returns a modified floyd-steinberg ditherer slightly favoring checkerboard patterns.
    ///
    /// The resulting dithering looks a little less like random noise. Don't use for images
    /// that are later down-scaled, as that will risk moire artifacts.
    pub fn checkered() -> (fs: FloydSteinberg)
        ensures
            fs.kernel() == (Kernel { a: 14, b: 3, c: 13, d: 2, e: 5 }),
    {
        FloydSteinberg { a: 14, b: 3, c: 13, d: 2, e: 5 }
    }
}

/// Whether the coefficients are shares of a whole: none negative, the four
/// shares together 32 32nds, and the damping at most 10 10ths.
pub open spec fn valid_kernel(kernel: Kernel) -> bool {
    &&& 0 <= kernel.a && 0 <= kernel.b && 0 <= kernel.c && 0 <= kernel.d
    &&& kernel.a + kernel.b + kernel.c + kernel.d == 32
    &&& 0 <= kernel.e <= 10
}

/// `k` `n`-ths of a vector, each channel rounded down.
fn fraction(v: Wide4, k: i32, n: i128) -> (r: Wide4)
    requires
        0 <= k <= n,
        0 < n <= 32,
        v@.within(4 * CHANNEL_MAX),
    ensures
        r@ == v@.scaled(k as int).divided(n as int),
        r@.within(4 * CHANNEL_MAX),
{
    proof {
        let b: int = 4 * CHANNEL_MAX;
        crate::color::lemma_scale_bound(v.x as int, k as int, b);
        crate::color::lemma_scale_bound(v.y as int, k as int, b);
        crate::color::lemma_scale_bound(v.z as int, k as int, b);
        crate::color::lemma_scale_bound(v.w as int, k as int, b);
        assert(b * k <= b * n) by (nonlinear_arith)
            requires
                0 <= k <= n,
                b >= 0,
        ;
        crate::color::lemma_div_bound(v.x * k, n as int, b);
        crate::color::lemma_div_bound(v.y * k, n as int, b);
        crate::color::lemma_div_bound(v.z * k, n as int, b);
        crate::color::lemma_div_bound(v.w * k, n as int, b);
        assert(b * n <= b * 32) by (nonlinear_arith)
            requires
                0 < n <= 32,
                b >= 0,
        ;
    }
    Wide4 {
        x: div_floor(v.x * k as i128, n),
        y: div_floor(v.y * k as i128, n),
        z: div_floor(v.z * k as i128, n),
        w: div_floor(v.w * k as i128, n),
    }
}

/// Holds a channel to the range of a stored color.
fn clamp(v: i128) -> (r: i32)
    ensures
        r == clamp_channel(v as int),
        -CHANNEL_MAX <= r <= CHANNEL_MAX,
{
    if v < -(CHANNEL_MAX as i128) {
        -CHANNEL_MAX
    } else if v > CHANNEL_MAX as i128 {
        CHANNEL_MAX
    } else {
        v as i32
    }
}

/// The sum of an error cell and a share, held to the range of a stored color.
fn add_clamped(cell: Vec4, share: Wide4) -> (r: Vec4)
    requires
        cell.in_range(),
        share@.within(16 * CHANNEL_MAX),
    ensures
        r == clamp_error(cell@.plus(share@)),
        r.in_range(),
{
    Vec4 {
        x: clamp(cell.x as i128 + share.x),
        y: clamp(cell.y as i128 + share.y),
        z: clamp(cell.z as i128 + share.z),
        w: clamp(cell.w as i128 + share.w),
    }
}

/// Distributes the error of the pixel at column `x` of row `y` over the
/// error buffer.
fn diffuse(
    fs: &FloydSteinberg,
    errors: &mut Vec<Vec4>,
    error: Wide4,
    x: usize,
    y: usize,
    width: usize,
)
    requires
        valid_kernel(fs.kernel()),
        0 < width <= usize::MAX / 2,
        x < width,
        old(errors)@.len() == 2 * width,
        forall|i: int| 0 <= i < old(errors)@.len() ==> (#[trigger] old(errors)@[i]).in_range(),
        error@.within(4 * CHANNEL_MAX),
    ensures
        final(errors)@ == diffused(
            fs.kernel(),
            old(errors)@,
            error@,
            x as int,
            y as int,
            width as int,
        ),
        final(errors)@.len() == 2 * width,
        forall|i: int| 0 <= i < final(errors)@.len() ==> (#[trigger] final(errors)@[i]).in_range(),
{
    let row = if y % 2 == 0 {
        0
    } else {
        width
    };
    let other = if y % 2 == 0 {
        width
    } else {
        0
    };
    let right = (x + 1) % width;
    let left = (x + width - 1) % width;
    let share_a = fraction(error, fs.a, 32);
    let share_b = fraction(error, fs.b, 32);
    let share_c = fraction(error, fs.c, 32);
    let share_d = fraction(error, fs.d, 32);
    let cell = errors[row + right];
    errors.set(row + right, add_clamped(cell, share_a));
    errors.set(other + right, add_clamped(Vec4::zero(), share_d));
    let cell = errors[other + x];
    errors.set(other + x, add_clamped(cell, share_c));
    let cell = errors[other + left];
    errors.set(other + left, add_clamped(cell, share_b));
}

impl<C: ColorSpace> Ditherer<C> for FloydSteinberg {
    open spec fn valid(&self) -> bool {
        valid_kernel(self.kernel())
    }

    open spec fn remapped(
        &self,
        image: Seq<Vec4>,
        width: int,
        map: ColorMap,
        colorspace: &C,
    ) -> Seq<usize> {
        dither_state(self.kernel(), colorspace, map, image, width, image.len() as int).1
    }

    fn remap(
        &self,
        image: &Vec<Vec4>,
        width: usize,
        map: &ColorMap,
        colorspace: &C,
    ) -> (indices: Vec<usize>) {
        let mut errors: Vec<Vec4> = Vec::with_capacity(width * 2);
        let mut i: usize = 0;
        while i < width * 2
            invariant
                i <= width * 2,
                width <= usize::MAX / 2,
                errors@.len() == i,
                forall|j: int|
                    0 <= j < i ==> #[trigger] errors@[j] == (Vec4 { x: 0, y: 0, z: 0, w: 0 }),
            decreases width * 2 - i,
        {
            errors.push(Vec4::zero());
            i += 1;
        }
        let mut indices: Vec<usize> = Vec::with_capacity(image.len());
        let mut k: usize = 0;
        assert(errors@ =~= dither_state(
            self.kernel(),
            colorspace,
            *map,
            image@,
            width as int,
            0,
        ).0);
        while k < image.len()
            invariant
                k <= image@.len(),
                map.wf(),
                valid_kernel(self.kernel()),
                0 < width <= usize::MAX / 2,
                forall|k: int| 0 <= k < image@.len() ==> (#[trigger] image@[k]).in_range(),
                errors@.len() == 2 * width,
                indices@.len() == k,
                forall|i: int| 0 <= i < errors@.len() ==> (#[trigger] errors@[i]).in_range(),
                errors@ == dither_state(
                    self.kernel(),
                    colorspace,
                    *map,
                    image@,
                    width as int,
                    k as int,
                ).0,
                indices@ == dither_state(
                    self.kernel(),
                    colorspace,
                    *map,
                    image@,
                    width as int,
                    k as int,
                ).1,
                forall|j: int|
                    0 <= j < indices@.len() ==> #[trigger] indices@[j] < map.colors().len(),
            decreases image@.len() - k,
        {
            let x = k % width;
            let y = k / width;
            let row = if y % 2 == 0 {
                0
            } else {
                width
            };
            let c = colorspace.to_dither(image[k]);
            let carried = errors[row + x];
            let query = Vec4 { x: c.x + carried.x, y: c.y + carried.y, z: c.z + carried.z, w: c.w + carried.w };
            let index = map.find_nearest(colorspace.from_dither(query));
            let c2 = colorspace.to_dither(map.float_color(index));
            let damped = fraction(Wide4::from_color(carried), self.e, 10);
            let error = Wide4 {
                x: c.x as i128 + damped.x - c2.x as i128,
                y: c.y as i128 + damped.y - c2.y as i128,
                z: c.z as i128 + damped.z - c2.z as i128,
                w: c.w as i128 + damped.w - c2.w as i128,
            };
            proof {
                crate::color::lemma_scale_bound(
                    carried.x as int,
                    self.e as int,
                    CHANNEL_MAX as int,
                );
                crate::color::lemma_scale_bound(
                    carried.y as int,
                    self.e as int,
                    CHANNEL_MAX as int,
                );
                crate::color::lemma_scale_bound(
                    carried.z as int,
                    self.e as int,
                    CHANNEL_MAX as int,
                );
                crate::color::lemma_scale_bound(
                    carried.w as int,
                    self.e as int,
                    CHANNEL_MAX as int,
                );
                crate::color::lemma_div_bound(carried.x * self.e, 10, CHANNEL_MAX as int);
                crate::color::lemma_div_bound(carried.y * self.e, 10, CHANNEL_MAX as int);
                crate::color::lemma_div_bound(carried.z * self.e, 10, CHANNEL_MAX as int);
                crate::color::lemma_div_bound(carried.w * self.e, 10, CHANNEL_MAX as int);
            }
            diffuse(self, &mut errors, error, x, y, width);
            indices.push(index);
            k += 1;
        }
        indices
    }
}

} // verus!
