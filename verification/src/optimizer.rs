//! K-Means optimization

use vstd::prelude::*;
use crate::color::{Color, Vec4};
use crate::colormap::PALETTE_MAX;
use crate::colorspace::ColorSpace;
use crate::histogram::{ColorCount, Histogram};
use crate::kmeans::{kmeans_step, kmeans_step_weighted};
use crate::moments::COUNT_MAX;

verus! {

/// The palette in quantization space.
pub open spec fn quantized_palette<C: ColorSpace>(colorspace: &C, palette: Seq<Color>) -> Seq<Vec4> {
    Seq::new(palette.len(), |i: int| colorspace.quantized(palette[i]))
}

/// The quantization-space colors as an RGBA8 palette.
pub open spec fn output_palette<C: ColorSpace>(colorspace: &C, colors: Seq<Vec4>) -> Seq<Color> {
    Seq::new(colors.len(), |i: int| colorspace.output(colors[i]))
}

/// The palette after a number of steps of an optimizer on a histogram.
pub open spec fn iterated<O: Optimizer + ?Sized>(
    optimizer: &O,
    colors: Seq<Vec4>,
    histogram: Seq<ColorCount>,
    steps: nat,
) -> Seq<Vec4>
    decreases steps,
{
    if steps == 0 {
        colors
    } else {
        optimizer.stepped(iterated(optimizer, colors, histogram, (steps - 1) as nat), histogram)
    }
}

/// The palette after a number of optimization steps on the entries of a
/// histogram: it is converted to quantization space, stepped, and converted
/// back. An optimizer that is a no-op leaves it as it is.
pub open spec fn optimized_palette<O: Optimizer + ?Sized, C: ColorSpace>(
    optimizer: &O,
    colorspace: &C,
    palette: Seq<Color>,
    histogram: Seq<ColorCount>,
    steps: nat,
) -> Seq<Color> {
    if optimizer.noop() {
        palette
    } else {
        output_palette(
            colorspace,
            iterated(optimizer, quantized_palette(colorspace, palette), histogram, steps),
        )
    }
}

/// A list of palettes in which each is a step from the one before holds the
/// iterated palettes.
pub proof fn lemma_trace<O: Optimizer + ?Sized>(
    optimizer: &O,
    trace: Seq<Seq<Vec4>>,
    histogram: Seq<ColorCount>,
    steps: nat,
)
    requires
        steps < trace.len(),
        forall|k: int|
            0 <= k < trace.len() - 1 ==> #[trigger] trace[k + 1] == optimizer.stepped(
                trace[k],
                histogram,
            ),
    ensures
        trace[steps as int] == iterated(optimizer, trace[0], histogram, steps),
    decreases steps,
{
    if steps > 0 {
        lemma_trace(optimizer, trace, histogram, (steps - 1) as nat);
        assert(trace[(steps - 1) + 1] == optimizer.stepped(trace[steps - 1], histogram));
    }
}

/// Optimize a given palette with a number of steps of an optimizer: the
/// palette is converted to quantization space, stepped, and converted back.
pub fn optimize_with<O: Optimizer, C: ColorSpace>(
    optimizer: &O,
    colorspace: &C,
    palette: &Vec<Color>,
    histogram: &Histogram,
    num_iterations: usize,
) -> (out: Vec<Color>)
    requires
        1 <= palette@.len() <= PALETTE_MAX,
        histogram.wf(),
        histogram.total() <= COUNT_MAX,
    ensures
        out@ == optimized_palette(
            optimizer,
            colorspace,
            palette@,
            crate::histogram::quantized_counts(colorspace, histogram.entries()),
            num_iterations as nat,
        ),
        out@.len() == palette@.len(),
{
    let out = optimizer.optimize_palette(colorspace, palette, histogram, num_iterations);
    proof {
        if !optimizer.noop() {
            let counts = crate::histogram::quantized_counts(colorspace, histogram.entries());
            let trace = choose|trace: Seq<Seq<Vec4>>|
                {
                    &&& #[trigger] trace.len() == num_iterations + 1
                    &&& trace[0] == quantized_palette(colorspace, palette@)
                    &&& forall|k: int|
                        0 <= k < num_iterations ==> #[trigger] trace[k + 1] == optimizer.stepped(
                            trace[k],
                            counts,
                        )
                    &&& out@ == output_palette(colorspace, trace[num_iterations as int])
                };
            lemma_trace(optimizer, trace, counts, num_iterations as nat);
        }
    }
    out
}

/// An interface for K-Means optimizers.
pub trait Optimizer {
    /// Whether this optimizer leaves every palette as it is.
    spec fn noop(&self) -> bool;

    /// The palette that one step makes of a palette and a histogram.
    spec fn stepped(&self, colors: Seq<Vec4>, histogram: Seq<ColorCount>) -> Seq<Vec4>;

    /// Do one K-Means optimization step and return colors that better represent the histogram.
    ///
    /// This is the one function custom implementations have to provide.
    fn step(&self, colors: Vec<Vec4>, histogram: &Vec<ColorCount>) -> (out: Vec<Vec4>)
        requires
            crate::colormap::valid_palette(colors@),
            crate::moments::valid_histogram(histogram@),
        ensures
            out@ == self.stepped(colors@, histogram@),
            crate::colormap::valid_palette(out@),
            out@.len() == colors@.len(),
            self.noop() ==> out@ == colors@,
    ;

    /// Returns whether this Optimizer is a No-op implementation.
    ///
    /// This is used to shortcut some functions that take an Optimizer as a parameter if
    /// the Optimizer won't do anything anyway.
    fn is_noop(&self) -> (b: bool)
        ensures
            b == self.noop(),
    ;

    /// Optimize a given palette with a number of K-Means iteration.
    fn optimize_palette<C: ColorSpace>(
        &self,
        colorspace: &C,
        palette: &Vec<Color>,
        histogram: &Histogram,
        num_iterations: usize,
    ) -> (out: Vec<Color>)
        requires
            1 <= palette@.len() <= PALETTE_MAX,
            histogram.wf(),
            histogram.total() <= COUNT_MAX,
        ensures
            out@.len() == palette@.len(),
            self.noop() ==> out@ == palette@,
            !self.noop() ==> exists|trace: Seq<Seq<Vec4>>|
                {
                    &&& #[trigger] trace.len() == num_iterations + 1
                    &&& trace[0] == quantized_palette(colorspace, palette@)
                    &&& forall|k: int|
                        0 <= k < num_iterations ==> #[trigger] trace[k + 1] == self.stepped(
                            trace[k],
                            crate::histogram::quantized_counts(colorspace, histogram.entries()),
                        )
                    &&& out@ == output_palette(colorspace, trace[num_iterations as int])
                },
    {
        if self.is_noop() {
            return copy_palette(palette);
        }
        let hist = histogram.to_color_counts(colorspace);
        let mut colors = palette_to_float(colorspace, palette);
        let ghost mut trace = seq![colors@];
        let mut i: usize = 0;
        while i < num_iterations
            invariant
                i <= num_iterations,
                crate::colormap::valid_palette(colors@),
                colors@.len() == palette@.len(),
                crate::moments::valid_histogram(hist@),
                trace.len() == i + 1,
                trace[0] == quantized_palette(colorspace, palette@),
                trace[i as int] == colors@,
                forall|k: int| 0 <= k < i ==> #[trigger] trace[k + 1] == self.stepped(
                    trace[k],
                    hist@,
                ),
            decreases num_iterations - i,
        {
            colors = self.step(colors, &hist);
            proof {
                trace = trace.push(colors@);
            }
            i += 1;
        }
        palette_from_float(colorspace, &colors)
    }
}

/// A copy of the palette.
fn copy_palette(palette: &Vec<Color>) -> (out: Vec<Color>)
    ensures
        out@ == palette@,
{
    let mut out: Vec<Color> = Vec::with_capacity(palette.len());
    let mut i: usize = 0;
    while i < palette.len()
        invariant
            i <= palette@.len(),
            out@ == palette@.take(i as int),
        decreases palette@.len() - i,
    {
        out.push(palette[i]);
        assert(out@ =~= palette@.take(i + 1));
        i += 1;
    }
    assert(out@ =~= palette@);
    out
}

/// The palette in quantization space.
fn palette_to_float<C: ColorSpace>(colorspace: &C, palette: &Vec<Color>) -> (colors: Vec<Vec4>)
    ensures
        colors@ == quantized_palette(colorspace, palette@),
        colors@.len() == palette@.len(),
        forall|i: int| 0 <= i < colors@.len() ==> (#[trigger] colors@[i]).in_range(),
{
    let mut colors: Vec<Vec4> = Vec::with_capacity(palette.len());
    let mut i: usize = 0;
    while i < palette.len()
        invariant
            i <= palette@.len(),
            colors@.len() == i,
            forall|j: int|
                0 <= j < i ==> #[trigger] colors@[j] == colorspace.quantized(palette@[j]),
            forall|j: int| 0 <= j < i ==> (#[trigger] colors@[j]).in_range(),
        decreases palette@.len() - i,
    {
        colors.push(colorspace.to_float(palette[i]));
        i += 1;
    }
    assert(colors@ =~= quantized_palette(colorspace, palette@));
    colors
}

/// The quantization-space colors as an RGBA8 palette.
fn palette_from_float<C: ColorSpace>(colorspace: &C, colors: &Vec<Vec4>) -> (palette: Vec<Color>)
    ensures
        palette@ == output_palette(colorspace, colors@),
        palette@.len() == colors@.len(),
{
    let mut palette: Vec<Color> = Vec::with_capacity(colors.len());
    let mut i: usize = 0;
    while i < colors.len()
        invariant
            i <= colors@.len(),
            palette@.len() == i,
            forall|j: int| 0 <= j < i ==> #[trigger] palette@[j] == colorspace.output(colors@[j]),
        decreases colors@.len() - i,
    {
        palette.push(colorspace.from_float(colors[i]));
        i += 1;
    }
    assert(palette@ =~= output_palette(colorspace, colors@));
    palette
}

/// A No-op Optimizer implementation.
pub struct NoOptimizer;

impl Optimizer for NoOptimizer {
    open spec fn noop(&self) -> bool {
        true
    }

    open spec fn stepped(&self, colors: Seq<Vec4>, histogram: Seq<ColorCount>) -> Seq<Vec4> {
        colors
    }

    fn step(&self, colors: Vec<Vec4>, histogram: &Vec<ColorCount>) -> (out: Vec<Vec4>) {
        colors
    }

    fn is_noop(&self) -> (b: bool) {
        true
    }
}

/// A standard K-Means Optimizer.
///
/// Each palette entry is moved toward the average of the cluster of input colors it is
/// going to represent to find a locally optimal palette.
pub struct KMeans;

impl Optimizer for KMeans {
    open spec fn noop(&self) -> bool {
        false
    }

    open spec fn stepped(&self, colors: Seq<Vec4>, histogram: Seq<ColorCount>) -> Seq<Vec4> {
        crate::kmeans::kmeans_colors(colors, histogram)
    }

    fn step(&self, colors: Vec<Vec4>, histogram: &Vec<ColorCount>) -> (out: Vec<Vec4>)
        ensures
            crate::kmeans::converged(colors@, histogram@) ==> out@ == colors@,
    {
        kmeans_step(colors, histogram)
    }

    fn is_noop(&self) -> (b: bool) {
        false
    }
}

/// A slightly experimental Optimizer that improves color representation in dithered images.
///
/// The standard K-Means optimization produces palettes that can't represent the extrema of the
/// input colors, even with dithering. This optimizer tries to optimize the representation of
/// these fringe colors. This does increase the dithering noise a bit and is only really
/// useful for low target color counts (say <= 64).
pub struct WeightedKMeans;

impl Optimizer for WeightedKMeans {
    open spec fn noop(&self) -> bool {
        false
    }

    open spec fn stepped(&self, colors: Seq<Vec4>, histogram: Seq<ColorCount>) -> Seq<Vec4> {
        crate::kmeans::weighted_kmeans_colors(colors, histogram)
    }

    fn step(&self, colors: Vec<Vec4>, histogram: &Vec<ColorCount>) -> (out: Vec<Vec4>) {
        kmeans_step_weighted(colors, histogram)
    }

    fn is_noop(&self) -> (b: bool) {
        false
    }
}

} // verus!
