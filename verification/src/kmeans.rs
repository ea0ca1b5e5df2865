//! The K-Means steps: moving each palette color to the mean of the histogram
//! entries that it represents.

use vstd::prelude::*;
use crate::color::{div_floor, Color, Vec4, Vector4, Wide4, CHANNEL_MAX};
use crate::colormap::{ColorMap, PALETTE_MAX};
use crate::colorspace::ColorSpace;
use crate::histogram::{ColorCount, Histogram};
use crate::optimizer::{optimize_with, KMeans, WeightedKMeans};
use crate::moments::{mean_color, COUNT_MAX};

verus! {

/// The entries of `h` whose nearest palette color is number `i`, in their
/// order.
pub open spec fn cluster(palette: Seq<Vec4>, h: Seq<ColorCount>, i: int) -> Seq<ColorCount>
    decreases h.len(),
{
    if h.len() == 0 {
        Seq::empty()
    } else if crate::colormap::nearest_color(palette, h.last().color) == i {
        cluster(palette, h.drop_last(), i).push(h.last())
    } else {
        cluster(palette, h.drop_last(), i)
    }
}

/// The palette that one K-Means step makes of a palette: each color
/// becomes the mean of its cluster; a color with an empty cluster becomes zero.
pub open spec fn kmeans_colors(palette: Seq<Vec4>, h: Seq<ColorCount>) -> Seq<Vec4> {
    Seq::new(
        palette.len(),
        |i: int| Vec4::from_vector(crate::moments::moments(cluster(palette, h, i)).mean()),
    )
}

/// A cluster of a valid histogram is a valid histogram, and counts no more
/// pixels than the whole.
pub proof fn lemma_cluster(palette: Seq<Vec4>, h: Seq<ColorCount>, i: int)
    requires
        crate::moments::valid_histogram(h),
    ensures
        crate::moments::valid_histogram(cluster(palette, h, i)),
        crate::moments::moments(cluster(palette, h, i)).n <= crate::moments::moments(h).n,
    decreases h.len(),
{
    if h.len() > 0 {
        crate::moments::lemma_valid_part(h, 0, h.len() - 1);
        assert(h.subrange(0, h.len() - 1) =~= h.drop_last());
        lemma_cluster(palette, h.drop_last(), i);
        let c = cluster(palette, h, i);
        if crate::colormap::nearest_color(palette, h.last().color) == i {
            assert(c.drop_last() =~= cluster(palette, h.drop_last(), i));
            assert forall|a: int| 0 <= a < c.len() implies (#[trigger] c[a]).color.in_range()
                && c[a].count >= 1 by {
                if a < c.len() - 1 {
                    assert(c[a] == cluster(palette, h.drop_last(), i)[a]);
                } else {
                    assert(c[a] == h[h.len() - 1]);
                }
            }
        }
    }
}

/// Whether the palette has converged on the histogram in the plainest way:
/// the palette colors are distinct and the histogram has exactly one entry at
/// each of them, in their order.
pub open spec fn converged(colors: Seq<Vec4>, h: Seq<ColorCount>) -> bool {
    &&& h.len() == colors.len()
    &&& forall|i: int| 0 <= i < h.len() ==> (#[trigger] h[i]).color == colors[i] && h[i].count >= 1
    &&& forall|i: int, j: int| 0 <= i < j < colors.len() ==> colors[i] != colors[j]
}

/// K-Means has converged where every palette color is the only color of its
/// cluster: if the palette colors are distinct and the histogram has exactly
/// one entry at each of them, a step returns the palette unchanged.
pub proof fn lemma_kmeans_converged(palette: Seq<Vec4>, h: Seq<ColorCount>)
    requires
        crate::colormap::valid_palette(palette),
        converged(palette, h),
    ensures
        kmeans_colors(palette, h) == palette,
{
    assert forall|i: int| 0 <= i < h.len() implies #[trigger] kmeans_colors(palette, h)[i]
        == palette[i] by {
        lemma_own_cluster(palette, h, h.len() as int, i);
        assert(h.take(h.len() as int) =~= h);
        let e = h[i];
        crate::moments::lemma_moments_single(e);
        let n = e.count as int;
        let c = e.color@;
        vstd::arithmetic::div_mod::lemma_fundamental_div_mod_converse(c.x * n, n, c.x, 0);
        vstd::arithmetic::div_mod::lemma_fundamental_div_mod_converse(c.y * n, n, c.y, 0);
        vstd::arithmetic::div_mod::lemma_fundamental_div_mod_converse(c.z * n, n, c.z, 0);
        vstd::arithmetic::div_mod::lemma_fundamental_div_mod_converse(c.w * n, n, c.w, 0);
    }
    assert(kmeans_colors(palette, h) =~= palette);
}

/// Where each of the first `k` entries sits at the palette color of its own
/// number, and the palette colors are distinct, the cluster of color `i`
/// among them is entry `i` alone.
proof fn lemma_own_cluster(palette: Seq<Vec4>, h: Seq<ColorCount>, k: int, i: int)
    requires
        crate::colormap::valid_palette(palette),
        0 <= k <= h.len() == palette.len(),
        0 <= i < h.len(),
        forall|i: int| 0 <= i < h.len() ==> (#[trigger] h[i]).color == palette[i],
        forall|i: int, j: int|
            0 <= i < j < palette.len() ==> palette[i] != palette[j],
    ensures
        cluster(palette, h.take(k), i) == if i < k {
            seq![h[i]]
        } else {
            Seq::<ColorCount>::empty()
        },
    decreases k,
{
    if k > 0 {
        lemma_own_cluster(palette, h, k - 1, i);
        assert(h.take(k).drop_last() =~= h.take(k - 1));
        let color = h[k - 1].color;
        crate::colormap::lemma_nearest_color(palette, color);
        let found = crate::colormap::nearest_color(palette, color) as int;
        lemma_zero_distance(color@, palette[found]@);
        assert(color@.dist_sq(palette[k - 1]@) == 0) by {
            let d = color@.minus(palette[k - 1]@);
            assert(d == Vector4::zero());
            assert(d.norm_sq() == 0) by (nonlinear_arith)
                requires
                    d.x == 0 && d.y == 0 && d.z == 0 && d.w == 0,
                    d.norm_sq() == d.x * d.x + d.y * d.y + d.z * d.z + d.w * d.w,
            ;
        }
        assert(palette[found]@ == color@);
        assert(palette[found] == palette[k - 1]);
        assert(found == k - 1);
        if i == k - 1 {
            assert(Seq::<ColorCount>::empty().push(h[i]) =~= seq![h[i]]);
        }
    }
}

/// Only a vector itself is at distance zero from it.
pub proof fn lemma_zero_distance(a: Vector4, b: Vector4)
    ensures
        a.dist_sq(b) >= 0,
        a.dist_sq(b) == 0 ==> a == b,
{
    let d = a.minus(b);
    assert(d.x * d.x >= 0 && (d.x * d.x == 0 ==> d.x == 0)) by (nonlinear_arith);
    assert(d.y * d.y >= 0 && (d.y * d.y == 0 ==> d.y == 0)) by (nonlinear_arith);
    assert(d.z * d.z >= 0 && (d.z * d.z == 0 ==> d.z == 0)) by (nonlinear_arith);
    assert(d.w * d.w >= 0 && (d.w * d.w == 0 ==> d.w == 0)) by (nonlinear_arith);
}

/// Do one K-Means step: returns, for each palette color, the mean of the
/// histogram entries nearest to it. A color that is nearest to no entry
/// becomes zero.
pub fn kmeans_step(colors: Vec<Vec4>, histogram: &Vec<ColorCount>) -> (out: Vec<Vec4>)
    requires
        1 <= colors@.len() <= PALETTE_MAX,
        forall|j: int| 0 <= j < colors@.len() ==> (#[trigger] colors@[j]).in_range(),
        crate::moments::valid_histogram(histogram@),
    ensures
        out@.len() == colors@.len(),
        forall|j: int| 0 <= j < out@.len() ==> (#[trigger] out@[j]).in_range(),
        out@ == kmeans_colors(colors@, histogram@),
        converged(colors@, histogram@) ==> out@ == colors@,
{
    let n = colors.len();
    let ghost palette = colors@;
    let map = ColorMap::from_float_colors(colors);
    let mut sums: Vec<Wide4> = Vec::with_capacity(n);
    let mut weights: Vec<u64> = Vec::with_capacity(n);
    let mut i: usize = 0;
    while i < n
        invariant
            i <= n,
            sums@.len() == i,
            weights@.len() == i,
            forall|j: int| 0 <= j < i ==> (#[trigger] sums@[j])@ == Vector4::zero(),
            forall|j: int| 0 <= j < i ==> #[trigger] weights@[j] == 0,
        decreases n - i,
    {
        sums.push(Wide4::zero());
        weights.push(0);
        i += 1;
    }
    let mut k: usize = 0;
    while k < histogram.len()
        invariant
            k <= histogram@.len(),
            map.wf(),
            map.colors() == palette,
            n == map.colors().len(),
            crate::moments::valid_histogram(histogram@),
            sums@.len() == n,
            weights@.len() == n,
            forall|j: int|
                0 <= j < n ==> (#[trigger] sums@[j])@ == crate::moments::moments(
                    cluster(palette, histogram@.take(k as int), j),
                ).sum,
            forall|j: int|
                0 <= j < n ==> #[trigger] weights@[j] == crate::moments::moments(
                    cluster(palette, histogram@.take(k as int), j),
                ).n,
        decreases histogram@.len() - k,
    {
        let entry = histogram[k];
        let index = map.find_nearest(entry.color);
        let ghost before = histogram@.take(k as int);
        let ghost after = histogram@.take(k + 1);
        proof {
            assert(after.drop_last() =~= before);
            crate::moments::lemma_valid_part(histogram@, 0, k as int);
            assert(histogram@.subrange(0, k as int) =~= before);
            crate::moments::lemma_valid_part(histogram@, 0, k + 1);
            assert(histogram@.subrange(0, k + 1) =~= after);
            lemma_cluster(palette, before, index as int);
            lemma_cluster(palette, after, index as int);
            crate::moments::lemma_moments_bounds(cluster(palette, before, index as int));
            assert(cluster(palette, after, index as int).drop_last() =~= cluster(
                palette,
                before,
                index as int,
            ));
            let m = crate::moments::moments(cluster(palette, before, index as int)).n;
            assert(CHANNEL_MAX * m <= CHANNEL_MAX * COUNT_MAX);
            assert(CHANNEL_MAX * entry.count <= CHANNEL_MAX * COUNT_MAX);
        }
        let sum = sums[index];
        sums.set(index, sum.plus_scaled(entry.color, entry.count as i128));
        let weight = weights[index];
        weights.set(index, weight + entry.count as u64);
        k += 1;
    }
    assert(histogram@.take(k as int) =~= histogram@);
    let mut out: Vec<Vec4> = Vec::with_capacity(n);
    let mut i: usize = 0;
    while i < n
        invariant
            i <= n,
            map.wf(),
            map.colors() == palette,
            n == map.colors().len(),
            crate::moments::valid_histogram(histogram@),
            sums@.len() == n,
            weights@.len() == n,
            forall|j: int|
                0 <= j < n ==> (#[trigger] sums@[j])@ == crate::moments::moments(
                    cluster(palette, histogram@, j),
                ).sum,
            forall|j: int|
                0 <= j < n ==> #[trigger] weights@[j] == crate::moments::moments(
                    cluster(palette, histogram@, j),
                ).n,
            out@.len() == i,
            forall|j: int| 0 <= j < i ==> (#[trigger] out@[j]).in_range(),
            forall|j: int| 0 <= j < i ==> #[trigger] out@[j] == kmeans_colors(
                palette,
                histogram@,
            )[j],
        decreases n - i,
    {
        proof {
            lemma_cluster(palette, histogram@, i as int);
            crate::moments::lemma_moments_bounds(cluster(palette, histogram@, i as int));
        }
        let color = if weights[i] > 0 {
            mean_color(sums[i], weights[i])
        } else {
            Vec4::zero()
        };
        out.push(color);
        i += 1;
    }
    assert(out@ =~= kmeans_colors(palette, histogram@));
    proof {
        if converged(palette, histogram@) {
            lemma_kmeans_converged(palette, histogram@);
        }
    }
    out
}

/// The entry of `list` whose palette color is nearest to `p`, the first of
/// them where several are; palette entry 0 where the list is empty.
pub open spec fn closest_in(colors: Seq<Vec4>, list: Seq<usize>, p: Vector4) -> usize
    decreases list.len(),
{
    if list.len() == 0 {
        0
    } else {
        let before = closest_in(colors, list.drop_last(), p);
        if list.len() == 1 || p.dist_sq(colors[list.last() as int]@) < p.dist_sq(
            colors[before as int]@,
        ) {
            list.last()
        } else {
            before
        }
    }
}

/// The error of the color `c` reflected `rounds` times across its cluster:
/// each round adds to the error sum the offset of the current point from the
/// neighbor nearest to it, and moves the point to `c` plus that offset.
/// Returns the error sum and the point.
pub open spec fn reflected(colors: Seq<Vec4>, list: Seq<usize>, c: Vector4, rounds: nat) -> (
    Vector4,
    Vector4,
)
    decreases rounds,
{
    if rounds == 0 {
        (Vector4::zero(), c)
    } else {
        let before = reflected(colors, list, c, (rounds - 1) as nat);
        let diff = before.1.minus(colors[closest_in(colors, list, before.1) as int]@);
        (before.0.plus(diff), c.plus(diff))
    }
}

/// The weight of a histogram entry in the weighted step: its count times the
/// squared length of its error after four reflections among the neighbors of
/// its nearest palette color.
pub open spec fn fringe_weight(palette: Seq<Vec4>, e: ColorCount) -> int {
    let list = crate::colormap::visible_neighbors(
        palette,
        crate::colormap::nearest_color(palette, e.color) as int,
    );
    e.count * reflected(palette, list, e.color@, 4).0.norm_sq()
}

/// The weighted color sum and the total weight of the entries of `h` whose
/// nearest palette color is number `i`.
pub open spec fn weighted_cluster(palette: Seq<Vec4>, h: Seq<ColorCount>, i: int) -> (Vector4, int)
    decreases h.len(),
{
    if h.len() == 0 {
        (Vector4::zero(), 0)
    } else {
        let before = weighted_cluster(palette, h.drop_last(), i);
        let e = h.last();
        if crate::colormap::nearest_color(palette, e.color) == i {
            (before.0.plus(e.color@.scaled(fringe_weight(palette, e))), before.1 + fringe_weight(
                palette,
                e,
            ))
        } else {
            before
        }
    }
}

/// The palette that one weighted K-Means step makes of a palette:
/// each color becomes the weighted mean of its cluster; a color whose cluster
/// has no weight stays.
pub open spec fn weighted_kmeans_colors(palette: Seq<Vec4>, h: Seq<ColorCount>) -> Seq<Vec4> {
    Seq::new(
        palette.len(),
        |i: int|
            if weighted_cluster(palette, h, i).1 > 0 {
                Vec4::from_vector(
                    weighted_cluster(palette, h, i).0.divided(weighted_cluster(palette, h, i).1),
                )
            } else {
                palette[i]
            },
    )
}

/// The largest squared error length after four reflections: 4 channels of at
/// most 20 times the channel bound.
pub const FRINGE_MAX: i128 = 0x6_4000_0000_0000;

/// The nearest entry of a list of palette entries is one of them, or entry 0.
pub proof fn lemma_closest_in(colors: Seq<Vec4>, list: Seq<usize>, p: Vector4)
    requires
        colors.len() >= 1,
        forall|a: int| 0 <= a < list.len() ==> #[trigger] list[a] < colors.len(),
    ensures
        closest_in(colors, list, p) < colors.len(),
    decreases list.len(),
{
    if list.len() > 0 {
        lemma_closest_in(colors, list.drop_last(), p);
    }
}

/// How far the reflections can move: after `rounds` rounds the point is
/// within `2 * rounds + 1` and the error sum within `rounds * (rounds + 1)`
/// channel bounds.
pub proof fn lemma_reflected_bounds(colors: Seq<Vec4>, list: Seq<usize>, c: Vector4, rounds: nat)
    requires
        colors.len() >= 1,
        forall|j: int| 0 <= j < colors.len() ==> (#[trigger] colors[j]).in_range(),
        forall|a: int| 0 <= a < list.len() ==> #[trigger] list[a] < colors.len(),
        c.within(CHANNEL_MAX as int),
    ensures
        reflected(colors, list, c, rounds).1.within((2 * rounds + 1) * CHANNEL_MAX),
        reflected(colors, list, c, rounds).0.within(rounds * (rounds + 1) * CHANNEL_MAX),
    decreases rounds,
{
    if rounds > 0 {
        let r = (rounds - 1) as nat;
        lemma_reflected_bounds(colors, list, c, r);
        let before = reflected(colors, list, c, r);
        lemma_closest_in(colors, list, before.1);
        assert(rounds * (rounds + 1) * CHANNEL_MAX == r * (r + 1) * CHANNEL_MAX + (2 * r + 2)
            * CHANNEL_MAX) by (nonlinear_arith)
            requires
                rounds == r + 1,
        ;
        assert((2 * rounds + 1) * CHANNEL_MAX == (2 * r + 1) * CHANNEL_MAX + 2 * CHANNEL_MAX)
            by (nonlinear_arith)
            requires
                rounds == r + 1,
        ;
        assert((2 * r + 2) * CHANNEL_MAX == (2 * r + 1) * CHANNEL_MAX + CHANNEL_MAX)
            by (nonlinear_arith);
    } else {
        assert(rounds * (rounds + 1) * CHANNEL_MAX == 0) by (nonlinear_arith)
            requires
                rounds == 0,
        ;
    }
}

/// The nearest of the listed palette entries to the point `p`.
fn closest_neighbor(map: &ColorMap, list: &Vec<usize>, p: Wide4) -> (best: usize)
    requires
        map.wf(),
        forall|a: int| 0 <= a < list@.len() ==> #[trigger] list@[a] < map.colors().len(),
        p@.within(8 * CHANNEL_MAX),
    ensures
        best == closest_in(map.colors(), list@, p@),
        best < map.colors().len(),
{
    let mut best: usize = 0;
    let mut best_error: i128 = 0;
    let mut a: usize = 0;
    proof {
        map.lemma_palette();
    }
    while a < list.len()
        invariant
            a <= list@.len(),
            map.wf(),
            forall|a: int| 0 <= a < list@.len() ==> #[trigger] list@[a] < map.colors().len(),
            p@.within(8 * CHANNEL_MAX),
            best == closest_in(map.colors(), list@.take(a as int), p@),
            best < map.colors().len(),
            a > 0 ==> best_error == p@.dist_sq(map.colors()[best as int]@),
        decreases list@.len() - a,
    {
        proof {
            assert(list@.take(a + 1).drop_last() =~= list@.take(a as int));
        }
        let i = list[a];
        let diff = p.minus(Wide4::from_color(map.float_color(i)));
        let error = diff.dot(diff);
        if a == 0 || error < best_error {
            best = i;
            best_error = error;
        }
        a += 1;
    }
    assert(list@.take(a as int) =~= list@);
    best
}

/// The squared length of the error of `c` after four reflections among the
/// listed palette entries.
fn fringe_error(map: &ColorMap, list: &Vec<usize>, c: Vec4) -> (e: i128)
    requires
        map.wf(),
        forall|a: int| 0 <= a < list@.len() ==> #[trigger] list@[a] < map.colors().len(),
        c.in_range(),
    ensures
        e == reflected(map.colors(), list@, c@, 4).0.norm_sq(),
        0 <= e <= FRINGE_MAX,
{
    let mut error_sum = Wide4::zero();
    let mut color = Wide4::from_color(c);
    let mut round: u8 = 0;
    proof {
        map.lemma_palette();
    }
    while round < 4
        invariant
            round <= 4,
            map.wf(),
            forall|a: int| 0 <= a < list@.len() ==> #[trigger] list@[a] < map.colors().len(),
            c.in_range(),
            error_sum@ == reflected(map.colors(), list@, c@, round as nat).0,
            color@ == reflected(map.colors(), list@, c@, round as nat).1,
        decreases 4 - round,
    {
        proof {
            map.lemma_palette();
            lemma_reflected_bounds(map.colors(), list@, c@, round as nat);
            lemma_reflected_bounds(map.colors(), list@, c@, (round + 1) as nat);
            assert(round * (round + 1) * CHANNEL_MAX <= 12 * CHANNEL_MAX) by (nonlinear_arith)
                requires
                    0 <= round <= 3,
            ;
            assert((2 * round + 1) * CHANNEL_MAX <= 7 * CHANNEL_MAX) by (nonlinear_arith)
                requires
                    0 <= round <= 3,
            ;
        }
        let best = closest_neighbor(map, list, color);
        let diff = color.minus(Wide4::from_color(map.float_color(best)));
        error_sum =
        Wide4 {
            x: error_sum.x + diff.x,
            y: error_sum.y + diff.y,
            z: error_sum.z + diff.z,
            w: error_sum.w + diff.w,
        };
        color =
        Wide4 {
            x: c.x as i128 + diff.x,
            y: c.y as i128 + diff.y,
            z: c.z as i128 + diff.z,
            w: c.w as i128 + diff.w,
        };
        round += 1;
    }
    proof {
        lemma_reflected_bounds(map.colors(), list@, c@, 4);
        let b: int = 20 * CHANNEL_MAX;
        assert(4 * (4 + 1) * CHANNEL_MAX == b);
        crate::color::lemma_product_bound(error_sum.x as int, error_sum.x as int, b);
        crate::color::lemma_product_bound(error_sum.y as int, error_sum.y as int, b);
        crate::color::lemma_product_bound(error_sum.z as int, error_sum.z as int, b);
        crate::color::lemma_product_bound(error_sum.w as int, error_sum.w as int, b);
        crate::color::lemma_square_nonnegative(error_sum.x as int);
        crate::color::lemma_square_nonnegative(error_sum.y as int);
        crate::color::lemma_square_nonnegative(error_sum.z as int);
        crate::color::lemma_square_nonnegative(error_sum.w as int);
        assert(b * b == 0x1_9000_0000_0000) by (nonlinear_arith)
            requires
                b == 20 * 0x10_0000,
        ;
    }
    error_sum.dot(error_sum)
}

/// Do one weighted K-Means step: each histogram entry pulls its nearest
/// palette color with a weight that grows with the entry's error against the
/// neighbors of that color, so that colors on the fringe of the palette move
/// outward. A color whose cluster has no weight stays.
pub fn kmeans_step_weighted(colors: Vec<Vec4>, histogram: &Vec<ColorCount>) -> (out: Vec<Vec4>)
    requires
        1 <= colors@.len() <= PALETTE_MAX,
        forall|j: int| 0 <= j < colors@.len() ==> (#[trigger] colors@[j]).in_range(),
        crate::moments::valid_histogram(histogram@),
    ensures
        out@.len() == colors@.len(),
        forall|j: int| 0 <= j < out@.len() ==> (#[trigger] out@[j]).in_range(),
        out@ == weighted_kmeans_colors(colors@, histogram@),
{
    let n = colors.len();
    let ghost palette = colors@;
    let map = ColorMap::from_float_colors(colors);
    let mut sums: Vec<Wide4> = Vec::with_capacity(n);
    let mut weights: Vec<i128> = Vec::with_capacity(n);
    let mut i: usize = 0;
    while i < n
        invariant
            i <= n,
            sums@.len() == i,
            weights@.len() == i,
            forall|j: int| 0 <= j < i ==> (#[trigger] sums@[j])@ == Vector4::zero(),
            forall|j: int| 0 <= j < i ==> #[trigger] weights@[j] == 0,
        decreases n - i,
    {
        sums.push(Wide4::zero());
        weights.push(0);
        i += 1;
    }
    let mut seen: u64 = 0;
    let mut k: usize = 0;
    while k < histogram.len()
        invariant
            k <= histogram@.len(),
            map.wf(),
            map.colors() == palette,
            n == map.colors().len(),
            crate::moments::valid_histogram(histogram@),
            sums@.len() == n,
            weights@.len() == n,
            seen == crate::moments::moments(histogram@.take(k as int)).n,
            seen <= COUNT_MAX,
            forall|j: int|
                0 <= j < n ==> (#[trigger] sums@[j])@ == weighted_cluster(
                    palette,
                    histogram@.take(k as int),
                    j,
                ).0,
            forall|j: int|
                0 <= j < n ==> #[trigger] weights@[j] == weighted_cluster(
                    palette,
                    histogram@.take(k as int),
                    j,
                ).1,
            forall|j: int| 0 <= j < n ==> 0 <= #[trigger] weights@[j] <= FRINGE_MAX * seen,
            forall|j: int| 0 <= j < n ==> (#[trigger] sums@[j])@.within(CHANNEL_MAX * weights@[j]),
        decreases histogram@.len() - k,
    {
        let entry = histogram[k];
        let index = map.find_nearest(entry.color);
        let neighbors = map.neighbors(index);
        let error = fringe_error(&map, neighbors, entry.color);
        let count: i128 = entry.count as i128;
        proof {
            assert(histogram@.take(k + 1).drop_last() =~= histogram@.take(k as int));
            crate::moments::lemma_moments_step(histogram@, k as int);
            crate::moments::lemma_valid_part(histogram@, 0, k + 1);
            assert(histogram@.subrange(0, k + 1) =~= histogram@.take(k + 1));
            assert(0 <= count * error <= count * FRINGE_MAX) by (nonlinear_arith)
                requires
                    0 <= error <= FRINGE_MAX,
                    0 <= count,
            ;
            assert(count * FRINGE_MAX == FRINGE_MAX * count) by (nonlinear_arith);
        }
        let weight: i128 = count * error;
        proof {
            crate::color::lemma_scale_bound(
                entry.color.x as int,
                weight as int,
                CHANNEL_MAX as int,
            );
            crate::color::lemma_scale_bound(
                entry.color.y as int,
                weight as int,
                CHANNEL_MAX as int,
            );
            crate::color::lemma_scale_bound(
                entry.color.z as int,
                weight as int,
                CHANNEL_MAX as int,
            );
            crate::color::lemma_scale_bound(
                entry.color.w as int,
                weight as int,
                CHANNEL_MAX as int,
            );
        }
        let sum = sums[index];
        sums.set(
            index,
            Wide4 {
                x: sum.x + entry.color.x as i128 * weight,
                y: sum.y + entry.color.y as i128 * weight,
                z: sum.z + entry.color.z as i128 * weight,
                w: sum.w + entry.color.w as i128 * weight,
            },
        );
        let total = weights[index];
        weights.set(index, total + weight);
        seen = seen + entry.count as u64;
        k += 1;
    }
    assert(histogram@.take(k as int) =~= histogram@);
    let mut out: Vec<Vec4> = Vec::with_capacity(n);
    let mut i: usize = 0;
    while i < n
        invariant
            i <= n,
            map.wf(),
            map.colors() == palette,
            n == map.colors().len(),
            sums@.len() == n,
            weights@.len() == n,
            seen <= COUNT_MAX,
            forall|j: int|
                0 <= j < n ==> (#[trigger] sums@[j])@ == weighted_cluster(palette, histogram@, j).0,
            forall|j: int|
                0 <= j < n ==> #[trigger] weights@[j] == weighted_cluster(palette, histogram@, j).1,
            forall|j: int| 0 <= j < n ==> 0 <= #[trigger] weights@[j] <= FRINGE_MAX * seen,
            forall|j: int| 0 <= j < n ==> (#[trigger] sums@[j])@.within(CHANNEL_MAX * weights@[j]),
            out@.len() == i,
            forall|j: int| 0 <= j < i ==> (#[trigger] out@[j]).in_range(),
            forall|j: int|
                0 <= j < i ==> #[trigger] out@[j] == weighted_kmeans_colors(palette, histogram@)[j],
        decreases n - i,
    {
        let weight = weights[i];
        let color = if weight > 0 {
            let sum = sums[i];
            proof {
                crate::color::lemma_div_bound(sum.x as int, weight as int, CHANNEL_MAX as int);
                crate::color::lemma_div_bound(sum.y as int, weight as int, CHANNEL_MAX as int);
                crate::color::lemma_div_bound(sum.z as int, weight as int, CHANNEL_MAX as int);
                crate::color::lemma_div_bound(sum.w as int, weight as int, CHANNEL_MAX as int);
            }
            Vec4 {
                x: div_floor(sum.x, weight) as i32,
                y: div_floor(sum.y, weight) as i32,
                z: div_floor(sum.z, weight) as i32,
                w: div_floor(sum.w, weight) as i32,
            }
        } else {
            map.float_color(i)
        };
        out.push(color);
        i += 1;
    }
    assert(out@ =~= weighted_kmeans_colors(palette, histogram@));
    out
}

/// Optimize a given palette with a number of K-Means steps.
pub fn optimize_palette<C: ColorSpace>(
    colorspace: &C,
    palette: &Vec<Color>,
    histogram: &Histogram,
    num_iterations: usize,
) -> (out: Vec<Color>)
    requires
        1 <= palette@.len() <= PALETTE_MAX,
        histogram.wf(),
        histogram.total() <= COUNT_MAX,
    ensures
        out@ == crate::optimizer::optimized_palette(
            &KMeans,
            colorspace,
            palette@,
            crate::histogram::quantized_counts(colorspace, histogram.entries()),
            num_iterations as nat,
        ),
        out@.len() == palette@.len(),
{
    optimize_with(&KMeans, colorspace, palette, histogram, num_iterations)
}

/// Optimize a given palette with a number of weighted K-Means steps.
pub fn optimize_palette_weighted<C: ColorSpace>(
    colorspace: &C,
    palette: &Vec<Color>,
    histogram: &Histogram,
    num_iterations: usize,
) -> (out: Vec<Color>)
    requires
        1 <= palette@.len() <= PALETTE_MAX,
        histogram.wf(),
        histogram.total() <= COUNT_MAX,
    ensures
        out@ == crate::optimizer::optimized_palette(
            &WeightedKMeans,
            colorspace,
            palette@,
            crate::histogram::quantized_counts(colorspace, histogram.entries()),
            num_iterations as nat,
        ),
        out@.len() == palette@.len(),
{
    optimize_with(&WeightedKMeans, colorspace, palette, histogram, num_iterations)
}

} // verus!
