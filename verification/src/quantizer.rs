//! The variance-driven quantizer: buckets of histogram entries that are split
//! in two, one bucket per palette color.

use vstd::prelude::*;
use crate::color::{Color, Vec4, Vector4, Wide4, CHANNEL_MAX, WIDE_MAX};
use crate::colormap::{ColorMap, PALETTE_MAX};
use crate::colorspace::ColorSpace;
use crate::histogram::{ColorCount, Histogram};
use crate::optimizer::Optimizer;
use crate::moments::{mean_color, measure, measure_squares, pick_axis, COUNT_MAX};
use crate::sorting::{apply_order, sort_positions};

verus! {

/// The sort keys of the entries along one channel.
pub open spec fn channel_keys(h: Seq<ColorCount>, axis: int) -> Seq<i128> {
    Seq::new(h.len(), |i: int| h[i].color@.channel(axis) as i128)
}

/// The sort keys of the entries along a direction.
pub open spec fn projection_keys(h: Seq<ColorCount>, dir: Vector4) -> Seq<i128> {
    Seq::new(h.len(), |i: int| h[i].color@.dot(dir) as i128)
}

/// One step of the search for the principal direction: the entry's weighted
/// offset from the mean is added to the direction, flipped first if it points
/// against it.
pub open spec fn turn_toward(dir: Vector4, e: ColorCount, mean: Vector4) -> Vector4 {
    let offset = e.color@.minus(mean).scaled(e.count as int);
    if offset.dot(dir) < 0 {
        dir.minus(offset)
    } else {
        dir.plus(offset)
    }
}

/// The principal direction of the entries: an approximation of the dominant
/// eigenvector of their covariance, found in one pass. Its length carries no
/// meaning; only the order of the projections onto it is used.
pub open spec fn principal_direction(h: Seq<ColorCount>, mean: Vector4) -> Vector4
    decreases h.len(),
{
    if h.len() == 0 {
        Vector4::zero()
    } else {
        turn_toward(principal_direction(h.drop_last(), mean), h.last(), mean)
    }
}

/// The entries in the order in which a bucket keeps them: sorted along the
/// channel of largest spread, then sorted along the principal direction found
/// in that order. Both sorts are stable.
pub open spec fn arranged(h: Seq<ColorCount>) -> Seq<ColorCount> {
    let m = crate::moments::moments(h);
    if m.n == 0 {
        h
    } else {
        let by_channel = crate::sorting::reorder(
            h,
            crate::sorting::stable_order(channel_keys(h, crate::moments::widest_axis(m.spread()))),
        );
        let dir = principal_direction(by_channel, m.mean());
        crate::sorting::reorder(
            by_channel,
            crate::sorting::stable_order(projection_keys(by_channel, dir)),
        )
    }
}

/// By how much the summed squared error of a bucket shrinks when it is cut
/// into its first `k` entries and the rest, each part represented by its own
/// mean. Each quotient is rounded down.
pub open spec fn split_gain(h: Seq<ColorCount>, k: int) -> int {
    let all = crate::moments::moments(h);
    let left = crate::moments::moments(h.take(k));
    let right = crate::moments::moments(h.skip(k));
    left.sum.norm_sq() / left.n + right.sum.norm_sq() / right.n - all.sum.norm_sq() / all.n
}

/// The best gain and cut among the cuts after at most `k` entries that leave
/// pixels on both sides: the largest positive gain and the first cut that has
/// it, or `(0, 0)` where no cut gains anything.
pub open spec fn best_split(h: Seq<ColorCount>, k: int) -> (int, int)
    decreases k,
{
    if k <= 0 {
        (0, 0)
    } else {
        let before = best_split(h, k - 1);
        if k < h.len() && split_gain(h, k) > before.0 {
            (split_gain(h, k), k)
        } else {
            before
        }
    }
}

/// The square of a product is the product of the squares.
proof fn lemma_square_of_product(a: int, m: int)
    ensures
        (a * m) * (a * m) == (a * a) * (m * m),
{
    vstd::arithmetic::mul::lemma_mul_is_associative(a * m, a, m);
    vstd::arithmetic::mul::lemma_mul_is_associative(a, m, a);
    vstd::arithmetic::mul::lemma_mul_is_commutative(m, a);
    vstd::arithmetic::mul::lemma_mul_is_associative(a, a, m);
    vstd::arithmetic::mul::lemma_mul_is_associative(a * a, m, m);
}

/// The square of a sum.
proof fn lemma_square_of_sum(x: int, y: int)
    ensures
        (x + y) * (x + y) == x * x + 2 * (x * y) + y * y,
{
    vstd::arithmetic::mul::lemma_mul_is_distributive_add(x + y, x, y);
    vstd::arithmetic::mul::lemma_mul_is_distributive_add_other_way(x, x, y);
    vstd::arithmetic::mul::lemma_mul_is_distributive_add_other_way(y, x, y);
    vstd::arithmetic::mul::lemma_mul_is_commutative(x, y);
}

/// A factor distributes over a sum of four.
proof fn lemma_distribute(k: int, x: int, y: int, z: int, w: int)
    ensures
        k * (x + y + z + w) == k * x + k * y + k * z + k * w,
{
    assert(k * (x + y + z + w) == k * x + k * y + k * z + k * w) by (nonlinear_arith);
}

/// For two weighted numbers, the total weight times the weighted sum of
/// squares exceeds the square of the weighted sum by the product of the
/// weights times the squared difference.
proof fn lemma_spread_of_two(a: int, b: int, m: int, n: int)
    ensures
        (m + n) * (m * (a * a) + n * (b * b)) - (a * m + b * n) * (a * m + b * n) == (m * n) * ((a
            - b) * (a - b)),
{
    let aa = a * a;
    let bb = b * b;
    let ab = a * b;
    let mm = m * m;
    let nn = n * n;
    let mn = m * n;
    let x = a * m;
    let y = b * n;
    lemma_square_of_product(a, m);
    lemma_square_of_product(b, n);
    assert(x * y == ab * mn) by {
        vstd::arithmetic::mul::lemma_mul_is_associative(a * m, b, n);
        vstd::arithmetic::mul::lemma_mul_is_associative(a, m, b);
        vstd::arithmetic::mul::lemma_mul_is_commutative(m, b);
        vstd::arithmetic::mul::lemma_mul_is_associative(a, b, m);
        vstd::arithmetic::mul::lemma_mul_is_associative(a * b, m, n);
    }
    lemma_square_of_sum(x, y);
    lemma_square_of_sum(a, -b);
    assert(a * (-b) == -ab && (-b) * (-b) == bb) by (nonlinear_arith)
        requires
            ab == a * b,
            bb == b * b,
    ;
    assert((m + n) * (m * aa + n * bb) == aa * mm + mn * bb + mn * aa + bb * nn) by {
        let whole = m * aa + n * bb;
        vstd::arithmetic::mul::lemma_mul_is_distributive_add_other_way(whole, m, n);
        vstd::arithmetic::mul::lemma_mul_is_distributive_add(m, m * aa, n * bb);
        vstd::arithmetic::mul::lemma_mul_is_distributive_add(n, m * aa, n * bb);
        vstd::arithmetic::mul::lemma_mul_is_associative(m, m, aa);
        vstd::arithmetic::mul::lemma_mul_is_associative(m, n, bb);
        vstd::arithmetic::mul::lemma_mul_is_associative(n, m, aa);
        vstd::arithmetic::mul::lemma_mul_is_associative(n, n, bb);
        vstd::arithmetic::mul::lemma_mul_is_commutative(n, m);
        vstd::arithmetic::mul::lemma_mul_is_commutative(mm, aa);
        vstd::arithmetic::mul::lemma_mul_is_commutative(nn, bb);
    }
    assert(mn * (aa - 2 * ab + bb) == mn * aa - 2 * (ab * mn) + mn * bb) by {
        vstd::arithmetic::mul::lemma_mul_is_distributive_add(mn, aa - 2 * ab, bb);
        vstd::arithmetic::mul::lemma_mul_is_distributive_sub(mn, aa, 2 * ab);
        vstd::arithmetic::mul::lemma_mul_is_associative(mn, 2, ab);
        vstd::arithmetic::mul::lemma_mul_is_commutative(mn, 2);
        vstd::arithmetic::mul::lemma_mul_is_associative(2, mn, ab);
        vstd::arithmetic::mul::lemma_mul_is_commutative(mn, ab);
    }
}

/// The squared length of `k` times a vector, divided by `k`, is `k` times
/// the squared length of the vector.
proof fn lemma_single_score(v: Vector4, k: int)
    requires
        k > 0,
    ensures
        v.scaled(k).norm_sq() / k == k * v.norm_sq(),
        v.norm_sq() >= 0,
{
    let s = v.norm_sq();
    let kk = k * k;
    crate::color::lemma_square_nonnegative(v.x);
    crate::color::lemma_square_nonnegative(v.y);
    crate::color::lemma_square_nonnegative(v.z);
    crate::color::lemma_square_nonnegative(v.w);
    lemma_square_of_product(v.x, k);
    lemma_square_of_product(v.y, k);
    lemma_square_of_product(v.z, k);
    lemma_square_of_product(v.w, k);
    lemma_distribute(kk, v.x * v.x, v.y * v.y, v.z * v.z, v.w * v.w);
    vstd::arithmetic::mul::lemma_mul_is_commutative(kk, v.x * v.x);
    vstd::arithmetic::mul::lemma_mul_is_commutative(kk, v.y * v.y);
    vstd::arithmetic::mul::lemma_mul_is_commutative(kk, v.z * v.z);
    vstd::arithmetic::mul::lemma_mul_is_commutative(kk, v.w * v.w);
    assert(v.scaled(k).norm_sq() == kk * s);
    vstd::arithmetic::mul::lemma_mul_is_associative(k, k, s);
    vstd::arithmetic::mul::lemma_mul_is_commutative(k, k * s);
    assert(v.scaled(k).norm_sq() == (k * s) * k);
    vstd::arithmetic::mul::lemma_mul_nonnegative(k, s);
    vstd::arithmetic::div_mod::lemma_div_by_multiple(k * s, k);
}

/// Cutting two entries of different colors apart gains something.
proof fn lemma_gain_of_two(p: ColorCount, q: ColorCount)
    requires
        p.count >= 1,
        q.count >= 1,
        p.color != q.color,
    ensures
        split_gain(seq![p, q], 1) > 0,
{
    let h = seq![p, q];
    let m = p.count as int;
    let n = q.count as int;
    let a = p.color@;
    let b = q.color@;
    assert(h.take(1) =~= seq![p]);
    assert(h.skip(1) =~= seq![q]);
    crate::moments::lemma_moments_single(p);
    crate::moments::lemma_moments_single(q);
    crate::moments::lemma_moments_split(h, 1);
    let all = crate::moments::moments(h);
    let sum = all.sum;
    assert(sum == a.scaled(m).plus(b.scaled(n)));
    lemma_single_score(a, m);
    lemma_single_score(b, n);
    lemma_spread_of_two(a.x, b.x, m, n);
    lemma_spread_of_two(a.y, b.y, m, n);
    lemma_spread_of_two(a.z, b.z, m, n);
    lemma_spread_of_two(a.w, b.w, m, n);
    let d = a.minus(b);
    crate::color::lemma_square_nonnegative(d.x);
    crate::color::lemma_square_nonnegative(d.y);
    crate::color::lemma_square_nonnegative(d.z);
    crate::color::lemma_square_nonnegative(d.w);
    assert(d.norm_sq() >= 1) by {
        assert(d.x != 0 || d.y != 0 || d.z != 0 || d.w != 0);
        assert(d.x != 0 ==> d.x * d.x >= 1) by (nonlinear_arith);
        assert(d.y != 0 ==> d.y * d.y >= 1) by (nonlinear_arith);
        assert(d.z != 0 ==> d.z * d.z >= 1) by (nonlinear_arith);
        assert(d.w != 0 ==> d.w * d.w >= 1) by (nonlinear_arith);
    }
    let total = m + n;
    let mn = m * n;
    let whole = m * a.norm_sq() + n * b.norm_sq();
    lemma_distribute(m, a.x * a.x, a.y * a.y, a.z * a.z, a.w * a.w);
    lemma_distribute(n, b.x * b.x, b.y * b.y, b.z * b.z, b.w * b.w);
    lemma_distribute(
        total,
        m * (a.x * a.x) + n * (b.x * b.x),
        m * (a.y * a.y) + n * (b.y * b.y),
        m * (a.z * a.z) + n * (b.z * b.z),
        m * (a.w * a.w) + n * (b.w * b.w),
    );
    lemma_distribute(mn, d.x * d.x, d.y * d.y, d.z * d.z, d.w * d.w);
    assert(total * whole - sum.norm_sq() == mn * d.norm_sq());
    vstd::arithmetic::mul::lemma_mul_strictly_positive(m, n);
    assert(mn * d.norm_sq() >= 1) by (nonlinear_arith)
        requires
            mn >= 1,
            d.norm_sq() >= 1,
    ;
    vstd::arithmetic::div_mod::lemma_fundamental_div_mod(sum.norm_sq(), total);
    vstd::arithmetic::div_mod::lemma_mod_bound(sum.norm_sq(), total);
    let quotient = sum.norm_sq() / total;
    assert(quotient < whole) by (nonlinear_arith)
        requires
            sum.norm_sq() == total * quotient + sum.norm_sq() % total,
            0 <= sum.norm_sq() % total,
            total * whole - sum.norm_sq() >= 1,
            total > 0,
    ;
}

/// The cut is the number of entries in the left half: a bucket of two entries
/// of different colors is cut into two buckets of one entry each.
pub proof fn lemma_two_entries(h: Seq<ColorCount>)
    requires
        crate::moments::valid_histogram(h),
        h.len() == 2,
        h[0].color != h[1].color,
    ensures
        arranged(h).len() == 2,
        cut_of(arranged(h)) == 1,
        gain_of(arranged(h)) > 0,
{
    broadcast use vstd::seq_lib::group_to_multiset_ensures;

    let a = arranged(h);
    lemma_arranged(h);
    assert(a.contains(a[0]) && a.contains(a[1]));
    assert(h.to_multiset().count(a[0]) > 0 && h.to_multiset().count(a[1]) > 0);
    assert(h.contains(a[0]) && h.contains(a[1]));
    assert(h.contains(h[0]) && h.contains(h[1]));
    assert(a.to_multiset().count(h[0]) > 0 && a.to_multiset().count(h[1]) > 0);
    assert(a.contains(h[0]) && a.contains(h[1]));
    assert(a[0].color != a[1].color);
    assert(a =~= seq![a[0], a[1]]);
    lemma_gain_of_two(a[0], a[1]);
    assert(best_split(a, 0) == (0int, 0int));
    assert(best_split(a, 1) == (split_gain(a, 1), 1int));
    assert(best_split(a, 2) == best_split(a, 1));
}

/// One bucket of the quantizer.
pub struct QuantizerNode {
    /// The histogram of the colors represented by this node.
    pub histogram: Vec<ColorCount>,
    /// The average color of this node.
    pub avg: Vec4,
    /// The improvement to the total variance when splitting this node.
    pub vdif: i128,
    /// The best index to split this node at: the number of entries that go to
    /// the left half.
    pub split: usize,
}

impl QuantizerNode {
    /// The invariant of a node: its fields are what its histogram determines.
    pub open spec fn wf(&self) -> bool {
        &&& crate::moments::valid_histogram(self.histogram@)
        &&& self.avg@ == crate::moments::moments(self.histogram@).mean()
        &&& self.avg.in_range()
        &&& self.vdif == best_split(self.histogram@, self.histogram@.len() as int).0
        &&& self.split == best_split(self.histogram@, self.histogram@.len() as int).1
        &&& self.vdif >= 0
        &&& self.split <= self.histogram@.len()
    }

    /// Builds the node for a list of entries: arranges them, and finds their
    /// mean and their best cut.
    pub fn new(histogram: Vec<ColorCount>) -> (node: QuantizerNode)
        requires
            crate::moments::valid_histogram(histogram@),
        ensures
            node.histogram@ == arranged(histogram@),
            node.histogram@.to_multiset() == histogram@.to_multiset(),
            node.wf(),
    {
        let (n, fsum) = measure(&histogram);
        let ghost all = crate::moments::moments(histogram@);
        proof {
            crate::moments::lemma_moments_count(histogram@);
        }
        if n == 0 {
            assert(histogram@.len() == 0);
            return QuantizerNode { histogram, avg: Vec4::zero(), vdif: 0, split: 0 };
        }
        let fsum2 = measure_squares(&histogram);
        let avg = mean_color(fsum, n);
        let axis = pick_axis(n, fsum, fsum2);

        // First sort the histogram by the channel with the largest variance.
        let keys = keys_along_channel(&histogram, axis);
        let order = sort_positions(&keys);
        proof {
            assert(keys@.len() == keys.len());
            crate::sorting::lemma_reorder_multiset(histogram@, keys@);
        }
        let by_channel = apply_order(&histogram, &order);
        proof {
            crate::moments::lemma_valid_permutation(histogram@, by_channel@);
        }

        // Determine the primary vector of the distribution, then sort by it.
        let dir = find_direction(&by_channel, avg);
        let keys = keys_along_direction(&by_channel, dir);
        let order = sort_positions(&keys);
        proof {
            assert(keys@.len() == keys.len());
            crate::sorting::lemma_reorder_multiset(by_channel@, keys@);
        }
        let sorted = apply_order(&by_channel, &order);
        proof {
            crate::moments::lemma_valid_permutation(by_channel@, sorted@);
            assert(sorted@ == arranged(histogram@));
        }

        // Find the split index that results in the lowest total variance.
        let (vdif, split) = find_split(&sorted);
        QuantizerNode { histogram: sorted, avg, vdif, split }
    }
}

/// The sort keys of the entries along one channel.
fn keys_along_channel(h: &Vec<ColorCount>, axis: u8) -> (keys: Vec<i128>)
    ensures
        keys@ == channel_keys(h@, axis as int),
{
    let mut keys: Vec<i128> = Vec::with_capacity(h.len());
    let mut i: usize = 0;
    while i < h.len()
        invariant
            i <= h@.len(),
            keys@ == channel_keys(h@, axis as int).take(i as int),
        decreases h@.len() - i,
    {
        keys.push(h[i].color.channel(axis) as i128);
        assert(keys@ =~= channel_keys(h@, axis as int).take(i + 1));
        i += 1;
    }
    assert(keys@ =~= channel_keys(h@, axis as int));
    keys
}

/// The projection of a color onto a direction.
fn project(c: Vec4, dir: Wide4) -> (p: i128)
    requires
        c.in_range(),
        dir@.within(WIDE_MAX as int),
    ensures
        p == c@.dot(dir@),
{
    proof {
        crate::color::lemma_product_bound(c.x as int, dir.x as int, WIDE_MAX as int);
        crate::color::lemma_product_bound(c.y as int, dir.y as int, WIDE_MAX as int);
        crate::color::lemma_product_bound(c.z as int, dir.z as int, WIDE_MAX as int);
        crate::color::lemma_product_bound(c.w as int, dir.w as int, WIDE_MAX as int);
    }
    (c.x as i128) * dir.x + (c.y as i128) * dir.y + (c.z as i128) * dir.z + (c.w as i128) * dir.w
}

/// The sort keys of the entries along a direction.
fn keys_along_direction(h: &Vec<ColorCount>, dir: Wide4) -> (keys: Vec<i128>)
    requires
        crate::moments::valid_histogram(h@),
        dir@.within(WIDE_MAX as int),
    ensures
        keys@ == projection_keys(h@, dir@),
{
    let mut keys: Vec<i128> = Vec::with_capacity(h.len());
    let mut i: usize = 0;
    while i < h.len()
        invariant
            i <= h@.len(),
            crate::moments::valid_histogram(h@),
            dir@.within(WIDE_MAX as int),
            keys@ == projection_keys(h@, dir@).take(i as int),
        decreases h@.len() - i,
    {
        keys.push(project(h[i].color, dir));
        assert(keys@ =~= projection_keys(h@, dir@).take(i + 1));
        i += 1;
    }
    assert(keys@ =~= projection_keys(h@, dir@));
    keys
}

/// The principal direction stays within twice the channel bound times the
/// number of pixels seen.
proof fn lemma_direction_bound(h: Seq<ColorCount>, mean: Vector4)
    requires
        forall|i: int| 0 <= i < h.len() ==> (#[trigger] h[i]).color.in_range(),
        mean.within(CHANNEL_MAX as int),
    ensures
        principal_direction(h, mean).within(2 * CHANNEL_MAX * crate::moments::moments(h).n),
        crate::moments::moments(h).n >= 0,
    decreases h.len(),
{
    if h.len() > 0 {
        lemma_direction_bound(h.drop_last(), mean);
        let e = h.last();
        let k = e.count as int;
        let m = crate::moments::moments(h.drop_last()).n;
        let off = e.color@.minus(mean);
        crate::color::lemma_scale_bound(off.x, k, 2 * CHANNEL_MAX);
        crate::color::lemma_scale_bound(off.y, k, 2 * CHANNEL_MAX);
        crate::color::lemma_scale_bound(off.z, k, 2 * CHANNEL_MAX);
        crate::color::lemma_scale_bound(off.w, k, 2 * CHANNEL_MAX);
        assert(2 * CHANNEL_MAX * (m + k) == 2 * CHANNEL_MAX * m + 2 * CHANNEL_MAX * k);
    }
}

/// Finds the principal direction of the entries around their mean.
fn find_direction(h: &Vec<ColorCount>, avg: Vec4) -> (dir: Wide4)
    requires
        crate::moments::valid_histogram(h@),
        avg.in_range(),
    ensures
        dir@ == principal_direction(h@, avg@),
        dir@.within(WIDE_MAX as int),
{
    let mut dir = Wide4::zero();
    let mut i: usize = 0;
    while i < h.len()
        invariant
            i <= h@.len(),
            crate::moments::valid_histogram(h@),
            avg.in_range(),
            dir@ == principal_direction(h@.take(i as int), avg@),
            dir@.within(WIDE_MAX as int),
        decreases h@.len() - i,
    {
        let e = h[i];
        let k: i128 = e.count as i128;
        proof {
            assert(h@.take(i + 1).drop_last() =~= h@.take(i as int));
            crate::moments::lemma_valid_part(h@, 0, i + 1);
            assert(h@.subrange(0, i + 1) =~= h@.take(i + 1));
            lemma_direction_bound(h@.take(i + 1), avg@);
            crate::moments::lemma_moments_step(h@, i as int);
            crate::moments::lemma_moments_bounds(h@.take(i as int));
            let m = crate::moments::moments(h@.take(i + 1)).n;
            assert(m <= COUNT_MAX);
            assert(2 * CHANNEL_MAX * m <= 2 * CHANNEL_MAX * COUNT_MAX) by (nonlinear_arith)
                requires
                    m <= COUNT_MAX,
                    CHANNEL_MAX >= 0,
            ;
            let off = e.color@.minus(avg@);
            crate::color::lemma_scale_bound(off.x, k as int, 2 * CHANNEL_MAX);
            crate::color::lemma_scale_bound(off.y, k as int, 2 * CHANNEL_MAX);
            crate::color::lemma_scale_bound(off.z, k as int, 2 * CHANNEL_MAX);
            crate::color::lemma_scale_bound(off.w, k as int, 2 * CHANNEL_MAX);
            assert(2 * CHANNEL_MAX * k <= 2 * CHANNEL_MAX * COUNT_MAX);
        }
        let offset = Wide4 {
            x: (e.color.x as i128 - avg.x as i128) * k,
            y: (e.color.y as i128 - avg.y as i128) * k,
            z: (e.color.z as i128 - avg.z as i128) * k,
            w: (e.color.w as i128 - avg.w as i128) * k,
        };
        if offset.dot(dir) < 0 {
            dir = dir.minus(offset);
        } else {
            dir =
            Wide4 {
                x: dir.x + offset.x,
                y: dir.y + offset.y,
                z: dir.z + offset.z,
                w: dir.w + offset.w,
            };
        }
        i += 1;
    }
    assert(h@.take(i as int) =~= h@);
    dir
}

/// Scans the cuts of the arranged entries for the one with the largest gain.
fn find_split(h: &Vec<ColorCount>) -> (best: (i128, usize))
    requires
        crate::moments::valid_histogram(h@),
        h@.len() > 0,
    ensures
        best.0 == best_split(h@, h@.len() as int).0,
        best.1 == best_split(h@, h@.len() as int).1,
        best.0 >= 0,
        best.1 <= h@.len(),
{
    let (n, fsum) = measure(h);
    proof {
        crate::moments::lemma_moments_count(h@);
        assert(CHANNEL_MAX * n <= CHANNEL_MAX * COUNT_MAX);
        crate::color::lemma_square_nonnegative(fsum.x as int);
        crate::color::lemma_square_nonnegative(fsum.y as int);
        crate::color::lemma_square_nonnegative(fsum.z as int);
        crate::color::lemma_square_nonnegative(fsum.w as int);
    }
    let base: i128 = fsum.dot(fsum) / (n as i128);
    let mut sum = Wide4::zero();
    let mut n2: u64 = 0;
    let mut vdif: i128 = 0;
    let mut split: usize = 0;
    let mut i: usize = 0;
    proof {
        crate::moments::lemma_moments_bounds(h@.take(0));
    }
    while i < h.len()
        invariant
            i <= h@.len(),
            crate::moments::valid_histogram(h@),
            h@.len() > 0,
            n == crate::moments::moments(h@).n,
            n > 0,
            fsum@ == crate::moments::moments(h@).sum,
            fsum@.within(CHANNEL_MAX * n),
            base == crate::moments::moments(h@).sum.norm_sq() / (n as int),
            n2 == crate::moments::moments(h@.take(i as int)).n,
            sum@ == crate::moments::moments(h@.take(i as int)).sum,
            sum@.within(CHANNEL_MAX * n2),
            vdif == best_split(h@, i as int).0,
            split == best_split(h@, i as int).1,
            vdif >= 0,
            split <= i,
        decreases h@.len() - i,
    {
        let e = h[i];
        proof {
            crate::moments::lemma_moments_step(h@, i as int);
            crate::moments::lemma_valid_part(h@, 0, i + 1);
            assert(h@.subrange(0, i + 1) =~= h@.take(i + 1));
            crate::moments::lemma_moments_bounds(h@.take(i + 1));
            let k = e.count as int;
            assert(CHANNEL_MAX * (n2 + k) == CHANNEL_MAX * n2 + CHANNEL_MAX * k);
            assert(CHANNEL_MAX * (n2 + k) <= CHANNEL_MAX * COUNT_MAX);
            assert(CHANNEL_MAX * n <= CHANNEL_MAX * COUNT_MAX);
        }
        sum = sum.plus_scaled(e.color, e.count as i128);
        n2 = n2 + e.count as u64;
        if i + 1 < h.len() {
            proof {
                crate::moments::lemma_valid_part(h@, i + 1, h@.len() as int);
                assert(h@.subrange(i + 1, h@.len() as int) =~= h@.skip(i + 1));
                crate::moments::lemma_moments_split(h@, i + 1);
                crate::moments::lemma_moments_bounds(h@.skip(i + 1));
                let r = crate::moments::moments(h@.skip(i + 1));
                assert(CHANNEL_MAX * r.n <= CHANNEL_MAX * COUNT_MAX);
            }
            let rest = fsum.minus(sum);
            proof {
                crate::color::lemma_square_nonnegative(sum.x as int);
                crate::color::lemma_square_nonnegative(sum.y as int);
                crate::color::lemma_square_nonnegative(sum.z as int);
                crate::color::lemma_square_nonnegative(sum.w as int);
                crate::color::lemma_square_nonnegative(rest.x as int);
                crate::color::lemma_square_nonnegative(rest.y as int);
                crate::color::lemma_square_nonnegative(rest.z as int);
                crate::color::lemma_square_nonnegative(rest.w as int);
            }
            proof {
                crate::color::lemma_square_nonnegative(fsum.x as int);
                crate::color::lemma_square_nonnegative(fsum.y as int);
                crate::color::lemma_square_nonnegative(fsum.z as int);
                crate::color::lemma_square_nonnegative(fsum.w as int);
            }
            let left_score: i128 = sum.dot(sum) / (n2 as i128);
            let right_score: i128 = rest.dot(rest) / ((n - n2) as i128);
            proof {
                lemma_score_bound(sum@.norm_sq(), n2 as int);
                lemma_score_bound(rest@.norm_sq(), (n - n2) as int);
                lemma_score_bound(fsum@.norm_sq(), n as int);
            }
            let gain: i128 = left_score + right_score - base;
            assert(gain == split_gain(h@, i + 1));
            if gain > vdif {
                vdif = gain;
                split = i + 1;
            }
        }
        i += 1;
    }
    (vdif, split)
}

/// A quotient of a non-negative number by a positive one lies between zero and
/// the number.
proof fn lemma_score_bound(a: int, n: int)
    requires
        a >= 0,
        n > 0,
    ensures
        0 <= a / n <= a,
{
    vstd::arithmetic::div_mod::lemma_div_pos_is_pos(a, n);
    vstd::arithmetic::div_mod::lemma_div_is_ordered_by_denominator(a, 1, n);
}

/// The gain of the best cut of a bucket.
pub open spec fn gain_of(h: Seq<ColorCount>) -> int {
    best_split(h, h.len() as int).0
}

/// The best cut of a bucket: the number of entries that go to its left half.
pub open spec fn cut_of(h: Seq<ColorCount>) -> int {
    best_split(h, h.len() as int).1
}

/// The mean color of a bucket.
pub open spec fn bucket_mean(h: Seq<ColorCount>) -> Vec4 {
    Vec4::from_vector(crate::moments::moments(h).mean())
}

/// The number of pixels that the buckets represent together.
pub open spec fn pixels(buckets: Seq<Seq<ColorCount>>) -> int
    decreases buckets.len(),
{
    if buckets.len() == 0 {
        0
    } else {
        pixels(buckets.drop_last()) + crate::moments::moments(buckets.last()).n
    }
}

/// The buckets, one after the other.
pub open spec fn flattened(buckets: Seq<Seq<ColorCount>>) -> Seq<ColorCount>
    decreases buckets.len(),
{
    if buckets.len() == 0 {
        Seq::empty()
    } else {
        flattened(buckets.drop_last()) + buckets.last()
    }
}

/// The bucket to split next among the first `k`: the first of those with the
/// largest gain.
pub open spec fn best_bucket(buckets: Seq<Seq<ColorCount>>, k: int) -> int
    decreases k,
{
    if k <= 1 {
        0
    } else {
        let before = best_bucket(buckets, k - 1);
        if gain_of(buckets[k - 1]) > gain_of(buckets[before]) {
            k - 1
        } else {
            before
        }
    }
}

/// The buckets after one quantization step: the bucket with the largest gain
/// is taken out, the last bucket takes its place, and the two halves of the
/// bucket taken out are appended, each arranged anew.
pub open spec fn split_step(buckets: Seq<Seq<ColorCount>>) -> Seq<Seq<ColorCount>> {
    let best = best_bucket(buckets, buckets.len() as int);
    let h = buckets[best];
    buckets.update(best, buckets.last()).drop_last().push(arranged(h.take(cut_of(h)))).push(
        arranged(h.skip(cut_of(h))),
    )
}

/// The buckets after a number of quantization steps.
pub open spec fn stepped(buckets: Seq<Seq<ColorCount>>, steps: nat) -> Seq<Seq<ColorCount>>
    decreases steps,
{
    if steps == 0 {
        buckets
    } else {
        split_step(stepped(buckets, (steps - 1) as nat))
    }
}

/// The palette of the buckets: the mean of each, converted to RGBA8.
pub open spec fn palette_of<C: ColorSpace>(colorspace: &C, buckets: Seq<Seq<ColorCount>>) -> Seq<
    Color,
> {
    Seq::new(buckets.len(), |i: int| colorspace.output(bucket_mean(buckets[i])))
}

/// The best bucket among the first `k` is one of them, none has a larger
/// gain, and none before it has the same.
pub proof fn lemma_best_bucket(buckets: Seq<Seq<ColorCount>>, k: int)
    requires
        1 <= k <= buckets.len(),
    ensures
        0 <= best_bucket(buckets, k) < k,
        forall|i: int|
            0 <= i < k ==> gain_of(#[trigger] buckets[i]) <= gain_of(
                buckets[best_bucket(buckets, k)],
            ),
        forall|i: int|
            0 <= i < best_bucket(buckets, k) ==> gain_of(#[trigger] buckets[i]) < gain_of(
                buckets[best_bucket(buckets, k)],
            ),
    decreases k,
{
    if k > 1 {
        lemma_best_bucket(buckets, k - 1);
    }
}

/// Every quantization step adds one bucket.
pub proof fn lemma_stepped_len(buckets: Seq<Seq<ColorCount>>, steps: nat)
    requires
        buckets.len() >= 1,
    ensures
        stepped(buckets, steps).len() == buckets.len() + steps,
    decreases steps,
{
    if steps > 0 {
        lemma_stepped_len(buckets, (steps - 1) as nat);
        let before = stepped(buckets, (steps - 1) as nat);
        let best = best_bucket(before, before.len() as int);
        lemma_best_bucket(before, before.len() as int);
        assert(before.update(best, before.last()).drop_last().len() == before.len() - 1);
    }
}

/// A step before a number of steps is a step after them.
pub proof fn lemma_stepped_first(buckets: Seq<Seq<ColorCount>>, steps: nat)
    ensures
        stepped(split_step(buckets), steps) == split_step(stepped(buckets, steps)),
        stepped(split_step(buckets), steps) == stepped(buckets, steps + 1),
    decreases steps,
{
    if steps > 0 {
        lemma_stepped_first(buckets, (steps - 1) as nat);
    }
}

/// Replacing a bucket changes the pixel count by the difference of the two.
proof fn lemma_pixels_update(buckets: Seq<Seq<ColorCount>>, i: int, h: Seq<ColorCount>)
    requires
        0 <= i < buckets.len(),
    ensures
        pixels(buckets.update(i, h)) == pixels(buckets) - crate::moments::moments(buckets[i]).n
            + crate::moments::moments(h).n,
    decreases buckets.len(),
{
    if i == buckets.len() - 1 {
        assert(buckets.update(i, h).drop_last() =~= buckets.drop_last());
    } else {
        lemma_pixels_update(buckets.drop_last(), i, h);
        assert(buckets.update(i, h).drop_last() =~= buckets.drop_last().update(i, h));
    }
}

/// A quantization step keeps every bucket valid and keeps the pixels.
proof fn lemma_split_step(buckets: Seq<Seq<ColorCount>>)
    requires
        buckets.len() >= 1,
        forall|i: int|
            0 <= i < buckets.len() ==> crate::moments::valid_histogram(#[trigger] buckets[i]),
        forall|i: int| 0 <= i < buckets.len() ==> (#[trigger] buckets[i]).len() <= usize::MAX,
        forall|i: int|
            0 <= i < buckets.len() ==> 0 <= cut_of(#[trigger] buckets[i]) <= buckets[i].len(),
    ensures
        split_step(buckets).len() == buckets.len() + 1,
        pixels(split_step(buckets)) == pixels(buckets),
{
    let len = buckets.len() as int;
    lemma_best_bucket(buckets, len);
    let best = best_bucket(buckets, len);
    let h = buckets[best];
    let cut = cut_of(h);
    let updated = buckets.update(best, buckets.last());
    let removed = updated.drop_last();
    lemma_pixels_update(buckets, best, buckets.last());
    assert(updated.last() == buckets.last());
    crate::moments::lemma_valid_part(h, 0, cut);
    crate::moments::lemma_valid_part(h, cut, h.len() as int);
    assert(h.subrange(0, cut) =~= h.take(cut));
    assert(h.subrange(cut, h.len() as int) =~= h.skip(cut));
    crate::moments::lemma_moments_split(h, cut);
    lemma_arranged(h.take(cut));
    lemma_arranged(h.skip(cut));
    let first = removed.push(arranged(h.take(cut)));
    let second = first.push(arranged(h.skip(cut)));
    assert(first.drop_last() =~= removed);
    assert(second.drop_last() =~= first);
    assert(split_step(buckets) == second);
    assert(pixels(updated) == pixels(removed) + crate::moments::moments(updated.last()).n);
    assert(pixels(first) == pixels(removed) + crate::moments::moments(arranged(h.take(cut))).n);
    assert(pixels(second) == pixels(first) + crate::moments::moments(arranged(h.skip(cut))).n);
}

/// Arranging a bucket rearranges its entries: it stays valid and keeps its
/// moments.
pub proof fn lemma_arranged(h: Seq<ColorCount>)
    requires
        crate::moments::valid_histogram(h),
        h.len() <= usize::MAX,
    ensures
        arranged(h).to_multiset() == h.to_multiset(),
        arranged(h).len() == h.len(),
        crate::moments::valid_histogram(arranged(h)),
        crate::moments::moments(arranged(h)) == crate::moments::moments(h),
{
    let m = crate::moments::moments(h);
    if m.n != 0 {
        let keys = channel_keys(h, crate::moments::widest_axis(m.spread()));
        crate::sorting::lemma_reorder_multiset(h, keys);
        let by_channel = crate::sorting::reorder(h, crate::sorting::stable_order(keys));
        let dir = principal_direction(by_channel, m.mean());
        let keys2 = projection_keys(by_channel, dir);
        crate::sorting::lemma_reorder_multiset(by_channel, keys2);
        crate::moments::lemma_valid_permutation(h, by_channel);
    }
    crate::moments::lemma_valid_permutation(h, arranged(h));
}

/// A bucket of one entry stays as it is when arranged, and so does an empty
/// bucket; neither can be cut.
pub proof fn lemma_small_buckets(e: ColorCount)
    ensures
        arranged(seq![e]) == seq![e],
        arranged(Seq::<ColorCount>::empty()) == Seq::<ColorCount>::empty(),
        cut_of(seq![e]) == 0,
        cut_of(Seq::<ColorCount>::empty()) == 0,
        gain_of(seq![e]) == 0,
        gain_of(Seq::<ColorCount>::empty()) == 0,
{
    let h = seq![e];
    let m = crate::moments::moments(h);
    if m.n != 0 {
        let keys = channel_keys(h, crate::moments::widest_axis(m.spread()));
        crate::sorting::lemma_stable_order(keys);
        let by_channel = crate::sorting::reorder(h, crate::sorting::stable_order(keys));
        assert(by_channel =~= h);
        let keys2 = projection_keys(by_channel, principal_direction(by_channel, m.mean()));
        crate::sorting::lemma_stable_order(keys2);
        assert(crate::sorting::reorder(by_channel, crate::sorting::stable_order(keys2)) =~= h);
    }
    assert(best_split(h, 0) == (0int, 0int));
    assert(best_split(h, 1) == (0int, 0int));
}

/// Whether every bucket is empty or holds the entry `e` alone, and one of
/// them holds it.
pub open spec fn holds_one_entry(buckets: Seq<Seq<ColorCount>>, e: ColorCount) -> bool {
    &&& forall|i: int|
        0 <= i < buckets.len() ==> #[trigger] buckets[i] == seq![e] || buckets[i]
            == Seq::<ColorCount>::empty()
    &&& exists|i: int| 0 <= i < buckets.len() && #[trigger] buckets[i] == seq![e]
}

/// A histogram of one entry is never divided: however many steps are taken,
/// one bucket holds the entry and the others are empty, and the palette
/// holds the color of the entry.
pub proof fn lemma_single_entry<C: ColorSpace>(colorspace: &C, e: ColorCount, steps: nat)
    requires
        e.count >= 1,
    ensures
        holds_one_entry(stepped(seq![arranged(seq![e])], steps), e),
        palette_of(colorspace, stepped(seq![arranged(seq![e])], steps)).contains(
            colorspace.output(e.color),
        ),
    decreases steps,
{
    lemma_small_buckets(e);
    let start = seq![arranged(seq![e])];
    let now = stepped(start, steps);
    if steps == 0 {
        assert(now[0] == seq![e]);
    } else {
        lemma_single_entry(colorspace, e, (steps - 1) as nat);
        let before = stepped(start, (steps - 1) as nat);
        lemma_stepped_len(start, (steps - 1) as nat);
        let len = before.len() as int;
        lemma_best_bucket(before, len);
        let best = best_bucket(before, len);
        let h = before[best];
        let removed = before.update(best, before.last()).drop_last();
        assert(cut_of(h) == 0);
        assert(h.take(0) =~= Seq::<ColorCount>::empty());
        assert(h.skip(0) =~= h);
        assert(arranged(h.skip(0)) == h);
        assert(now == removed.push(Seq::<ColorCount>::empty()).push(h));
        assert forall|i: int| 0 <= i < now.len() implies #[trigger] now[i] == seq![e] || now[i]
            == Seq::<ColorCount>::empty() by {
            if i < len - 1 {
                if i == best {
                    assert(now[i] == before[len - 1]);
                } else {
                    assert(now[i] == before[i]);
                }
            }
        }
        let at = choose|i: int| 0 <= i < before.len() && #[trigger] before[i] == seq![e];
        if at == best {
            assert(now[len] == seq![e]);
        } else if at == len - 1 {
            assert(now[best] == seq![e]);
        } else {
            assert(now[at] == seq![e]);
        }
    }
    let at = choose|i: int| 0 <= i < now.len() && #[trigger] now[i] == seq![e];
    crate::moments::lemma_moments_single(e);
    let n = e.count as int;
    let c = e.color@;
    vstd::arithmetic::div_mod::lemma_fundamental_div_mod_converse(c.x * n, n, c.x, 0);
    vstd::arithmetic::div_mod::lemma_fundamental_div_mod_converse(c.y * n, n, c.y, 0);
    vstd::arithmetic::div_mod::lemma_fundamental_div_mod_converse(c.z * n, n, c.z, 0);
    vstd::arithmetic::div_mod::lemma_fundamental_div_mod_converse(c.w * n, n, c.w, 0);
    assert(bucket_mean(seq![e]) == e.color);
    assert(palette_of(colorspace, now)[at] == colorspace.output(e.color));
}

/// The flattened buckets hold valid entries and count the pixels of the
/// buckets.
proof fn lemma_flattened(buckets: Seq<Seq<ColorCount>>)
    requires
        forall|i: int|
            0 <= i < buckets.len() ==> crate::moments::valid_histogram(#[trigger] buckets[i]),
    ensures
        crate::moments::moments(flattened(buckets)).n == pixels(buckets),
        forall|a: int|
            0 <= a < flattened(buckets).len() ==> (#[trigger] flattened(buckets)[a]).color.in_range()
                && flattened(buckets)[a].count >= 1,
    decreases buckets.len(),
{
    if buckets.len() > 0 {
        lemma_flattened(buckets.drop_last());
        crate::moments::lemma_moments_concat(flattened(buckets.drop_last()), buckets.last());
        let f = flattened(buckets);
        let before = flattened(buckets.drop_last());
        assert forall|a: int| 0 <= a < f.len() implies (#[trigger] f[a]).color.in_range()
            && f[a].count >= 1 by {
            if a < before.len() {
                assert(f[a] == before[a]);
            } else {
                assert(f[a] == buckets.last()[a - before.len()]);
            }
        }
    }
}

/// The number of pixels in the clusters of the first `m` palette colors.
pub open spec fn cluster_pixels(palette: Seq<Vec4>, h: Seq<ColorCount>, m: int) -> int
    decreases m,
{
    if m <= 0 {
        0
    } else {
        cluster_pixels(palette, h, m - 1) + crate::moments::moments(
            crate::kmeans::cluster(palette, h, m - 1),
        ).n
    }
}

proof fn lemma_cluster_pixels_step(palette: Seq<Vec4>, h: Seq<ColorCount>, m: int)
    requires
        h.len() > 0,
        0 <= m,
    ensures
        cluster_pixels(palette, h, m) == cluster_pixels(palette, h.drop_last(), m)
            + if crate::colormap::nearest_color(palette, h.last().color) < m {
            h.last().count as int
        } else {
            0
        },
    decreases m,
{
    if m > 0 {
        lemma_cluster_pixels_step(palette, h, m - 1);
        let c = crate::kmeans::cluster(palette, h, m - 1);
        if crate::colormap::nearest_color(palette, h.last().color) == m - 1 {
            assert(c.drop_last() =~= crate::kmeans::cluster(palette, h.drop_last(), m - 1));
        }
    }
}

proof fn lemma_cluster_pixels_empty(palette: Seq<Vec4>, h: Seq<ColorCount>, m: int)
    requires
        h.len() == 0,
    ensures
        cluster_pixels(palette, h, m) == 0,
    decreases m,
{
    if m > 0 {
        lemma_cluster_pixels_empty(palette, h, m - 1);
    }
}

/// The clusters of a palette share out the pixels of the histogram: together
/// they count as many as it does.
pub proof fn lemma_cluster_pixels(palette: Seq<Vec4>, h: Seq<ColorCount>)
    requires
        crate::colormap::valid_palette(palette),
    ensures
        cluster_pixels(palette, h, palette.len() as int) == crate::moments::moments(h).n,
    decreases h.len(),
{
    let n = palette.len() as int;
    if h.len() == 0 {
        lemma_cluster_pixels_empty(palette, h, n);
    } else {
        lemma_cluster_pixels(palette, h.drop_last());
        lemma_cluster_pixels_step(palette, h, n);
        crate::colormap::lemma_nearest_color(palette, h.last().color);
    }
}

/// Buckets that are the rearranged clusters of a palette represent the
/// pixels of the clusters.
proof fn lemma_rebucketed(
    palette: Seq<Vec4>,
    h: Seq<ColorCount>,
    buckets: Seq<Seq<ColorCount>>,
    m: int,
)
    requires
        0 <= m <= buckets.len(),
        forall|j: int|
            0 <= j < buckets.len() ==> (#[trigger] buckets[j]).to_multiset()
                == crate::kmeans::cluster(palette, h, j).to_multiset(),
    ensures
        pixels(buckets.take(m)) == cluster_pixels(palette, h, m),
    decreases m,
{
    if m > 0 {
        lemma_rebucketed(palette, h, buckets, m - 1);
        assert(buckets.take(m).drop_last() =~= buckets.take(m - 1));
        crate::moments::lemma_moments_permutation(
            buckets[m - 1],
            crate::kmeans::cluster(palette, h, m - 1),
        );
    }
}

/// The means of the buckets.
pub open spec fn bucket_means(buckets: Seq<Seq<ColorCount>>) -> Seq<Vec4> {
    Seq::new(buckets.len(), |i: int| bucket_mean(buckets[i]))
}

/// The histogram entries shared out among the palette colors: bucket `i`
/// holds the entries whose nearest color is number `i`, arranged.
pub open spec fn rebucketed(palette: Seq<Vec4>, h: Seq<ColorCount>) -> Seq<Seq<ColorCount>> {
    Seq::new(palette.len(), |i: int| arranged(crate::kmeans::cluster(palette, h, i)))
}

/// The buckets after a number of K-Means iterations: the means of the
/// buckets are refined by the optimizer on all entries, and the entries are
/// shared out among the refined colors. An optimizer that is a no-op leaves
/// the buckets as they are.
pub open spec fn optimized_buckets<O: Optimizer>(
    optimizer: &O,
    buckets: Seq<Seq<ColorCount>>,
    steps: nat,
) -> Seq<Seq<ColorCount>> {
    if optimizer.noop() {
        buckets
    } else {
        rebucketed(
            crate::optimizer::iterated(
                optimizer,
                bucket_means(buckets),
                flattened(buckets),
                steps,
            ),
            flattened(buckets),
        )
    }
}

/// The main color quantizer state.
///
/// The Quantizer is used to find a palette of colors that represent the colors in an input
/// Histogram as well as possible.
///
/// To use it you first create a new Quantizer instance using `Quantizer::new`, then call
/// `quantizer.step()` until `quantizer.num_colors()` reaches your target color count, then
/// call `quantizer.colors()` to get your final palette `Vec` of `Color`s.
///
/// Optionally you can call `quantizer.optimize()` between calls to `quantizer.step()` to
/// run K-Means optimizations during quantization.
pub struct Quantizer {
    nodes: Vec<QuantizerNode>,
}

impl Quantizer {
    /// The buckets of the quantizer, one per palette color: the histogram of
    /// each node.
    pub closed spec fn buckets(&self) -> Seq<Seq<ColorCount>> {
        Seq::new(self.nodes@.len(), |i: int| self.nodes@[i].histogram@)
    }

    /// The invariant of the quantizer: it has at least one node, every node
    /// is well-formed, and together they represent no more pixels than the
    /// sums can hold.
    pub closed spec fn wf(&self) -> bool {
        &&& self.nodes@.len() >= 1
        &&& forall|i: int| 0 <= i < self.nodes@.len() ==> (#[trigger] self.nodes@[i]).wf()
        &&& pixels(self.buckets()) <= COUNT_MAX
    }

    /// What holds of the buckets of every quantizer.
    pub proof fn lemma_buckets(&self)
        requires
            self.wf(),
        ensures
            self.buckets().len() >= 1,
            forall|i: int|
                0 <= i < self.buckets().len() ==> crate::moments::valid_histogram(
                    #[trigger] self.buckets()[i],
                ),
            forall|i: int|
                0 <= i < self.buckets().len() ==> 0 <= cut_of(#[trigger] self.buckets()[i])
                    <= self.buckets()[i].len() <= usize::MAX,
            pixels(self.buckets()) <= COUNT_MAX,
    {
        assert forall|i: int| 0 <= i < self.buckets().len() implies crate::moments::valid_histogram(
            #[trigger] self.buckets()[i],
        ) && 0 <= cut_of(self.buckets()[i]) <= self.buckets()[i].len() <= usize::MAX by {
            assert(self.nodes@[i].wf());
            assert(self.nodes@[i].histogram@.len() == self.nodes@[i].histogram.len());
        }
    }

    /// Create a new Quantizer state for entries in quantization space: one
    /// bucket that holds them all.
    pub fn from_color_counts(hist: Vec<ColorCount>) -> (q: Quantizer)
        requires
            crate::moments::valid_histogram(hist@),
        ensures
            q.wf(),
            q.buckets() == seq![arranged(hist@)],
    {
        let ghost entries = hist@;
        assert(entries.len() == hist.len());
        let node = QuantizerNode::new(hist);
        let mut nodes: Vec<QuantizerNode> = Vec::with_capacity(1);
        nodes.push(node);
        let q = Quantizer { nodes };
        proof {
            assert(q.buckets() =~= seq![arranged(entries)]);
            assert(q.buckets().drop_last() =~= Seq::<Seq<ColorCount>>::empty());
            assert(pixels(q.buckets().drop_last()) == 0);
            lemma_arranged(entries);
        }
        q
    }

    /// Create a new Quantizer state for the given histogram.
    pub fn new<C: ColorSpace>(histogram: &Histogram, colorspace: &C) -> (q: Quantizer)
        requires
            histogram.wf(),
            histogram.total() <= COUNT_MAX,
        ensures
            q.wf(),
            q.buckets() == seq![
                arranged(crate::histogram::quantized_counts(colorspace, histogram.entries())),
            ],
    {
        Quantizer::from_color_counts(histogram.to_color_counts(colorspace))
    }

    /// A shortcut function to directly create a palette from a histogram:
    /// the palette of the quantizer after `num_colors - 1` steps.
    pub fn create_palette<C: ColorSpace>(
        histogram: &Histogram,
        colorspace: &C,
        num_colors: usize,
    ) -> (palette: Vec<Color>)
        requires
            histogram.wf(),
            histogram.total() <= COUNT_MAX,
        ensures
            palette@ == palette_of(
                colorspace,
                stepped(
                    seq![
                        arranged(
                            crate::histogram::quantized_counts(colorspace, histogram.entries()),
                        ),
                    ],
                    if num_colors >= 1 {
                        (num_colors - 1) as nat
                    } else {
                        0
                    },
                ),
            ),
            palette@.len() == if num_colors >= 1 {
                num_colors as int
            } else {
                1
            },
    {
        let mut quantizer = Quantizer::new(histogram, colorspace);
        let ghost start = quantizer.buckets();
        while quantizer.num_colors() < num_colors
            invariant
                quantizer.wf(),
                start.len() == 1,
                quantizer.buckets().len() >= 1,
                quantizer.buckets().len() <= num_colors || quantizer.buckets().len() == 1,
                quantizer.buckets() == stepped(start, (quantizer.buckets().len() - 1) as nat),
            decreases num_colors - quantizer.buckets().len(),
        {
            quantizer.step();
        }
        quantizer.colors(colorspace)
    }

    /// Returns the current number of colors in this Quantizer state.
    ///
    /// This starts off at 1 and increases by 1 for each call to `quantizer.step()`.
    pub fn num_colors(&self) -> (n: usize)
        ensures
            n == self.buckets().len(),
    {
        self.nodes.len()
    }

    /// Run one quantization step which increases the `num_colors()` by one.
    ///
    /// The first bucket with the largest gain is taken out, the last bucket
    /// takes its place, and the two halves of the bucket taken out are
    /// appended as new buckets.
    pub fn step(&mut self)
        requires
            old(self).wf(),
        ensures
            final(self).wf(),
            final(self).buckets() == split_step(old(self).buckets()),
            final(self).buckets().len() == old(self).buckets().len() + 1,
            pixels(final(self).buckets()) == pixels(old(self).buckets()),
    {
        let len = self.nodes.len();
        let ghost before = self.buckets();
        proof {
            self.lemma_buckets();
        }
        let mut best_i: usize = 0;
        let mut i: usize = 1;
        while i < len
            invariant
                1 <= i <= len,
                len == self.nodes@.len(),
                before == self.buckets(),
                forall|i: int| 0 <= i < self.nodes@.len() ==> (#[trigger] self.nodes@[i]).wf(),
                best_i == best_bucket(before, i as int),
                best_i < i,
            decreases len - i,
        {
            proof {
                assert(self.nodes@[i as int].wf());
                assert(self.nodes@[best_i as int].wf());
                assert(before[i as int] == self.nodes@[i as int].histogram@);
                assert(before[best_i as int] == self.nodes@[best_i as int].histogram@);
            }
            if self.nodes[i].vdif > self.nodes[best_i].vdif {
                best_i = i;
            }
            i += 1;
        }
        let ghost nodes_before = self.nodes@;
        let node = self.nodes.swap_remove(best_i);
        proof {
            assert(node == nodes_before[best_i as int]);
            assert(node.wf());
            assert(node.histogram@ == before[best_i as int]);
        }
        let split = node.split;
        let mut colors1 = node.histogram;
        let ghost whole = colors1@;
        let colors2 = colors1.split_off(split);
        proof {
            assert(colors1@ =~= whole.take(split as int));
            assert(colors2@ =~= whole.skip(split as int));
            crate::moments::lemma_valid_part(whole, 0, split as int);
            crate::moments::lemma_valid_part(whole, split as int, whole.len() as int);
            assert(whole.subrange(0, split as int) =~= whole.take(split as int));
            assert(whole.subrange(split as int, whole.len() as int) =~= whole.skip(split as int));
        }
        let new_node1 = QuantizerNode::new(colors1);
        let new_node2 = QuantizerNode::new(colors2);
        self.nodes.push(new_node1);
        self.nodes.push(new_node2);
        proof {
            lemma_split_step(before);
            assert(self.buckets() =~= split_step(before));
            assert forall|i: int| 0 <= i < self.nodes@.len() implies (#[trigger] self.nodes@[i]).wf() by {
                if i < len - 1 {
                    if i == best_i {
                        assert(self.nodes@[i] == nodes_before[len - 1]);
                    } else {
                        assert(self.nodes@[i] == nodes_before[i]);
                    }
                }
            }
        }
    }

    /// Returns colors the current Quantizer state represents: the mean of
    /// each bucket, converted to RGBA8.
    pub fn colors<C: ColorSpace>(&self, colorspace: &C) -> (palette: Vec<Color>)
        requires
            self.wf(),
        ensures
            palette@ == palette_of(colorspace, self.buckets()),
            palette@.len() == self.buckets().len(),
            forall|i: int|
                0 <= i < palette@.len() ==> {
                    &&& 0 <= (#[trigger] palette@[i]).r <= 255
                    &&& 0 <= palette@[i].g <= 255
                    &&& 0 <= palette@[i].b <= 255
                    &&& 0 <= palette@[i].a <= 255
                },
    {
        let means = self.means();
        let mut palette: Vec<Color> = Vec::with_capacity(means.len());
        let mut i: usize = 0;
        while i < means.len()
            invariant
                i <= means@.len(),
                palette@.len() == i,
                forall|j: int|
                    0 <= j < i ==> #[trigger] palette@[j] == colorspace.output(means@[j]),
            decreases means@.len() - i,
        {
            palette.push(colorspace.from_float(means[i]));
            i += 1;
        }
        assert(palette@ =~= palette_of(colorspace, self.buckets()));
        palette
    }

    /// Returns the mean color of each bucket, in quantization space.
    pub fn means(&self) -> (colors: Vec<Vec4>)
        requires
            self.wf(),
        ensures
            colors@.len() == self.buckets().len(),
            forall|i: int|
                0 <= i < colors@.len() ==> #[trigger] colors@[i] == bucket_mean(self.buckets()[i]),
            forall|i: int| 0 <= i < colors@.len() ==> (#[trigger] colors@[i]).in_range(),
    {
        let mut colors: Vec<Vec4> = Vec::with_capacity(self.nodes.len());
        let mut i: usize = 0;
        while i < self.nodes.len()
            invariant
                i <= self.nodes@.len(),
                forall|i: int| 0 <= i < self.nodes@.len() ==> (#[trigger] self.nodes@[i]).wf(),
                colors@.len() == i,
                forall|j: int|
                    0 <= j < i ==> #[trigger] colors@[j] == bucket_mean(self.buckets()[j]),
                forall|j: int| 0 <= j < i ==> (#[trigger] colors@[j]).in_range(),
            decreases self.nodes@.len() - i,
        {
            proof {
                assert(self.nodes@[i as int].wf());
                assert(self.buckets()[i as int] == self.nodes@[i as int].histogram@);
            }
            colors.push(self.nodes[i].avg);
            i += 1;
        }
        colors
    }

    /// Run a number of K-Means iteration on the current quantizer state.
    ///
    /// The means of the buckets are refined by the optimizer, and the
    /// histogram entries are shared out anew: each goes to the bucket of the
    /// refined color nearest to it. With an optimizer that is a no-op the
    /// quantizer is returned as it is.
    pub fn optimize<O: Optimizer>(self, optimizer: &O, num_iterations: usize) -> (q: Quantizer)
        requires
            self.wf(),
            self.buckets().len() <= PALETTE_MAX,
        ensures
            q.wf(),
            q.buckets().len() == self.buckets().len(),
            pixels(q.buckets()) == pixels(self.buckets()),
            q.buckets() == optimized_buckets(optimizer, self.buckets(), num_iterations as nat),
    {
        if optimizer.is_noop() {
            return self;
        }
        let n = self.nodes.len();
        let mut colors = self.means();
        let ghost means = colors@;
        assert(means =~= bucket_means(self.buckets()));
        let histogram = self.flatten();
        proof {
            self.lemma_buckets();
            lemma_flattened(self.buckets());
        }
        let mut i: usize = 0;
        while i < num_iterations
            invariant
                i <= num_iterations,
                crate::colormap::valid_palette(colors@),
                colors@.len() == n,
                crate::moments::valid_histogram(histogram@),
                colors@ == crate::optimizer::iterated(optimizer, means, histogram@, i as nat),
            decreases num_iterations - i,
        {
            colors = optimizer.step(colors, &histogram);
            i += 1;
        }
        let ghost palette = colors@;
        let map = ColorMap::from_float_colors(colors);
        let mut histograms: Vec<Vec<ColorCount>> = Vec::with_capacity(n);
        let mut i: usize = 0;
        while i < n
            invariant
                i <= n,
                histograms@.len() == i,
                forall|j: int|
                    0 <= j < i ==> (#[trigger] histograms@[j])@ == Seq::<ColorCount>::empty(),
            decreases n - i,
        {
            histograms.push(Vec::new());
            i += 1;
        }
        let mut k: usize = 0;
        while k < histogram.len()
            invariant
                k <= histogram@.len(),
                map.wf(),
                map.colors() == palette,
                map.colors().len() == n,
                histograms@.len() == n,
                forall|j: int|
                    0 <= j < n ==> (#[trigger] histograms@[j])@ == crate::kmeans::cluster(
                        palette,
                        histogram@.take(k as int),
                        j,
                    ),
            decreases histogram@.len() - k,
        {
            let entry = histogram[k];
            let index = map.find_nearest(entry.color);
            proof {
                assert(histogram@.take(k + 1).drop_last() =~= histogram@.take(k as int));
            }
            let mut bucket = Vec::new();
            std::mem::swap(&mut bucket, &mut histograms[index]);
            bucket.push(entry);
            histograms.set(index, bucket);
            k += 1;
        }
        assert(histogram@.take(k as int) =~= histogram@);
        let mut nodes: Vec<QuantizerNode> = Vec::with_capacity(n);
        let mut i: usize = n;
        // The buckets are taken from the back, so the nodes are built in reverse and turned round.
        while i > 0
            invariant
                i <= n,
                map.wf(),
                map.colors() == palette,
                map.colors().len() == n,
                crate::moments::valid_histogram(histogram@),
                histograms@.len() == i,
                forall|j: int|
                    0 <= j < i ==> (#[trigger] histograms@[j])@ == crate::kmeans::cluster(
                        palette,
                        histogram@,
                        j,
                    ),
                nodes@.len() == n - i,
                forall|j: int| 0 <= j < nodes@.len() ==> (#[trigger] nodes@[j]).wf(),
                forall|j: int|
                    0 <= j < nodes@.len() ==> (#[trigger] nodes@[j]).histogram@ == arranged(
                        crate::kmeans::cluster(palette, histogram@, n - 1 - j),
                    ),
                forall|j: int|
                    0 <= j < nodes@.len() ==> (#[trigger] nodes@[j]).histogram@.to_multiset()
                        == crate::kmeans::cluster(palette, histogram@, n - 1 - j).to_multiset(),
            decreases i,
        {
            let bucket = match histograms.pop() {
                Some(b) => b,
                None => Vec::new(),
            };
            proof {
                crate::kmeans::lemma_cluster(palette, histogram@, i - 1);
            }
            nodes.push(QuantizerNode::new(bucket));
            i -= 1;
        }
        let ghost built = nodes@;
        let nodes = reversed(nodes);
        let q = Quantizer { nodes };
        proof {
            assert forall|j: int| 0 <= j < q.nodes@.len() implies (#[trigger] q.nodes@[j]).wf()
                && q.nodes@[j].histogram@ == arranged(crate::kmeans::cluster(
                    palette,
                    histogram@,
                    j,
                ))
                && q.nodes@[j].histogram@.to_multiset() == crate::kmeans::cluster(
                palette,
                histogram@,
                j,
            ).to_multiset() by {
                assert(q.nodes@[j] == built[n - 1 - j]);
            }
            assert forall|j: int| 0 <= j < q.buckets().len() implies (#[trigger] q.buckets()[j]).to_multiset()
                == crate::kmeans::cluster(palette, histogram@, j).to_multiset() by {
                assert(q.buckets()[j] == q.nodes@[j].histogram@);
            }
            map.lemma_palette();
            lemma_cluster_pixels(palette, histogram@);
            lemma_rebucketed(palette, histogram@, q.buckets(), n as int);
            assert(q.buckets().take(n as int) =~= q.buckets());
            assert forall|j: int| 0 <= j < q.buckets().len() implies #[trigger] q.buckets()[j]
                == arranged(crate::kmeans::cluster(palette, flattened(self.buckets()), j)) by {
                assert(q.buckets()[j] == q.nodes@[j].histogram@);
            }
            assert(q.buckets() =~= rebucketed(palette, flattened(self.buckets())));
        }
        q
    }

    /// The histograms of all nodes in one list.
    fn flatten(&self) -> (histogram: Vec<ColorCount>)
        ensures
            histogram@ == flattened(self.buckets()),
    {
        let mut histogram: Vec<ColorCount> = Vec::new();
        let mut i: usize = 0;
        while i < self.nodes.len()
            invariant
                i <= self.nodes@.len(),
                histogram@ == flattened(self.buckets().take(i as int)),
            decreases self.nodes@.len() - i,
        {
            let node = &self.nodes[i];
            let ghost before = histogram@;
            let mut a: usize = 0;
            while a < node.histogram.len()
                invariant
                    a <= node.histogram@.len(),
                    histogram@ == before + node.histogram@.take(a as int),
                decreases node.histogram@.len() - a,
            {
                histogram.push(node.histogram[a]);
                assert(histogram@ =~= before + node.histogram@.take(a + 1));
                a += 1;
            }
            proof {
                assert(node.histogram@.take(a as int) =~= node.histogram@);
                assert(self.buckets().take(i + 1).drop_last() =~= self.buckets().take(i as int));
                assert(self.buckets().take(i + 1).last() == node.histogram@);
            }
            i += 1;
        }
        assert(self.buckets().take(i as int) =~= self.buckets());
        histogram
    }
}

/// The nodes in reverse order.
fn reversed(nodes: Vec<QuantizerNode>) -> (out: Vec<QuantizerNode>)
    ensures
        out@.len() == nodes@.len(),
        forall|j: int| 0 <= j < out@.len() ==> #[trigger] out@[j] == nodes@[nodes@.len() - 1 - j],
{
    let mut nodes = nodes;
    let ghost all = nodes@;
    let mut out: Vec<QuantizerNode> = Vec::with_capacity(nodes.len());
    while nodes.len() > 0
        invariant
            nodes@ == all.take(nodes@.len() as int),
            nodes@.len() <= all.len(),
            out@.len() == all.len() - nodes@.len(),
            forall|j: int| 0 <= j < out@.len() ==> #[trigger] out@[j] == all[all.len() - 1 - j],
        decreases nodes@.len(),
    {
        match nodes.pop() {
            Some(node) => {
                out.push(node);
                assert(nodes@ =~= all.take(nodes@.len() as int));
            },
            None => {},
        }
    }
    out
}

} // verus!
