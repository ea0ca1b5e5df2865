//! Weighted sums over histogram entries.

use vstd::prelude::*;
use crate::color::{div_floor, Vec4, Vector4, Wide4, CHANNEL_MAX};
use crate::histogram::ColorCount;

verus! {

/// The largest total count a histogram may have for its sums to fit the
/// machine: 2^40 pixels.
pub const COUNT_MAX: u64 = 0x100_0000_0000;

/// The number of pixels, the sum of their colors and the sum of their squared
/// colors, over a list of histogram entries.
pub struct Moments {
    pub n: int,
    pub sum: Vector4,
    pub sum_sq: Vector4,
}

impl Moments {
    pub open spec fn zero() -> Moments {
        Moments { n: 0, sum: Vector4::zero(), sum_sq: Vector4::zero() }
    }

    /// The moments of a single entry.
    pub open spec fn of(e: ColorCount) -> Moments {
        Moments {
            n: e.count as int,
            sum: e.color@.scaled(e.count as int),
            sum_sq: e.color@.times(e.color@).scaled(e.count as int),
        }
    }

    pub open spec fn join(self, o: Moments) -> Moments {
        Moments { n: self.n + o.n, sum: self.sum.plus(o.sum), sum_sq: self.sum_sq.plus(o.sum_sq) }
    }

    /// The mean color, each channel rounded down; zero where nothing was
    /// counted.
    pub open spec fn mean(self) -> Vector4 {
        if self.n > 0 {
            self.sum.divided(self.n)
        } else {
            Vector4::zero()
        }
    }

    /// Per channel, the variance of the colors times the square of the count.
    pub open spec fn spread(self) -> Vector4 {
        self.sum_sq.scaled(self.n).minus(self.sum.times(self.sum))
    }
}

/// The channel along which the spread is largest; among equals the earlier
/// channel wins.
pub open spec fn widest_axis(spread: Vector4) -> int {
    if spread.x >= spread.y && spread.x >= spread.z && spread.x >= spread.w {
        0
    } else if spread.y >= spread.z && spread.y >= spread.w {
        1
    } else if spread.z >= spread.w {
        2
    } else {
        3
    }
}

/// The moments of a list of entries.
pub open spec fn moments(h: Seq<ColorCount>) -> Moments
    decreases h.len(),
{
    if h.len() == 0 {
        Moments::zero()
    } else {
        moments(h.drop_last()).join(Moments::of(h.last()))
    }
}

/// The entries a quantizer can work on: every color in range, every count at
/// least one, and the total count at most `COUNT_MAX`.
pub open spec fn valid_histogram(h: Seq<ColorCount>) -> bool {
    &&& forall|i: int| 0 <= i < h.len() ==> (#[trigger] h[i]).color.in_range() && h[i].count >= 1
    &&& moments(h).n <= COUNT_MAX
}

/// The moments of a concatenation are the joined moments of its parts.
pub proof fn lemma_moments_concat(a: Seq<ColorCount>, b: Seq<ColorCount>)
    ensures
        moments(a + b) == moments(a).join(moments(b)),
    decreases b.len(),
{
    if b.len() == 0 {
        assert(a + b =~= a);
    } else {
        lemma_moments_concat(a, b.drop_last());
        assert((a + b).drop_last() =~= a + b.drop_last());
    }
}

/// Cutting a list in two cuts its moments in two.
pub proof fn lemma_moments_split(h: Seq<ColorCount>, k: int)
    requires
        0 <= k <= h.len(),
    ensures
        moments(h) == moments(h.take(k)).join(moments(h.skip(k))),
{
    assert(h =~= h.take(k) + h.skip(k));
    lemma_moments_concat(h.take(k), h.skip(k));
}

/// The moments of a prefix grow by one entry at a time.
pub proof fn lemma_moments_step(h: Seq<ColorCount>, i: int)
    requires
        0 <= i < h.len(),
    ensures
        moments(h.take(i + 1)) == moments(h.take(i)).join(Moments::of(h[i])),
{
    assert(h.take(i + 1).drop_last() =~= h.take(i));
}

/// The moments of a list of one entry.
pub proof fn lemma_moments_single(e: ColorCount)
    ensures
        moments(seq![e]) == Moments::zero().join(Moments::of(e)),
{
    let s = seq![e];
    assert(s.len() == 1);
    assert(s.last() == e);
    assert(s.drop_last().len() == 0);
    assert(moments(s.drop_last()) == Moments::zero());
}

/// The moments do not depend on the order of the entries.
pub proof fn lemma_moments_permutation(a: Seq<ColorCount>, b: Seq<ColorCount>)
    requires
        a.to_multiset() == b.to_multiset(),
    ensures
        moments(a) == moments(b),
    decreases a.len(),
{
    broadcast use vstd::seq_lib::group_to_multiset_ensures;

    a.to_multiset_ensures();
    b.to_multiset_ensures();
    if a.len() > 0 {
        let x = a.last();
        assert(a.contains(x));
        assert(a.to_multiset().count(x) > 0);
        assert(b.contains(x));
        let i = choose|i: int| 0 <= i < b.len() && b[i] == x;
        let a1 = a.drop_last();
        let b1 = b.remove(i);
        assert(a1 =~= a.remove(a.len() - 1));
        assert(a1.to_multiset() == a.to_multiset().remove(x));
        assert(b1.to_multiset() == b.to_multiset().remove(x));
        lemma_moments_permutation(a1, b1);
        lemma_moments_split(b, i);
        lemma_moments_split(b.skip(i), 1);
        assert(b.skip(i).take(1) =~= seq![x]);
        lemma_moments_single(x);
        assert(b.skip(i).skip(1) =~= b.skip(i + 1));
        assert(b1 =~= b.take(i) + b.skip(i + 1));
        lemma_moments_concat(b.take(i), b.skip(i + 1));
    }
}

/// How large the moments of in-range colors can be.
pub proof fn lemma_moments_bounds(h: Seq<ColorCount>)
    requires
        forall|i: int| 0 <= i < h.len() ==> (#[trigger] h[i]).color.in_range(),
    ensures
        moments(h).n >= 0,
        moments(h).sum.within(CHANNEL_MAX * moments(h).n),
        moments(h).sum_sq.within(CHANNEL_MAX * CHANNEL_MAX * moments(h).n),
        moments(h).sum_sq.x >= 0 && moments(h).sum_sq.y >= 0 && moments(h).sum_sq.z >= 0
            && moments(h).sum_sq.w >= 0,
    decreases h.len(),
{
    if h.len() > 0 {
        lemma_moments_bounds(h.drop_last());
        let e = h.last();
        let k = e.count as int;
        let m = moments(h.drop_last()).n;
        let b = CHANNEL_MAX as int;
        lemma_entry_bounds(e.color.x as int, k);
        lemma_entry_bounds(e.color.y as int, k);
        lemma_entry_bounds(e.color.z as int, k);
        lemma_entry_bounds(e.color.w as int, k);
        assert(b * (m + k) == b * m + b * k) by (nonlinear_arith);
        assert(b * b * (m + k) == b * b * m + b * b * k) by (nonlinear_arith);
    }
}

proof fn lemma_entry_bounds(c: int, k: int)
    requires
        -CHANNEL_MAX <= c <= CHANNEL_MAX,
        0 <= k,
    ensures
        -(CHANNEL_MAX * k) <= c * k <= CHANNEL_MAX * k,
        0 <= c * c * k <= CHANNEL_MAX * CHANNEL_MAX * k,
{
    let b = CHANNEL_MAX as int;
    assert(-(b * k) <= c * k <= b * k) by (nonlinear_arith)
        requires
            -b <= c <= b,
            0 <= k,
    ;
    assert(0 <= c * c <= b * b) by (nonlinear_arith)
        requires
            -b <= c <= b,
    ;
    assert(0 <= c * c * k <= b * b * k) by (nonlinear_arith)
        requires
            0 <= c * c <= b * b,
            0 <= k,
    ;
}

/// Where every count is at least one, a list counts at least as many pixels as
/// it has entries.
pub proof fn lemma_moments_count(h: Seq<ColorCount>)
    requires
        forall|i: int| 0 <= i < h.len() ==> (#[trigger] h[i]).count >= 1,
    ensures
        moments(h).n >= h.len(),
    decreases h.len(),
{
    if h.len() > 0 {
        lemma_moments_count(h.drop_last());
    }
}

/// Every part of a valid histogram is valid, and counts no more pixels than
/// the whole.
pub proof fn lemma_valid_part(h: Seq<ColorCount>, from: int, to: int)
    requires
        valid_histogram(h),
        0 <= from <= to <= h.len(),
    ensures
        valid_histogram(h.subrange(from, to)),
        moments(h.subrange(from, to)).n <= moments(h).n,
        from < to ==> moments(h.subrange(from, to)).n >= 1,
        (from > 0 || to < h.len()) ==> moments(h.subrange(from, to)).n < moments(h).n,
{
    let part = h.subrange(from, to);
    assert forall|i: int| 0 <= i < part.len() implies (#[trigger] part[i]).color.in_range()
        && part[i].count >= 1 by {
        assert(part[i] == h[from + i]);
    }
    lemma_moments_split(h, to);
    lemma_moments_split(h.take(to), from);
    assert(h.take(to).skip(from) =~= part);
    assert(h.take(to).take(from) =~= h.take(from));
    lemma_moments_count(h.take(from));
    lemma_moments_count(h.skip(to));
    lemma_moments_count(part);
}

/// A rearrangement of a valid histogram is valid.
pub proof fn lemma_valid_permutation(a: Seq<ColorCount>, b: Seq<ColorCount>)
    requires
        valid_histogram(a),
        a.to_multiset() == b.to_multiset(),
    ensures
        valid_histogram(b),
        moments(b) == moments(a),
{
    broadcast use vstd::seq_lib::group_to_multiset_ensures;

    lemma_moments_permutation(a, b);
    assert forall|i: int| 0 <= i < b.len() implies (#[trigger] b[i]).color.in_range() && b[i].count
        >= 1 by {
        assert(b.contains(b[i]));
        assert(b.to_multiset().count(b[i]) > 0);
        assert(a.contains(b[i]));
    }
}

/// The count and the color sum of a list of entries.
pub fn measure(h: &Vec<ColorCount>) -> (m: (u64, Wide4))
    requires
        valid_histogram(h@),
    ensures
        m.0 == moments(h@).n,
        m.1@ == moments(h@).sum,
        m.1@.within(CHANNEL_MAX * moments(h@).n),
{
    let mut n: u64 = 0;
    let mut sum = Wide4::zero();
    let mut i: usize = 0;
    proof {
        lemma_moments_bounds(h@.take(0));
    }
    while i < h.len()
        invariant
            i <= h@.len(),
            valid_histogram(h@),
            n == moments(h@.take(i as int)).n,
            sum@ == moments(h@.take(i as int)).sum,
            sum@.within(CHANNEL_MAX * n),
        decreases h@.len() - i,
    {
        let e = h[i];
        proof {
            lemma_moments_step(h@, i as int);
            lemma_valid_part(h@, 0, i + 1);
            assert(h@.subrange(0, i + 1) =~= h@.take(i + 1));
            lemma_moments_bounds(h@.take(i + 1));
            let k = e.count as int;
            assert(CHANNEL_MAX * (n + k) == CHANNEL_MAX * n + CHANNEL_MAX * k) by (nonlinear_arith);
            assert(CHANNEL_MAX * (n + k) <= CHANNEL_MAX * COUNT_MAX) by (nonlinear_arith)
                requires
                    n + k <= COUNT_MAX,
            ;
        }
        sum = sum.plus_scaled(e.color, e.count as i128);
        n = n + e.count as u64;
        i += 1;
    }
    assert(h@.take(i as int) =~= h@);
    (n, sum)
}

/// The sum of the squared colors of a list of entries, each weighted by its
/// count.
pub fn measure_squares(h: &Vec<ColorCount>) -> (sum_sq: Wide4)
    requires
        valid_histogram(h@),
    ensures
        sum_sq@ == moments(h@).sum_sq,
        sum_sq@.within(CHANNEL_MAX * CHANNEL_MAX * moments(h@).n),
        sum_sq.x >= 0 && sum_sq.y >= 0 && sum_sq.z >= 0 && sum_sq.w >= 0,
{
    let mut sum_sq = Wide4::zero();
    let mut i: usize = 0;
    proof {
        lemma_moments_bounds(h@.take(0));
    }
    while i < h.len()
        invariant
            i <= h@.len(),
            valid_histogram(h@),
            sum_sq@ == moments(h@.take(i as int)).sum_sq,
            sum_sq@.within(CHANNEL_MAX * CHANNEL_MAX * moments(h@.take(i as int)).n),
            sum_sq.x >= 0 && sum_sq.y >= 0 && sum_sq.z >= 0 && sum_sq.w >= 0,
            moments(h@.take(i as int)).n <= COUNT_MAX,
        decreases h@.len() - i,
    {
        let e = h[i];
        let k: i128 = e.count as i128;
        proof {
            lemma_moments_step(h@, i as int);
            lemma_valid_part(h@, 0, i + 1);
            assert(h@.subrange(0, i + 1) =~= h@.take(i + 1));
            lemma_moments_bounds(h@.take(i + 1));
            lemma_moments_bounds(h@.take(i as int));
            lemma_valid_part(h@, 0, i as int);
            assert(h@.subrange(0, i as int) =~= h@.take(i as int));
            lemma_entry_bounds(e.color.x as int, k as int);
            lemma_entry_bounds(e.color.y as int, k as int);
            lemma_entry_bounds(e.color.z as int, k as int);
            lemma_entry_bounds(e.color.w as int, k as int);
            crate::color::lemma_product_bound(
                e.color.x as int,
                e.color.x as int,
                CHANNEL_MAX as int,
            );
            crate::color::lemma_product_bound(
                e.color.y as int,
                e.color.y as int,
                CHANNEL_MAX as int,
            );
            crate::color::lemma_product_bound(
                e.color.z as int,
                e.color.z as int,
                CHANNEL_MAX as int,
            );
            crate::color::lemma_product_bound(
                e.color.w as int,
                e.color.w as int,
                CHANNEL_MAX as int,
            );
            let m = moments(h@.take(i as int)).n;
            assert(CHANNEL_MAX * CHANNEL_MAX * m <= CHANNEL_MAX * CHANNEL_MAX * COUNT_MAX)
                by (nonlinear_arith)
                requires
                    m <= COUNT_MAX,
            ;
            assert(CHANNEL_MAX * CHANNEL_MAX * k <= CHANNEL_MAX * CHANNEL_MAX * COUNT_MAX)
                by (nonlinear_arith)
                requires
                    k <= COUNT_MAX,
            ;
        }
        let cx: i128 = e.color.x as i128;
        let cy: i128 = e.color.y as i128;
        let cz: i128 = e.color.z as i128;
        let cw: i128 = e.color.w as i128;
        sum_sq =
        Wide4 {
            x: sum_sq.x + cx * cx * k,
            y: sum_sq.y + cy * cy * k,
            z: sum_sq.z + cz * cz * k,
            w: sum_sq.w + cw * cw * k,
        };
        i += 1;
    }
    assert(h@.take(i as int) =~= h@);
    sum_sq
}

/// The channel of largest variance, from the count and the sums of a list of
/// entries.
pub fn pick_axis(n: u64, sum: Wide4, sum_sq: Wide4) -> (axis: u8)
    requires
        0 < n <= COUNT_MAX,
        sum@.within(CHANNEL_MAX * n),
        sum_sq@.within(CHANNEL_MAX * CHANNEL_MAX * n),
    ensures
        axis == widest_axis(
            (Moments { n: n as int, sum: sum@, sum_sq: sum_sq@ }).spread(),
        ),
{
    let k: i128 = n as i128;
    proof {
        let b: int = 0x1000_0000_0000_0000;
        let c: int = 0x1_0000_0000_0000_0000_0000;
        assert(CHANNEL_MAX * n <= b);
        assert(CHANNEL_MAX * CHANNEL_MAX == 0x100_0000_0000);
        let cc: int = CHANNEL_MAX * CHANNEL_MAX;
        assert(cc * n <= c) by (nonlinear_arith)
            requires
                cc == 0x100_0000_0000,
                0 <= n <= 0x100_0000_0000,
                c == 0x1_0000_0000_0000_0000_0000,
        ;
        assert(b * b == 0x100_0000_0000_0000_0000_0000_0000_0000) by (nonlinear_arith)
            requires
                b == 0x1000_0000_0000_0000,
        ;
        crate::color::lemma_product_bound(sum.x as int, sum.x as int, b);
        crate::color::lemma_product_bound(sum.y as int, sum.y as int, b);
        crate::color::lemma_product_bound(sum.z as int, sum.z as int, b);
        crate::color::lemma_product_bound(sum.w as int, sum.w as int, b);
        crate::color::lemma_scale_bound(sum_sq.x as int, k as int, c);
        crate::color::lemma_scale_bound(sum_sq.y as int, k as int, c);
        crate::color::lemma_scale_bound(sum_sq.z as int, k as int, c);
        crate::color::lemma_scale_bound(sum_sq.w as int, k as int, c);
        assert(c * k <= 0x100_0000_0000_0000_0000_0000_0000_0000) by (nonlinear_arith)
            requires
                c == 0x1_0000_0000_0000_0000_0000,
                0 <= k <= 0x100_0000_0000,
        ;
    }
    let vx: i128 = sum_sq.x * k - sum.x * sum.x;
    let vy: i128 = sum_sq.y * k - sum.y * sum.y;
    let vz: i128 = sum_sq.z * k - sum.z * sum.z;
    let vw: i128 = sum_sq.w * k - sum.w * sum.w;
    if vx >= vy && vx >= vz && vx >= vw {
        0
    } else if vy >= vz && vy >= vw {
        1
    } else if vz >= vw {
        2
    } else {
        3
    }
}


/// The mean of a sum of `n` colors, each channel rounded down.
pub fn mean_color(sum: Wide4, n: u64) -> (avg: Vec4)
    requires
        n > 0,
        sum@.within(CHANNEL_MAX * n),
    ensures
        avg@ == sum@.divided(n as int),
        avg.in_range(),
{
    proof {
        crate::color::lemma_div_bound(sum.x as int, n as int, CHANNEL_MAX as int);
        crate::color::lemma_div_bound(sum.y as int, n as int, CHANNEL_MAX as int);
        crate::color::lemma_div_bound(sum.z as int, n as int, CHANNEL_MAX as int);
        crate::color::lemma_div_bound(sum.w as int, n as int, CHANNEL_MAX as int);
    }
    Vec4 {
        x: div_floor(sum.x, n as i128) as i32,
        y: div_floor(sum.y, n as i128) as i32,
        z: div_floor(sum.z, n as i128) as i32,
        w: div_floor(sum.w, n as i128) as i32,
    }
}

} // verus!
