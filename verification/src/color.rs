//! Colors: RGBA8 for input and output, fixed-point 4-vectors in between.

use vstd::prelude::*;

verus! {

/// An RGBA8 color used for both the input image data and the palette output.
#[derive(Copy, Clone, PartialEq, Eq, Structural, Hash, Debug)]
pub struct Color {
    pub r: u8,
    pub g: u8,
    pub b: u8,
    pub a: u8,
}

impl Color {
    /// Creates a new `Color` from the given channel components.
    pub fn new(r: u8, g: u8, b: u8, a: u8) -> (c: Color)
        ensures
            c == (Color { r, g, b, a }),
    {
        Color { r, g, b, a }
    }

    /// The color packed into 32 bits, red in the top byte.
    pub open spec fn packed(self) -> int {
        self.r * 0x100_0000 + self.g * 0x1_0000 + self.b * 0x100 + self.a
    }

    /// Packs the color into 32 bits; distinct colors give distinct numbers.
    pub fn pack(self) -> (k: u32)
        ensures
            k == self.packed(),
    {
        self.r as u32 * 0x100_0000 + self.g as u32 * 0x1_0000 + self.b as u32 * 0x100
            + self.a as u32
    }

    /// Packing loses nothing: colors with the same packed number are equal.
    pub proof fn lemma_packed_injective(self, other: Color)
        requires
            self.packed() == other.packed(),
        ensures
            self == other,
    {
        let hi = self.r * 0x100 + self.g;
        let lo = self.b * 0x100 + self.a;
        let other_hi = other.r * 0x100 + other.g;
        let other_lo = other.b * 0x100 + other.a;
        assert(self.packed() == hi * 0x1_0000 + lo);
        assert(other.packed() == other_hi * 0x1_0000 + other_lo);
        assert(hi == other_hi && lo == other_lo);
    }
}

/// The fixed-point representation of 1.0 in quantization space.
pub const ONE: i32 = 65536;

/// The largest magnitude a channel of a stored color may have (16.0).
pub const CHANNEL_MAX: i32 = 1048576;

/// A mathematical 4-vector over the integers: the view of [`Vec4`] and of the
/// wide sums the algorithms accumulate.
pub struct Vector4 {
    pub x: int,
    pub y: int,
    pub z: int,
    pub w: int,
}

impl Vector4 {
    pub open spec fn zero() -> Vector4 {
        Vector4 { x: 0, y: 0, z: 0, w: 0 }
    }

    /// Channel number `axis`: 0 is x, 1 is y, 2 is z, anything else is w.
    pub open spec fn channel(self, axis: int) -> int {
        if axis == 0 {
            self.x
        } else if axis == 1 {
            self.y
        } else if axis == 2 {
            self.z
        } else {
            self.w
        }
    }

    pub open spec fn plus(self, o: Vector4) -> Vector4 {
        Vector4 { x: self.x + o.x, y: self.y + o.y, z: self.z + o.z, w: self.w + o.w }
    }

    pub open spec fn minus(self, o: Vector4) -> Vector4 {
        Vector4 { x: self.x - o.x, y: self.y - o.y, z: self.z - o.z, w: self.w - o.w }
    }

    pub open spec fn scaled(self, k: int) -> Vector4 {
        Vector4 { x: self.x * k, y: self.y * k, z: self.z * k, w: self.w * k }
    }

    /// Componentwise floor division by a positive number.
    pub open spec fn divided(self, n: int) -> Vector4 {
        Vector4 { x: self.x / n, y: self.y / n, z: self.z / n, w: self.w / n }
    }

    /// Componentwise product.
    pub open spec fn times(self, o: Vector4) -> Vector4 {
        Vector4 { x: self.x * o.x, y: self.y * o.y, z: self.z * o.z, w: self.w * o.w }
    }

    pub open spec fn dot(self, o: Vector4) -> int {
        self.x * o.x + self.y * o.y + self.z * o.z + self.w * o.w
    }

    /// The squared Euclidean length.
    pub open spec fn norm_sq(self) -> int {
        self.dot(self)
    }

    /// The squared Euclidean distance to `o`.
    pub open spec fn dist_sq(self, o: Vector4) -> int {
        self.minus(o).norm_sq()
    }

    /// Every channel has magnitude at most `bound`.
    pub open spec fn within(self, bound: int) -> bool {
        &&& -bound <= self.x <= bound
        &&& -bound <= self.y <= bound
        &&& -bound <= self.z <= bound
        &&& -bound <= self.w <= bound
    }
}

/// A color in quantization space: four fixed-point channels, each standing for
/// the real number `channel / ONE`.
#[derive(Copy, Clone, PartialEq, Eq, Structural, Debug)]
pub struct Vec4 {
    pub x: i32,
    pub y: i32,
    pub z: i32,
    pub w: i32,
}

impl View for Vec4 {
    type V = Vector4;

    open spec fn view(&self) -> Vector4 {
        Vector4 { x: self.x as int, y: self.y as int, z: self.z as int, w: self.w as int }
    }
}

impl Vec4 {
    pub fn new(x: i32, y: i32, z: i32, w: i32) -> (v: Vec4)
        ensures
            v == (Vec4 { x, y, z, w }),
    {
        Vec4 { x, y, z, w }
    }

    pub fn zero() -> (v: Vec4)
        ensures
            v@ == Vector4::zero(),
    {
        Vec4 { x: 0, y: 0, z: 0, w: 0 }
    }

    /// The vector with the given channels, each of which must fit in 32 bits.
    pub open spec fn from_vector(v: Vector4) -> Vec4 {
        Vec4 { x: v.x as i32, y: v.y as i32, z: v.z as i32, w: v.w as i32 }
    }

    /// Whether the vector can be stored as a color: no channel exceeds
    /// `CHANNEL_MAX` in magnitude.
    pub open spec fn in_range(self) -> bool {
        self@.within(CHANNEL_MAX as int)
    }

    /// Tests `in_range`.
    pub fn is_in_range(self) -> (b: bool)
        ensures
            b == self.in_range(),
    {
        -CHANNEL_MAX <= self.x && self.x <= CHANNEL_MAX && -CHANNEL_MAX <= self.y && self.y
            <= CHANNEL_MAX && -CHANNEL_MAX <= self.z && self.z <= CHANNEL_MAX && -CHANNEL_MAX
            <= self.w && self.w <= CHANNEL_MAX
    }

    /// Channel number `axis`: 0 is x, 1 is y, 2 is z, anything else is w.
    pub fn channel(self, axis: u8) -> (c: i32)
        ensures
            c == self@.channel(axis as int),
    {
        if axis == 0 {
            self.x
        } else if axis == 1 {
            self.y
        } else if axis == 2 {
            self.z
        } else {
            self.w
        }
    }

    pub fn dot(self, o: Vec4) -> (d: i128)
        ensures
            d == self@.dot(o@),
    {
        proof {
            lemma_product_bound(self.x as int, o.x as int, 0x8000_0000);
            lemma_product_bound(self.y as int, o.y as int, 0x8000_0000);
            lemma_product_bound(self.z as int, o.z as int, 0x8000_0000);
            lemma_product_bound(self.w as int, o.w as int, 0x8000_0000);
        }
        (self.x as i128) * (o.x as i128) + (self.y as i128) * (o.y as i128) + (self.z as i128) * (
        o.z as i128) + (self.w as i128) * (o.w as i128)
    }

    /// The squared distance between two vectors; it cannot overflow.
    pub fn dist_sq(self, o: Vec4) -> (d: u128)
        ensures
            d == self@.dist_sq(o@),
            d <= 0x4_0000_0000_0000_0000,
    {
        let dx: i128 = self.x as i128 - o.x as i128;
        let dy: i128 = self.y as i128 - o.y as i128;
        let dz: i128 = self.z as i128 - o.z as i128;
        let dw: i128 = self.w as i128 - o.w as i128;
        proof {
            lemma_product_bound(dx as int, dx as int, 0x1_0000_0000);
            lemma_product_bound(dy as int, dy as int, 0x1_0000_0000);
            lemma_product_bound(dz as int, dz as int, 0x1_0000_0000);
            lemma_product_bound(dw as int, dw as int, 0x1_0000_0000);
            lemma_square_nonnegative(dx as int);
            lemma_square_nonnegative(dy as int);
            lemma_square_nonnegative(dz as int);
            lemma_square_nonnegative(dw as int);
        }
        (dx * dx + dy * dy + dz * dz + dw * dw) as u128
    }

    /// The Euclidean length, rounded down.
    pub fn abs(self) -> (r: u64)
        ensures
            r == isqrt(self@.norm_sq() as nat),
    {
        let z = Vec4::zero();
        let d = self.dist_sq(z);
        integer_sqrt(d)
    }
}

/// If both factors have magnitude at most `bound`, so has their product
/// relative to `bound * bound`.
pub proof fn lemma_product_bound(a: int, b: int, bound: int)
    requires
        -bound <= a <= bound,
        -bound <= b <= bound,
    ensures
        -(bound * bound) <= a * b <= bound * bound,
{
    assert(-(bound * bound) <= a * b <= bound * bound) by (nonlinear_arith)
        requires
            -bound <= a <= bound,
            -bound <= b <= bound,
    ;
}

pub proof fn lemma_square_nonnegative(a: int)
    ensures
        a * a >= 0,
{
    assert(a * a >= 0) by (nonlinear_arith);
}

/// `r` is the integer square root of `n`.
pub open spec fn is_isqrt(n: nat, r: nat) -> bool {
    r * r <= n < (r + 1) * (r + 1)
}

/// The integer square root: the largest `r` with `r * r <= n`.
pub open spec fn isqrt(n: nat) -> nat {
    choose|r: nat| is_isqrt(n, r)
}

/// The integer square root is unique.
pub proof fn lemma_isqrt_unique(n: nat, r: nat)
    requires
        is_isqrt(n, r),
    ensures
        isqrt(n) == r,
{
    let s = isqrt(n);
    assert(is_isqrt(n, s));
    assert(s == r) by (nonlinear_arith)
        requires
            r * r <= n < (r + 1) * (r + 1),
            s * s <= n < (s + 1) * (s + 1),
    ;
}

/// Every natural number has an integer square root.
pub proof fn lemma_isqrt_exists(n: nat)
    ensures
        is_isqrt(n, isqrt(n)),
    decreases n,
{
    if n == 0 {
        assert(0nat * 0nat == 0 && (0nat + 1) * (0nat + 1) == 1) by (nonlinear_arith);
        assert(is_isqrt(0, 0));
    } else {
        lemma_isqrt_exists((n - 1) as nat);
        let r = isqrt((n - 1) as nat);
        if (r + 1) * (r + 1) <= n {
            assert((r + 2) * (r + 2) > n) by (nonlinear_arith)
                requires
                    n - 1 < (r + 1) * (r + 1),
            ;
            assert(is_isqrt(n, r + 1));
        } else {
            assert(is_isqrt(n, r));
        }
    }
}

/// The integer square root of a number that is at most `r * r` is at most `r`.
pub proof fn lemma_isqrt_le(n: nat, r: nat)
    requires
        n <= r * r,
    ensures
        isqrt(n) <= r,
{
    lemma_isqrt_exists(n);
    let s = isqrt(n);
    assert(s <= r) by (nonlinear_arith)
        requires
            s * s <= n,
            n <= r * r,
    ;
}

/// The integer square root does not decrease when its argument grows.
pub proof fn lemma_isqrt_monotonic(m: nat, n: nat)
    requires
        m <= n,
    ensures
        isqrt(m) <= isqrt(n),
{
    lemma_isqrt_exists(m);
    lemma_isqrt_exists(n);
    let a = isqrt(m);
    let b = isqrt(n);
    assert(a <= b) by (nonlinear_arith)
        requires
            a * a <= m < (a + 1) * (a + 1),
            b * b <= n < (b + 1) * (b + 1),
            m <= n,
    ;
}

/// Computes the integer square root by bisection.
pub fn integer_sqrt(n: u128) -> (r: u64)
    requires
        n <= 0x4_0000_0000_0000_0000,
    ensures
        is_isqrt(n as nat, r as nat),
        r == isqrt(n as nat),
        r <= 0x2_0000_0000,
{
    let mut lo: u128 = 0;
    let mut hi: u128 = 0x2_0000_0001;
    assert(0x2_0000_0001u128 * 0x2_0000_0001u128 > 0x4_0000_0000_0000_0000u128) by (nonlinear_arith);
    while hi - lo > 1
        invariant
            lo < hi <= 0x2_0000_0001,
            lo * lo <= n,
            n < hi * hi,
        decreases hi - lo,
    {
        let mid: u128 = lo + (hi - lo) / 2;
        assert(mid * mid <= 0x2_0000_0001 * 0x2_0000_0001) by (nonlinear_arith)
            requires
                0 <= mid <= 0x2_0000_0001,
        ;
        if mid * mid <= n {
            lo = mid;
        } else {
            hi = mid;
        }
    }
    proof {
        assert(hi == lo + 1);
        lemma_isqrt_unique(n as nat, lo as nat);
    }
    lo as u64
}

/// A 4-vector of wide integers: the sums of many colors, each weighted by a
/// count.
#[derive(Copy, Clone, Debug)]
pub struct Wide4 {
    pub x: i128,
    pub y: i128,
    pub z: i128,
    pub w: i128,
}

impl View for Wide4 {
    type V = Vector4;

    open spec fn view(&self) -> Vector4 {
        Vector4 { x: self.x as int, y: self.y as int, z: self.z as int, w: self.w as int }
    }
}

/// The bound under which wide sums are kept: products of two of them, added
/// over four channels, still fit in 128 bits.
pub const WIDE_MAX: i128 = 0x2000_0000_0000_0000;

impl Wide4 {
    pub fn zero() -> (v: Wide4)
        ensures
            v@ == Vector4::zero(),
    {
        Wide4 { x: 0, y: 0, z: 0, w: 0 }
    }

    /// The sum widened from a color.
    pub fn from_color(c: Vec4) -> (v: Wide4)
        ensures
            v@ == c@,
    {
        Wide4 { x: c.x as i128, y: c.y as i128, z: c.z as i128, w: c.w as i128 }
    }

    /// The sum plus `k` times the color `c`.
    pub fn plus_scaled(self, c: Vec4, k: i128) -> (v: Wide4)
        requires
            c.in_range(),
            0 <= k,
            self@.within(WIDE_MAX - CHANNEL_MAX * k),
            CHANNEL_MAX * k <= WIDE_MAX,
        ensures
            v@ == self@.plus(c@.scaled(k as int)),
    {
        proof {
            lemma_scale_bound(c.x as int, k as int, CHANNEL_MAX as int);
            lemma_scale_bound(c.y as int, k as int, CHANNEL_MAX as int);
            lemma_scale_bound(c.z as int, k as int, CHANNEL_MAX as int);
            lemma_scale_bound(c.w as int, k as int, CHANNEL_MAX as int);
        }
        Wide4 {
            x: self.x + (c.x as i128) * k,
            y: self.y + (c.y as i128) * k,
            z: self.z + (c.z as i128) * k,
            w: self.w + (c.w as i128) * k,
        }
    }

    /// The difference of two sums.
    pub fn minus(self, o: Wide4) -> (v: Wide4)
        requires
            self@.within(WIDE_MAX as int),
            o@.within(WIDE_MAX as int),
        ensures
            v@ == self@.minus(o@),
    {
        Wide4 { x: self.x - o.x, y: self.y - o.y, z: self.z - o.z, w: self.w - o.w }
    }

    /// The dot product of two sums.
    pub fn dot(self, o: Wide4) -> (d: i128)
        requires
            self@.within(WIDE_MAX as int),
            o@.within(WIDE_MAX as int),
        ensures
            d == self@.dot(o@),
            -0x1000_0000_0000_0000_0000_0000_0000_0000 <= d
                <= 0x1000_0000_0000_0000_0000_0000_0000_0000,
    {
        proof {
            lemma_product_bound(self.x as int, o.x as int, WIDE_MAX as int);
            lemma_product_bound(self.y as int, o.y as int, WIDE_MAX as int);
            lemma_product_bound(self.z as int, o.z as int, WIDE_MAX as int);
            lemma_product_bound(self.w as int, o.w as int, WIDE_MAX as int);
        }
        self.x * o.x + self.y * o.y + self.z * o.z + self.w * o.w
    }

    /// The sum as a color.
    pub fn narrow(self) -> (v: Vec4)
        requires
            self@.within(0x7fff_ffff),
        ensures
            v == Vec4::from_vector(self@),
            v@ == self@,
    {
        Vec4 { x: self.x as i32, y: self.y as i32, z: self.z as i32, w: self.w as i32 }
    }
}

/// `a * k` has magnitude at most `bound * k` when `a` has magnitude at most
/// `bound` and `k` is not negative.
pub proof fn lemma_scale_bound(a: int, k: int, bound: int)
    requires
        -bound <= a <= bound,
        0 <= k,
    ensures
        -(bound * k) <= a * k <= bound * k,
{
    assert(-(bound * k) <= a * k <= bound * k) by (nonlinear_arith)
        requires
            -bound <= a <= bound,
            0 <= k,
    ;
}

/// Floor division of a possibly negative number by a positive one.
pub fn div_floor(a: i128, n: i128) -> (q: i128)
    requires
        n > 0,
        a > i128::MIN,
    ensures
        q == a / n,
{
    if a >= 0 {
        a / n
    } else {
        let m: i128 = -(a + 1);
        let p: i128 = m / n;
        proof {
            let r = (m as int) % (n as int);
            vstd::arithmetic::div_mod::lemma_fundamental_div_mod(m as int, n as int);
            vstd::arithmetic::div_mod::lemma_mod_bound(m as int, n as int);
            assert(a as int == (-(p as int) - 1) * (n as int) + ((n as int) - 1 - r)) by (nonlinear_arith)
                requires
                    m as int == (n as int) * (p as int) + r,
                    a as int == -(m as int) - 1,
            ;
            vstd::arithmetic::div_mod::lemma_fundamental_div_mod_converse(
                a as int,
                n as int,
                -(p as int) - 1,
                (n as int) - 1 - r,
            );
            vstd::arithmetic::div_mod::lemma_div_pos_is_pos(m as int, n as int);
        }
        -p - 1
    }
}

/// Dividing a number of magnitude at most `bound * n` by the positive `n`
/// gives a number of magnitude at most `bound`.
pub proof fn lemma_div_bound(a: int, n: int, bound: int)
    requires
        n > 0,
        -(bound * n) <= a <= bound * n,
    ensures
        -bound <= a / n <= bound,
{
    vstd::arithmetic::div_mod::lemma_fundamental_div_mod(a, n);
    vstd::arithmetic::div_mod::lemma_mod_bound(a, n);
    let q = a / n;
    let r = a % n;
    assert(-bound <= q <= bound) by (nonlinear_arith)
        requires
            a == n * q + r,
            0 <= r < n,
            n > 0,
            -(bound * n) <= a <= bound * n,
    ;
}

} // verus!
