//! Fixed-point arithmetic.
//!
//! Every physical quantity in this crate (lengths, heights, velocities, colour
//! channels) is an integer count of thousandths of a unit, and every time step
//! is an integer count of milliseconds. Products are divided back by the scale
//! with the quotient rounded toward zero.

use vstd::prelude::*;

verus! {

/// Number of fixed-point steps in one unit.
pub const MILLI: i64 = 1000;

/// A point or displacement in the plane, in thousandths.
#[derive(Clone, Copy, Debug, PartialEq, Eq, Structural)]
pub struct Vec2 {
    pub x: i64,
    pub y: i64,
}

/// A point, displacement or velocity in space, in thousandths.
#[derive(Clone, Copy, Debug, PartialEq, Eq, Structural)]
pub struct Vec3 {
    pub x: i64,
    pub y: i64,
    pub z: i64,
}

/// Quotient of `a` by a positive `d`, rounded toward zero.
pub open spec fn trunc_div(a: int, d: int) -> int
    recommends
        d > 0,
{
    if a >= 0 {
        a / d
    } else {
        -((-a) / d)
    }
}

/// `a * num / den`, rounded toward zero.
pub open spec fn scaled(a: int, num: int, den: int) -> int
    recommends
        den > 0,
{
    trunc_div(a * num, den)
}

/// The value of `x` confined to `lo..=hi`.
pub open spec fn clamped(x: int, lo: int, hi: int) -> int {
    if x < lo {
        lo
    } else if x > hi {
        hi
    } else {
        x
    }
}

/// A vector of mathematical integers.
pub struct Vector {
    pub x: int,
    pub y: int,
    pub z: int,
}

impl View for Vec3 {
    type V = Vector;

    open spec fn view(&self) -> Vector {
        Vector { x: self.x as int, y: self.y as int, z: self.z as int }
    }
}

impl Vector {
    /// The square of the length.
    pub open spec fn norm_sq(self) -> int {
        norm_sq(self.x, self.y, self.z)
    }

    /// The sum of two vectors.
    pub open spec fn plus(self, other: Vector) -> Vector {
        Vector { x: self.x + other.x, y: self.y + other.y, z: self.z + other.z }
    }

    /// Every component times `num / den`, rounded toward zero.
    pub open spec fn scaled(self, num: int, den: int) -> Vector {
        Vector {
            x: scaled(self.x, num, den),
            y: scaled(self.y, num, den),
            z: scaled(self.z, num, den),
        }
    }

    /// This vector, shortened to the length `max` if it is longer. The
    /// shortened vector is this one times `max` over its length rounded up,
    /// so that rounding never leaves it longer than `max`.
    pub open spec fn clamp_length_max(self, max: int) -> Vector {
        if self.norm_sq() <= max * max {
            self
        } else {
            self.scaled(max, ceil_sqrt(self.norm_sq() as nat) as int)
        }
    }
}

/// Zero for a number nearer to zero than a tenth, else a whole unit with the
/// sign of the number.
pub open spec fn signum_or_zero(n: int) -> int {
    if -100 < n < 100 {
        0
    } else if n > 0 {
        MILLI as int
    } else {
        -MILLI
    }
}

/// Reduces every component of a vector to its sign.
pub trait ZeroSignum {
    /// The vector of the signs.
    spec fn zero_signum_spec(&self) -> Vector;

    fn zero_signum(&self) -> (signs: Vec3)
        ensures
            signs@ == self.zero_signum_spec(),
    ;
}

impl ZeroSignum for Vec3 {
    open spec fn zero_signum_spec(&self) -> Vector {
        Vector {
            x: signum_or_zero(self.x as int),
            y: signum_or_zero(self.y as int),
            z: signum_or_zero(self.z as int),
        }
    }

    fn zero_signum(&self) -> (signs: Vec3) {
        Vec3 { x: sign_of(self.x), y: sign_of(self.y), z: sign_of(self.z) }
    }
}

fn sign_of(n: i64) -> (sign: i64)
    ensures
        sign == signum_or_zero(n as int),
{
    if n < 100 && n > -100 {
        0
    } else if n > 0 {
        MILLI
    } else {
        -MILLI
    }
}

/// `x * x + y * y + z * z`.
pub open spec fn norm_sq(x: int, y: int, z: int) -> int {
    x * x + y * y + z * z
}

/// `r` is the least natural number whose square is at least `n`.
pub open spec fn is_ceil_sqrt(n: nat, r: nat) -> bool {
    &&& n <= r * r
    &&& r > 0 ==> (r - 1) * (r - 1) < n
}

/// The least natural number whose square is at least `n`.
pub open spec fn ceil_sqrt(n: nat) -> nat {
    choose|r: nat| is_ceil_sqrt(n, r)
}

/// A rounded quotient never exceeds the exact one in magnitude, and keeps its sign.
pub proof fn lemma_trunc_div_magnitude(a: int, d: int)
    requires
        d > 0,
    ensures
        a >= 0 ==> 0 <= trunc_div(a, d) * d <= a,
        a <= 0 ==> a <= trunc_div(a, d) * d <= 0,
        a >= 0 ==> a < (trunc_div(a, d) + 1) * d,
        a <= 0 ==> (trunc_div(a, d) - 1) * d < a,
{
    if a >= 0 {
        vstd::arithmetic::div_mod::lemma_fundamental_div_mod(a, d);
        vstd::arithmetic::div_mod::lemma_mod_bound(a, d);
        assert(d * (a / d) == (a / d) * d) by (nonlinear_arith);
        assert((a / d + 1) * d == (a / d) * d + d) by (nonlinear_arith);
        assert((a / d - 1) * d == (a / d) * d - d) by (nonlinear_arith);
    } else {
        let b = -a;
        vstd::arithmetic::div_mod::lemma_fundamental_div_mod(b, d);
        vstd::arithmetic::div_mod::lemma_mod_bound(b, d);
        assert(d * (b / d) == (b / d) * d) by (nonlinear_arith);
        assert((-(b / d)) * d == -((b / d) * d)) by (nonlinear_arith);
        assert((-(b / d) - 1) * d == -((b / d) * d) - d) by (nonlinear_arith);
    }
}

/// Scaling by a ratio between zero and one never moves a value away from zero.
pub proof fn lemma_scaled_shrinks(a: int, num: int, den: int)
    requires
        0 <= num <= den,
        den > 0,
    ensures
        a >= 0 ==> 0 <= scaled(a, num, den) <= a,
        a <= 0 ==> a <= scaled(a, num, den) <= 0,
{
    lemma_trunc_div_magnitude(a * num, den);
    let q = scaled(a, num, den);
    if a >= 0 {
        assert(0 <= a * num <= a * den) by (nonlinear_arith)
            requires
                a >= 0,
                0 <= num <= den,
        ;
        assert(q <= a) by (nonlinear_arith)
            requires
                q * den <= a * den,
                den > 0,
        ;
    } else {
        assert(a * den <= a * num <= 0) by (nonlinear_arith)
            requires
                a <= 0,
                0 <= num <= den,
        ;
        assert(a <= q) by (nonlinear_arith)
            requires
                a * den <= q * den,
                den > 0,
        ;
    }
}

/// A scaled value is bounded by the product of the bounds of its factors.
pub proof fn lemma_scaled_bound(a: int, num: int, den: int, a_max: int, num_max: int)
    requires
        den > 0,
        -a_max <= a <= a_max,
        -num_max <= num <= num_max,
    ensures
        -(a_max * num_max) <= scaled(a, num, den) * den <= a_max * num_max,
        -(a_max * num_max) <= scaled(a, num, den) <= a_max * num_max,
{
    lemma_trunc_div_magnitude(a * num, den);
    let q = scaled(a, num, den);
    assert(-(a_max * num_max) <= a * num <= a_max * num_max) by (nonlinear_arith)
        requires
            -a_max <= a <= a_max,
            -num_max <= num <= num_max,
    ;
    assert(-(a_max * num_max) <= q <= a_max * num_max) by (nonlinear_arith)
        requires
            -(a_max * num_max) <= q * den <= a_max * num_max,
            den > 0,
    ;
}

/// `a * num / den` rounded toward zero, computed without intermediate overflow.
pub fn mul_div(a: i64, num: i64, den: i64) -> (r: i64)
    requires
        den > 0,
        i64::MIN <= scaled(a as int, num as int, den as int) <= i64::MAX,
    ensures
        r == scaled(a as int, num as int, den as int),
{
    assert(-0x4000_0000_0000_0000_0000_0000_0000_0000 <= a * num
        <= 0x4000_0000_0000_0000_0000_0000_0000_0000) by (nonlinear_arith)
        requires
            -0x8000_0000_0000_0000 <= a <= 0x7fff_ffff_ffff_ffff,
            -0x8000_0000_0000_0000 <= num <= 0x7fff_ffff_ffff_ffff,
    ;
    let wide: i128 = (a as i128) * (num as i128);
    let q: i128 = wide / (den as i128);
    q as i64
}

/// The ceiling square root is unique.
pub proof fn lemma_ceil_sqrt_unique(n: nat, r: nat)
    requires
        is_ceil_sqrt(n, r),
    ensures
        ceil_sqrt(n) == r,
{
    let c = ceil_sqrt(n);
    assert(is_ceil_sqrt(n, c));
    if c < r {
        assert(c * c <= (r - 1) * (r - 1)) by (nonlinear_arith)
            requires
                0 <= c <= r - 1,
        ;
    }
    if r < c {
        assert(r * r <= (c - 1) * (c - 1)) by (nonlinear_arith)
            requires
                0 <= r <= c - 1,
        ;
    }
}

/// The least `r` with `n <= r * r`.
pub fn isqrt_ceil(n: u128) -> (r: u128)
    ensures
        r == ceil_sqrt(n as nat),
        is_ceil_sqrt(n as nat, r as nat),
        r <= 0x1_0000_0000_0000_0000,
{
    if n == 0 {
        proof {
            lemma_ceil_sqrt_unique(0, 0);
        }
        return 0;
    }
    let mut lo: u128 = 0;
    let mut hi: u128 = 0x1_0000_0000_0000_0000;
    assert(n <= hi * hi) by (nonlinear_arith)
        requires
            hi == 0x1_0000_0000_0000_0000,
            n <= 0xffff_ffff_ffff_ffff_ffff_ffff_ffff_ffff,
    ;
    while hi - lo > 1
        invariant
            0 <= lo < hi <= 0x1_0000_0000_0000_0000,
            lo * lo < n,
            n <= hi * hi,
        decreases hi - lo,
    {
        let mid: u128 = lo + (hi - lo) / 2;
        assert(mid * mid <= 0xffff_ffff_ffff_ffff_ffff_ffff_ffff_ffff) by (nonlinear_arith)
            requires
                0 <= mid <= 0xffff_ffff_ffff_ffff,
        ;
        if mid * mid < n {
            lo = mid;
        } else {
            hi = mid;
        }
    }
    proof {
        assert(hi == lo + 1);
        lemma_ceil_sqrt_unique(n as nat, hi as nat);
    }
    hi
}


/// Whether `dx * dx + dy * dy + dz * dz` is at most `bound`.
pub fn norm_sq_at_most(dx: i128, dy: i128, dz: i128, bound: u64) -> (b: bool)
    ensures
        b == (norm_sq(dx as int, dy as int, dz as int) <= bound),
{
    let reach: i128 = 0x1_0000_0000;
    if dx >= reach || dx <= -reach || dy >= reach || dy <= -reach || dz >= reach || dz <= -reach {
        proof {
            lemma_square_beyond(dx as int, reach as int);
            lemma_square_beyond(dy as int, reach as int);
            lemma_square_beyond(dz as int, reach as int);
        }
        return false;
    }
    proof {
        lemma_square_within(dx as int, reach as int);
        lemma_square_within(dy as int, reach as int);
        lemma_square_within(dz as int, reach as int);
    }
    dx * dx + dy * dy + dz * dz <= bound as i128
}

/// A square is never negative, and that of a number at least `reach` away from
/// zero is at least the square of `reach`.
pub proof fn lemma_square_beyond(d: int, reach: int)
    requires
        reach >= 0,
    ensures
        d * d >= 0,
        d >= reach || d <= -reach ==> d * d >= reach * reach,
{
    assert(d * d >= 0) by (nonlinear_arith);
    if d >= reach || d <= -reach {
        assert(d * d >= reach * reach) by (nonlinear_arith)
            requires
                reach >= 0,
                d >= reach || d <= -reach,
        ;
    }
}

/// The square of a number less than `reach` away from zero is below the square
/// of `reach`.
pub proof fn lemma_square_within(d: int, reach: int)
    requires
        -reach < d < reach,
    ensures
        0 <= d * d < reach * reach,
{
    assert(0 <= d * d < reach * reach) by (nonlinear_arith)
        requires
            -reach < d < reach,
    ;
}


/// Every natural number has a ceiling square root.
pub proof fn lemma_ceil_sqrt_exists(n: nat)
    ensures
        is_ceil_sqrt(n, ceil_sqrt(n)),
    decreases n,
{
    if n == 0 {
        assert(is_ceil_sqrt(0, 0));
    } else {
        lemma_ceil_sqrt_exists((n - 1) as nat);
        let r = ceil_sqrt((n - 1) as nat);
        if n <= r * r {
            assert(is_ceil_sqrt(n, r));
        } else {
            assert((r + 1) * (r + 1) == r * r + 2 * r + 1) by (nonlinear_arith);
            assert(is_ceil_sqrt(n, r + 1));
        }
    }
}

/// A product rounded toward zero has a square no greater than the exact one.
proof fn lemma_scaled_square(c: int, max: int, len: int)
    requires
        len > 0,
    ensures
        (scaled(c, max, len) * len) * (scaled(c, max, len) * len) <= (c * max) * (c * max),
{
    lemma_trunc_div_magnitude(c * max, len);
    let a = scaled(c, max, len) * len;
    let b = c * max;
    assert(a * a <= b * b) by (nonlinear_arith)
        requires
            (0 <= a <= b) || (b <= a <= 0),
    ;
}

/// The square of a product is the product of the squares.
proof fn lemma_square_of_product(a: int, b: int)
    ensures
        (a * b) * (a * b) == (a * a) * (b * b),
{
    assert((a * b) * (a * b) == (a * a) * (b * b)) by (nonlinear_arith);
}

/// A vector shortened to the length `max` is no longer than `max`.
pub proof fn lemma_clamp_length_max(v: Vector, max: int)
    requires
        max >= 0,
    ensures
        v.clamp_length_max(max).norm_sq() <= max * max,
{
    let n = v.norm_sq();
    if n > max * max {
        assert(max * max >= 0) by (nonlinear_arith);
        lemma_ceil_sqrt_exists(n as nat);
        let len = ceil_sqrt(n as nat) as int;
        assert(len > 0) by (nonlinear_arith)
            requires
                n > 0,
                n <= len * len,
                len >= 0,
        ;
        let q = v.scaled(max, len);
        lemma_scaled_square(v.x, max, len);
        lemma_scaled_square(v.y, max, len);
        lemma_scaled_square(v.z, max, len);
        let s = q.norm_sq();
        let l2 = len * len;
        let m2 = max * max;
        lemma_square_of_product(q.x, len);
        lemma_square_of_product(q.y, len);
        lemma_square_of_product(q.z, len);
        lemma_square_of_product(v.x, max);
        lemma_square_of_product(v.y, max);
        lemma_square_of_product(v.z, max);
        assert(s * l2 == (q.x * q.x) * l2 + (q.y * q.y) * l2 + (q.z * q.z) * l2) by (nonlinear_arith)
            requires
                s == q.x * q.x + q.y * q.y + q.z * q.z,
        ;
        assert(n * m2 == (v.x * v.x) * m2 + (v.y * v.y) * m2 + (v.z * v.z) * m2) by (nonlinear_arith)
            requires
                n == v.x * v.x + v.y * v.y + v.z * v.z,
        ;
        assert(s * l2 <= n * m2);
        assert(n * m2 <= l2 * m2) by (nonlinear_arith)
            requires
                n <= l2,
                m2 >= 0,
        ;
        assert(s <= m2) by (nonlinear_arith)
            requires
                s * l2 <= l2 * m2,
                l2 > 0,
        ;
    }
}

/// No component of a vector is longer than the vector.
pub proof fn lemma_component_bound(v: Vector, max: int)
    requires
        max >= 0,
        v.norm_sq() <= max * max,
    ensures
        -max <= v.x <= max,
        -max <= v.y <= max,
        -max <= v.z <= max,
{
    assert(-max <= v.x <= max && -max <= v.y <= max && -max <= v.z <= max) by (nonlinear_arith)
        requires
            max >= 0,
            v.x * v.x + v.y * v.y + v.z * v.z <= max * max,
    ;
}

impl Vec3 {
    /// The vector with all components zero.
    pub fn zero() -> (v: Vec3)
        ensures
            v == (Vec3 { x: 0, y: 0, z: 0 }),
    {
        Vec3 { x: 0, y: 0, z: 0 }
    }

    /// Whether the vector is no longer than `max`.
    pub fn length_at_most(&self, max: i64) -> (b: bool)
        requires
            max >= 0,
        ensures
            b == (self@.norm_sq() <= max * max),
    {
        let n = self.length_squared();
        proof {
            lemma_square_within(max as int, 0x8000_0000_0000_0000);
        }
        n <= ((max as i128) * (max as i128)) as u128
    }

    /// The square of the length.
    pub fn length_squared(&self) -> (n: u128)
        ensures
            n == self@.norm_sq(),
    {
        proof {
            lemma_square_beyond(self.x as int, 0);
            lemma_square_beyond(self.y as int, 0);
            lemma_square_beyond(self.z as int, 0);
            lemma_square_within(self.x as int, 0x8000_0000_0000_0001);
            lemma_square_within(self.y as int, 0x8000_0000_0000_0001);
            lemma_square_within(self.z as int, 0x8000_0000_0000_0001);
        }
        let xx: u128 = ((self.x as i128) * (self.x as i128)) as u128;
        let yy: u128 = ((self.y as i128) * (self.y as i128)) as u128;
        let zz: u128 = ((self.z as i128) * (self.z as i128)) as u128;
        xx + yy + zz
    }

    /// Shortens the vector to the length `max` if it is longer.
    pub fn clamp_length_max(self, max: i64) -> (v: Vec3)
        requires
            max >= 0,
        ensures
            v@ == self@.clamp_length_max(max as int),
            v@.norm_sq() <= max * max,
    {
        proof {
            lemma_clamp_length_max(self@, max as int);
        }
        if self.length_at_most(max) {
            return self;
        }
        let n = self.length_squared();
        let len = isqrt_ceil(n);
        proof {
            lemma_square_beyond(max as int, 0);
            lemma_square_beyond(self.x as int, 0);
            lemma_square_beyond(self.y as int, 0);
            lemma_square_beyond(self.z as int, 0);
            assert(len > 0);
            lemma_component_bound(self@, len as int);
        }
        Vec3 {
            x: shorten(self.x, max, len),
            y: shorten(self.y, max, len),
            z: shorten(self.z, max, len),
        }
    }
}

/// `c * max / len` for a component `c` of a vector of length at most `len`.
fn shorten(c: i64, max: i64, len: u128) -> (q: i64)
    requires
        max >= 0,
        0 < len <= 0x1_0000_0000_0000_0000,
        -len <= c <= len,
    ensures
        q == scaled(c as int, max as int, len as int),
{
    proof {
        lemma_trunc_div_magnitude(c * max, len as int);
        let s = scaled(c as int, max as int, len as int);
        assert(-(len * max) <= c * max <= len * max) by (nonlinear_arith)
            requires
                -len <= c <= len,
                max >= 0,
        ;
        assert(-max <= s <= max) by (nonlinear_arith)
            requires
                -(len * max) <= c * max <= len * max,
                (c * max >= 0 && 0 <= s * len <= c * max) || (c * max <= 0 && c * max <= s * len
                    <= 0),
                len > 0,
                max >= 0,
        ;
        assert(-0x4000_0000_0000_0000_0000_0000_0000_0000 <= c * max
            <= 0x4000_0000_0000_0000_0000_0000_0000_0000) by (nonlinear_arith)
            requires
                -0x8000_0000_0000_0000 <= c <= 0x7fff_ffff_ffff_ffff,
                0 <= max <= 0x7fff_ffff_ffff_ffff,
        ;
    }
    let wide: i128 = (c as i128) * (max as i128);
    let q: i128 = wide / (len as i128);
    q as i64
}

} // verus!
