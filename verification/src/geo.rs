//! The numeric domain and the vector algebra.
//!
//! Real-valued coordinates are held in fixed point: an `i64` component `c`
//! stands for the real number `c / SCALE`, and every quotient is truncated
//! toward zero, the rounding that integer casts of floating-point values use.

use vstd::arithmetic::div_mod::{
    lemma_div_is_ordered, lemma_div_nonincreasing, lemma_div_pos_is_pos,
};
use vstd::math::abs;
use vstd::prelude::*;

verus! {

/// The fixed-point scale: an `i64` coordinate `c` stands for the real number
/// `c / SCALE`, so `SCALE` itself stands for one.
pub const SCALE: i64 = 1_000_000;

/// Truncating division (round toward zero), the rounding of every
/// fixed-point quotient in this crate.  Spec-level `/` is Euclidean, which
/// differs on negative dividends.
pub open spec fn tdiv(a: int, b: int) -> int {
    if (a < 0) == (b < 0) {
        abs(a) as int / abs(b) as int
    } else {
        -(abs(a) as int / abs(b) as int)
    }
}

/// `a` fits in an `i64`.
pub open spec fn in_i64(a: int) -> bool {
    i64::MIN <= a <= i64::MAX
}

/// The magnitude of a truncated quotient never exceeds the dividend's.
pub proof fn lemma_tdiv_bounds(a: int, b: int)
    requires
        b != 0,
    ensures
        abs(tdiv(a, b)) <= abs(a),
        abs(a) < abs(b) ==> tdiv(a, b) == 0,
        a == 0 ==> tdiv(a, b) == 0,
{
    lemma_div_nonincreasing(abs(a) as int, abs(b) as int);
    lemma_div_pos_is_pos(abs(a) as int, abs(b) as int);
    if abs(a) < abs(b) {
        assert(abs(a) as int / abs(b) as int == 0) by {
            vstd::arithmetic::div_mod::lemma_basic_div(abs(a) as int, abs(b) as int);
        }
    }
}

/// Negating the dividend negates a truncated quotient.
pub proof fn lemma_tdiv_neg(a: int, b: int)
    requires
        b != 0,
    ensures
        tdiv(-a, b) == -tdiv(a, b),
{
    assert(abs(-a) == abs(a));
}

/// A quotient whose dividend is a multiple of the divisor is exact.
pub proof fn lemma_tdiv_exact(q: int, b: int)
    requires
        b > 0,
    ensures
        tdiv(q * b, b) == q,
{
    if q >= 0 {
        assert(q * b >= 0) by (nonlinear_arith)
            requires
                q >= 0 && b > 0,
        ;
        assert(abs(q * b) as int == q * b);
        assert((q * b) / b == q) by {
            vstd::arithmetic::div_mod::lemma_div_by_multiple(q, b);
        }
    } else {
        assert(q * b < 0 && -(q * b) == (-q) * b) by (nonlinear_arith)
            requires
                q < 0 && b > 0,
        ;
        assert(abs(q * b) as int == (-q) * b);
        assert(((-q) * b) / b == -q) by {
            vstd::arithmetic::div_mod::lemma_div_by_multiple(-q, b);
        }
    }
}

/// Truncating division by a positive divisor is monotone in the dividend.
pub proof fn lemma_tdiv_ordered(a1: int, a2: int, b: int)
    requires
        b > 0,
        a1 <= a2,
    ensures
        tdiv(a1, b) <= tdiv(a2, b),
{
    if a1 >= 0 {
        lemma_div_is_ordered(a1, a2, b);
    } else if a2 < 0 {
        lemma_div_is_ordered(-a2, -a1, b);
    }
}

/// `tdiv` agrees, sign case by sign case, with truncating machine division
/// as the standard library's `checked_div` computes it.
proof fn lemma_tdiv_cases(x: int, d: int)
    requires
        d != 0,
    ensures
        x == 0 ==> tdiv(x, d) == 0,
        x > 0 && d > 0 ==> tdiv(x, d) == x / d,
        x < 0 && d < 0 ==> tdiv(x, d) == (x * -1) / (d * -1),
        x < 0 && d > 0 ==> tdiv(x, d) == ((x * -1) / d) * -1,
        x > 0 && d < 0 ==> tdiv(x, d) == (x / (d * -1)) * -1,
{
    assert(x < 0 ==> abs(x) as int == x * -1);
    assert(d < 0 ==> abs(d) as int == d * -1);
}

/// With the divisor at least 2 in magnitude, the truncated quotient stays
/// strictly inside the dividend's magnitude halved.
proof fn lemma_tdiv_half(x: int, d: int)
    requires
        d != 0,
        abs(d) >= 2,
    ensures
        abs(tdiv(x, d)) <= abs(x) as int / 2,
{
    vstd::arithmetic::div_mod::lemma_div_is_ordered_by_denominator(
        abs(x) as int,
        2,
        abs(d) as int,
    );
}

/// Truncating division of two `i64` values.
///
/// Exec signed `/` is not part of the verified subset, so every fixed-point
/// quotient in the crate goes through this function (or its `i128` twin).
pub fn div_trunc(a: i64, b: i64) -> (r: i64)
    requires
        b != 0,
        !(a == i64::MIN && b == -1),
    ensures
        r == tdiv(a as int, b as int),
{
    proof {
        lemma_tdiv_cases(a as int, b as int);
        lemma_tdiv_bounds(a as int, b as int);
        if abs(b as int) >= 2 {
            lemma_tdiv_half(a as int, b as int);
        }
    }
    a.checked_div(b).unwrap()
}

/// Truncating division of two `i128` values.
pub fn div_trunc_i128(a: i128, b: i128) -> (r: i128)
    requires
        b != 0,
        !(a == i128::MIN && b == -1),
    ensures
        r == tdiv(a as int, b as int),
{
    proof {
        lemma_tdiv_cases(a as int, b as int);
        lemma_tdiv_bounds(a as int, b as int);
        if abs(b as int) >= 2 {
            lemma_tdiv_half(a as int, b as int);
        }
    }
    a.checked_div(b).unwrap()
}

/// The integer square root, rounded down.
pub open spec fn sqrt_floor(n: nat) -> nat
    decreases n,
{
    if n == 0 {
        0
    } else {
        let s = sqrt_floor((n - 1) as nat);
        if (s + 1) * (s + 1) <= n {
            s + 1
        } else {
            s
        }
    }
}

/// `sqrt_floor(n)` is the unique `r` with `r * r <= n < (r + 1) * (r + 1)`.
pub proof fn lemma_sqrt_floor_bounds(n: nat)
    ensures
        sqrt_floor(n) * sqrt_floor(n) <= n,
        n < (sqrt_floor(n) + 1) * (sqrt_floor(n) + 1),
    decreases n,
{
    if n == 0 {
        assert(sqrt_floor(0) == 0);
        assert(sqrt_floor(n) * sqrt_floor(n) <= n);
        assert((sqrt_floor(n) + 1) * (sqrt_floor(n) + 1) == 1) by (nonlinear_arith)
            requires
                sqrt_floor(n) == 0,
        ;
        assert(n < (sqrt_floor(n) + 1) * (sqrt_floor(n) + 1));
    } else {
        lemma_sqrt_floor_bounds((n - 1) as nat);
        let s = sqrt_floor((n - 1) as nat);
        assert(s * s <= n - 1 && n - 1 < (s + 1) * (s + 1));
        if (s + 1) * (s + 1) <= n {
            assert(sqrt_floor(n) == s + 1);
            assert(n == (s + 1) * (s + 1));
            assert((s + 1) * (s + 1) < (s + 2) * (s + 2)) by (nonlinear_arith)
                requires
                    s >= 0,
            ;
            assert(sqrt_floor(n) * sqrt_floor(n) <= n);
            assert(n < (sqrt_floor(n) + 1) * (sqrt_floor(n) + 1));
        } else {
            assert(sqrt_floor(n) == s);
            assert(sqrt_floor(n) * sqrt_floor(n) <= n);
            assert(n < (sqrt_floor(n) + 1) * (sqrt_floor(n) + 1));
        }
    }
}

/// Any `r` within the square-root brackets equals `sqrt_floor(n)`.
pub proof fn lemma_sqrt_floor_unique(n: nat, r: nat)
    requires
        r * r <= n,
        n < (r + 1) * (r + 1),
    ensures
        r == sqrt_floor(n),
{
    lemma_sqrt_floor_bounds(n);
    let s = sqrt_floor(n);
    if r < s {
        assert((r + 1) * (r + 1) <= s * s) by (nonlinear_arith)
            requires r + 1 <= s;
    }
    if s < r {
        assert((s + 1) * (s + 1) <= r * r) by (nonlinear_arith)
            requires s + 1 <= r;
    }
}

/// The square root rounded down is monotone.
pub proof fn lemma_sqrt_floor_monotone(m: nat, n: nat)
    requires
        m <= n,
    ensures
        sqrt_floor(m) <= sqrt_floor(n),
{
    lemma_sqrt_floor_bounds(m);
    lemma_sqrt_floor_bounds(n);
    let a = sqrt_floor(m);
    let b = sqrt_floor(n);
    if b < a {
        assert((b + 1) * (b + 1) <= a * a) by (nonlinear_arith)
            requires b + 1 <= a;
    }
}

/// The integer square root of `n`, computed by bisection.
pub fn isqrt(n: u128) -> (r: u128)
    ensures
        r == sqrt_floor(n as nat),
        r * r <= n,
        r <= 0xFFFF_FFFF_FFFF_FFFF,
{
    let mut lo: u128 = 0;
    let mut hi: u128 = 0x1_0000_0000_0000_0000;
    while lo + 1 < hi
        invariant
            lo < hi <= 0x1_0000_0000_0000_0000,
            lo * lo <= n,
            n < hi * hi,
        decreases hi - lo,
    {
        let mid: u128 = lo + (hi - lo) / 2;
        assert(lo < mid < hi);
        assert(mid * mid <= 0xFFFF_FFFF_FFFF_FFFE_0000_0000_0000_0001) by (nonlinear_arith)
            requires
                0 <= mid < 0x1_0000_0000_0000_0000,
        ;
        if mid * mid <= n {
            lo = mid;
        } else {
            hi = mid;
        }
    }
    proof {
        lemma_sqrt_floor_unique(n as nat, lo as nat);
    }
    lo
}

/// A numeric vector component: a copyable scalar with a mathematical value
/// and checked narrowings to the pixel domains `u32` and `i32`.
pub trait Number: Copy {
    spec fn as_int(self) -> int;

    fn to_u32_checked(self) -> (r: Option<u32>)
        ensures
            match r {
                Some(v) => 0 <= self.as_int() <= u32::MAX && v as int == self.as_int(),
                None => !(0 <= self.as_int() <= u32::MAX),
            },
    ;

    fn to_i32_checked(self) -> (r: Option<i32>)
        ensures
            match r {
                Some(v) => i32::MIN <= self.as_int() <= i32::MAX && v as int == self.as_int(),
                None => !(i32::MIN <= self.as_int() <= i32::MAX),
            },
    ;
}

impl Number for i32 {
    open spec fn as_int(self) -> int {
        self as int
    }

    fn to_u32_checked(self) -> (r: Option<u32>) {
        if self >= 0 {
            Some(self as u32)
        } else {
            None
        }
    }

    fn to_i32_checked(self) -> (r: Option<i32>) {
        Some(self)
    }
}

impl Number for u32 {
    open spec fn as_int(self) -> int {
        self as int
    }

    fn to_u32_checked(self) -> (r: Option<u32>) {
        Some(self)
    }

    fn to_i32_checked(self) -> (r: Option<i32>) {
        if self <= i32::MAX as u32 {
            Some(self as i32)
        } else {
            None
        }
    }
}

impl Number for i64 {
    open spec fn as_int(self) -> int {
        self as int
    }

    fn to_u32_checked(self) -> (r: Option<u32>) {
        if 0 <= self && self <= u32::MAX as i64 {
            Some(self as u32)
        } else {
            None
        }
    }

    fn to_i32_checked(self) -> (r: Option<i32>) {
        if i32::MIN as i64 <= self && self <= i32::MAX as i64 {
            Some(self as i32)
        } else {
            None
        }
    }
}

impl Number for u64 {
    open spec fn as_int(self) -> int {
        self as int
    }

    fn to_u32_checked(self) -> (r: Option<u32>) {
        if self <= u32::MAX as u64 {
            Some(self as u32)
        } else {
            None
        }
    }

    fn to_i32_checked(self) -> (r: Option<i32>) {
        if self <= i32::MAX as u64 {
            Some(self as i32)
        } else {
            None
        }
    }
}

/// A two-component vector over a numeric domain.
#[derive(Clone, Copy, Debug, PartialEq, Eq, Structural)]
pub struct Vec2<T> {
    pub x: T,
    pub y: T,
}

/// A three-component vector over a numeric domain.
#[derive(Clone, Copy, Debug, PartialEq, Eq, Structural)]
pub struct Vec3<T> {
    pub x: T,
    pub y: T,
    pub z: T,
}

impl<T: Number> Vec2<T> {
    /// The vector as a pair of mathematical integers.
    pub open spec fn as_math(self) -> Vec2<int> {
        Vec2 { x: self.x.as_int(), y: self.y.as_int() }
    }

    pub fn new(x: T, y: T) -> (v: Vec2<T>)
        ensures
            v == (Vec2 { x, y }),
    {
        Vec2 { x, y }
    }
}

impl<T: Number> Vec3<T> {
    /// The vector as a triple of mathematical integers.
    pub open spec fn as_math(self) -> Vec3<int> {
        Vec3 { x: self.x.as_int(), y: self.y.as_int(), z: self.z.as_int() }
    }

    pub fn new(x: T, y: T, z: T) -> (v: Vec3<T>)
        ensures
            v == (Vec3 { x, y, z }),
    {
        Vec3 { x, y, z }
    }
}

/// Componentwise sum.
pub open spec fn spec_add3(u: Vec3<int>, v: Vec3<int>) -> Vec3<int> {
    Vec3 { x: u.x + v.x, y: u.y + v.y, z: u.z + v.z }
}

/// Componentwise difference.
pub open spec fn spec_sub3(u: Vec3<int>, v: Vec3<int>) -> Vec3<int> {
    Vec3 { x: u.x - v.x, y: u.y - v.y, z: u.z - v.z }
}

/// Componentwise scaling.
pub open spec fn spec_scale3(u: Vec3<int>, s: int) -> Vec3<int> {
    Vec3 { x: u.x * s, y: u.y * s, z: u.z * s }
}

/// Componentwise negation.
pub open spec fn spec_neg3(u: Vec3<int>) -> Vec3<int> {
    Vec3 { x: -u.x, y: -u.y, z: -u.z }
}

/// The dot product, the sum of the componentwise products.
pub open spec fn spec_dot3(u: Vec3<int>, v: Vec3<int>) -> int {
    u.x * v.x + u.y * v.y + u.z * v.z
}

/// The dot product of two-component vectors.
pub open spec fn spec_dot2(u: Vec2<int>, v: Vec2<int>) -> int {
    u.x * v.x + u.y * v.y
}

/// The cross product.
pub open spec fn spec_cross(u: Vec3<int>, v: Vec3<int>) -> Vec3<int> {
    Vec3 {
        x: u.y * v.z - u.z * v.y,
        y: u.z * v.x - u.x * v.z,
        z: u.x * v.y - u.y * v.x,
    }
}

/// The Euclidean norm in fixed point: the integer square root of the
/// vector's dot product with itself, which carries the scale of the
/// components.
pub open spec fn spec_norm(v: Vec3<int>) -> int {
    sqrt_floor(spec_dot3(v, v) as nat) as int
}

/// The unit vector in fixed point: each component scaled by `SCALE` and
/// divided, truncating toward zero, by the norm.
pub open spec fn spec_normalize(v: Vec3<int>) -> Vec3<int> {
    let n = spec_norm(v);
    Vec3 { x: tdiv(v.x * SCALE, n), y: tdiv(v.y * SCALE, n), z: tdiv(v.z * SCALE, n) }
}

/// The largest component magnitude on which `norm` and `normalize` operate:
/// squaring and summing three such components stays within `i128`.
pub const VEC_LIMIT: i64 = 4_000_000_000_000_000_000;

/// Every component within `VEC_LIMIT` in magnitude.
pub open spec fn vec3_limited(v: Vec3<int>) -> bool {
    &&& abs(v.x) <= VEC_LIMIT
    &&& abs(v.y) <= VEC_LIMIT
    &&& abs(v.z) <= VEC_LIMIT
}

/// All products and partial sums of a dot product fit in `i64`.
pub open spec fn dot3_in_range(u: Vec3<int>, v: Vec3<int>) -> bool {
    &&& in_i64(u.x * v.x)
    &&& in_i64(u.y * v.y)
    &&& in_i64(u.z * v.z)
    &&& in_i64(u.x * v.x + u.y * v.y)
    &&& in_i64(spec_dot3(u, v))
}

/// All products and differences of a cross product fit in `i64`.
pub open spec fn cross_in_range(u: Vec3<int>, v: Vec3<int>) -> bool {
    &&& in_i64(u.y * v.z)
    &&& in_i64(u.z * v.y)
    &&& in_i64(u.z * v.x)
    &&& in_i64(u.x * v.z)
    &&& in_i64(u.x * v.y)
    &&& in_i64(u.y * v.x)
    &&& in_i64(u.y * v.z - u.z * v.y)
    &&& in_i64(u.z * v.x - u.x * v.z)
    &&& in_i64(u.x * v.y - u.y * v.x)
}

impl Vec2<i64> {
    /// The dot product of two fixed-point plane vectors.
    pub fn dot(&self, other: &Vec2<i64>) -> (r: i64)
        requires
            in_i64(self.x * other.x),
            in_i64(self.y * other.y),
            in_i64(spec_dot2(self.as_math(), other.as_math())),
        ensures
            r == spec_dot2(self.as_math(), other.as_math()),
    {
        self.x * other.x + self.y * other.y
    }

    /// Componentwise sum.
    pub fn add(&self, other: &Vec2<i64>) -> (r: Vec2<i64>)
        requires
            in_i64(self.x + other.x),
            in_i64(self.y + other.y),
        ensures
            r.x == self.x + other.x,
            r.y == self.y + other.y,
    {
        Vec2 { x: self.x + other.x, y: self.y + other.y }
    }

    /// Componentwise difference.
    pub fn sub(&self, other: &Vec2<i64>) -> (r: Vec2<i64>)
        requires
            in_i64(self.x - other.x),
            in_i64(self.y - other.y),
        ensures
            r.x == self.x - other.x,
            r.y == self.y - other.y,
    {
        Vec2 { x: self.x - other.x, y: self.y - other.y }
    }
}

impl Vec3<i64> {
    /// Componentwise sum.
    pub fn add(&self, other: &Vec3<i64>) -> (r: Vec3<i64>)
        requires
            in_i64(self.x + other.x),
            in_i64(self.y + other.y),
            in_i64(self.z + other.z),
        ensures
            r.as_math() == spec_add3(self.as_math(), other.as_math()),
    {
        Vec3 { x: self.x + other.x, y: self.y + other.y, z: self.z + other.z }
    }

    /// Componentwise difference.
    pub fn sub(&self, other: &Vec3<i64>) -> (r: Vec3<i64>)
        requires
            in_i64(self.x - other.x),
            in_i64(self.y - other.y),
            in_i64(self.z - other.z),
        ensures
            r.as_math() == spec_sub3(self.as_math(), other.as_math()),
    {
        Vec3 { x: self.x - other.x, y: self.y - other.y, z: self.z - other.z }
    }

    /// Componentwise scaling.
    pub fn mul(&self, s: i64) -> (r: Vec3<i64>)
        requires
            in_i64(self.x * s),
            in_i64(self.y * s),
            in_i64(self.z * s),
        ensures
            r.as_math() == spec_scale3(self.as_math(), s as int),
    {
        Vec3 { x: self.x * s, y: self.y * s, z: self.z * s }
    }

    /// The dot product.
    pub fn dot(&self, other: &Vec3<i64>) -> (r: i64)
        requires
            dot3_in_range(self.as_math(), other.as_math()),
        ensures
            r == spec_dot3(self.as_math(), other.as_math()),
    {
        self.x * other.x + self.y * other.y + self.z * other.z
    }

    /// The cross product; defined for three-component vectors only and
    /// anticommutative (see [`lemma_cross_anticommutative`]).
    pub fn cross(&self, other: &Vec3<i64>) -> (r: Vec3<i64>)
        requires
            cross_in_range(self.as_math(), other.as_math()),
        ensures
            r.as_math() == spec_cross(self.as_math(), other.as_math()),
    {
        let x = self.y * other.z - self.z * other.y;
        let y = self.z * other.x - self.x * other.z;
        let z = self.x * other.y - self.y * other.x;
        Vec3 { x, y, z }
    }

    /// The fixed-point norm: `sqrt(dot(v, v))`, rounded down.
    pub fn norm(&self) -> (r: i64)
        requires
            vec3_limited(self.as_math()),
        ensures
            r == spec_norm(self.as_math()),
            r >= 0,
    {
        proof {
            lemma_dot_self_nonneg(self.as_math());
            assert(self.x * self.x <= VEC_LIMIT * VEC_LIMIT && self.y * self.y <= VEC_LIMIT
                * VEC_LIMIT && self.z * self.z <= VEC_LIMIT * VEC_LIMIT) by (nonlinear_arith)
                requires
                    abs(self.x as int) <= VEC_LIMIT && abs(self.y as int) <= VEC_LIMIT && abs(
                        self.z as int,
                    ) <= VEC_LIMIT,
            ;
        }
        let xx = self.x as i128 * self.x as i128;
        let yy = self.y as i128 * self.y as i128;
        let zz = self.z as i128 * self.z as i128;
        let d = xx + yy + zz;
        let r = isqrt(d as u128);
        proof {
            lemma_sqrt_floor_bounds(d as nat);
            assert(r <= 0x7FFF_FFFF_FFFF_FFFF) by (nonlinear_arith)
                requires
                    r >= 0 && r * r <= d && d <= 3 * VEC_LIMIT * VEC_LIMIT,
            ;
        }
        r as i64
    }

    /// The fixed-point unit vector: each component scaled to `SCALE` over
    /// the norm, truncating toward zero.  Requires a nonzero norm; each
    /// result component lies within `[-SCALE, SCALE]`.
    pub fn normalize(&self) -> (r: Vec3<i64>)
        requires
            vec3_limited(self.as_math()),
            spec_dot3(self.as_math(), self.as_math()) != 0,
        ensures
            r.as_math() == spec_normalize(self.as_math()),
            abs(r.x as int) <= SCALE,
            abs(r.y as int) <= SCALE,
            abs(r.z as int) <= SCALE,
    {
        proof {
            lemma_dot_self_nonneg(self.as_math());
            lemma_normalize_bounded(self.as_math());
        }
        let n = self.norm();
        assert(n >= 1) by {
            lemma_sqrt_floor_zero_iff(spec_dot3(self.as_math(), self.as_math()) as nat);
        }
        let x = div_trunc_i128(self.x as i128 * SCALE as i128, n as i128);
        let y = div_trunc_i128(self.y as i128 * SCALE as i128, n as i128);
        let z = div_trunc_i128(self.z as i128 * SCALE as i128, n as i128);
        Vec3 { x: x as i64, y: y as i64, z: z as i64 }
    }

    /// Checked narrowing to `i32` components; `None` when any component is
    /// out of range.
    pub fn to_i32(&self) -> (r: Option<Vec3<i32>>)
        ensures
            match r {
                Some(v) => i32::MIN <= self.x <= i32::MAX && i32::MIN <= self.y <= i32::MAX
                    && i32::MIN <= self.z <= i32::MAX && v.x == self.x && v.y == self.y
                    && v.z == self.z,
                None => !(i32::MIN <= self.x <= i32::MAX && i32::MIN <= self.y <= i32::MAX
                    && i32::MIN <= self.z <= i32::MAX),
            },
    {
        if i32::MIN as i64 <= self.x && self.x <= i32::MAX as i64 && i32::MIN as i64 <= self.y
            && self.y <= i32::MAX as i64 && i32::MIN as i64 <= self.z && self.z <= i32::MAX as i64 {
            Some(Vec3 { x: self.x as i32, y: self.y as i32, z: self.z as i32 })
        } else {
            None
        }
    }

    /// Checked narrowing to `u32` components; `None` when any component is
    /// negative or out of range.
    pub fn to_u32(&self) -> (r: Option<Vec3<u32>>)
        ensures
            match r {
                Some(v) => 0 <= self.x <= u32::MAX && 0 <= self.y <= u32::MAX && 0 <= self.z
                    <= u32::MAX && v.x == self.x && v.y == self.y && v.z == self.z,
                None => !(0 <= self.x <= u32::MAX && 0 <= self.y <= u32::MAX && 0 <= self.z
                    <= u32::MAX),
            },
    {
        if 0 <= self.x && self.x <= u32::MAX as i64 && 0 <= self.y && self.y <= u32::MAX as i64
            && 0 <= self.z && self.z <= u32::MAX as i64 {
            Some(Vec3 { x: self.x as u32, y: self.y as u32, z: self.z as u32 })
        } else {
            None
        }
    }
}

impl Vec3<i32> {
    /// Widening to `i64` components, always exact.
    pub fn to_i64(&self) -> (r: Vec3<i64>)
        ensures
            r.x == self.x,
            r.y == self.y,
            r.z == self.z,
    {
        Vec3 { x: self.x as i64, y: self.y as i64, z: self.z as i64 }
    }
}

/// A vector's dot product with itself is nonnegative, and zero exactly for
/// the zero vector.
pub proof fn lemma_dot_self_nonneg(v: Vec3<int>)
    ensures
        spec_dot3(v, v) >= 0,
        spec_dot3(v, v) == 0 <==> v == (Vec3 { x: 0int, y: 0int, z: 0int }),
{
    assert(v.x * v.x >= 0 && v.y * v.y >= 0 && v.z * v.z >= 0) by (nonlinear_arith);
    assert(v.x != 0 ==> v.x * v.x > 0) by (nonlinear_arith);
    assert(v.y != 0 ==> v.y * v.y > 0) by (nonlinear_arith);
    assert(v.z != 0 ==> v.z * v.z > 0) by (nonlinear_arith);
}

/// The cross product of two vectors is orthogonal to both.
pub proof fn lemma_cross_orthogonal(u: Vec3<int>, v: Vec3<int>)
    ensures
        spec_dot3(spec_cross(u, v), u) == 0,
        spec_dot3(spec_cross(u, v), v) == 0,
{
    assert((u.y * v.z - u.z * v.y) * u.x + (u.z * v.x - u.x * v.z) * u.y + (u.x * v.y - u.y
        * v.x) * u.z == 0) by (nonlinear_arith);
    assert((u.y * v.z - u.z * v.y) * v.x + (u.z * v.x - u.x * v.z) * v.y + (u.x * v.y - u.y
        * v.x) * v.z == 0) by (nonlinear_arith);
}

/// The cross product is anticommutative: `cross(u, v) == -cross(v, u)`.
pub proof fn lemma_cross_anticommutative(u: Vec3<int>, v: Vec3<int>)
    ensures
        spec_cross(u, v) == spec_neg3(spec_cross(v, u)),
{
    assert(u.y * v.z - u.z * v.y == -(v.y * u.z - v.z * u.y)) by (nonlinear_arith);
    assert(u.z * v.x - u.x * v.z == -(v.z * u.x - v.x * u.z)) by (nonlinear_arith);
    assert(u.x * v.y - u.y * v.x == -(v.x * u.y - v.y * u.x)) by (nonlinear_arith);
}

/// No component exceeds the norm in magnitude, so every component of a
/// normalized vector lies within `[-SCALE, SCALE]`.
pub proof fn lemma_normalize_bounded(v: Vec3<int>)
    requires
        spec_dot3(v, v) > 0,
    ensures
        abs(spec_normalize(v).x) <= SCALE,
        abs(spec_normalize(v).y) <= SCALE,
        abs(spec_normalize(v).z) <= SCALE,
{
    let n = spec_norm(v);
    lemma_sqrt_floor_zero_iff(spec_dot3(v, v) as nat);
    assert(n >= 1);
    lemma_component_le_norm(v);
    lemma_norm_scale_bound(v.x, n);
    lemma_norm_scale_bound(v.y, n);
    lemma_norm_scale_bound(v.z, n);
}

/// Each component of a vector is bounded in magnitude by the norm.
pub proof fn lemma_component_le_norm(v: Vec3<int>)
    ensures
        abs(v.x) <= spec_norm(v),
        abs(v.y) <= spec_norm(v),
        abs(v.z) <= spec_norm(v),
{
    lemma_dot_self_nonneg(v);
    lemma_abs_is_sqrt_of_square(v.x);
    lemma_abs_is_sqrt_of_square(v.y);
    lemma_abs_is_sqrt_of_square(v.z);
    assert(0 <= v.x * v.x && 0 <= v.y * v.y && 0 <= v.z * v.z && v.x * v.x <= v.x * v.x + v.y
        * v.y + v.z * v.z && v.y * v.y <= v.x * v.x + v.y * v.y + v.z * v.z && v.z * v.z <= v.x
        * v.x + v.y * v.y + v.z * v.z) by (nonlinear_arith);
    lemma_sqrt_floor_monotone((v.x * v.x) as nat, spec_dot3(v, v) as nat);
    lemma_sqrt_floor_monotone((v.y * v.y) as nat, spec_dot3(v, v) as nat);
    lemma_sqrt_floor_monotone((v.z * v.z) as nat, spec_dot3(v, v) as nat);
}

/// `sqrt_floor` of a perfect square recovers the magnitude.
proof fn lemma_abs_is_sqrt_of_square(a: int)
    ensures
        sqrt_floor((a * a) as nat) == abs(a),
{
    assert(a * a == abs(a) as int * abs(a) as int) by (nonlinear_arith);
    assert(a * a < (abs(a) as int + 1) * (abs(a) as int + 1)) by (nonlinear_arith);
    lemma_sqrt_floor_unique((a * a) as nat, abs(a));
}

/// With `abs(a) <= n`, the truncated quotient `a * SCALE / n` stays within
/// `[-SCALE, SCALE]`.
proof fn lemma_norm_scale_bound(a: int, n: int)
    requires
        n >= 1,
        abs(a) <= n,
    ensures
        abs(tdiv(a * SCALE, n)) <= SCALE,
{
    let s = SCALE as int;
    if a >= 0 {
        assert(abs(a * s) == a * s);
        assert(a * s <= n * s);
    } else {
        assert(abs(a * s) == -(a * s));
        assert(-(a * s) == (-a) * s);
        assert((-a) * s <= n * s);
    }
    lemma_tdiv_ordered(abs(a * s) as int, n * s, n);
    lemma_tdiv_exact(s, n);
    assert(s * n == n * s);
    assert(tdiv(n * s, n) == s);
    assert(abs(tdiv(a * s, n)) == tdiv(abs(a * s) as int, n));
}

/// A truncated quotient brackets the dividend between consecutive multiples
/// of the divisor, squared.
proof fn lemma_tdiv_square_bracket(a: int, n: int)
    requires
        n >= 1,
    ensures
        ({
            let q = abs(tdiv(a, n)) as int;
            q * q * (n * n) <= a * a && a * a < (q + 1) * (q + 1) * (n * n)
        }),
{
    let q = abs(tdiv(a, n)) as int;
    assert(q == abs(a) as int / n);
    vstd::arithmetic::div_mod::lemma_fundamental_div_mod(abs(a) as int, n);
    assert(abs(a) as int == n * q + (abs(a) as int % n));
    vstd::arithmetic::div_mod::lemma_mod_bound(abs(a) as int, n);
    let aa = abs(a) as int;
    assert(q * n <= aa < (q + 1) * n) by (nonlinear_arith)
        requires
            aa == n * q + (aa % n) && 0 <= aa % n < n,
    ;
    assert(a * a == aa * aa) by (nonlinear_arith)
        requires
            aa == abs(a),
    ;
    assert(q * q * (n * n) <= aa * aa && aa * aa < (q + 1) * (q + 1) * (n * n))
        by (nonlinear_arith)
        requires
            0 <= q && n >= 1 && q * n <= aa < (q + 1) * n,
    ;
}

/// Normalizing scales the norm to one, up to truncation error: for any
/// vector of at least unit length, the norm of the normalized vector lies
/// within a few units of `SCALE`.  (Vectors shorter than one unit lose too
/// much to truncation for this to hold.)
pub proof fn lemma_normalize_unit_norm(v: Vec3<int>)
    requires
        spec_dot3(v, v) > 0,
        spec_norm(v) >= SCALE,
    ensures
        SCALE - 4 <= spec_norm(spec_normalize(v)) <= SCALE,
{
    let s = SCALE as int;
    let n = spec_norm(v);
    let d = spec_dot3(v, v);
    lemma_sqrt_floor_bounds(d as nat);
    assert(n * n <= d < (n + 1) * (n + 1));
    assert(d <= n * n + 2 * n) by (nonlinear_arith)
        requires
            d < (n + 1) * (n + 1),
    ;
    let w = spec_normalize(v);
    let qx = abs(w.x) as int;
    let qy = abs(w.y) as int;
    let qz = abs(w.z) as int;
    lemma_tdiv_square_bracket(v.x * s, n);
    lemma_tdiv_square_bracket(v.y * s, n);
    lemma_tdiv_square_bracket(v.z * s, n);
    assert((v.x * s) * (v.x * s) == (v.x * v.x) * (s * s)) by (nonlinear_arith);
    assert((v.y * s) * (v.y * s) == (v.y * v.y) * (s * s)) by (nonlinear_arith);
    assert((v.z * s) * (v.z * s) == (v.z * v.z) * (s * s)) by (nonlinear_arith);
    let q2 = qx * qx + qy * qy + qz * qz;
    // the component squares, summed, bracket d * s * s in units of n * n
    assert(q2 * (n * n) <= d * (s * s)) by (nonlinear_arith)
        requires
            qx * qx * (n * n) <= (v.x * v.x) * (s * s) && qy * qy * (n * n) <= (v.y * v.y) * (s
                * s) && qz * qz * (n * n) <= (v.z * v.z) * (s * s) && d == v.x * v.x + v.y * v.y
                + v.z * v.z && q2 == qx * qx + qy * qy + qz * qz,
    ;
    assert(d * (s * s) < (q2 + 2 * (qx + qy + qz) + 3) * (n * n)) by (nonlinear_arith)
        requires
            (v.x * v.x) * (s * s) < (qx + 1) * (qx + 1) * (n * n) && (v.y * v.y) * (s * s) < (qy
                + 1) * (qy + 1) * (n * n) && (v.z * v.z) * (s * s) < (qz + 1) * (qz + 1) * (n * n)
                && d == v.x * v.x + v.y * v.y + v.z * v.z && q2 == qx * qx + qy * qy + qz * qz,
    ;
    // each normalized component is at most one unit
    lemma_normalize_bounded(v);
    assert(qx <= s && qy <= s && qz <= s);
    // upper bound: q2 <= s * s + 2 * s, using n >= s
    assert(q2 <= s * s + 2 * s) by (nonlinear_arith)
        requires
            q2 * (n * n) <= d * (s * s) && d <= n * n + 2 * n && n >= s && s >= 1,
    ;
    // lower bound: q2 > s * s - 6 * s - 3, using d >= n * n
    assert(q2 > s * s - 2 * (qx + qy + qz) - 3) by (nonlinear_arith)
        requires
            d * (s * s) < (q2 + 2 * (qx + qy + qz) + 3) * (n * n) && n * n <= d && n >= 1 && s
                >= 1,
    ;
    assert(q2 > s * s - 6 * s - 3);
    // q2 is exactly the normalized vector's dot product with itself
    assert(spec_dot3(w, w) == q2) by (nonlinear_arith)
        requires
            qx == abs(w.x) && qy == abs(w.y) && qz == abs(w.z) && q2 == qx * qx + qy * qy + qz
                * qz,
    ;
    // bracket the integer square root of q2
    let r = spec_norm(w);
    lemma_sqrt_floor_bounds(q2 as nat);
    assert(r * r <= q2 < (r + 1) * (r + 1));
    assert(r <= s) by (nonlinear_arith)
        requires
            r * r <= q2 && q2 <= s * s + 2 * s && r >= 0 && s >= 1,
    ;
    assert(r >= s - 4) by (nonlinear_arith)
        requires
            q2 < (r + 1) * (r + 1) && q2 > s * s - 6 * s - 3 && r >= 0 && s >= 1000,
    ;
}

/// Normalizing the negated vector negates the normalized vector, because
/// truncation toward zero is symmetric about zero.
pub proof fn lemma_normalize_neg(v: Vec3<int>)
    requires
        spec_dot3(v, v) > 0,
    ensures
        spec_normalize(spec_neg3(v)) == spec_neg3(spec_normalize(v)),
{
    let w = spec_neg3(v);
    assert((-v.x) * (-v.x) == v.x * v.x && (-v.y) * (-v.y) == v.y * v.y && (-v.z) * (-v.z)
        == v.z * v.z) by (nonlinear_arith);
    assert(spec_dot3(w, w) == spec_dot3(v, v));
    let n = spec_norm(v);
    lemma_sqrt_floor_zero_iff(spec_dot3(v, v) as nat);
    assert(n >= 1);
    assert(w.x * SCALE == -(v.x * SCALE));
    assert(w.y * SCALE == -(v.y * SCALE));
    assert(w.z * SCALE == -(v.z * SCALE));
    lemma_tdiv_neg(v.x * SCALE, n);
    lemma_tdiv_neg(v.y * SCALE, n);
    lemma_tdiv_neg(v.z * SCALE, n);
}

/// The square root rounded down is zero only at zero.
pub proof fn lemma_sqrt_floor_zero_iff(n: nat)
    ensures
        sqrt_floor(n) == 0 <==> n == 0,
        n > 0 ==> sqrt_floor(n) >= 1,
{
    lemma_sqrt_floor_bounds(n);
    if sqrt_floor(n) == 0 {
        assert((sqrt_floor(n) + 1) * (sqrt_floor(n) + 1) == 1) by (nonlinear_arith)
            requires
                sqrt_floor(n) == 0,
        ;
    }
}

} // verus!
