//! Plane vectors with `i64` fixed-point components, and the integer
//! arithmetic (truncating division, floor square root, length clamping)
//! that the quadtree and the flocking rules are built on.
use vstd::prelude::*;

verus! {

/// Largest coordinate magnitude the spatial structures accept.  Keeping
/// every stored point and every query centre within this bound lets squared
/// distances between any two such points fit in an `i64`.
pub const COORD_LIMIT: i64 = 1_000_000_000;

/// Denominator of the fixed-point steering factors: a factor of `SCALE`
/// multiplies by one.
pub const SCALE: i64 = 1000;

/// A 2D vector with fixed-point integer components.
#[derive(Clone, Copy, Debug, PartialEq, Eq, Structural)]
pub struct Vec2 {
    pub x: i64,
    pub y: i64,
}

impl Vec2 {
    pub fn new(x: i64, y: i64) -> (r: Self)
        ensures
            r == (Vec2 { x, y }),
    {
        Vec2 { x, y }
    }

    pub fn zero() -> (r: Self)
        ensures
            r == (Vec2 { x: 0i64, y: 0i64 }),
    {
        Vec2 { x: 0, y: 0 }
    }

    /// Both components set to `val`.
    pub fn from(val: i64) -> (r: Self)
        ensures
            r == (Vec2 { x: val, y: val }),
    {
        Vec2 { x: val, y: val }
    }

    /// The vector with the same `x` and `y = 0`.
    pub fn keep_x(&self) -> (r: Self)
        ensures
            r == (Vec2 { x: self.x, y: 0i64 }),
    {
        Vec2 { x: self.x, y: 0 }
    }

    /// The vector with the same `y` and `x = 0`.
    pub fn keep_y(&self) -> (r: Self)
        ensures
            r == (Vec2 { x: 0i64, y: self.y }),
    {
        Vec2 { x: 0, y: self.y }
    }

    pub fn neg(&self) -> (r: Self)
        requires
            self.x != i64::MIN,
            self.y != i64::MIN,
        ensures
            r.x == -self.x,
            r.y == -self.y,
    {
        Vec2 { x: -self.x, y: -self.y }
    }

    pub fn add_num(&self, rhs: i64) -> (r: Self)
        requires
            i64::MIN <= self.x + rhs <= i64::MAX,
            i64::MIN <= self.y + rhs <= i64::MAX,
        ensures
            r.x == self.x + rhs,
            r.y == self.y + rhs,
    {
        Vec2 { x: self.x + rhs, y: self.y + rhs }
    }

    pub fn add_vec(&self, rhs: &Vec2) -> (r: Self)
        requires
            i64::MIN <= self.x + rhs.x <= i64::MAX,
            i64::MIN <= self.y + rhs.y <= i64::MAX,
        ensures
            r.x == self.x + rhs.x,
            r.y == self.y + rhs.y,
    {
        Vec2 { x: self.x + rhs.x, y: self.y + rhs.y }
    }

    pub fn sub_num(&self, rhs: i64) -> (r: Self)
        requires
            i64::MIN <= self.x - rhs <= i64::MAX,
            i64::MIN <= self.y - rhs <= i64::MAX,
        ensures
            r.x == self.x - rhs,
            r.y == self.y - rhs,
    {
        Vec2 { x: self.x - rhs, y: self.y - rhs }
    }

    pub fn sub_vec(&self, rhs: &Vec2) -> (r: Self)
        requires
            i64::MIN <= self.x - rhs.x <= i64::MAX,
            i64::MIN <= self.y - rhs.y <= i64::MAX,
        ensures
            r.x == self.x - rhs.x,
            r.y == self.y - rhs.y,
    {
        Vec2 { x: self.x - rhs.x, y: self.y - rhs.y }
    }

    pub fn mul_num(&self, rhs: i64) -> (r: Self)
        requires
            i64::MIN <= self.x * rhs <= i64::MAX,
            i64::MIN <= self.y * rhs <= i64::MAX,
        ensures
            r.x == self.x * rhs,
            r.y == self.y * rhs,
    {
        Vec2 { x: self.x * rhs, y: self.y * rhs }
    }

    pub fn mul_vec(&self, rhs: &Vec2) -> (r: Self)
        requires
            i64::MIN <= self.x * rhs.x <= i64::MAX,
            i64::MIN <= self.y * rhs.y <= i64::MAX,
        ensures
            r.x == self.x * rhs.x,
            r.y == self.y * rhs.y,
    {
        Vec2 { x: self.x * rhs.x, y: self.y * rhs.y }
    }
}

/// Whether both components lie within [`COORD_LIMIT`].
pub open spec fn in_coord_bounds(v: Vec2) -> bool {
    &&& -COORD_LIMIT <= v.x <= COORD_LIMIT
    &&& -COORD_LIMIT <= v.y <= COORD_LIMIT
}

/// Squared Euclidean distance between two points, as an unbounded integer.
pub open spec fn dist2(a: Vec2, b: Vec2) -> int {
    (a.x - b.x) * (a.x - b.x) + (a.y - b.y) * (a.y - b.y)
}

impl Vec2 {
    pub fn length_squared(&self) -> (r: i64)
        requires
            -2_000_000_000 <= self.x <= 2_000_000_000,
            -2_000_000_000 <= self.y <= 2_000_000_000,
        ensures
            r == self.x * self.x + self.y * self.y,
    {
        proof {
            assert(self.x * self.x <= 2_000_000_000 * 2_000_000_000) by (nonlinear_arith)
                requires -2_000_000_000 <= self.x <= 2_000_000_000;
            assert(self.y * self.y <= 2_000_000_000 * 2_000_000_000) by (nonlinear_arith)
                requires -2_000_000_000 <= self.y <= 2_000_000_000;
            assert(self.x * self.x >= 0) by (nonlinear_arith);
            assert(self.y * self.y >= 0) by (nonlinear_arith);
        }
        self.x * self.x + self.y * self.y
    }

    pub fn distance_squared(&self, other: &Vec2) -> (r: i64)
        requires
            in_coord_bounds(*self),
            in_coord_bounds(*other),
        ensures
            r == dist2(*self, *other),
    {
        let d = self.sub_vec(other);
        d.length_squared()
    }
}

/// Truncating division (the result's sign follows the numerator's, as the
/// hardware `/` rounds towards zero).
pub open spec fn div_t(a: int, b: int) -> int
    recommends
        b >= 1,
{
    if a >= 0 {
        a / b
    } else {
        -((-a) / b)
    }
}

/// A quotient's magnitude is bounded by any `m` with `|a| <= m * b`.
pub proof fn lemma_div_t_bound(a: int, b: int, m: int)
    requires
        b >= 1,
        0 <= m,
        -(m * b) <= a <= m * b,
    ensures
        -m <= div_t(a, b) <= m,
{
    if a >= 0 {
        vstd::arithmetic::div_mod::lemma_div_is_ordered(a, m * b, b);
        vstd::arithmetic::div_mod::lemma_div_by_multiple(m, b);
        vstd::arithmetic::div_mod::lemma_div_pos_is_pos(a, b);
    } else {
        vstd::arithmetic::div_mod::lemma_div_is_ordered(-a, m * b, b);
        vstd::arithmetic::div_mod::lemma_div_by_multiple(m, b);
        vstd::arithmetic::div_mod::lemma_div_pos_is_pos(-a, b);
    }
}

/// A quotient's magnitude never exceeds the numerator's.
pub proof fn lemma_div_t_magnitude(a: int, b: int)
    requires
        b >= 1,
    ensures
        a >= 0 ==> 0 <= div_t(a, b) <= a,
        a < 0 ==> a <= div_t(a, b) <= 0,
{
    if a >= 0 {
        vstd::arithmetic::div_mod::lemma_div_nonincreasing(a, b);
        vstd::arithmetic::div_mod::lemma_div_pos_is_pos(a, b);
    } else {
        vstd::arithmetic::div_mod::lemma_div_nonincreasing(-a, b);
        vstd::arithmetic::div_mod::lemma_div_pos_is_pos(-a, b);
    }
}

/// Truncating division on wide integers.
pub(crate) fn div_trunc_i128(a: i128, b: i128) -> (r: i128)
    requires
        b >= 1,
        a > i128::MIN,
    ensures
        r == div_t(a as int, b as int),
{
    if a >= 0 {
        let q = (a as u128) / (b as u128);
        proof {
            vstd::arithmetic::div_mod::lemma_div_nonincreasing(a as int, b as int);
            vstd::arithmetic::div_mod::lemma_div_pos_is_pos(a as int, b as int);
        }
        q as i128
    } else {
        let q = ((-a) as u128) / (b as u128);
        proof {
            vstd::arithmetic::div_mod::lemma_div_nonincreasing(-a as int, b as int);
            vstd::arithmetic::div_mod::lemma_div_pos_is_pos(-a as int, b as int);
        }
        -(q as i128)
    }
}

/// The largest integer whose square does not exceed `n` (0 for negative `n`).
pub open spec fn sqrt_floor(n: int) -> int
    decreases n,
{
    if n <= 0 {
        0
    } else {
        let r = sqrt_floor(n - 1);
        if (r + 1) * (r + 1) <= n {
            r + 1
        } else {
            r
        }
    }
}

/// The floor square root brackets its argument between consecutive squares.
pub proof fn lemma_sqrt_floor(n: int)
    requires
        n >= 0,
    ensures
        sqrt_floor(n) >= 0,
        sqrt_floor(n) * sqrt_floor(n) <= n,
        n < (sqrt_floor(n) + 1) * (sqrt_floor(n) + 1),
    decreases n,
{
    if n > 0 {
        lemma_sqrt_floor(n - 1);
        let r = sqrt_floor(n - 1);
        if (r + 1) * (r + 1) <= n {
            assert((r + 2) * (r + 2) > (r + 1) * (r + 1)) by (nonlinear_arith)
                requires r >= 0;
        }
    }
}

/// Bracketing between consecutive squares determines the floor square root.
pub proof fn lemma_sqrt_floor_unique(n: int, r: int)
    requires
        n >= 0,
        r >= 0,
        r * r <= n,
        n < (r + 1) * (r + 1),
    ensures
        r == sqrt_floor(n),
{
    lemma_sqrt_floor(n);
    let s = sqrt_floor(n);
    if r < s {
        assert((r + 1) * (r + 1) <= s * s) by (nonlinear_arith)
            requires 0 <= r + 1 <= s;
    }
    if s < r {
        assert((s + 1) * (s + 1) <= r * r) by (nonlinear_arith)
            requires 0 <= s + 1 <= r;
    }
}

/// Floor square root by bisection on `[0, 2^64]`.
fn isqrt_u128(n: u128) -> (r: u128)
    ensures
        r == sqrt_floor(n as int),
        r < 18446744073709551616,
{
    let mut lo: u128 = 0;
    let mut hi: u128 = 18446744073709551616;
    proof {
        assert(18446744073709551616int * 18446744073709551616int > u128::MAX as int)
            by (nonlinear_arith);
    }
    while lo + 1 < hi
        invariant
            0 <= lo < hi <= 18446744073709551616,
            (lo as int) * (lo as int) <= n as int,
            (n as int) < (hi as int) * (hi as int),
        decreases hi - lo,
    {
        let mid = lo + (hi - lo) / 2;
        proof {
            vstd::arithmetic::div_mod::lemma_fundamental_div_mod((hi - lo) as int, 2);
            assert(lo < mid < hi);
            assert((mid as int) * (mid as int) < 18446744073709551616int * 18446744073709551616int)
                by (nonlinear_arith)
                requires 0 <= (mid as int) && (mid as int) < 18446744073709551616int;
            assert(18446744073709551616int * 18446744073709551616int == 0x100000000000000000000000000000000int)
                by (nonlinear_arith);
        }
        if mid * mid <= n {
            lo = mid;
        } else {
            hi = mid;
        }
    }
    proof {
        lemma_sqrt_floor_unique(n as int, lo as int);
    }
    lo
}

impl Vec2 {
    /// Floor of the Euclidean length.
    pub fn length(&self) -> (r: i64)
        requires
            -2_000_000_000 <= self.x <= 2_000_000_000,
            -2_000_000_000 <= self.y <= 2_000_000_000,
        ensures
            r == sqrt_floor(self.x * self.x + self.y * self.y),
            0 <= r <= 3_000_000_000,
    {
        proof {
            assert(0 <= self.x * self.x <= 4_000_000_000_000_000_000int) by (nonlinear_arith)
                requires -2_000_000_000 <= self.x <= 2_000_000_000;
            assert(0 <= self.y * self.y <= 4_000_000_000_000_000_000int) by (nonlinear_arith)
                requires -2_000_000_000 <= self.y <= 2_000_000_000;
        }
        let l2 = self.length_squared();
        let r = isqrt_u128(l2 as u128);
        proof {
            lemma_sqrt_floor(l2 as int);
            assert((r as int) * (r as int) <= 8_000_000_000_000_000_000int);
            assert(r as int <= 3_000_000_000) by (nonlinear_arith)
                requires
                    (r as int) * (r as int) <= 8_000_000_000_000_000_000int,
                    r as int >= 0,
            ;
        }
        r as i64
    }

    /// Floor of the Euclidean distance between two bounded points.
    pub fn distance(&self, other: &Vec2) -> (r: i64)
        requires
            in_coord_bounds(*self),
            in_coord_bounds(*other),
        ensures
            r == sqrt_floor(dist2(*self, *other)),
            0 <= r <= 3_000_000_000,
    {
        let d = self.sub_vec(other);
        d.length()
    }

    /// Componentwise truncating division by a positive scalar.
    pub fn div_num(&self, rhs: i64) -> (r: Self)
        requires
            rhs >= 1,
            self.x > i64::MIN,
            self.y > i64::MIN,
        ensures
            r.x == div_t(self.x as int, rhs as int),
            r.y == div_t(self.y as int, rhs as int),
    {
        let x = div_trunc_i128(self.x as i128, rhs as i128);
        let y = div_trunc_i128(self.y as i128, rhs as i128);
        proof {
            lemma_div_t_magnitude(self.x as int, rhs as int);
            lemma_div_t_magnitude(self.y as int, rhs as int);
        }
        Vec2 { x: x as i64, y: y as i64 }
    }

    /// The length, clamped: scaled up onto the circle of radius `min` when
    /// shorter, down onto the circle of radius `max` when longer, and left
    /// alone otherwise.  A zero vector has no direction and is returned
    /// unchanged.  Scaling divides by the floor square root of the squared
    /// length.
    pub fn clamp_length(&self, min: i64, max: i64) -> (r: Self)
        requires
            0 <= min <= COORD_LIMIT,
            0 <= max <= COORD_LIMIT,
            -6_200_000_000_000_000_000 <= self.x <= 6_200_000_000_000_000_000,
            -6_200_000_000_000_000_000 <= self.y <= 6_200_000_000_000_000_000,
        ensures
            r == clamp_len_spec(*self, min as int, max as int),
            -(if min >= max { min } else { max }) <= r.x <= (if min >= max { min } else { max }),
            -(if min >= max { min } else { max }) <= r.y <= (if min >= max { min } else { max }),
    {
        let xi = self.x as i128;
        let yi = self.y as i128;
        proof {
            assert(xi * xi >= 0 && xi * xi <= 38440000000000000000000000000000000000int) by (
            nonlinear_arith)
                requires -6_200_000_000_000_000_000 <= xi <= 6_200_000_000_000_000_000;
            assert(yi * yi >= 0 && yi * yi <= 38440000000000000000000000000000000000int) by (
            nonlinear_arith)
                requires -6_200_000_000_000_000_000 <= yi <= 6_200_000_000_000_000_000;
        }
        let l2: u128 = ((xi * xi) as u128) + ((yi * yi) as u128);
        if l2 == 0 {
            proof {
                assert(self.x == 0 && self.y == 0) by (nonlinear_arith)
                    requires (xi * xi) + (yi * yi) == 0, xi == self.x as int, yi == self.y as int;
            }
            return *self;
        }
        proof {
            assert((min as int) * (min as int) <= 1_000_000_000_000_000_000int) by (
            nonlinear_arith)
                requires 0 <= min <= 1_000_000_000;
            assert((max as int) * (max as int) <= 1_000_000_000_000_000_000int) by (
            nonlinear_arith)
                requires 0 <= max <= 1_000_000_000;
        }
        let minu = (min as u128) * (min as u128);
        let maxu = (max as u128) * (max as u128);
        if l2 < minu {
            self.scale_to(l2, min)
        } else if l2 > maxu {
            self.scale_to(l2, max)
        } else {
            proof {
                assert(-max <= self.x <= max && -max <= self.y <= max) by (nonlinear_arith)
                    requires
                        (self.x as int) * (self.x as int) + (self.y as int) * (self.y as int) <= (
                        max as int) * (max as int),
                        0 <= max,
                ;
            }
            *self
        }
    }

    /// Scale onto the circle of radius `target`, dividing by the floor
    /// square root of the squared length `l2`.
    fn scale_to(&self, l2: u128, target: i64) -> (r: Self)
        requires
            0 <= target <= COORD_LIMIT,
            l2 > 0,
            l2 == (self.x as int) * (self.x as int) + (self.y as int) * (self.y as int),
        ensures
            r.x == div_t(self.x * target, sqrt_floor(l2 as int)),
            r.y == div_t(self.y * target, sqrt_floor(l2 as int)),
            -target <= r.x <= target,
            -target <= r.y <= target,
    {
        let len = isqrt_u128(l2);
        proof {
            lemma_sqrt_floor(l2 as int);
            let li = len as int;
            let sx = self.x as int;
            let sy = self.y as int;
            assert(sx * sx >= 0) by (nonlinear_arith);
            assert(sy * sy >= 0) by (nonlinear_arith);
            assert(sx * sx <= l2 as int);
            assert(sy * sy <= l2 as int);
            assert(li >= 1) by (nonlinear_arith)
                requires li >= 0, (li + 1) * (li + 1) > l2 as int, l2 as int >= 1;
            // each component's magnitude is at most the floor length
            assert(-li <= sx <= li) by (nonlinear_arith)
                requires
                    sx * sx <= l2 as int,
                    (l2 as int) < (li + 1) * (li + 1),
                    li >= 0,
            ;
            assert(-li <= sy <= li) by (nonlinear_arith)
                requires
                    sy * sy <= l2 as int,
                    (l2 as int) < (li + 1) * (li + 1),
                    li >= 0,
            ;
            assert(-((target as int) * li) <= sx * (target as int) <= (target as int) * li) by (
            nonlinear_arith)
                requires -li <= sx <= li, target >= 0;
            assert(-((target as int) * li) <= sy * (target as int) <= (target as int) * li) by (
            nonlinear_arith)
                requires -li <= sy <= li, target >= 0;
            lemma_div_t_bound(sx * (target as int), li, target as int);
            lemma_div_t_bound(sy * (target as int), li, target as int);
            assert((target as int) * li <= 18446744073709551616000000000int) by (nonlinear_arith)
                requires 0 <= target <= 1_000_000_000, 0 <= li < 18446744073709551616int;
        }
        let x = div_trunc_i128((self.x as i128) * (target as i128), len as i128);
        let y = div_trunc_i128((self.y as i128) * (target as i128), len as i128);
        Vec2 { x: x as i64, y: y as i64 }
    }
}

/// What [`Vec2::clamp_length`] returns: the vector itself when its squared
/// length is zero or already between the squared bounds, otherwise the
/// vector scaled onto the nearer bound.
pub open spec fn clamp_len_spec(v: Vec2, min: int, max: int) -> Vec2 {
    let l2 = (v.x as int) * (v.x as int) + (v.y as int) * (v.y as int);
    if l2 == 0 {
        v
    } else if l2 < min * min {
        Vec2 {
            x: div_t(v.x * min, sqrt_floor(l2)) as i64,
            y: div_t(v.y * min, sqrt_floor(l2)) as i64,
        }
    } else if l2 > max * max {
        Vec2 {
            x: div_t(v.x * max, sqrt_floor(l2)) as i64,
            y: div_t(v.y * max, sqrt_floor(l2)) as i64,
        }
    } else {
        v
    }
}

/// Anything stored in the spatial index exposes a plane position.
pub trait Position: Sized {
    /// The position, as the contracts speak of it.
    spec fn posn(&self) -> Vec2;

    fn pos(&self) -> (p: Vec2)
        ensures
            p == self.posn(),
    ;

    fn x(&self) -> (r: i64)
        ensures
            r == self.posn().x,
    ;

    fn y(&self) -> (r: i64)
        ensures
            r == self.posn().y,
    ;
}

impl Position for Vec2 {
    open spec fn posn(&self) -> Vec2 {
        *self
    }

    fn pos(&self) -> (p: Vec2)
    {
        *self
    }

    fn x(&self) -> (r: i64)
    {
        self.x
    }

    fn y(&self) -> (r: i64)
    {
        self.y
    }
}

} // verus!
