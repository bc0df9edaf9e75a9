//! Fixed-point 2D vector arithmetic.
//!
//! A scalar is an `i64` holding the real value times [`SCALE`]. Division
//! truncates toward zero ([`stdiv`]) and square roots round down
//! ([`isqrt_spec`]), so every function here is a total, exactly specified
//! function of its integer arguments.

use vstd::arithmetic::div_mod::{
    lemma_div_is_ordered, lemma_div_nonincreasing, lemma_div_pos_is_pos,
    lemma_fundamental_div_mod,
};
use vstd::arithmetic::mul::{lemma_mul_inequality, lemma_mul_nonnegative};
use vstd::prelude::*;

verus! {

/// Fixed-point scale: the stored integer is the real value times 1000.
pub const SCALE: i64 = 1000;

/// The angle pi in fixed point (3.142 radians).
pub const PI_FP: i64 = 3142;

/// Largest magnitude (2^61) the vector functions accept; keeps every
/// intermediate square sum below 2^126, in range of `i128`/`u128`.
pub const LIN_LIMIT: i64 = 0x2000_0000_0000_0000;

/// Absolute value over the mathematical integers.
pub open spec fn iabs(a: int) -> int {
    if a >= 0 {
        a
    } else {
        -a
    }
}

/// Division truncating toward zero (the rounding of hardware signed
/// division), defined for positive divisors.
pub open spec fn stdiv(a: int, b: int) -> int {
    if a >= 0 {
        a / b
    } else {
        -((-a) / b)
    }
}

/// The integer square root, rounded down; 0 for non-positive arguments.
pub open spec fn isqrt_spec(n: int) -> int
    decreases n,
{
    if n <= 0 {
        0
    } else {
        let r = isqrt_spec(n - 1);
        if (r + 1) * (r + 1) <= n {
            r + 1
        } else {
            r
        }
    }
}

/// `isqrt_spec(n)` is the unique `r >= 0` with `r^2 <= n < (r+1)^2`.
pub proof fn lemma_isqrt(n: int)
    requires
        n >= 0,
    ensures
        isqrt_spec(n) >= 0,
        isqrt_spec(n) * isqrt_spec(n) <= n,
        n < (isqrt_spec(n) + 1) * (isqrt_spec(n) + 1),
    decreases n,
{
    if n > 0 {
        lemma_isqrt(n - 1);
        let r = isqrt_spec(n - 1);
        if (r + 1) * (r + 1) <= n {
            assert((r + 2) * (r + 2) > n) by (nonlinear_arith)
                requires
                    r >= 0,
                    n - 1 < (r + 1) * (r + 1),
            ;
        }
    }
}

/// Any bracket `r^2 <= n < (r+1)^2` pins the square root down.
pub proof fn lemma_isqrt_unique(n: int, r: int)
    requires
        n >= 0,
        r >= 0,
        r * r <= n,
        n < (r + 1) * (r + 1),
    ensures
        r == isqrt_spec(n),
{
    lemma_isqrt(n);
    let s = isqrt_spec(n);
    if r < s {
        assert(false) by (nonlinear_arith)
            requires
                0 <= r,
                r < s,
                s * s <= n,
                n < (r + 1) * (r + 1),
        ;
    }
    if s < r {
        assert(false) by (nonlinear_arith)
            requires
                0 <= s,
                s < r,
                r * r <= n,
                n < (s + 1) * (s + 1),
        ;
    }
}

/// A component is never larger than the root of a square sum it enters.
pub proof fn lemma_component_le_isqrt(x: int, y: int)
    ensures
        iabs(x) <= isqrt_spec(x * x + y * y),
{
    let s = x * x + y * y;
    assert(x * x >= 0 && y * y >= 0 && iabs(x) * iabs(x) == x * x) by (nonlinear_arith);
    lemma_isqrt(s);
    let r = isqrt_spec(s);
    if iabs(x) > r {
        assert(false) by (nonlinear_arith)
            requires
                r >= 0,
                iabs(x) > r,
                iabs(x) * iabs(x) == x * x,
                y * y >= 0,
                x * x + y * y < (r + 1) * (r + 1),
        ;
    }
}

/// Magnitude and sign facts about truncating division.
pub proof fn lemma_stdiv_bounds(a: int, b: int)
    requires
        b >= 1,
    ensures
        iabs(stdiv(a, b)) <= iabs(a) / b,
        iabs(stdiv(a, b)) * b <= iabs(a),
        a >= 0 ==> stdiv(a, b) >= 0,
        a <= 0 ==> stdiv(a, b) <= 0,
        iabs(stdiv(a, b)) <= iabs(a),
{
    let m = iabs(a);
    lemma_div_pos_is_pos(m, b);
    lemma_fundamental_div_mod(m, b);
    lemma_div_nonincreasing(m, b);
    assert((m / b) * b <= m) by (nonlinear_arith)
        requires
            b >= 1,
            m == b * (m / b) + m % b,
            m % b >= 0,
    ;
    if a >= 0 {
        assert(stdiv(a, b) == m / b);
    } else {
        assert(stdiv(a, b) == -(m / b));
    }
}

/// Dividing a smaller magnitude gives a smaller magnitude.
pub proof fn lemma_stdiv_le(a: int, bound: int, b: int)
    requires
        b >= 1,
        iabs(a) <= bound,
    ensures
        iabs(stdiv(a, b)) <= bound / b,
        iabs(stdiv(a, b)) <= bound,
{
    lemma_stdiv_bounds(a, b);
    lemma_div_is_ordered(iabs(a), bound, b);
    lemma_div_nonincreasing(bound, b);
    lemma_div_pos_is_pos(iabs(a), b);
}

/// Truncating division, exactly [`stdiv`]. Both callers keep the divisor
/// positive and the dividend above `i128::MIN`.
pub(crate) fn div_trunc(a: i128, b: i128) -> (r: i128)
    requires
        b > 0,
        a > i128::MIN,
    ensures
        r == stdiv(a as int, b as int),
{
    if a >= 0 {
        let q: u128 = (a as u128) / (b as u128);
        proof {
            lemma_div_nonincreasing(a as int, b as int);
            lemma_div_pos_is_pos(a as int, b as int);
        }
        q as i128
    } else {
        let q: u128 = ((-a) as u128) / (b as u128);
        proof {
            lemma_div_nonincreasing(-a as int, b as int);
            lemma_div_pos_is_pos(-a as int, b as int);
        }
        -(q as i128)
    }
}

/// Integer square root by bisection, exactly [`isqrt_spec`].
fn isqrt_u(n: u128) -> (r: u128)
    requires
        n < 0x4000_0000_0000_0000_0000_0000_0000_0000,
    ensures
        r == isqrt_spec(n as int),
        r * r <= n,
        n < (r + 1) * (r + 1),
        r < 0x8000_0000_0000_0000,
{
    let mut lo: u128 = 0;
    let mut hi: u128 = 0x8000_0000_0000_0000;
    assert(hi * hi == 0x4000_0000_0000_0000_0000_0000_0000_0000) by (nonlinear_arith)
        requires
            hi == 0x8000_0000_0000_0000u128,
    ;
    while lo + 1 < hi
        invariant
            lo < hi,
            hi <= 0x8000_0000_0000_0000,
            lo * lo <= n,
            n < hi * hi,
        decreases hi - lo,
    {
        proof {
            vstd::arithmetic::div_mod::lemma_div_is_strictly_smaller((hi - lo) as int, 2);
            lemma_div_is_ordered(2, (hi - lo) as int, 2);
        }
        let mid = lo + (hi - lo) / 2;
        assert(lo < mid < hi);
        assert(mid * mid < 0x4000_0000_0000_0000_0000_0000_0000_0000) by (nonlinear_arith)
            requires
                mid < 0x8000_0000_0000_0000,
        ;
        if mid * mid <= n {
            lo = mid;
        } else {
            hi = mid;
        }
    }
    proof {
        lemma_isqrt_unique(n as int, lo as int);
    }
    lo
}

/// Squared Euclidean distance between two points.
pub open spec fn dist_sq(ax: int, ay: int, bx: int, by: int) -> int {
    (ax - bx) * (ax - bx) + (ay - by) * (ay - by)
}

/// Euclidean distance between two points, rounded down.
pub open spec fn dist_fp(ax: int, ay: int, bx: int, by: int) -> int {
    isqrt_spec(dist_sq(ax, ay, bx, by))
}

/// Magnitude of a vector, rounded down.
pub open spec fn norm_fp(x: int, y: int) -> int {
    isqrt_spec(x * x + y * y)
}

/// Fixed-point product: the stored values multiply to `SCALE` times the
/// real product, so one `SCALE` is divided back out.
pub open spec fn mul_fp(a: int, b: int) -> int {
    stdiv(a * b, SCALE as int)
}

/// Fixed-point quotient.
pub open spec fn div_fp(a: int, b: int) -> int {
    stdiv(a * (SCALE as int), b)
}

/// The unit vector of `(x, y)`, or `(x, y)` itself when its magnitude
/// is zero.
pub open spec fn normalise_fp(x: int, y: int) -> (int, int) {
    let nm = norm_fp(x, y);
    if nm > 0 {
        (div_fp(x, nm), div_fp(y, nm))
    } else {
        (x, y)
    }
}

/// `(x, y)` rescaled to magnitude `l` when its magnitude exceeds `l`,
/// and unchanged otherwise.
pub open spec fn limit_fp(x: int, y: int, l: int) -> (int, int) {
    let nm = norm_fp(x, y);
    if nm > 0 && nm > l {
        (stdiv(x * l, nm), stdiv(y * l, nm))
    } else {
        (x, y)
    }
}

/// Componentwise vector sum.
pub fn add(ax: i64, ay: i64, bx: i64, by: i64) -> (r: (i64, i64))
    requires
        i64::MIN <= ax + bx <= i64::MAX,
        i64::MIN <= ay + by <= i64::MAX,
    ensures
        r.0 == ax + bx,
        r.1 == ay + by,
{
    (ax + bx, ay + by)
}

/// Componentwise vector sum, accumulated in place.
pub fn add2_mut(a: &mut (i64, i64), b: &(i64, i64))
    requires
        i64::MIN <= old(a).0 + b.0 <= i64::MAX,
        i64::MIN <= old(a).1 + b.1 <= i64::MAX,
    ensures
        final(a).0 == old(a).0 + b.0,
        final(a).1 == old(a).1 + b.1,
{
    a.0 = a.0 + b.0;
    a.1 = a.1 + b.1;
}

/// Componentwise product with a fixed-point scalar.
pub fn mul_scalar(v: &(i64, i64), scalar: i64) -> (r: (i64, i64))
    requires
        iabs(scalar * v.0) <= i64::MAX * SCALE,
        iabs(scalar * v.1) <= i64::MAX * SCALE,
    ensures
        r.0 == mul_fp(scalar as int, v.0 as int),
        r.1 == mul_fp(scalar as int, v.1 as int),
{
    proof {
        assert(((scalar as int) * (v.0 as int) >= -0x4000_0000_0000_0000_0000_0000_0000_0000)
            && ((scalar as int) * (v.0 as int) <= 0x4000_0000_0000_0000_0000_0000_0000_0000)
            && ((scalar as int) * (v.1 as int) >= -0x4000_0000_0000_0000_0000_0000_0000_0000)
            && ((scalar as int) * (v.1 as int) <= 0x4000_0000_0000_0000_0000_0000_0000_0000))
            by (nonlinear_arith)
            requires
                -0x8000_0000_0000_0000 <= scalar as int,
                scalar as int <= 0x7fff_ffff_ffff_ffff,
                -0x8000_0000_0000_0000 <= v.0 as int,
                (v.0 as int) <= 0x7fff_ffff_ffff_ffff,
                -0x8000_0000_0000_0000 <= v.1 as int,
                (v.1 as int) <= 0x7fff_ffff_ffff_ffff,
        ;
        lemma_stdiv_le(scalar as int * v.0 as int, i64::MAX * SCALE, SCALE as int);
        lemma_stdiv_le(scalar as int * v.1 as int, i64::MAX * SCALE, SCALE as int);
        vstd::arithmetic::div_mod::lemma_div_multiples_vanish(i64::MAX as int, SCALE as int);
    }
    let rx = div_trunc((scalar as i128) * (v.0 as i128), SCALE as i128);
    let ry = div_trunc((scalar as i128) * (v.1 as i128), SCALE as i128);
    (rx as i64, ry as i64)
}

/// Euclidean distance between two points, exactly [`dist_fp`].
pub fn euclid_dist(ax: i64, ay: i64, bx: i64, by: i64) -> (r: i64)
    requires
        -LIN_LIMIT <= ax <= LIN_LIMIT,
        -LIN_LIMIT <= ay <= LIN_LIMIT,
        -LIN_LIMIT <= bx <= LIN_LIMIT,
        -LIN_LIMIT <= by <= LIN_LIMIT,
    ensures
        r == dist_fp(ax as int, ay as int, bx as int, by as int),
        r >= 0,
{
    let dx = (ax as i128) - (bx as i128);
    let dy = (ay as i128) - (by as i128);
    assert(0 <= dx * dx < 0x2000_0000_0000_0000_0000_0000_0000_0000 && 0 <= dy * dy
        < 0x2000_0000_0000_0000_0000_0000_0000_0000) by (nonlinear_arith)
        requires
            -0x4000_0000_0000_0000 <= dx <= 0x4000_0000_0000_0000,
            -0x4000_0000_0000_0000 <= dy <= 0x4000_0000_0000_0000,
    ;
    let s = (dx * dx + dy * dy) as u128;
    let r = isqrt_u(s);
    r as i64
}

/// Magnitude of a vector, exactly [`norm_fp`].
pub fn norm(x: i64, y: i64) -> (r: i64)
    requires
        -LIN_LIMIT <= x <= LIN_LIMIT,
        -LIN_LIMIT <= y <= LIN_LIMIT,
    ensures
        r == norm_fp(x as int, y as int),
        r >= 0,
{
    let xi = x as i128;
    let yi = y as i128;
    assert(0 <= xi * xi < 0x2000_0000_0000_0000_0000_0000_0000_0000 && 0 <= yi * yi
        < 0x2000_0000_0000_0000_0000_0000_0000_0000) by (nonlinear_arith)
        requires
            -0x4000_0000_0000_0000 <= xi <= 0x4000_0000_0000_0000,
            -0x4000_0000_0000_0000 <= yi <= 0x4000_0000_0000_0000,
    ;
    let s = (xi * xi + yi * yi) as u128;
    let r = isqrt_u(s);
    r as i64
}

/// The unit vector of `(x, y)`, exactly [`normalise_fp`]; a zero vector
/// passes through unchanged.
pub fn normalise(x: i64, y: i64) -> (r: (i64, i64))
    requires
        -LIN_LIMIT <= x <= LIN_LIMIT,
        -LIN_LIMIT <= y <= LIN_LIMIT,
    ensures
        r.0 == normalise_fp(x as int, y as int).0,
        r.1 == normalise_fp(x as int, y as int).1,
        norm_fp(x as int, y as int) > 0 ==> iabs(r.0 as int) <= SCALE && iabs(r.1 as int)
            <= SCALE,
{
    let nm = norm(x, y);
    if nm > 0 {
        proof {
            lemma_component_le_isqrt(x as int, y as int);
            lemma_component_le_isqrt(y as int, x as int);
            lemma_mul_inequality(iabs(x as int), nm as int, SCALE as int);
            lemma_mul_inequality(iabs(y as int), nm as int, SCALE as int);
            assert(iabs(x as int * 1000) == iabs(x as int) * 1000) by (nonlinear_arith);
            assert(iabs(y as int * 1000) == iabs(y as int) * 1000) by (nonlinear_arith);
            lemma_stdiv_le(x as int * 1000, nm as int * 1000, nm as int);
            lemma_stdiv_le(y as int * 1000, nm as int * 1000, nm as int);
            vstd::arithmetic::div_mod::lemma_div_multiples_vanish(1000, nm as int);
            assert(nm as int * 1000 == 1000 * nm as int) by (nonlinear_arith);
        }
        let rx = div_trunc((x as i128) * 1000, nm as i128);
        let ry = div_trunc((y as i128) * 1000, nm as i128);
        (rx as i64, ry as i64)
    } else {
        (x, y)
    }
}

/// `(x, y)` clamped to magnitude `limit`, exactly [`limit_fp`].
pub fn limit(x: i64, y: i64, lim: i64) -> (r: (i64, i64))
    requires
        -LIN_LIMIT <= x <= LIN_LIMIT,
        -LIN_LIMIT <= y <= LIN_LIMIT,
        -LIN_LIMIT <= lim <= LIN_LIMIT,
    ensures
        r.0 == limit_fp(x as int, y as int, lim as int).0,
        r.1 == limit_fp(x as int, y as int, lim as int).1,
{
    let nm = norm(x, y);
    if nm > 0 && nm > lim {
        proof {
            lemma_component_le_isqrt(x as int, y as int);
            lemma_component_le_isqrt(y as int, x as int);
            lemma_mul_inequality(iabs(x as int), nm as int, iabs(lim as int));
            lemma_mul_inequality(iabs(y as int), nm as int, iabs(lim as int));
            assert(iabs(x as int * lim as int) <= iabs(x as int) * iabs(lim as int))
                by (nonlinear_arith);
            assert(iabs(y as int * lim as int) <= iabs(y as int) * iabs(lim as int))
                by (nonlinear_arith);
            lemma_stdiv_le(x as int * lim as int, nm as int * iabs(lim as int), nm as int);
            lemma_stdiv_le(y as int * lim as int, nm as int * iabs(lim as int), nm as int);
            vstd::arithmetic::div_mod::lemma_div_multiples_vanish(iabs(lim as int), nm as int);
            assert(nm as int * iabs(lim as int) == iabs(lim as int) * nm as int)
                by (nonlinear_arith);
            assert(((x as int) * (lim as int) > -0x4000_0000_0000_0000_0000_0000_0000_0000)
                && ((x as int) * (lim as int) < 0x4000_0000_0000_0000_0000_0000_0000_0000)
                && ((y as int) * (lim as int) > -0x4000_0000_0000_0000_0000_0000_0000_0000)
                && ((y as int) * (lim as int) < 0x4000_0000_0000_0000_0000_0000_0000_0000))
                by (nonlinear_arith)
                requires
                    -0x2000_0000_0000_0000 <= x as int <= 0x2000_0000_0000_0000,
                    -0x2000_0000_0000_0000 <= y as int <= 0x2000_0000_0000_0000,
                    -0x2000_0000_0000_0000 <= lim as int <= 0x2000_0000_0000_0000,
            ;
        }
        let rx = div_trunc((x as i128) * (lim as i128), nm as i128);
        let ry = div_trunc((y as i128) * (lim as i128), nm as i128);
        (rx as i64, ry as i64)
    } else {
        (x, y)
    }
}

/// Quadratic approximation of atan on [0, 1]: `z*(pi/4 + 0.273*(1 - z))`,
/// in fixed point; exact at the endpoints 0 and `SCALE`.
pub open spec fn atan_unit(z: int) -> int {
    stdiv(z * (785 + stdiv(273 * (1000 - z), 1000)), 1000)
}

/// Fixed-point two-argument arctangent: octant reduction around
/// [`atan_unit`]; 0 at the origin.
pub open spec fn atan2_fp(y: int, x: int) -> int {
    if x == 0 && y == 0 {
        0
    } else {
        let ax = iabs(x);
        let ay = iabs(y);
        let base = if ax >= ay {
            atan_unit(stdiv(ay * 1000, ax))
        } else {
            1571 - atan_unit(stdiv(ax * 1000, ay))
        };
        let flip = if x < 0 {
            3142 - base
        } else {
            base
        };
        if y < 0 {
            -flip
        } else {
            flip
        }
    }
}

/// One-shot normalization of an angle difference into `(-pi, pi]`.
pub open spec fn wrap_angle(d: int) -> int {
    if d > 3142 {
        d - 6284
    } else if d <= -3142 {
        d + 6284
    } else {
        d
    }
}

/// Signed angle from direction `(bx, by)` to direction `(ax, ay)`,
/// normalized into `(-pi, pi]`.
pub open spec fn angle_fp(ax: int, ay: int, bx: int, by: int) -> int {
    wrap_angle(atan2_fp(ay, ax) - atan2_fp(by, bx))
}

/// [`atan_unit`] stays within the first octant.
pub proof fn lemma_atan_unit_range(z: int)
    requires
        0 <= z <= 1000,
    ensures
        0 <= atan_unit(z) <= 785,
{
    let t = stdiv(273 * (1000 - z), 1000);
    lemma_stdiv_bounds(273 * (1000 - z), 1000);
    assert(t >= 0 && t * 1000 <= 273 * (1000 - z));
    let v = z * (785 + t);
    lemma_mul_nonnegative(z, 785 + t);
    assert(v <= 785000) by (nonlinear_arith)
        requires
            0 <= z <= 1000,
            0 <= t,
            t * 1000 <= 273 * (1000 - z),
            v == z * (785 + t),
    ;
    lemma_stdiv_le(v, 785000, 1000);
    lemma_stdiv_bounds(v, 1000);
}

/// [`atan2_fp`] stays within `[-pi, pi]`.
pub proof fn lemma_atan2_range(y: int, x: int)
    ensures
        -3142 <= atan2_fp(y, x) <= 3142,
{
    if x == 0 && y == 0 {
    } else {
        let ax = iabs(x);
        let ay = iabs(y);
        if ax >= ay {
            let z = stdiv(ay * 1000, ax);
            lemma_stdiv_bounds(ay * 1000, ax);
            lemma_stdiv_le(ay * 1000, ax * 1000, ax);
            vstd::arithmetic::div_mod::lemma_div_multiples_vanish(1000, ax);
            assert(ax * 1000 == 1000 * ax);
            lemma_atan_unit_range(z);
        } else {
            let z = stdiv(ax * 1000, ay);
            lemma_stdiv_bounds(ax * 1000, ay);
            lemma_stdiv_le(ax * 1000, ay * 1000, ay);
            vstd::arithmetic::div_mod::lemma_div_multiples_vanish(1000, ay);
            assert(ay * 1000 == 1000 * ay);
            lemma_atan_unit_range(z);
        }
    }
}

/// The angle between two directions lies in `(-pi, pi]`.
pub proof fn lemma_angle_range(ax: int, ay: int, bx: int, by: int)
    ensures
        -3142 < angle_fp(ax, ay, bx, by) <= 3142,
{
    lemma_atan2_range(ay, ax);
    lemma_atan2_range(by, bx);
}

/// The angle between a nonzero direction and itself is zero. It is zero
/// for the zero direction as well, by convention.
pub proof fn lemma_angle_self(x: int, y: int)
    ensures
        angle_fp(x, y, x, y) == 0,
{
}

/// Swapping the two directions negates the angle, except on the cut at
/// exactly pi, where both orders answer pi (for real vectors a tie at pi
/// happens only for exactly opposite directions).
pub proof fn lemma_angle_antisym(ax: int, ay: int, bx: int, by: int)
    requires
        angle_fp(ax, ay, bx, by) != 3142,
    ensures
        angle_fp(bx, by, ax, ay) == -angle_fp(ax, ay, bx, by),
{
    lemma_atan2_range(ay, ax);
    lemma_atan2_range(by, bx);
}

/// Arctangent core, exactly [`atan_unit`].
fn atan_unit_i(z: i128) -> (r: i128)
    requires
        0 <= z <= 1000,
    ensures
        r == atan_unit(z as int),
        0 <= r <= 785,
{
    proof {
        lemma_atan_unit_range(z as int);
        lemma_stdiv_bounds(273 * (1000 - z as int), 1000);
        lemma_mul_nonnegative(z as int, 785 + stdiv(273 * (1000 - z as int), 1000));
        assert(z as int * (785 + stdiv(273 * (1000 - z as int), 1000)) <= 785000)
            by (nonlinear_arith)
            requires
                0 <= z as int <= 1000,
                0 <= stdiv(273 * (1000 - z as int), 1000) <= 273,
        ;
    }
    let t = div_trunc(273 * (1000 - z), 1000);
    div_trunc(z * (785 + t), 1000)
}

/// Two-argument arctangent, exactly [`atan2_fp`].
fn atan2_i(y: i64, x: i64) -> (r: i64)
    ensures
        r == atan2_fp(y as int, x as int),
        -3142 <= r <= 3142,
{
    proof {
        lemma_atan2_range(y as int, x as int);
    }
    let xi = x as i128;
    let yi = y as i128;
    if xi == 0 && yi == 0 {
        return 0;
    }
    let ax: i128 = if xi >= 0 { xi } else { -xi };
    let ay: i128 = if yi >= 0 { yi } else { -yi };
    let base: i128 = if ax >= ay {
        proof {
            lemma_stdiv_bounds(ay as int * 1000, ax as int);
            lemma_stdiv_le(ay as int * 1000, ax as int * 1000, ax as int);
            vstd::arithmetic::div_mod::lemma_div_multiples_vanish(1000, ax as int);
            assert(ax as int * 1000 == 1000 * ax as int);
        }
        let z = div_trunc(ay * 1000, ax);
        atan_unit_i(z)
    } else {
        proof {
            lemma_stdiv_bounds(ax as int * 1000, ay as int);
            lemma_stdiv_le(ax as int * 1000, ay as int * 1000, ay as int);
            vstd::arithmetic::div_mod::lemma_div_multiples_vanish(1000, ay as int);
            assert(ay as int * 1000 == 1000 * ay as int);
        }
        let z = div_trunc(ax * 1000, ay);
        let a = atan_unit_i(z);
        1571 - a
    };
    let flip: i128 = if xi < 0 { 3142 - base } else { base };
    let r: i128 = if yi < 0 { -flip } else { flip };
    r as i64
}

/// Signed angle from direction `(bx, by)` to direction `(ax, ay)`, in
/// fixed-point radians, exactly [`angle_fp`]; always in `(-pi, pi]`.
pub fn angle_between(ax: i64, ay: i64, bx: i64, by: i64) -> (r: i64)
    ensures
        r == angle_fp(ax as int, ay as int, bx as int, by as int),
        -PI_FP < r <= PI_FP,
{
    let t1 = atan2_i(ay, ax);
    let t2 = atan2_i(by, bx);
    let mut angle = t1 - t2;
    if angle > PI_FP {
        angle = angle - 2 * PI_FP;
    } else if angle <= -PI_FP {
        angle = angle + 2 * PI_FP;
    }
    angle
}

/// A number below `(f+1)^2` has square root at most `f`.
pub proof fn lemma_isqrt_below(n: int, f: int)
    requires
        f >= 0,
        n < (f + 1) * (f + 1),
    ensures
        isqrt_spec(n) <= f,
{
    if n >= 0 {
        lemma_isqrt(n);
        let r = isqrt_spec(n);
        if r > f {
            assert(false) by (nonlinear_arith)
                requires
                    0 <= f,
                    f < r,
                    r * r <= n,
                    n < (f + 1) * (f + 1),
            ;
        }
    }
}

/// A number at least `f^2` has square root at least `f`.
pub proof fn lemma_isqrt_above(n: int, f: int)
    requires
        f >= 0,
        n >= f * f,
    ensures
        isqrt_spec(n) >= f,
{
    lemma_isqrt(n);
    let r = isqrt_spec(n);
    if r < f {
        assert(false) by (nonlinear_arith)
            requires
                0 <= r,
                r < f,
                f * f <= n,
                n < (r + 1) * (r + 1),
        ;
    }
}

/// A vector of magnitude zero is the zero vector.
pub proof fn lemma_norm_zero_iff(x: int, y: int)
    ensures
        norm_fp(x, y) == 0 <==> (x == 0 && y == 0),
{
    assert(x * x >= 0 && y * y >= 0) by (nonlinear_arith);
    let s = x * x + y * y;
    lemma_isqrt(s);
    if norm_fp(x, y) == 0 {
        assert(x == 0 && y == 0) by (nonlinear_arith)
            requires
                s < (isqrt_spec(s) + 1) * (isqrt_spec(s) + 1),
                isqrt_spec(s) == 0,
                s == x * x + y * y,
        ;
    }
}

/// The square of the absolute value is the square.
pub proof fn lemma_iabs_sq(a: int)
    ensures
        iabs(a) >= 0,
        iabs(a) * iabs(a) == a * a,
{
    if a < 0 {
        assert((-a) * (-a) == a * a) by (nonlinear_arith);
    }
}

/// A nonnegative factor distributes over the absolute value.
pub proof fn lemma_iabs_mul(a: int, f: int)
    requires
        f >= 0,
    ensures
        iabs(a * f) == iabs(a) * f,
{
    if a >= 0 {
        assert(a * f >= 0 && a * f == iabs(a) * f) by (nonlinear_arith)
            requires
                a >= 0,
                f >= 0,
                iabs(a) == a,
        ;
    } else {
        assert(a * f <= 0 && -(a * f) == iabs(a) * f) by (nonlinear_arith)
            requires
                a < 0,
                f >= 0,
                iabs(a) == -a,
        ;
    }
}

/// Rescaling `(x, y)` toward magnitude `f` by the truncated quotient
/// `f / norm` lands within 3 thousandths below `f` and never above it.
pub proof fn lemma_rescale_norm(x: int, y: int, f: int)
    requires
        0 <= f <= norm_fp(x, y),
        norm_fp(x, y) >= 1,
    ensures
        norm_fp(stdiv(x * f, norm_fp(x, y)), stdiv(y * f, norm_fp(x, y))) <= f,
        f >= 6 ==> norm_fp(stdiv(x * f, norm_fp(x, y)), stdiv(y * f, norm_fp(x, y))) >= f - 3,
        iabs(stdiv(x * f, norm_fp(x, y))) <= f,
        iabs(stdiv(y * f, norm_fp(x, y))) <= f,
        stdiv(x * f, norm_fp(x, y)) * x >= 0,
        stdiv(y * f, norm_fp(x, y)) * y >= 0,
{
    let s = x * x + y * y;
    assert(x * x >= 0 && y * y >= 0) by (nonlinear_arith);
    lemma_isqrt(s);
    let nm = isqrt_spec(s);
    lemma_component_le_isqrt(x, y);
    lemma_component_le_isqrt(y, x);
    assert(y * y + x * x == s);
    let cx = stdiv(x * f, nm);
    let cy = stdiv(y * f, nm);
    lemma_stdiv_bounds(x * f, nm);
    lemma_stdiv_bounds(y * f, nm);
    lemma_iabs_sq(x);
    lemma_iabs_sq(y);
    lemma_iabs_sq(cx);
    lemma_iabs_sq(cy);
    lemma_iabs_mul(x, f);
    lemma_iabs_mul(y, f);
    assert(s <= nm * nm + 2 * nm) by (nonlinear_arith)
        requires
            s < (nm + 1) * (nm + 1),
    ;
    assert(s >= nm * nm);
    // component bounds: |c| * nm <= |x| * f <= nm * f, so |c| <= f
    assert(iabs(cx) <= f && iabs(cy) <= f) by (nonlinear_arith)
        requires
            nm >= 1,
            0 <= f,
            iabs(cx) * nm <= iabs(x) * f,
            iabs(cy) * nm <= iabs(y) * f,
            iabs(x) <= nm,
            iabs(y) <= nm,
            iabs(cx) >= 0,
            iabs(cy) >= 0,
    ;
    // signs
    assert(x < 0 ==> x * f <= 0) by (nonlinear_arith)
        requires
            f >= 0,
    ;
    assert(y < 0 ==> y * f <= 0) by (nonlinear_arith)
        requires
            f >= 0,
    ;
    assert(nm * nm >= 1) by (nonlinear_arith)
        requires
            nm >= 1,
    ;
    assert(cx * x >= 0 && cy * y >= 0) by (nonlinear_arith)
        requires
            f >= 0,
            x >= 0 ==> cx >= 0,
            x < 0 ==> x * f <= 0 && cx <= 0,
            y >= 0 ==> cy >= 0,
            y < 0 ==> y * f <= 0 && cy <= 0,
    ;
    // upper bound on the squared magnitude of the result
    assert(cx * cx * (nm * nm) <= (x * x) * (f * f)) by (nonlinear_arith)
        requires
            nm >= 1,
            f >= 0,
            iabs(cx) * nm <= iabs(x) * f,
            iabs(cx) * iabs(cx) == cx * cx,
            iabs(x) * iabs(x) == x * x,
            iabs(cx) >= 0,
            iabs(x) >= 0,
    ;
    assert(cy * cy * (nm * nm) <= (y * y) * (f * f)) by (nonlinear_arith)
        requires
            nm >= 1,
            f >= 0,
            iabs(cy) * nm <= iabs(y) * f,
            iabs(cy) * iabs(cy) == cy * cy,
            iabs(y) * iabs(y) == y * y,
            iabs(cy) >= 0,
            iabs(y) >= 0,
    ;
    assert((cx * cx + cy * cy) * (nm * nm) <= s * (f * f)) by (nonlinear_arith)
        requires
            cx * cx * (nm * nm) <= (x * x) * (f * f),
            cy * cy * (nm * nm) <= (y * y) * (f * f),
            s == x * x + y * y,
    ;
    assert(s * (f * f) <= (f * f + 2 * f) * (nm * nm)) by (nonlinear_arith)
        requires
            0 <= f <= nm,
            s <= nm * nm + 2 * nm,
            f * f >= 0,
    ;
    assert(cx * cx + cy * cy <= f * f + 2 * f) by (nonlinear_arith)
        requires
            nm >= 1,
            (cx * cx + cy * cy) * (nm * nm) <= (f * f + 2 * f) * (nm * nm),
    ;
    assert(f * f + 2 * f < (f + 1) * (f + 1)) by (nonlinear_arith);
    lemma_isqrt_below(cx * cx + cy * cy, f);
    // lower bound: nm * (|c| + 1) > |x| * f for each component
    lemma_fundamental_div_mod(iabs(x) * f, nm);
    lemma_fundamental_div_mod(iabs(y) * f, nm);
    lemma_div_pos_is_pos(iabs(x) * f, nm);
    lemma_div_pos_is_pos(iabs(y) * f, nm);
    lemma_mul_nonnegative(iabs(x), f);
    lemma_mul_nonnegative(iabs(y), f);
    assert(iabs(cx) == iabs(x) * f / nm);
    assert(iabs(cy) == iabs(y) * f / nm);
    vstd::arithmetic::div_mod::lemma_mod_bound(iabs(x) * f, nm);
    vstd::arithmetic::div_mod::lemma_mod_bound(iabs(y) * f, nm);
    assert(nm * (iabs(cx) + 1) >= iabs(x) * f && nm * (iabs(cy) + 1) >= iabs(y) * f)
        by (nonlinear_arith)
        requires
            nm >= 1,
            iabs(x) * f == nm * (iabs(x) * f / nm) + (iabs(x) * f) % nm,
            iabs(y) * f == nm * (iabs(y) * f / nm) + (iabs(y) * f) % nm,
            (iabs(x) * f) % nm < nm,
            (iabs(y) * f) % nm < nm,
            iabs(cx) == iabs(x) * f / nm,
            iabs(cy) == iabs(y) * f / nm,
    ;
    if f >= 6 {
        assert((iabs(cx) + 1) * (iabs(cx) + 1) * (nm * nm) >= (x * x) * (f * f)
            && (iabs(cy) + 1) * (iabs(cy) + 1) * (nm * nm) >= (y * y) * (f * f))
            by (nonlinear_arith)
            requires
                nm >= 1,
                f >= 0,
                nm * (iabs(cx) + 1) >= iabs(x) * f,
                nm * (iabs(cy) + 1) >= iabs(y) * f,
                iabs(cx) >= 0,
                iabs(cy) >= 0,
                iabs(x) >= 0,
                iabs(y) >= 0,
                iabs(x) * iabs(x) == x * x,
                iabs(y) * iabs(y) == y * y,
        ;
        assert((iabs(cx) + 1) * (iabs(cx) + 1) + (iabs(cy) + 1) * (iabs(cy) + 1) >= f * f)
            by (nonlinear_arith)
            requires
                nm >= 1,
                (iabs(cx) + 1) * (iabs(cx) + 1) * (nm * nm) >= (x * x) * (f * f),
                (iabs(cy) + 1) * (iabs(cy) + 1) * (nm * nm) >= (y * y) * (f * f),
                x * x + y * y >= nm * nm,
                f * f >= 0,
                nm * nm >= 1,
        ;
        assert(cx * cx + cy * cy >= (f - 3) * (f - 3)) by (nonlinear_arith)
            requires
                f >= 6,
                (iabs(cx) + 1) * (iabs(cx) + 1) + (iabs(cy) + 1) * (iabs(cy) + 1) >= f * f,
                iabs(cx) <= f,
                iabs(cy) <= f,
                iabs(cx) * iabs(cx) == cx * cx,
                iabs(cy) * iabs(cy) == cy * cy,
        ;
        lemma_isqrt_above(cx * cx + cy * cy, f - 3);
    }
}

/// A vector already within the bound passes through `limit` unchanged.
pub proof fn lemma_limit_id(x: int, y: int, l: int)
    requires
        norm_fp(x, y) <= l,
    ensures
        limit_fp(x, y, l).0 == x,
        limit_fp(x, y, l).1 == y,
{
}

/// The result of `limit` never exceeds magnitude `l`, and when clamping
/// engages it lands within 3 thousandths of `l`, with both components
/// keeping their signs.
pub proof fn lemma_limit_norm(x: int, y: int, l: int)
    requires
        l >= 0,
    ensures
        norm_fp(limit_fp(x, y, l).0, limit_fp(x, y, l).1) <= l,
        iabs(limit_fp(x, y, l).0) <= l,
        iabs(limit_fp(x, y, l).1) <= l,
        (norm_fp(x, y) > l && l >= 6) ==> norm_fp(limit_fp(x, y, l).0, limit_fp(x, y, l).1)
            >= l - 3,
        limit_fp(x, y, l).0 * x >= 0,
        limit_fp(x, y, l).1 * y >= 0,
{
    let nm = norm_fp(x, y);
    assert(x * x >= 0 && y * y >= 0) by (nonlinear_arith);
    lemma_isqrt(x * x + y * y);
    if nm > 0 && nm > l {
        lemma_rescale_norm(x, y, l);
    } else {
        lemma_component_le_isqrt(x, y);
        lemma_component_le_isqrt(y, x);
        assert(y * y + x * x == x * x + y * y);
        assert(x * x >= 0 && y * y >= 0) by (nonlinear_arith);
        assert(x * x >= 0 ==> x * x + y * y >= y * y);
        assert(limit_fp(x, y, l).0 == x && limit_fp(x, y, l).1 == y);
        assert(x * x >= 0) by (nonlinear_arith);
    }
}

/// Normalising the zero vector gives the zero vector back.
pub proof fn lemma_normalise_zero()
    ensures
        normalise_fp(0, 0).0 == 0,
        normalise_fp(0, 0).1 == 0,
{
    assert(norm_fp(0, 0) == 0);
}

/// Normalising a vector of at least unit length gives a vector of
/// magnitude `SCALE`, up to 3 thousandths below.
pub proof fn lemma_normalise_unit(x: int, y: int)
    requires
        norm_fp(x, y) >= SCALE,
    ensures
        SCALE - 3 <= norm_fp(normalise_fp(x, y).0, normalise_fp(x, y).1) <= SCALE,
        iabs(normalise_fp(x, y).0) <= SCALE,
        iabs(normalise_fp(x, y).1) <= SCALE,
{
    lemma_rescale_norm(x, y, 1000);
}

/// Distance is symmetric.
pub proof fn lemma_dist_symm(ax: int, ay: int, bx: int, by: int)
    ensures
        dist_fp(ax, ay, bx, by) == dist_fp(bx, by, ax, ay),
{
    assert(dist_sq(ax, ay, bx, by) == dist_sq(bx, by, ax, ay)) by (nonlinear_arith);
}

/// The distance from a point to itself is zero, and only coinciding
/// points are at distance zero.
pub proof fn lemma_dist_zero(ax: int, ay: int, bx: int, by: int)
    ensures
        dist_fp(ax, ay, bx, by) == 0 <==> (ax == bx && ay == by),
{
    lemma_norm_zero_iff(ax - bx, ay - by);
}

} // verus!
