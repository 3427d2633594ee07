//! Fixed-point trigonometry on circle angles.
//!
//! Results are linear fixed-point values scaled by `SCALE`.  Sine and cosine
//! use Bhaskara's rational approximation; the arc functions use an octant
//! reduction with a quadratic correction term.  Every function returns
//! exactly the value of its spec-level formula, so callers reason about the
//! approximations as ordinary integer arithmetic.

use vstd::prelude::*;
use vstd::arithmetic::div_mod::lemma_multiply_divide_le;
use vstd::arithmetic::div_mod::lemma_div_multiples_vanish;
use crate::angle;
use crate::angle::TURN;
use crate::angle::HALF_TURN;
use crate::angle::QUARTER_TURN;
use crate::angle::EIGHTH_TURN;

verus! {

/// Unit of the linear fixed-point scale: this many raw units make 1.0.
pub const SCALE: i64 = 65536;

/// Quadratic correction weight of the arctangent approximation, in angle
/// units (0.273 radians expressed on the circle scale).
pub const ATAN_ADJUST: u64 = 186613320;

/// Largest coordinate magnitude the arc functions accept.
pub const ATAN_RANGE: i64 = 1099511627776;

/// The integer square root: the unique `r >= 0` with `r * r <= n` and
/// `(r + 1) * (r + 1) > n`.
pub open spec fn isqrt_spec(n: int) -> int {
    choose|r: int| 0 <= r && #[trigger] (r * r) <= n < (r + 1) * (r + 1)
}

/// Any two integer square roots of the same value agree, so `isqrt_spec`
/// names the one computed root.
pub proof fn lemma_isqrt_unique(n: int, r: int)
    requires
        0 <= r,
        r * r <= n,
        n < (r + 1) * (r + 1),
    ensures
        isqrt_spec(n) == r,
{
    assert(r * r <= n < (r + 1) * (r + 1));
    let w = isqrt_spec(n);
    assert(0 <= w && w * w <= n < (w + 1) * (w + 1));
    assert(w == r) by (nonlinear_arith)
        requires
            0 <= r,
            r * r <= n,
            n < (r + 1) * (r + 1),
            0 <= w,
            w * w <= n,
            n < (w + 1) * (w + 1),
    ;
}

/// Every nonnegative integer has an integer square root, so `isqrt_spec`
/// carries its defining bounds everywhere, not only where a root was
/// computed.
pub proof fn lemma_isqrt_root_exists(t: int)
    requires
        0 <= t,
    ensures
        0 <= isqrt_spec(t),
        isqrt_spec(t) * isqrt_spec(t) <= t,
        t < (isqrt_spec(t) + 1) * (isqrt_spec(t) + 1),
    decreases t,
{
    if t == 0 {
        lemma_isqrt_unique(0, 0);
    } else {
        lemma_isqrt_root_exists(t - 1);
        let r = isqrt_spec(t - 1);
        if t < (r + 1) * (r + 1) {
            lemma_isqrt_unique(t, r);
        } else {
            assert(t == (r + 1) * (r + 1));
            assert((r + 1) * (r + 1) < (r + 2) * (r + 2)) by (nonlinear_arith)
                requires
                    0 <= r,
            ;
            lemma_isqrt_unique(t, r + 1);
        }
    }
}

/// Floor of the square root, by bisection.
pub fn isqrt(n: u128) -> (r: u128)
    ensures
        r * r <= n,
        n < (r + 1) * (r + 1),
        r == isqrt_spec(n as int),
{
    let mut lo: u128 = 0;
    let mut hi: u128 = 18446744073709551616;
    proof {
        assert((18446744073709551616int) * (18446744073709551616int)
            == 0x100000000000000000000000000000000int) by (nonlinear_arith);
    }
    while lo + 1 < hi
        invariant
            lo < hi <= 18446744073709551616,
            lo * lo <= n,
            n < hi * hi,
        decreases hi - lo,
    {
        let mid: u128 = lo + (hi - lo) / 2;
        proof {
            assert(mid * mid < 0x100000000000000000000000000000000int) by (nonlinear_arith)
                requires
                    0 <= mid < 18446744073709551616int,
            ;
        }
        if mid * mid <= n {
            lo = mid;
        } else {
            hi = mid;
        }
    }
    proof {
        lemma_isqrt_unique(n as int, lo as int);
    }
    lo
}

/// Floor of the square root of a 64-bit value.
pub fn isqrt64(n: u64) -> (r: u64)
    ensures
        r * r <= n,
        n < (r + 1) * (r + 1),
        r == isqrt_spec(n as int),
        r <= 4294967296,
{
    let w = isqrt(n as u128);
    proof {
        assert(w <= 4294967296) by (nonlinear_arith)
            requires
                w * w <= n < 18446744073709551616,
                0 <= w,
        ;
    }
    w as u64
}

/// Bhaskara's sine approximation on the upper half circle, `x` in
/// `[0, HALF_TURN]` (0..pi), scaled by `SCALE`.
pub open spec fn sin_half_spec(x: int) -> int {
    let h = HALF_TURN as int;
    let p = x * (h - x);
    16 * p * SCALE / (5 * h * h - 4 * p)
}

/// Sine on the upper half circle.
fn sin_half(x: u64) -> (r: i64)
    requires
        x <= HALF_TURN,
    ensures
        r == sin_half_spec(x as int),
        0 <= r <= SCALE,
{
    let xe: u128 = x as u128;
    let h: u128 = HALF_TURN as u128;
    proof {
        assert(4 * (xe * (h - xe)) <= h * h) by (nonlinear_arith)
            requires
                0 <= xe <= h,
        ;
    }
    let p: u128 = xe * (h - xe);
    proof {
        assert(h * h == 4611686018427387904int) by (nonlinear_arith)
            requires
                h == 2147483648int,
        ;
        assert(p <= 1152921504606846976int);
        assert(16 * p * (SCALE as int) <= 0x100000000000000000000int) by (nonlinear_arith)
            requires
                0 <= p <= 1152921504606846976int,
                SCALE as int == 65536,
        ;
    }
    let num: u128 = 16 * p * (SCALE as u128);
    let den: u128 = 5 * h * h - 4 * p;
    let q: u128 = num / den;
    proof {
        assert(num <= (den as int) * (SCALE as int)) by (nonlinear_arith)
            requires
                num == 16 * p * (SCALE as int),
                den == 5 * (h * h) - 4 * p,
                0 <= p,
                4 * p <= h * h,
                SCALE as int == 65536,
        ;
        lemma_multiply_divide_le(num as int, den as int, SCALE as int);
    }
    q as i64
}

/// Sine of an angle, scaled by `SCALE`.
pub open spec fn sin_fp_spec(a: int) -> int {
    if a <= HALF_TURN {
        sin_half_spec(a)
    } else {
        -sin_half_spec(a - HALF_TURN)
    }
}

/// Cosine of an angle, scaled by `SCALE`: the sine a quarter turn ahead.
pub open spec fn cos_fp_spec(a: int) -> int {
    sin_fp_spec(angle::add_mod_spec(a, QUARTER_TURN as int))
}

/// Sine of an angle.
pub fn sin_fp(a: u64) -> (r: i64)
    requires
        angle::wf_angle(a as int),
    ensures
        r == sin_fp_spec(a as int),
        -SCALE <= r <= SCALE,
{
    if a <= HALF_TURN {
        sin_half(a)
    } else {
        -sin_half(a - HALF_TURN)
    }
}

/// Cosine of an angle.
pub fn cos_fp(a: u64) -> (r: i64)
    requires
        angle::wf_angle(a as int),
    ensures
        r == cos_fp_spec(a as int),
        -SCALE <= r <= SCALE,
{
    sin_fp(angle::add_mod(a, QUARTER_TURN))
}

/// Arctangent of `num / den` for `0 <= num <= den`, in angle units: a linear
/// term plus a quadratic correction, exact at the octant boundaries.
pub open spec fn atan_frac_spec(num: int, den: int) -> int {
    let q = num * SCALE / den;
    q * (EIGHTH_TURN as int) / (SCALE as int) + (ATAN_ADJUST as int) * q * (SCALE - q) / (
    (SCALE as int) * (SCALE as int))
}

/// First-octant arctangent.
fn atan_frac(num: u64, den: u64) -> (r: u64)
    requires
        0 < den <= ATAN_RANGE,
        num <= den,
    ensures
        r == atan_frac_spec(num as int, den as int),
        r <= EIGHTH_TURN + ATAN_ADJUST,
{
    let wide: u128 = num as u128 * 65536;
    proof {
        assert(wide <= (den as int) * (SCALE as int)) by (nonlinear_arith)
            requires
                wide == num * (SCALE as int),
                0 <= num <= den,
                SCALE as int == 65536,
        ;
        lemma_multiply_divide_le(wide as int, den as int, SCALE as int);
    }
    let q: u64 = (wide / den as u128) as u64;
    // EIGHTH_TURN is exactly 8192 * SCALE, so the linear term divides out.
    let lin: u64 = q * 8192;
    proof {
        lemma_div_multiples_vanish((q as int) * 8192, SCALE as int);
        assert((q as int) * (EIGHTH_TURN as int) == (SCALE as int) * ((q as int) * 8192));
        assert((q as int) * (EIGHTH_TURN as int) / (SCALE as int) == (q as int) * 8192);
    }
    proof {
        assert((ATAN_ADJUST as int) * q * ((SCALE as int) - q) <= 801498106397982720int)
            by (nonlinear_arith)
            requires
                0 <= q <= SCALE as int,
                SCALE as int == 65536,
                ATAN_ADJUST as int == 186613320,
        ;
    }
    let cor_num: u64 = ATAN_ADJUST * q * (SCALE as u64 - q);
    let cor: u64 = cor_num / (SCALE as u64 * SCALE as u64);
    proof {
        assert((SCALE as int) * (SCALE as int) == 4294967296int) by (nonlinear_arith)
            requires
                SCALE as int == 65536,
        ;
        assert(cor_num <= ((SCALE as int) * (SCALE as int)) * (ATAN_ADJUST as int))
            by (nonlinear_arith)
            requires
                cor_num == (ATAN_ADJUST as int) * q * ((SCALE as int) - q),
                0 <= q <= SCALE as int,
        ;
        lemma_multiply_divide_le(
            cor_num as int,
            (SCALE as int) * (SCALE as int),
            ATAN_ADJUST as int,
        );
    }
    lin + cor
}

/// Direction angle of the vector `(x, y)`, in `[0, TURN)`, by quadrant
/// reduction to the first-octant arctangent.  The zero vector maps to angle
/// zero.
pub open spec fn atan2_spec(y: int, x: int) -> int {
    if x == 0 && y == 0 {
        0
    } else {
        let ax = if x < 0 { -x } else { x };
        let ay = if y < 0 { -y } else { y };
        let base = if ay <= ax {
            atan_frac_spec(ay, ax)
        } else {
            QUARTER_TURN - atan_frac_spec(ax, ay)
        };
        if y >= 0 {
            if x >= 0 {
                base
            } else {
                HALF_TURN - base
            }
        } else {
            if x < 0 {
                HALF_TURN + base
            } else {
                angle::sub_mod_spec(0, base)
            }
        }
    }
}

/// Direction angle of the vector `(x, y)`.
pub fn atan2_fp(y: i64, x: i64) -> (r: u64)
    requires
        -ATAN_RANGE <= y <= ATAN_RANGE,
        -ATAN_RANGE <= x <= ATAN_RANGE,
    ensures
        r == atan2_spec(y as int, x as int),
        angle::wf_angle(r as int),
{
    if x == 0 && y == 0 {
        return 0;
    }
    let ax: u64 = if x < 0 {
        (-x) as u64
    } else {
        x as u64
    };
    let ay: u64 = if y < 0 {
        (-y) as u64
    } else {
        y as u64
    };
    let base: u64 = if ay <= ax {
        atan_frac(ay, ax)
    } else {
        QUARTER_TURN - atan_frac(ax, ay)
    };
    if y >= 0 {
        if x >= 0 {
            base
        } else {
            HALF_TURN - base
        }
    } else {
        if x < 0 {
            HALF_TURN + base
        } else {
            angle::sub_mod(0, base)
        }
    }
}

/// Arcsine of `num / den` for `0 <= num <= den`, in angle units, through the
/// arctangent of the opposite and adjacent sides.
pub open spec fn asin_frac_spec(num: int, den: int) -> int {
    let c = isqrt_spec(den * den - num * num);
    if c == 0 {
        QUARTER_TURN as int
    } else if num <= c {
        atan_frac_spec(num, c)
    } else {
        QUARTER_TURN - atan_frac_spec(c, num)
    }
}

/// Arcsine of `num / den`.
pub fn asin_frac(num: u64, den: u64) -> (r: u64)
    requires
        0 < den <= 4294967296,
        num <= den,
    ensures
        r == asin_frac_spec(num as int, den as int),
        r <= QUARTER_TURN,
{
    proof {
        assert(num * num <= den * den) by (nonlinear_arith)
            requires
                0 <= num <= den,
        ;
    }
    proof {
        assert(den * den <= 0x10000000000000000int) by (nonlinear_arith)
            requires
                0 <= den <= 4294967296int,
        ;
    }
    let wide: u128 = den as u128 * den as u128 - num as u128 * num as u128;
    let c128 = isqrt(wide);
    proof {
        assert(c128 <= den) by (nonlinear_arith)
            requires
                0 <= c128,
                0 <= den,
                c128 * c128 <= den * den - num * num,
                0 <= num * num,
        ;
    }
    let c: u64 = c128 as u64;
    proof {
        assert((EIGHTH_TURN + ATAN_ADJUST) < QUARTER_TURN);
    }
    if c == 0 {
        QUARTER_TURN
    } else if num <= c {
        atan_frac(num, c)
    } else {
        QUARTER_TURN - atan_frac(c, num)
    }
}

} // verus!
