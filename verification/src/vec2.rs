//! 2-D vectors with fixed-point components scaled by `trig::SCALE`.

use vstd::prelude::*;
use vstd::arithmetic::div_mod::lemma_fundamental_div_mod;
use vstd::arithmetic::div_mod::lemma_mod_division_less_than_divisor;
use crate::trig;
use crate::trig::SCALE;

verus! {

/// Largest component magnitude accepted by the length and normalization
/// operations (so squares and sums stay within machine range).
pub const COORD_LIMIT: i64 = 1152921504606846976;

/// A 2-D vector; components are fixed-point with `SCALE` units to 1.0.
#[derive(Clone, Copy, PartialEq, Eq, Structural, Debug)]
pub struct Vec2 {
    /// Horizontal component.
    pub x: i64,
    /// Vertical component.
    pub y: i64,
}

/// Euclidean length, rounded down to the fixed-point grid.
pub open spec fn len_spec(v: Vec2) -> int {
    trig::isqrt_spec(v.x * v.x + v.y * v.y)
}

/// The numerator scale of normalization for a vector of squared length `n`:
/// short vectors are scaled by `SCALE * SCALE` so the rounded square root
/// keeps sub-unit precision.
pub open spec fn norm_scale_spec(n: int) -> int {
    if n < SCALE * SCALE {
        SCALE * SCALE
    } else {
        SCALE as int
    }
}

/// The normalization divisor for a vector of squared length `n`: the rounded
/// square root of `n`, computed at the matching scale.
pub open spec fn norm_divisor_spec(n: int) -> int {
    if n < SCALE * SCALE {
        trig::isqrt_spec(SCALE * SCALE * n)
    } else {
        trig::isqrt_spec(n)
    }
}

/// One component of the vector of squared length `n` scaled to unit length,
/// rounding toward zero.
pub open spec fn norm_component_spec(c: int, n: int) -> int {
    let a = if c < 0 {
        -c
    } else {
        c
    };
    let q = a * norm_scale_spec(n) / norm_divisor_spec(n);
    if c < 0 {
        -q
    } else {
        q
    }
}

/// `v` scaled to unit length (length `SCALE`, within three units), rounding
/// toward zero; the zero vector stays the zero vector.
pub open spec fn normalized_spec(v: Vec2) -> Vec2 {
    let n = v.x * v.x + v.y * v.y;
    if n == 0 {
        Vec2 { x: 0, y: 0 }
    } else {
        Vec2 {
            x: norm_component_spec(v.x as int, n) as i64,
            y: norm_component_spec(v.y as int, n) as i64,
        }
    }
}

/// If the square of `aa` is at most `n`, the rounded root of `s*s*n` bounds
/// `s*aa` from above.
proof fn lemma_scaled_component_fits(aa: int, n: int, d: int, s: int)
    requires
        0 <= aa,
        0 <= s,
        0 <= d,
        aa * aa <= n,
        s * s * n < (d + 1) * (d + 1),
    ensures
        s * aa <= d,
{
    assert((s * aa) * (s * aa) <= s * s * n) by (nonlinear_arith)
        requires
            aa * aa <= n,
            0 <= s,
            0 <= aa,
    ;
    assert(s * aa <= d) by (nonlinear_arith)
        requires
            (s * aa) * (s * aa) < (d + 1) * (d + 1),
            0 <= s * aa,
            0 <= d,
    ;
}

/// Dividing the scaled components by the rounded scaled length yields a
/// vector whose squared length sits within a few units of `SCALE` squared:
/// the divisor `d` is the rounded square root of `(m/SCALE)^2 * n`, so each
/// quotient errs by less than one unit against the exact unit vector.
proof fn lemma_norm_length_bounds(a: int, b: int, m: int, d: int, qx: int, qy: int)
    requires
        0 <= a,
        0 <= b,
        0 < a * a + b * b,
        0 < d,
        0 < m,
        SCALE * SCALE * (d * d) <= m * m * (a * a + b * b),
        m * m * (a * a + b * b) < SCALE * SCALE * ((d + 1) * (d + 1)),
        SCALE <= d,
        a * m <= d * SCALE,
        b * m <= d * SCALE,
        qx == a * m / d,
        qy == b * m / d,
    ensures
        0 <= qx <= SCALE,
        0 <= qy <= SCALE,
        qx * qx + qy * qy < (SCALE + 1) * (SCALE + 1),
        qx * qx + qy * qy > SCALE * SCALE - 4 * SCALE - 2,
{
    let s = SCALE as int;
    lemma_fundamental_div_mod(a * m, d);
    lemma_mod_division_less_than_divisor(a * m, d);
    lemma_fundamental_div_mod(b * m, d);
    lemma_mod_division_less_than_divisor(b * m, d);
    assert(qx * d <= a * m && a * m < (qx + 1) * d && 0 <= qx) by (nonlinear_arith)
        requires
            a * m == d * qx + (a * m) % d,
            0 <= (a * m) % d < d,
            0 < d,
            0 <= a * m,
    ;
    assert(qy * d <= b * m && b * m < (qy + 1) * d && 0 <= qy) by (nonlinear_arith)
        requires
            b * m == d * qy + (b * m) % d,
            0 <= (b * m) % d < d,
            0 < d,
            0 <= b * m,
    ;
    assert(qx <= s) by (nonlinear_arith)
        requires
            qx * d <= a * m,
            a * m <= d * s,
            0 < d,
    ;
    assert(qy <= s) by (nonlinear_arith)
        requires
            qy * d <= b * m,
            b * m <= d * s,
            0 < d,
    ;
    assert((qx * d) * (qx * d) <= (a * m) * (a * m)) by (nonlinear_arith)
        requires
            0 <= qx * d <= a * m,
    ;
    assert((qy * d) * (qy * d) <= (b * m) * (b * m)) by (nonlinear_arith)
        requires
            0 <= qy * d <= b * m,
    ;
    assert((qx * d) * (qx * d) == (qx * qx) * (d * d)) by (nonlinear_arith);
    assert((qy * d) * (qy * d) == (qy * qy) * (d * d)) by (nonlinear_arith);
    assert((a * m) * (a * m) == (a * a) * (m * m)) by (nonlinear_arith);
    assert((b * m) * (b * m) == (b * b) * (m * m)) by (nonlinear_arith);
    assert((qx * qx + qy * qy) * (d * d) == (qx * qx) * (d * d) + (qy * qy) * (d * d))
        by (nonlinear_arith);
    assert(m * m * (a * a + b * b) == (a * a) * (m * m) + (b * b) * (m * m)) by (nonlinear_arith);
    assert((qx * qx + qy * qy) * (d * d) <= m * m * (a * a + b * b));
    assert(s * s * ((d + 1) * (d + 1)) <= (s + 1) * (s + 1) * (d * d)) by (nonlinear_arith)
        requires
            0 < s <= d,
    ;
    assert(qx * qx + qy * qy < (s + 1) * (s + 1)) by (nonlinear_arith)
        requires
            (qx * qx + qy * qy) * (d * d) < (s + 1) * (s + 1) * (d * d),
            0 < d,
    ;
    assert(((qx + 1) * d) * ((qx + 1) * d) > (a * m) * (a * m)) by (nonlinear_arith)
        requires
            a * m < (qx + 1) * d,
            0 <= a * m,
    ;
    assert(((qy + 1) * d) * ((qy + 1) * d) > (b * m) * (b * m)) by (nonlinear_arith)
        requires
            b * m < (qy + 1) * d,
            0 <= b * m,
    ;
    assert(((qx + 1) * d) * ((qx + 1) * d) == ((qx + 1) * (qx + 1)) * (d * d))
        by (nonlinear_arith);
    assert(((qy + 1) * d) * ((qy + 1) * d) == ((qy + 1) * (qy + 1)) * (d * d))
        by (nonlinear_arith);
    assert(((qx + 1) * (qx + 1) + (qy + 1) * (qy + 1)) * (d * d) == ((qx + 1) * (qx + 1)) * (d
        * d) + ((qy + 1) * (qy + 1)) * (d * d)) by (nonlinear_arith);
    assert(((qx + 1) * (qx + 1) + (qy + 1) * (qy + 1)) * (d * d) > m * m * (a * a + b * b));
    assert((qx + 1) * (qx + 1) + (qy + 1) * (qy + 1) > s * s) by (nonlinear_arith)
        requires
            ((qx + 1) * (qx + 1) + (qy + 1) * (qy + 1)) * (d * d) > s * s * (d * d),
            0 < d,
    ;
    assert(qx * qx + qy * qy > s * s - 4 * s - 2) by (nonlinear_arith)
        requires
            (qx + 1) * (qx + 1) + (qy + 1) * (qy + 1) > s * s,
            0 <= qx <= s,
            0 <= qy <= s,
    ;
}

impl Vec2 {
    /// Both components within `bound` in magnitude.
    pub open spec fn within(self, bound: int) -> bool {
        &&& -bound <= self.x <= bound
        &&& -bound <= self.y <= bound
    }

    /// The vector `(x, y)`.
    pub fn new(x: i64, y: i64) -> (r: Vec2)
        ensures
            r.x == x,
            r.y == y,
    {
        Vec2 { x, y }
    }

    /// Componentwise sum.
    pub fn add(self, rhs: Vec2) -> (r: Vec2)
        requires
            i64::MIN <= self.x + rhs.x <= i64::MAX,
            i64::MIN <= self.y + rhs.y <= i64::MAX,
        ensures
            r.x == self.x + rhs.x,
            r.y == self.y + rhs.y,
    {
        Vec2 { x: self.x + rhs.x, y: self.y + rhs.y }
    }

    /// Componentwise difference.
    pub fn sub(self, rhs: Vec2) -> (r: Vec2)
        requires
            i64::MIN <= self.x - rhs.x <= i64::MAX,
            i64::MIN <= self.y - rhs.y <= i64::MAX,
        ensures
            r.x == self.x - rhs.x,
            r.y == self.y - rhs.y,
    {
        Vec2 { x: self.x - rhs.x, y: self.y - rhs.y }
    }

    /// Add `rhs` onto `self` in place.
    pub fn add_assign(&mut self, rhs: Vec2)
        requires
            i64::MIN <= old(self).x + rhs.x <= i64::MAX,
            i64::MIN <= old(self).y + rhs.y <= i64::MAX,
        ensures
            final(self).x == old(self).x + rhs.x,
            final(self).y == old(self).y + rhs.y,
    {
        self.x = self.x + rhs.x;
        self.y = self.y + rhs.y;
    }

    /// The vector scaled by the integer factor `k`.
    pub fn scale(self, k: i64) -> (r: Vec2)
        requires
            i64::MIN <= k * self.x <= i64::MAX,
            i64::MIN <= k * self.y <= i64::MAX,
        ensures
            r.x == k * self.x,
            r.y == k * self.y,
    {
        Vec2 { x: k * self.x, y: k * self.y }
    }

    /// Euclidean length, rounded down.
    pub fn len(&self) -> (r: i64)
        requires
            self.within(COORD_LIMIT as int),
        ensures
            r == len_spec(*self),
            0 <= r,
            self.x <= r && -r <= self.x,
            self.y <= r && -r <= self.y,
    {
        let ax: u128 = if self.x < 0 {
            (-self.x) as u128
        } else {
            self.x as u128
        };
        let ay: u128 = if self.y < 0 {
            (-self.y) as u128
        } else {
            self.y as u128
        };
        proof {
            assert(ax * ax == self.x * self.x && ay * ay == self.y * self.y
                && ax * ax + ay * ay < 0x40000000000000000000000000000000int) by (nonlinear_arith)
                requires
                    0 <= ax <= 1152921504606846976int,
                    0 <= ay <= 1152921504606846976int,
                    ax == (if self.x < 0 { -self.x as int } else { self.x as int }),
                    ay == (if self.y < 0 { -self.y as int } else { self.y as int }),
            ;
        }
        let n: u128 = ax * ax + ay * ay;
        let r = trig::isqrt(n);
        proof {
            assert(ax <= r) by (nonlinear_arith)
                requires
                    0 <= r,
                    0 <= ax,
                    ax * ax <= ax * ax + ay * ay,
                    ax * ax + ay * ay < (r + 1) * (r + 1),
            ;
            assert(ay <= r) by (nonlinear_arith)
                requires
                    0 <= r,
                    0 <= ay,
                    ay * ay <= ax * ax + ay * ay,
                    ax * ax + ay * ay < (r + 1) * (r + 1),
            ;
            assert(r <= ax + ay) by (nonlinear_arith)
                requires
                    0 <= r,
                    0 <= ax,
                    0 <= ay,
                    r * r <= ax * ax + ay * ay,
            ;
        }
        r as i64
    }

    /// The vector scaled to unit length (`SCALE`, within three units of it);
    /// the zero vector is returned unchanged, as the documented zero
    /// sentinel.
    pub fn normalized(&self) -> (r: Vec2)
        requires
            self.within(COORD_LIMIT as int),
        ensures
            r == normalized_spec(*self),
            -SCALE <= r.x <= SCALE,
            -SCALE <= r.y <= SCALE,
            len_spec(*self) == 0 ==> r.x == 0 && r.y == 0,
            len_spec(*self) > 0 ==> SCALE - 3 <= len_spec(r) <= SCALE,
    {
        let ax: u128 = if self.x < 0 {
            (-self.x) as u128
        } else {
            self.x as u128
        };
        let ay: u128 = if self.y < 0 {
            (-self.y) as u128
        } else {
            self.y as u128
        };
        proof {
            assert(ax * ax == self.x * self.x && ay * ay == self.y * self.y
                && ax * ax + ay * ay < 0x40000000000000000000000000000000int) by (nonlinear_arith)
                requires
                    0 <= ax <= 1152921504606846976int,
                    0 <= ay <= 1152921504606846976int,
                    ax == (if self.x < 0 { -self.x as int } else { self.x as int }),
                    ay == (if self.y < 0 { -self.y as int } else { self.y as int }),
            ;
            assert((SCALE as int) * (SCALE as int) == 4294967296int) by (nonlinear_arith)
                requires
                    SCALE as int == 65536,
            ;
        }
        let n: u128 = ax * ax + ay * ay;
        if n == 0 {
            proof {
                assert(self.x == 0 && self.y == 0) by (nonlinear_arith)
                    requires
                        ax * ax + ay * ay == 0,
                        ax == (if self.x < 0 { -self.x as int } else { self.x as int }),
                        ay == (if self.y < 0 { -self.y as int } else { self.y as int }),
                ;
                trig::lemma_isqrt_unique(0, 0);
            }
            Vec2 { x: 0, y: 0 }
        } else {
            let short = n < 4294967296;
            let m: u128 = if short {
                4294967296
            } else {
                65536
            };
            let d: u128 = if short {
                trig::isqrt(4294967296 * n)
            } else {
                trig::isqrt(n)
            };
            proof {
                let s = SCALE as int;
                if short {
                    assert(s * s * ((d as int) * (d as int)) <= (m as int) * (m as int) * n)
                        by (nonlinear_arith)
                        requires
                            m == s * s,
                            (d as int) * (d as int) <= s * s * n,
                            0 <= s,
                            0 <= n,
                    ;
                    assert((m as int) * (m as int) * n < s * s * (((d as int) + 1) * ((
                    d as int) + 1))) by (nonlinear_arith)
                        requires
                            s == 65536,
                            m == s * s,
                            s * s * n < ((d as int) + 1) * ((d as int) + 1),
                            0 <= n,
                    ;
                    assert(s <= d) by (nonlinear_arith)
                        requires
                            s == 65536,
                            1 <= n,
                            (s * 1) * (s * 1) <= s * s * n,
                            s * s * n < ((d as int) + 1) * ((d as int) + 1),
                            0 <= d,
                    ;
                    lemma_scaled_component_fits(ax as int, n as int, d as int, s);
                    lemma_scaled_component_fits(ay as int, n as int, d as int, s);
                    assert(ax * m <= (d as int) * s && ay * m <= (d as int) * s)
                        by (nonlinear_arith)
                        requires
                            m == s * s,
                            s * ax <= d,
                            s * ay <= d,
                            0 <= s,
                    ;
                } else {
                    assert(s * s * ((d as int) * (d as int)) <= (m as int) * (m as int) * n
                        && (m as int) * (m as int) * n < s * s * (((d as int) + 1) * ((
                    d as int) + 1))) by (nonlinear_arith)
                        requires
                            m == s,
                            (d as int) * (d as int) <= n,
                            n < ((d as int) + 1) * ((d as int) + 1),
                            0 < s,
                    ;
                    assert(s <= d) by (nonlinear_arith)
                        requires
                            s == 65536,
                            n >= s * s,
                            n < ((d as int) + 1) * ((d as int) + 1),
                            0 <= d,
                    ;
                    assert(ax <= d && ay <= d) by (nonlinear_arith)
                        requires
                            ax * ax <= n,
                            ay * ay <= n,
                            n < ((d as int) + 1) * ((d as int) + 1),
                            0 <= ax,
                            0 <= ay,
                            0 <= d,
                    ;
                    assert(ax * m <= (d as int) * s && ay * m <= (d as int) * s)
                        by (nonlinear_arith)
                        requires
                            m == s,
                            ax <= d,
                            ay <= d,
                            0 <= s,
                    ;
                }
                assert(ax * m <= 0x10000000000000000000000000int) by (nonlinear_arith)
                    requires
                        0 <= ax <= 1152921504606846976int,
                        0 <= m <= 4294967296int,
                ;
                assert(ay * m <= 0x10000000000000000000000000int) by (nonlinear_arith)
                    requires
                        0 <= ay <= 1152921504606846976int,
                        0 <= m <= 4294967296int,
                ;
            }
            let qx: u128 = ax * m / d;
            let qy: u128 = ay * m / d;
            proof {
                lemma_norm_length_bounds(
                    ax as int,
                    ay as int,
                    m as int,
                    d as int,
                    qx as int,
                    qy as int,
                );
            }
            let rx: i64 = if self.x < 0 {
                -(qx as i64)
            } else {
                qx as i64
            };
            let ry: i64 = if self.y < 0 {
                -(qy as i64)
            } else {
                qy as i64
            };
            let out = Vec2 { x: rx, y: ry };
            proof {
                let s = SCALE as int;
                let t = (qx as int) * (qx as int) + (qy as int) * (qy as int);
                assert(out.x * out.x == qx * qx && out.y * out.y == qy * qy) by (nonlinear_arith)
                    requires
                        out.x == qx || out.x == -(qx as int),
                        out.y == qy || out.y == -(qy as int),
                ;
                trig::lemma_isqrt_root_exists(t);
                let w = trig::isqrt_spec(t);
                assert(s - 3 <= w <= s) by (nonlinear_arith)
                    requires
                        s == 65536,
                        0 <= w,
                        w * w <= t,
                        t < (w + 1) * (w + 1),
                        t < (s + 1) * (s + 1),
                        t > s * s - 4 * s - 2,
                ;
                trig::lemma_isqrt_root_exists(n as int);
            }
            out
        }
    }
}

} // verus!
