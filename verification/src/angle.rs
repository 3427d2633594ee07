//! Fixed-point circular arithmetic.
//!
//! An angle is a `u64` in `[0, TURN)`, where `TURN` units make a full circle
//! (so one unit is 2*pi/TURN radians).  All comparisons of two angles go
//! through the signed circular distance, which maps into
//! `(-HALF_TURN, HALF_TURN]`; raw angles are never compared with `<` except
//! when sorting for iteration order.

use vstd::prelude::*;

verus! {

/// Angle units in a full circle (2*pi radians).
pub const TURN: u64 = 4294967296;

/// Angle units in half a circle (pi radians).
pub const HALF_TURN: u64 = 2147483648;

/// Angle units in a quarter circle (pi/2 radians).
pub const QUARTER_TURN: u64 = 1073741824;

/// Angle units in an eighth of a circle (pi/4 radians).
pub const EIGHTH_TURN: u64 = 536870912;

/// A well-formed angle lies in `[0, TURN)`.
pub open spec fn wf_angle(a: int) -> bool {
    0 <= a < TURN
}

/// Signed minimal circular difference from `a` to `b`, in
/// `(-HALF_TURN, HALF_TURN]`.  Positive when the shortest way from `a` to `b`
/// is counter-clockwise.
pub open spec fn dist_spec(a: int, b: int) -> int {
    let d = if b >= a {
        b - a
    } else {
        b - a + TURN
    };
    if d > HALF_TURN {
        d - TURN
    } else {
        d
    }
}

/// The circular distance is antisymmetric, except that the two antipodal
/// readings both come out as `+HALF_TURN`.
pub proof fn lemma_dist_antisymmetric(a: int, b: int)
    requires
        wf_angle(a),
        wf_angle(b),
    ensures
        dist_spec(a, b) == HALF_TURN ==> dist_spec(b, a) == HALF_TURN,
        dist_spec(a, b) != HALF_TURN ==> dist_spec(b, a) == -dist_spec(a, b),
{
}

/// Signed circular distance from `a` to `b`.
pub fn dist(a: u64, b: u64) -> (r: i64)
    requires
        wf_angle(a as int),
        wf_angle(b as int),
    ensures
        r == dist_spec(a as int, b as int),
        -(HALF_TURN as int) < r <= HALF_TURN,
{
    let d: u64 = if b >= a {
        b - a
    } else {
        TURN - (a - b)
    };
    if d > HALF_TURN {
        -((TURN - d) as i64)
    } else {
        d as i64
    }
}

/// Sum of two angles, wrapped onto the circle.
pub open spec fn add_mod_spec(a: int, b: int) -> int {
    if a + b >= TURN {
        a + b - TURN
    } else {
        a + b
    }
}

/// Difference `a - b`, wrapped onto the circle.
pub open spec fn sub_mod_spec(a: int, b: int) -> int {
    if a >= b {
        a - b
    } else {
        a - b + TURN
    }
}

pub fn add_mod(a: u64, b: u64) -> (r: u64)
    requires
        wf_angle(a as int),
        wf_angle(b as int),
    ensures
        r == add_mod_spec(a as int, b as int),
        wf_angle(r as int),
{
    if a >= TURN - b {
        a - (TURN - b)
    } else {
        a + b
    }
}

pub fn sub_mod(a: u64, b: u64) -> (r: u64)
    requires
        wf_angle(a as int),
        wf_angle(b as int),
    ensures
        r == sub_mod_spec(a as int, b as int),
        wf_angle(r as int),
{
    if a >= b {
        a - b
    } else {
        TURN - (b - a)
    }
}

} // verus!
