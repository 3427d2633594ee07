//! The homing engine: match the segments of a stored snapshot image against
//! a freshly captured retina image and derive a 2-D steering vector.

use vstd::prelude::*;
use crate::angle;
use crate::angle::TURN;
use crate::angle::HALF_TURN;
use crate::angle::QUARTER_TURN;
use crate::segment::Segment;
use crate::segment::abs_spec;
use crate::image::Image;
use crate::image::all_wf;
use crate::segment::covers_spec;
use crate::image::lemma_len_at_most_total_width;
use crate::vec2::Vec2;
use crate::vec2::normalized_spec;
use crate::trig;
use crate::trig::SCALE;

verus! {

/// Failure of the homing engine.
#[derive(Clone, Copy, PartialEq, Eq, Structural, Debug)]
pub enum HomingError {
    /// Some snapshot segment has no same-color segment in the retina image.
    NoMatchingSegment,
}

/// Default weight of the positioning vector against the turning vector:
/// range correction counts three times as much as bearing correction.
pub const DEFAULT_POSITIONING_WEIGHT: i64 = 3;

/// Largest accepted positioning weight: with unit contributions bounded by
/// `SCALE` and at most `TURN` matched pairs, a weight up to 4095 keeps the
/// weighted sum within the range the normalization accepts.
pub const MAX_POSITIONING_WEIGHT: i64 = 4095;

/// The zero steering vector: the documented "no correction" sentinel.
pub open spec fn zero_vec_spec() -> Vec2 {
    Vec2 { x: 0, y: 0 }
}

/// Absolute circular distance between the bisectors of two segments.
pub open spec fn abs_dist_spec(a: Segment, b: Segment) -> int {
    abs_spec(a.dist_spec(b))
}

/// `idx` points at the retina segment matched to `target`: the first
/// segment of the target's color whose bisector is circularly nearest.
pub open spec fn is_match(target: Segment, retina: Seq<Segment>, idx: int) -> bool {
    &&& 0 <= idx < retina.len()
    &&& retina[idx].color == target.color
    &&& forall|k: int|
        0 <= k < retina.len() && (#[trigger] retina[k]).color == target.color ==> abs_dist_spec(
            target,
            retina[idx],
        ) <= abs_dist_spec(target, retina[k])
    &&& forall|k: int|
        0 <= k < idx && (#[trigger] retina[k]).color == target.color ==> abs_dist_spec(
            target,
            retina[k],
        ) > abs_dist_spec(target, retina[idx])
}

/// At most one index matches a target, so `match_of` names it.
pub proof fn lemma_match_unique(target: Segment, retina: Seq<Segment>, i: int, j: int)
    requires
        is_match(target, retina, i),
        is_match(target, retina, j),
    ensures
        i == j,
{
    if i < j {
        assert(retina[i].color == target.color);
    } else if j < i {
        assert(retina[j].color == target.color);
    }
}

/// The index of the retina segment matched to `target`.
pub open spec fn match_of(target: Segment, retina: Seq<Segment>) -> int {
    choose|idx: int| is_match(target, retina, idx)
}

/// Every snapshot segment finds a same-color segment in the retina.
pub open spec fn fully_matched_spec(snap: Seq<Segment>, retina: Seq<Segment>) -> bool {
    forall|i: int|
        0 <= i < snap.len() ==> exists|k: int|
            0 <= k < retina.len() && (#[trigger] retina[k]).color == (#[trigger] snap[i]).color
}

/// Every matched pair coincides: zero circular distance and equal widths.
/// This is the degenerate "retina equals snapshot" situation, in which no
/// correction is owed.
pub open spec fn aligned_spec(snap: Seq<Segment>, retina: Seq<Segment>) -> bool {
    forall|i: int|
        0 <= i < snap.len() ==> {
            let m = retina[match_of(#[trigger] snap[i], retina)];
            abs_dist_spec(snap[i], m) == 0 && snap[i].width == m.width
        }
}

/// Sign of the turning contribution of a matched pair: clockwise when the
/// retina segment sits clockwise of the snapshot segment, flipped again when
/// the retina segment spans more than half the circle (the background
/// wrapped the view).
pub open spec fn turn_sign_spec(snap: Segment, ret: Segment) -> int {
    let base = if ret.dist_spec(snap) < 0 {
        -1int
    } else {
        1int
    };
    if ret.width > HALF_TURN {
        -base
    } else {
        base
    }
}

/// Sign of the positioning contribution: away from the bisector when the
/// object looks smaller than remembered (too far), toward the center when it
/// looks larger (too close).
pub open spec fn pos_sign_spec(snap: Segment, ret: Segment) -> int {
    if snap.width > ret.width {
        1int
    } else {
        -1int
    }
}

/// Turning and positioning sums over the first `i` matched pairs: each pair
/// adds a unit vector perpendicular to the retina bisector (signed by
/// `turn_sign_spec`) to the first sum, and a unit vector along the retina
/// bisector (signed by `pos_sign_spec`) to the second.  Components are
/// `(turn x, turn y, pos x, pos y)`.
pub open spec fn steering_sums_spec(snap: Seq<Segment>, retina: Seq<Segment>, i: int) -> (
    int,
    int,
    int,
    int,
)
    decreases i,
{
    if i <= 0 {
        (0int, 0int, 0int, 0int)
    } else {
        let prev = steering_sums_spec(snap, retina, i - 1);
        let s = snap[i - 1];
        let m = retina[match_of(s, retina)];
        let perp = angle::sub_mod_spec(m.bisector as int, QUARTER_TURN as int);
        let ts = turn_sign_spec(s, m);
        let ps = pos_sign_spec(s, m);
        (
            prev.0 + ts * trig::cos_fp_spec(perp),
            prev.1 + ts * trig::sin_fp_spec(perp),
            prev.2 + ps * trig::cos_fp_spec(m.bisector as int),
            prev.3 + ps * trig::sin_fp_spec(m.bisector as int),
        )
    }
}

/// The raw (un-normalized) homing vector: turning sum plus `weight` times
/// positioning sum.
pub open spec fn homing_raw_spec(snap: Seq<Segment>, retina: Seq<Segment>, weight: int) -> Vec2 {
    let sums = steering_sums_spec(snap, retina, snap.len() as int);
    Vec2 { x: (sums.0 + weight * sums.2) as i64, y: (sums.1 + weight * sums.3) as i64 }
}

/// The steering vector owed for a matched snapshot/retina pair of images:
/// the zero sentinel when the retina coincides with the snapshot, else the
/// weighted contribution sum scaled to unit length.
pub open spec fn steer_spec(snap: Seq<Segment>, retina: Seq<Segment>, weight: int) -> Vec2 {
    if aligned_spec(snap, retina) {
        zero_vec_spec()
    } else {
        normalized_spec(homing_raw_spec(snap, retina, weight))
    }
}

/// An angle equals another exactly when their circular distance is zero.
proof fn lemma_zero_dist_same_angle(a: int, b: int)
    requires
        angle::wf_angle(a),
        angle::wf_angle(b),
        angle::dist_spec(a, b) == 0,
    ensures
        a == b,
{
}

/// Distinct segments of a well-formed image have distinct bisectors: each
/// bisector lies on its own arc, and the arcs are disjoint.
proof fn lemma_distinct_bisectors(im: Image, i: int, k: int)
    requires
        im.wf(),
        0 <= i < im.segments@.len(),
        0 <= k < im.segments@.len(),
        i != k,
    ensures
        im.segments@[i].bisector != im.segments@[k].bisector,
{
    let s = im.segments@;
    assert(covers_spec(s[i], s[i].bisector as int));
    assert(covers_spec(s[k], s[k].bisector as int));
    if s[i].bisector == s[k].bisector {
        crate::image::lemma_partition_covers_exactly_once(im, s[i].bisector as int);
        if i < k {
            assert(!(covers_spec(s[i], s[i].bisector as int) && covers_spec(
                s[k],
                s[i].bisector as int,
            )));
        } else {
            assert(!(covers_spec(s[k], s[i].bisector as int) && covers_spec(
                s[i],
                s[i].bisector as int,
            )));
        }
    }
}

/// Every segment of a well-formed image is its own match: same color, zero
/// distance, and no earlier segment comes closer.
proof fn lemma_self_match(im: Image, i: int)
    requires
        im.wf(),
        0 <= i < im.segments@.len(),
    ensures
        is_match(im.segments@[i], im.segments@, i),
        match_of(im.segments@[i], im.segments@) == i,
{
    let s = im.segments@;
    assert(abs_dist_spec(s[i], s[i]) == 0);
    assert forall|k: int|
        0 <= k < s.len() && (#[trigger] s[k]).color == s[i].color implies abs_dist_spec(
        s[i],
        s[i],
    ) <= abs_dist_spec(s[i], s[k]) by {
        assert(abs_dist_spec(s[i], s[k]) >= 0);
    }
    assert forall|k: int|
        0 <= k < i && (#[trigger] s[k]).color == s[i].color implies abs_dist_spec(s[i], s[k])
        > abs_dist_spec(s[i], s[i]) by {
        lemma_distinct_bisectors(im, i, k);
        if angle::dist_spec(s[i].bisector as int, s[k].bisector as int) == 0 {
            lemma_zero_dist_same_angle(s[i].bisector as int, s[k].bisector as int);
        }
    }
    assert(is_match(s[i], s, i));
    lemma_match_unique(s[i], s, i, match_of(s[i], s));
}

/// A well-formed image is aligned with itself: each identity pair has zero
/// distance and equal widths.
proof fn lemma_self_aligned(im: Image)
    requires
        im.wf(),
    ensures
        aligned_spec(im.segments@, im.segments@),
{
    let s = im.segments@;
    assert forall|i: int| 0 <= i < s.len() implies {
        let m = s[match_of(#[trigger] s[i], s)];
        abs_dist_spec(s[i], m) == 0 && s[i].width == m.width
    } by {
        lemma_self_match(im, i);
        assert(s[match_of(s[i], s)] == s[i]);
    }
}

/// Every segment trivially finds a same-color partner in the same image.
proof fn lemma_self_fully_matched(im: Image)
    ensures
        fully_matched_spec(im.segments@, im.segments@),
{
    let s = im.segments@;
    assert forall|i: int| #![trigger s[i]] 0 <= i < s.len() implies exists|k: int|
        0 <= k < s.len() && (#[trigger] s[k]).color == s[i].color by {
        let w = i;
        assert(0 <= w < s.len() && s[w].color == s[i].color);
    }
}

/// Homing stability at home: matched against itself, every segment of a
/// well-formed image pairs with itself at zero circular distance and equal
/// width, so a homing query whose retina equals its snapshot owes no
/// correction and yields the zero sentinel.
pub proof fn lemma_image_aligned_with_itself(im: Image)
    requires
        im.wf(),
    ensures
        fully_matched_spec(im.segments@, im.segments@),
        aligned_spec(im.segments@, im.segments@),
{
    lemma_self_aligned(im);
    lemma_self_fully_matched(im);
}

/// Find the retina segment matched to `target`: the first one of the same
/// color at minimal absolute circular distance.  `None` exactly when the
/// retina has no segment of that color.
pub fn find_match(target: &Segment, retina: &Image) -> (r: Option<usize>)
    requires
        target.wf(),
        retina.wf(),
    ensures
        match r {
            Some(idx) => is_match(*target, retina.segments@, idx as int) && idx as int == match_of(
                *target,
                retina.segments@,
            ),
            None => forall|k: int|
                0 <= k < retina.segments@.len() ==> (#[trigger] retina.segments@[k]).color
                    != target.color,
        },
{
    let n = retina.segments.len();
    let mut best: usize = 0;
    let mut found = false;
    let mut best_dist: u64 = 0;
    let mut k: usize = 0;
    while k < n
        invariant
            n == retina.segments@.len(),
            target.wf(),
            retina.wf(),
            0 <= k <= n,
            !found ==> forall|j: int|
                0 <= j < k ==> (#[trigger] retina.segments@[j]).color != target.color,
            found ==> {
                &&& best < k
                &&& retina.segments@[best as int].color == target.color
                &&& best_dist == abs_dist_spec(*target, retina.segments@[best as int])
                &&& forall|j: int|
                    0 <= j < k && (#[trigger] retina.segments@[j]).color == target.color
                        ==> best_dist <= abs_dist_spec(*target, retina.segments@[j])
                &&& forall|j: int|
                    0 <= j < best && (#[trigger] retina.segments@[j]).color == target.color
                        ==> abs_dist_spec(*target, retina.segments@[j]) > best_dist
            },
        decreases n - k,
    {
        let s = retina.segments[k];
        if s.color == target.color {
            let d = target.dist(s);
            let ad: u64 = if d < 0 {
                (-d) as u64
            } else {
                d as u64
            };
            if !found {
                best = k;
                best_dist = ad;
                found = true;
            } else if ad < best_dist {
                best = k;
                best_dist = ad;
            }
        }
        k += 1;
    }
    if found {
        proof {
            let chosen = match_of(*target, retina.segments@);
            assert(is_match(*target, retina.segments@, best as int));
            lemma_match_unique(*target, retina.segments@, best as int, chosen);
        }
        Some(best)
    } else {
        None
    }
}

/// Derive the steering vector from a stored snapshot and a fresh retina
/// image.
///
/// Each snapshot segment is matched to the nearest same-color retina
/// segment; each matched pair contributes one unit turning vector and one
/// unit positioning vector, and the weighted sum is scaled to unit length.
/// When every matched pair coincides with its snapshot segment, the bee is
/// already home and the zero sentinel is returned; the zero sentinel is also
/// returned when the contributions cancel exactly.  The call fails exactly
/// when some snapshot segment has no same-color retina segment.
pub fn compute_homing_vector(snapshot: &Image, retina: &Image, positioning_weight: i64) -> (r:
    Result<Vec2, HomingError>)
    requires
        snapshot.wf(),
        retina.wf(),
        0 <= positioning_weight <= MAX_POSITIONING_WEIGHT,
    ensures
        r is Ok <==> fully_matched_spec(snapshot.segments@, retina.segments@),
        r matches Err(e) ==> e == HomingError::NoMatchingSegment,
        r matches Ok(v) ==> v == steer_spec(
            snapshot.segments@,
            retina.segments@,
            positioning_weight as int,
        ),
        r matches Ok(v) ==> -SCALE <= v.x <= SCALE && -SCALE <= v.y <= SCALE,
        r matches Ok(v) ==> v == zero_vec_spec() || (SCALE - 3 <= crate::vec2::len_spec(v)
            <= SCALE),
{
    let ghost snap_seq = snapshot.segments@;
    let ghost ret_seq = retina.segments@;
    let n = snapshot.segments.len();
    proof {
        lemma_len_at_most_total_width(snap_seq);
    }

    // match every snapshot segment against the retina
    let mut matches: Vec<usize> = Vec::new();
    let mut i: usize = 0;
    while i < n
        invariant
            n == snap_seq.len(),
            snapshot.segments@ == snap_seq,
            retina.segments@ == ret_seq,
            snapshot.wf(),
            retina.wf(),
            0 <= i <= n,
            matches@.len() == i,
            forall|j: int|
                0 <= j < i ==> is_match(snap_seq[j], ret_seq, #[trigger] matches@[j] as int)
                    && matches@[j] as int == match_of(snap_seq[j], ret_seq),
        decreases n - i,
    {
        let target = snapshot.segments[i];
        match find_match(&target, retina) {
            Some(idx) => {
                matches.push(idx);
            },
            None => {
                proof {
                    assert(snap_seq[i as int].color == target.color);
                }
                return Err(HomingError::NoMatchingSegment);
            },
        }
        i += 1;
    }
    proof {
        assert forall|k: int| 0 <= k < snap_seq.len() implies exists|j: int|
            0 <= j < ret_seq.len() && (#[trigger] ret_seq[j]).color == (#[trigger] snap_seq[k]).color by {
            let m = matches@[k] as int;
            assert(is_match(snap_seq[k], ret_seq, m));
            assert(0 <= m < ret_seq.len() && ret_seq[m].color == snap_seq[k].color);
        }
    }

    // degenerate case: the retina coincides with the snapshot, no correction
    let mut all_aligned = true;
    let mut i2: usize = 0;
    while i2 < n
        invariant
            n == snap_seq.len(),
            snapshot.segments@ == snap_seq,
            retina.segments@ == ret_seq,
            snapshot.wf(),
            retina.wf(),
            0 <= i2 <= n,
            matches@.len() == n,
            forall|j: int|
                0 <= j < n ==> is_match(snap_seq[j], ret_seq, #[trigger] matches@[j] as int)
                    && matches@[j] as int == match_of(snap_seq[j], ret_seq),
            all_aligned <==> forall|j: int|
                0 <= j < i2 ==> {
                    let m = ret_seq[match_of(#[trigger] snap_seq[j], ret_seq)];
                    abs_dist_spec(snap_seq[j], m) == 0 && snap_seq[j].width == m.width
                },
        decreases n - i2,
    {
        let target = snapshot.segments[i2];
        let idx = matches[i2];
        let m = retina.segments[idx];
        let d = target.dist(m);
        if !(d == 0 && target.width == m.width) {
            all_aligned = false;
        }
        i2 += 1;
    }
    if all_aligned {
        return Ok(Vec2 { x: 0, y: 0 });
    }

    // accumulate turning and positioning contributions
    let mut tx: i64 = 0;
    let mut ty: i64 = 0;
    let mut px: i64 = 0;
    let mut py: i64 = 0;
    let mut i3: usize = 0;
    while i3 < n
        invariant
            n == snap_seq.len(),
            snapshot.segments@ == snap_seq,
            retina.segments@ == ret_seq,
            snapshot.wf(),
            retina.wf(),
            0 <= i3 <= n,
            n <= TURN,
            matches@.len() == n,
            forall|j: int|
                0 <= j < n ==> is_match(snap_seq[j], ret_seq, #[trigger] matches@[j] as int)
                    && matches@[j] as int == match_of(snap_seq[j], ret_seq),
            (tx as int, ty as int, px as int, py as int) == steering_sums_spec(
                snap_seq,
                ret_seq,
                i3 as int,
            ),
            -(i3 as int) * SCALE <= tx <= (i3 as int) * SCALE,
            -(i3 as int) * SCALE <= ty <= (i3 as int) * SCALE,
            -(i3 as int) * SCALE <= px <= (i3 as int) * SCALE,
            -(i3 as int) * SCALE <= py <= (i3 as int) * SCALE,
        decreases n - i3,
    {
        let target = snapshot.segments[i3];
        let idx = matches[i3];
        let m = retina.segments[idx];
        let d = m.dist(target);
        let base: i64 = if d < 0 {
            -1
        } else {
            1
        };
        let ts: i64 = if m.width > HALF_TURN {
            -base
        } else {
            base
        };
        let ps: i64 = if target.width > m.width {
            1
        } else {
            -1
        };
        let perp = angle::sub_mod(m.bisector, QUARTER_TURN);
        let ct = trig::cos_fp(perp);
        let st = trig::sin_fp(perp);
        let cb = trig::cos_fp(m.bisector);
        let sb = trig::sin_fp(m.bisector);
        let dtx: i64 = if ts < 0 {
            -ct
        } else {
            ct
        };
        let dty: i64 = if ts < 0 {
            -st
        } else {
            st
        };
        let dpx: i64 = if ps < 0 {
            -cb
        } else {
            cb
        };
        let dpy: i64 = if ps < 0 {
            -sb
        } else {
            sb
        };
        proof {
            let s_spec = snap_seq[i3 as int];
            let m_spec = ret_seq[match_of(s_spec, ret_seq)];
            assert(m_spec == m);
            let tsv = turn_sign_spec(s_spec, m_spec);
            let psv = pos_sign_spec(s_spec, m_spec);
            assert(tsv == ts as int);
            assert(psv == ps as int);
            if tsv == 1 {
                assert(tsv * trig::cos_fp_spec(perp as int) == trig::cos_fp_spec(perp as int));
                assert(tsv * trig::sin_fp_spec(perp as int) == trig::sin_fp_spec(perp as int));
            } else {
                assert(tsv * trig::cos_fp_spec(perp as int) == -trig::cos_fp_spec(perp as int));
                assert(tsv * trig::sin_fp_spec(perp as int) == -trig::sin_fp_spec(perp as int));
            }
            if psv == 1 {
                assert(psv * trig::cos_fp_spec(m.bisector as int) == trig::cos_fp_spec(
                    m.bisector as int,
                ));
                assert(psv * trig::sin_fp_spec(m.bisector as int) == trig::sin_fp_spec(
                    m.bisector as int,
                ));
            } else {
                assert(psv * trig::cos_fp_spec(m.bisector as int) == -trig::cos_fp_spec(
                    m.bisector as int,
                ));
                assert(psv * trig::sin_fp_spec(m.bisector as int) == -trig::sin_fp_spec(
                    m.bisector as int,
                ));
            }
        }
        tx = tx + dtx;
        ty = ty + dty;
        px = px + dpx;
        py = py + dpy;
        i3 += 1;
    }

    // homing vector: turning plus weighted positioning, scaled to unit length
    proof {
        assert(-1152640029630136320int <= positioning_weight * px <= 1152640029630136320int)
            by (nonlinear_arith)
            requires
                0 <= positioning_weight <= 4095,
                -281474976710656int <= px <= 281474976710656int,
        ;
        assert(-1152640029630136320int <= positioning_weight * py <= 1152640029630136320int)
            by (nonlinear_arith)
            requires
                0 <= positioning_weight <= 4095,
                -281474976710656int <= py <= 281474976710656int,
        ;
    }
    let hx: i64 = tx + positioning_weight * px;
    let hy: i64 = ty + positioning_weight * py;
    let raw = Vec2 { x: hx, y: hy };
    let out = raw.normalized();
    proof {
        assert(raw.x * raw.x >= 0 && raw.y * raw.y >= 0) by (nonlinear_arith);
        trig::lemma_isqrt_root_exists(raw.x * raw.x + raw.y * raw.y);
        if crate::vec2::len_spec(raw) == 0 {
            assert(out == zero_vec_spec());
        }
    }
    Ok(out)
}

} // verus!
