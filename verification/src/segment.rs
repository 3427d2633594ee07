//! Angular segments: arcs on the image circle, tagged as occluded silhouette
//! or open background.

use vstd::prelude::*;
use crate::angle;
use crate::angle::TURN;
use crate::angle::HALF_TURN;

verus! {

/// What a segment of the panoramic image shows.
#[derive(Clone, Copy, PartialEq, Eq, Structural, Debug)]
pub enum Color {
    /// The arc is blocked by an obstacle silhouette.
    Occluded,
    /// The arc is open sky.
    Background,
}

/// One arc of the image circle: an angular center (`bisector`), a full
/// angular extent (`width`), and a color.
#[derive(Clone, Copy, PartialEq, Eq, Structural, Debug)]
pub struct Segment {
    /// Angular center of the arc, in `[0, TURN)`.
    pub bisector: u64,
    /// Full angular extent of the arc, in `(0, TURN]`.
    pub width: u64,
    /// Occluded silhouette or open background.
    pub color: Color,
}

impl Segment {
    /// A well-formed segment: bisector on the circle, width a nonempty arc of
    /// at most a full circle.
    pub open spec fn wf(self) -> bool {
        &&& angle::wf_angle(self.bisector as int)
        &&& 0 < self.width <= TURN
    }

    /// Half the width, rounded down.
    pub open spec fn half_spec(self) -> int {
        self.width as int / 2
    }

    /// The arc's leading edge: the bisector moved back by half the width.
    pub open spec fn start_spec(self) -> int {
        angle::sub_mod_spec(self.bisector as int, self.half_spec())
    }

    /// The arc's trailing edge, wrapped onto the circle.
    pub open spec fn end_spec(self) -> int {
        angle::add_mod_spec(self.start_spec(), self.width as int)
    }

    /// Signed circular distance between the bisectors of `self` and `other`.
    pub open spec fn dist_spec(self, other: Segment) -> int {
        angle::dist_spec(self.bisector as int, other.bisector as int)
    }

    /// Two segments collide when the absolute circular distance between their
    /// bisectors is at most half the sum of their widths.  The comparison is
    /// doubled so that odd widths lose nothing to rounding, and it is
    /// non-strict, so arcs whose bisectors sit exactly at the threshold
    /// collide.
    pub open spec fn collides_spec(self, other: Segment) -> bool {
        2 * abs_spec(self.dist_spec(other)) <= self.width + other.width
    }

    /// Two arcs touch when one begins exactly where the other ends.  With
    /// odd widths the stored bisector sits half a unit off the arc's true
    /// center, so a touching pair can fall just outside the bisector
    /// threshold; the merge step treats touching arcs as colliding, honoring
    /// the tie-break that tangentially touching segments are merged.
    pub open spec fn touches_spec(self, other: Segment) -> bool {
        ||| angle::sub_mod_spec(other.start_spec(), self.start_spec()) == self.width
        ||| angle::sub_mod_spec(self.start_spec(), other.start_spec()) == other.width
    }

    /// The merge criterion: colliding or tangentially touching.
    pub open spec fn mergeable_spec(self, other: Segment) -> bool {
        self.collides_spec(other) || self.touches_spec(other)
    }

    /// Signed circular distance from `self`'s bisector to `other`'s.
    pub fn dist(&self, other: Segment) -> (r: i64)
        requires
            self.wf(),
            other.wf(),
        ensures
            r == self.dist_spec(other),
    {
        angle::dist(self.bisector, other.bisector)
    }

    /// The arc's leading edge.
    pub fn start(&self) -> (r: u64)
        requires
            self.wf(),
        ensures
            r == self.start_spec(),
    {
        angle::sub_mod(self.bisector, self.width / 2)
    }

    /// Whether `self` and `other` overlap or touch on the circle.
    pub fn collides(&self, other: Segment) -> (r: bool)
        requires
            self.wf(),
            other.wf(),
        ensures
            r == self.collides_spec(other),
    {
        let d = self.dist(other);
        let arc_dist: u64 = if d < 0 {
            (-d) as u64
        } else {
            d as u64
        };
        2 * arc_dist <= self.width + other.width
    }

    /// Whether `self` and `other` satisfy the merge criterion: they overlap
    /// or touch on the circle.
    pub fn mergeable(&self, other: Segment) -> (r: bool)
        requires
            self.wf(),
            other.wf(),
        ensures
            r == self.mergeable_spec(other),
    {
        if self.collides(other) {
            true
        } else {
            let sa = self.start();
            let sb = other.start();
            angle::sub_mod(sb, sa) == self.width || angle::sub_mod(sa, sb) == other.width
        }
    }

    /// Edge union of two colliding arcs, keeping `self`'s color: the result
    /// spans from the leading edge of the earlier arc to the trailing edge of
    /// the later one, clamped to a full circle.
    pub fn merge(&self, other: Segment) -> (r: Segment)
        requires
            self.wf(),
            other.wf(),
            self.mergeable_spec(other),
        ensures
            r == merge_spec(*self, other),
            r.wf(),
            r.color == self.color,
            r.width >= self.width,
            r.width >= other.width,
    {
        proof {
            lemma_mergeable_overlap(*self, other);
        }
        let sa = self.start();
        let sb = other.start();
        let d = angle::sub_mod(sb, sa);
        if d <= self.width {
            // `other` begins inside (or at the end of) `self`: keep `self`'s
            // leading edge and extend to whichever trailing edge is later.
            let reach = d + other.width;
            let w = if reach > self.width {
                if reach > TURN {
                    TURN
                } else {
                    reach
                }
            } else {
                self.width
            };
            Segment { bisector: angle::add_mod(sa, w / 2), width: w, color: self.color }
        } else {
            // `self` begins inside `other`: keep `other`'s leading edge.
            let e = angle::sub_mod(sa, sb);
            let reach = e + self.width;
            let w = if reach > other.width {
                if reach > TURN {
                    TURN
                } else {
                    reach
                }
            } else {
                other.width
            };
            Segment { bisector: angle::add_mod(sb, w / 2), width: w, color: self.color }
        }
    }
}

/// Absolute value of a spec integer.
pub open spec fn abs_spec(x: int) -> int {
    if x < 0 {
        -x
    } else {
        x
    }
}

/// Edge union of two colliding arcs, as a mathematical function.
pub open spec fn merge_spec(a: Segment, b: Segment) -> Segment {
    let sa = a.start_spec();
    let sb = b.start_spec();
    let d = angle::sub_mod_spec(sb, sa);
    if d <= a.width {
        let reach = d + b.width;
        let w = if reach > a.width {
            if reach > TURN {
                TURN as int
            } else {
                reach
            }
        } else {
            a.width as int
        };
        Segment { bisector: angle::add_mod_spec(sa, w / 2) as u64, width: w as u64, color: a.color }
    } else {
        let e = angle::sub_mod_spec(sa, sb);
        let reach = e + a.width;
        let w = if reach > b.width {
            if reach > TURN {
                TURN as int
            } else {
                reach
            }
        } else {
            b.width as int
        };
        Segment { bisector: angle::add_mod_spec(sb, w / 2) as u64, width: w as u64, color: a.color }
    }
}

/// Whether angle `x` lies on the arc of segment `s` (leading edge inclusive,
/// trailing edge exclusive).
pub open spec fn covers_spec(s: Segment, x: int) -> bool {
    angle::sub_mod_spec(x, s.start_spec()) < s.width
}

/// The edge union of two mergeable arcs covers every angle that either arc
/// covers: merging loses no occlusion.
pub proof fn lemma_merge_covers(a: Segment, b: Segment, x: int)
    requires
        a.wf(),
        b.wf(),
        a.mergeable_spec(b),
        angle::wf_angle(x),
        covers_spec(a, x) || covers_spec(b, x),
    ensures
        covers_spec(merge_spec(a, b), x),
{
    lemma_mergeable_overlap(a, b);
}

/// The edge union of two mergeable arcs covers nothing beyond what the two
/// arcs cover: since mergeable arcs overlap or touch, the union is exact.
pub proof fn lemma_merge_covered_by(a: Segment, b: Segment, x: int)
    requires
        a.wf(),
        b.wf(),
        a.mergeable_spec(b),
        angle::wf_angle(x),
        covers_spec(merge_spec(a, b), x),
    ensures
        covers_spec(a, x) || covers_spec(b, x),
{
    lemma_mergeable_overlap(a, b);
}

/// A segment separated from two mergeable arcs is separated from their
/// edge union as well: the union covers exactly the two arcs, so an
/// untouched segment is never dragged into a growing cluster.
#[verifier::rlimit(100)]
pub proof fn lemma_merge_keeps_separation(c: Segment, a: Segment, b: Segment)
    requires
        c.wf(),
        a.wf(),
        b.wf(),
        a.mergeable_spec(b),
        !c.mergeable_spec(a),
        !c.mergeable_spec(b),
    ensures
        !c.mergeable_spec(merge_spec(a, b)),
{
    lemma_mergeable_overlap(a, b);
}

/// Collision is symmetric.
pub proof fn lemma_collides_symmetric(a: Segment, b: Segment)
    requires
        a.wf(),
        b.wf(),
    ensures
        a.collides_spec(b) == b.collides_spec(a),
{
    angle::lemma_dist_antisymmetric(a.bisector as int, b.bisector as int);
}

/// The merge criterion is symmetric.
pub proof fn lemma_mergeable_symmetric(a: Segment, b: Segment)
    requires
        a.wf(),
        b.wf(),
    ensures
        a.mergeable_spec(b) == b.mergeable_spec(a),
{
    lemma_collides_symmetric(a, b);
}

/// When two well-formed arcs satisfy the merge criterion, one of them
/// begins inside (or at the end of) the other, measuring from leading
/// edges, so their edge union is a single arc.
pub proof fn lemma_mergeable_overlap(a: Segment, b: Segment)
    requires
        a.wf(),
        b.wf(),
        a.mergeable_spec(b),
    ensures
        angle::sub_mod_spec(b.start_spec(), a.start_spec()) <= a.width
            || angle::sub_mod_spec(a.start_spec(), b.start_spec()) <= b.width,
{
}

/// When two well-formed arcs are not mergeable, each one's leading edge is
/// strictly more than the other's width away (going around the circle), so
/// the arcs are disjoint with a nonempty gap on both sides.
pub proof fn lemma_separated_strict(a: Segment, b: Segment)
    requires
        a.wf(),
        b.wf(),
        !a.mergeable_spec(b),
    ensures
        angle::sub_mod_spec(b.start_spec(), a.start_spec()) >= a.width + 1,
        angle::sub_mod_spec(a.start_spec(), b.start_spec()) >= b.width + 1,
{
}

} // verus!
