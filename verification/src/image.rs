//! The panoramic image: a partition of the full circle into occluded and
//! background segments, built from the occlusion cones of the visible
//! obstacles.

use vstd::prelude::*;
use crate::angle;
use crate::angle::TURN;
use crate::angle::HALF_TURN;
use crate::segment::Color;
use crate::segment::Segment;
use crate::segment::covers_spec;
use crate::segment::lemma_merge_covers;
use crate::segment::lemma_merge_covered_by;
use crate::segment::lemma_merge_keeps_separation;
use crate::segment::merge_spec;
use crate::segment::lemma_mergeable_symmetric;
use crate::segment::lemma_separated_strict;
use crate::obstacle::Obstacle;
use crate::obstacle::WORLD_LIMIT;
use crate::vec2::Vec2;

verus! {

/// An ordered sequence of segments, conceptually a circular partition of the
/// full view from one viewpoint.
#[derive(Clone, PartialEq, Debug)]
pub struct Image {
    /// The segments that make up the image circle, in circular order: each
    /// segment's leading edge is the previous one's trailing edge.
    pub segments: Vec<Segment>,
}

/// Every segment of the sequence is well-formed.
pub open spec fn all_wf(s: Seq<Segment>) -> bool {
    forall|i: int| 0 <= i < s.len() ==> s[i].wf()
}

/// Every segment of the sequence is an occluded silhouette.
pub open spec fn all_occluded(s: Seq<Segment>) -> bool {
    forall|i: int| 0 <= i < s.len() ==> s[i].color == Color::Occluded
}

/// Some obstacle among the first `upto` projects a cone that covers angle
/// `x`, seen from `position`.
#[verifier::opaque]
pub open spec fn occluded_at(
    obstacles: Seq<Obstacle>,
    position: Vec2,
    upto: int,
    x: int,
) -> bool {
    exists|k: int|
        0 <= k < upto && match (#[trigger] obstacles[k]).map_spec(position) {
            Option::Some(s) => covers_spec(s, x),
            Option::None => false,
        }
}

/// Some segment of the sequence covers angle `x`.
#[verifier::opaque]
pub open spec fn covered_by_some(s: Seq<Segment>, x: int) -> bool {
    exists|i: int| 0 <= i < s.len() && covers_spec(#[trigger] s[i], x)
}

/// Some occluded segment of the sequence covers angle `x`.
#[verifier::opaque]
pub open spec fn occluded_cover(s: Seq<Segment>, x: int) -> bool {
    exists|i: int|
        0 <= i < s.len() && (#[trigger] s[i]).color == Color::Occluded && covers_spec(s[i], x)
}

/// `k` names a segment of `s` that neither overlaps nor touches any other
/// segment of `s`.
#[verifier::opaque]
pub open spec fn untouched_in(s: Seq<Segment>, k: int) -> bool {
    forall|j: int| 0 <= j < s.len() && j != k ==> !s[k].mergeable_spec(#[trigger] s[j])
}

/// The value `y` sits at position `p` of `s` and neither overlaps nor
/// touches any other element of `s`.
#[verifier::opaque]
spec fn lone_at(s: Seq<Segment>, y: Segment, p: int) -> bool {
    &&& 0 <= p < s.len()
    &&& s[p] == y
    &&& forall|q: int| 0 <= q < s.len() && q != p ==> !y.mergeable_spec(#[trigger] s[q])
}

/// Every untouched input segment still sits somewhere in `work`, touching
/// nothing.
#[verifier::opaque]
spec fn lone_preserved(segs: Seq<Segment>, work: Seq<Segment>) -> bool {
    forall|k: int|
        0 <= k < segs.len() && #[trigger] untouched_in(segs, k) ==> exists|p: int|
            #[trigger] lone_at(work, segs[k], p)
}

/// At the start of merging, every untouched segment is lone at its own
/// index.
proof fn lemma_lone_init(segs: Seq<Segment>)
    ensures
        lone_preserved(segs, segs),
{
    reveal(lone_preserved);
    assert forall|k: int|
        0 <= k < segs.len() && #[trigger] untouched_in(segs, k) implies exists|p: int|
        #[trigger] lone_at(segs, segs[k], p) by {
        reveal(untouched_in);
        reveal(lone_at);
        assert(lone_at(segs, segs[k], k));
    }
}

/// A witness for a lone segment survives one merge step: separated from
/// both merged arcs, it is separated from their union, and every other
/// element it was separated from is still there.
proof fn lemma_lone_witness_step(
    y: Segment,
    before: Seq<Segment>,
    work: Seq<Segment>,
    i: int,
    j: int,
    p: int,
)
    requires
        all_wf(before),
        0 <= i < j < before.len(),
        before[i].mergeable_spec(before[j]),
        work == before.update(i, merge_spec(before[i], before[j])).remove(j),
        0 <= p < before.len(),
        before[p] == y,
        forall|q: int| 0 <= q < before.len() && q != p ==> !y.mergeable_spec(#[trigger] before[q]),
    ensures
        lone_at(work, y, if p < j {
            p
        } else {
            p - 1
        }),
{
    reveal(lone_at);
    assert(p != i && p != j) by {
        if p == i || p == j {
            assert(before[i].mergeable_spec(before[j]));
        }
    }
    let p2: int = if p < j {
        p
    } else {
        p - 1
    };
    assert(work[p2] == before[p]);
    assert forall|q: int|
        0 <= q < work.len() && q != p2 implies !y.mergeable_spec(#[trigger] work[q]) by {
        if q == i {
            lemma_merge_keeps_separation(before[p], before[i], before[j]);
        } else {
            let q0: int = if q < j {
                q
            } else {
                q + 1
            };
            assert(work[q] == before[q0]);
            assert(q0 != p);
        }
    }
}

/// One merge step never disturbs a lone segment: its witness survives.
proof fn lemma_lone_step(
    segs: Seq<Segment>,
    before: Seq<Segment>,
    work: Seq<Segment>,
    i: int,
    j: int,
)
    requires
        all_wf(before),
        0 <= i < j < before.len(),
        before[i].mergeable_spec(before[j]),
        work == before.update(i, merge_spec(before[i], before[j])).remove(j),
        lone_preserved(segs, before),
    ensures
        lone_preserved(segs, work),
{
    reveal(lone_preserved);
    assert forall|k: int|
        0 <= k < segs.len() && #[trigger] untouched_in(segs, k) implies exists|p: int|
        #[trigger] lone_at(work, segs[k], p) by {
        let p = choose|p: int| #[trigger] lone_at(before, segs[k], p);
        assert(0 <= p < before.len() && before[p] == segs[k] && forall|q: int|
            0 <= q < before.len() && q != p ==> !segs[k].mergeable_spec(
                #[trigger] before[q],
            )) by {
            reveal(lone_at);
        }
        lemma_lone_witness_step(segs[k], before, work, i, j, p);
        assert(lone_at(work, segs[k], if p < j {
            p
        } else {
            p - 1
        }));
    }
}

/// One merge step loses no covered angle: the union covers all that the
/// two arcs covered.
proof fn lemma_coverage_step_fwd(before: Seq<Segment>, work: Seq<Segment>, i: int, j: int)
    requires
        all_wf(before),
        0 <= i < j < before.len(),
        before[i].mergeable_spec(before[j]),
        work == before.update(i, merge_spec(before[i], before[j])).remove(j),
    ensures
        forall|x: int|
            angle::wf_angle(x) && covered_by_some(before, x) ==> covered_by_some(work, x),
{
    let merged = merge_spec(before[i], before[j]);
    assert forall|x: int|
        angle::wf_angle(x) && covered_by_some(before, x) implies covered_by_some(work, x) by {
        reveal(covered_by_some);
        let k = choose|k: int| 0 <= k < before.len() && covers_spec(#[trigger] before[k], x);
        if k == i || k == j {
            lemma_merge_covers(before[i], before[j], x);
            assert(work[i] == merged);
            assert(covers_spec(work[i], x));
        } else if k < j {
            assert(work[k] == before[k]);
        } else {
            assert(work[k - 1] == before[k]);
        }
    }
}

/// One merge step adds no covered angle: the union covers nothing beyond
/// the two arcs.
proof fn lemma_coverage_step_rev(before: Seq<Segment>, work: Seq<Segment>, i: int, j: int)
    requires
        all_wf(before),
        0 <= i < j < before.len(),
        before[i].mergeable_spec(before[j]),
        work == before.update(i, merge_spec(before[i], before[j])).remove(j),
    ensures
        forall|x: int|
            angle::wf_angle(x) && covered_by_some(work, x) ==> covered_by_some(before, x),
{
    assert forall|x: int|
        angle::wf_angle(x) && covered_by_some(work, x) implies covered_by_some(before, x) by {
        reveal(covered_by_some);
        let k = choose|k: int| 0 <= k < work.len() && covers_spec(#[trigger] work[k], x);
        if k == i {
            lemma_merge_covered_by(before[i], before[j], x);
        } else if k < j {
            assert(before[k] == work[k]);
        } else {
            assert(before[k + 1] == work[k]);
        }
    }
}

/// When merging is finished, every untouched input segment is still present.
proof fn lemma_lone_exit(segs: Seq<Segment>, work: Seq<Segment>)
    requires
        lone_preserved(segs, work),
    ensures
        forall|k: int|
            0 <= k < segs.len() && #[trigger] untouched_in(segs, k) ==> work.contains(segs[k]),
{
    reveal(lone_preserved);
    assert forall|k: int|
        0 <= k < segs.len() && #[trigger] untouched_in(segs, k) implies work.contains(
        segs[k],
    ) by {
        let p = choose|p: int| #[trigger] lone_at(work, segs[k], p);
        reveal(lone_at);
        assert(work[p] == segs[k]);
    }
}

/// No two segments of the sequence overlap or touch.
pub open spec fn pairwise_separated(s: Seq<Segment>) -> bool {
    forall|i: int, j: int| 0 <= i < j < s.len() ==> !s[i].mergeable_spec(s[j])
}

/// The segments' leading edges never decrease along the sequence.
pub open spec fn sorted_by_start(s: Seq<Segment>) -> bool {
    forall|i: int, j: int| 0 <= i < j < s.len() ==> s[i].start_spec() <= s[j].start_spec()
}

/// Sum of all segment widths.
pub open spec fn total_width(s: Seq<Segment>) -> int
    decreases s.len(),
{
    if s.len() == 0 {
        0
    } else {
        total_width(s.drop_last()) + s.last().width
    }
}

proof fn lemma_total_width_push(s: Seq<Segment>, x: Segment)
    ensures
        total_width(s.push(x)) == total_width(s) + x.width,
{
    assert(s.push(x).drop_last() =~= s);
}

/// Pushing keeps every element of a sequence, and adds the new one.
proof fn lemma_contains_push(s: Seq<Segment>, x: Segment)
    ensures
        forall|y: Segment| s.contains(y) ==> #[trigger] s.push(x).contains(y),
        s.push(x).contains(x),
{
    assert forall|y: Segment| s.contains(y) implies #[trigger] s.push(x).contains(y) by {
        let w = choose|w: int| 0 <= w < s.len() && s[w] == y;
        assert(s.push(x)[w] == y);
    }
    assert(s.push(x)[s.len() as int] == x);
}

/// Exchanging two positions of a sequence keeps every element.
proof fn lemma_contains_swap(s: Seq<Segment>, p: int, q: int)
    requires
        0 <= p < s.len(),
        0 <= q < s.len(),
    ensures
        forall|y: Segment|
            s.contains(y) ==> #[trigger] s.update(p, s[q]).update(q, s[p]).contains(y),
{
    let t = s.update(p, s[q]).update(q, s[p]);
    assert forall|y: Segment| s.contains(y) implies #[trigger] t.contains(y) by {
        let w = choose|w: int| 0 <= w < s.len() && s[w] == y;
        if w == q {
            assert(t[p] == y);
        } else if w == p {
            assert(t[q] == y);
        } else {
            assert(t[w] == y);
        }
    }
}

/// In a separated sequence, any two distinct segments are not mergeable,
/// whichever way the pair is ordered.
proof fn lemma_separated_any(s: Seq<Segment>, a: int, b: int)
    requires
        all_wf(s),
        pairwise_separated(s),
        0 <= a < s.len(),
        0 <= b < s.len(),
        a != b,
    ensures
        !s[a].mergeable_spec(s[b]),
{
    if a < b {
    } else {
        lemma_mergeable_symmetric(s[b], s[a]);
    }
}

/// Exchanging two positions of a sequence keeps it pairwise separated.
proof fn lemma_separated_swap(s: Seq<Segment>, p: int, q: int)
    requires
        all_wf(s),
        pairwise_separated(s),
        0 <= p < s.len(),
        0 <= q < s.len(),
    ensures
        pairwise_separated(s.update(p, s[q]).update(q, s[p])),
{
    let t = s.update(p, s[q]).update(q, s[p]);
    assert forall|i: int, j: int| 0 <= i < j < t.len() implies !t[i].mergeable_spec(t[j]) by {
        let i0 = if i == q { p } else if i == p { q } else { i };
        let j0 = if j == q { p } else if j == p { q } else { j };
        assert(t[i] == s[i0]);
        assert(t[j] == s[j0]);
        lemma_separated_any(s, i0, j0);
    }
}

/// Find two overlapping or touching segments, if any pair exists.
fn find_colliding_pair(v: &Vec<Segment>) -> (r: Option<(usize, usize)>)
    requires
        all_wf(v@),
    ensures
        match r {
            Some(p) => {
                &&& p.0 < p.1 < v@.len()
                &&& v@[p.0 as int].mergeable_spec(v@[p.1 as int])
            },
            None => pairwise_separated(v@),
        },
{
    let n = v.len();
    let mut i: usize = 0;
    while i < n
        invariant
            n == v@.len(),
            all_wf(v@),
            i <= n,
            forall|p: int, q: int| 0 <= p < q < n && p < i ==> !v@[p].mergeable_spec(v@[q]),
        decreases n - i,
    {
        let mut j: usize = i + 1;
        while j < n
            invariant
                n == v@.len(),
                all_wf(v@),
                i < j <= n,
                forall|q: int| i < q < j ==> !v@[i as int].mergeable_spec(v@[q]),
            decreases n - j,
        {
            if v[i].mergeable(v[j]) {
                return Some((i, j));
            }
            j += 1;
        }
        i += 1;
    }
    None
}

/// Merge every cluster of overlapping occluded segments into one segment per
/// cluster, by repeated edge union, until no two remaining segments collide.
///
/// Feeding an already-separated set through this step returns it unchanged.
#[verifier::rlimit(100)]
pub fn merge_all(segs: Vec<Segment>) -> (out: Vec<Segment>)
    requires
        all_wf(segs@),
    ensures
        all_wf(out@),
        pairwise_separated(out@),
        out@.len() <= segs@.len(),
        (out@.len() == 0) == (segs@.len() == 0),
        all_occluded(segs@) ==> all_occluded(out@),
        pairwise_separated(segs@) ==> out@ == segs@,
        forall|x: int|
            angle::wf_angle(x) && covered_by_some(segs@, x) ==> covered_by_some(out@, x),
        forall|x: int|
            angle::wf_angle(x) && covered_by_some(out@, x) ==> covered_by_some(segs@, x),
        forall|k: int|
            0 <= k < segs@.len() && #[trigger] untouched_in(segs@, k) ==> out@.contains(segs@[k]),
{
    let mut work = segs;
    proof {
        lemma_lone_init(segs@);
    }
    loop
        invariant
            all_wf(work@),
            work@.len() <= segs@.len(),
            (work@.len() == 0) == (segs@.len() == 0),
            all_occluded(segs@) ==> all_occluded(work@),
            pairwise_separated(segs@) ==> work@ == segs@,
            forall|x: int|
                angle::wf_angle(x) && covered_by_some(segs@, x) ==> covered_by_some(work@, x),
            forall|x: int|
                angle::wf_angle(x) && covered_by_some(work@, x) ==> covered_by_some(segs@, x),
            lone_preserved(segs@, work@),
        ensures
            all_wf(work@),
            pairwise_separated(work@),
            work@.len() <= segs@.len(),
            (work@.len() == 0) == (segs@.len() == 0),
            all_occluded(segs@) ==> all_occluded(work@),
            pairwise_separated(segs@) ==> work@ == segs@,
            forall|x: int|
                angle::wf_angle(x) && covered_by_some(segs@, x) ==> covered_by_some(work@, x),
            forall|x: int|
                angle::wf_angle(x) && covered_by_some(work@, x) ==> covered_by_some(segs@, x),
            lone_preserved(segs@, work@),
        decreases work@.len(),
    {
        match find_colliding_pair(&work) {
            None => {
                proof {
                    lemma_lone_exit(segs@, work@);
                }
                return work;
            },
            Some((i, j)) => {
                proof {
                    if pairwise_separated(segs@) {
                        assert(!work@[i as int].mergeable_spec(work@[j as int]));
                    }
                }
                let ghost before = work@;
                let merged = work[i].merge(work[j]);
                work.set(i, merged);
                work.remove(j);
                proof {
                    lemma_lone_step(segs@, before, work@, i as int, j as int);
                    lemma_coverage_step_fwd(before, work@, i as int, j as int);
                    lemma_coverage_step_rev(before, work@, i as int, j as int);
                    assert forall|k: int| 0 <= k < work@.len() implies work@[k].wf() by {}
                }
            },
        }
    }
}

/// Sort segments by leading edge (insertion sort by exchanges), keeping
/// well-formedness, separation and colors.
fn sort_by_start(v: &mut Vec<Segment>)
    requires
        all_wf(old(v)@),
        pairwise_separated(old(v)@),
        all_occluded(old(v)@),
    ensures
        final(v)@.len() == old(v)@.len(),
        all_wf(final(v)@),
        pairwise_separated(final(v)@),
        all_occluded(final(v)@),
        sorted_by_start(final(v)@),
        forall|y: Segment| old(v)@.contains(y) ==> #[trigger] final(v)@.contains(y),
        forall|y: Segment| final(v)@.contains(y) ==> #[trigger] old(v)@.contains(y),
{
    let n = v.len();
    let mut i: usize = 1;
    while i < n
        invariant
            n == v@.len(),
            all_wf(v@),
            pairwise_separated(v@),
            all_occluded(v@),
            1 <= i,
            i <= n || n == 0,
            forall|p: int, q: int| 0 <= p < q < i ==> v@[p].start_spec() <= v@[q].start_spec(),
            forall|y: Segment| old(v)@.contains(y) ==> #[trigger] v@.contains(y),
            forall|y: Segment| v@.contains(y) ==> #[trigger] old(v)@.contains(y),
        decreases n - i,
    {
        let mut j: usize = i;
        let mut placed = false;
        while j > 0 && !placed
            invariant
                n == v@.len(),
                all_wf(v@),
                pairwise_separated(v@),
                all_occluded(v@),
                0 <= j <= i < n,
                forall|p: int, q: int|
                    0 <= p < q <= i && q != j ==> v@[p].start_spec() <= v@[q].start_spec(),
                placed && j > 0 ==> v@[j - 1].start_spec() <= v@[j as int].start_spec(),
                forall|y: Segment| old(v)@.contains(y) ==> #[trigger] v@.contains(y),
                forall|y: Segment| v@.contains(y) ==> #[trigger] old(v)@.contains(y),
            decreases j + (if placed { 0int } else { 1int }),
        {
            let a = v[j - 1];
            let b = v[j];
            if a.start() > b.start() {
                let ghost pre = v@;
                proof {
                    lemma_separated_swap(v@, j - 1, j as int);
                    lemma_contains_swap(v@, j - 1, j as int);
                }
                v.set(j - 1, b);
                v.set(j, a);
                proof {
                    assert(pre.update(j - 1, pre[j as int]).update(j as int, pre[j - 1]) == v@);
                    assert(v@.update(j - 1, v@[j as int]).update(j as int, v@[j - 1]) =~= pre);
                    lemma_contains_swap(v@, j - 1, j as int);
                }
                j -= 1;
            } else {
                placed = true;
            }
        }
        i += 1;
    }
}


/// Every width is at least one unit, so a sequence's total width bounds its
/// length.
pub proof fn lemma_len_at_most_total_width(s: Seq<Segment>)
    requires
        all_wf(s),
    ensures
        s.len() <= total_width(s),
    decreases s.len(),
{
    if s.len() > 0 {
        assert(all_wf(s.drop_last()));
        lemma_len_at_most_total_width(s.drop_last());
    }
}


/// Combined width of the first `k` segments.
pub open spec fn prefix_width(s: Seq<Segment>, k: int) -> int
    decreases k,
{
    if k <= 0 {
        0
    } else {
        prefix_width(s, k - 1) + s[k - 1].width
    }
}

proof fn lemma_prefix_width_drop_last(s: Seq<Segment>, k: int)
    requires
        0 <= k <= s.len() - 1,
    ensures
        prefix_width(s.drop_last(), k) == prefix_width(s, k),
    decreases k,
{
    if k > 0 {
        lemma_prefix_width_drop_last(s, k - 1);
        assert(s.drop_last()[k - 1] == s[k - 1]);
    }
}

proof fn lemma_prefix_width_total(s: Seq<Segment>)
    ensures
        prefix_width(s, s.len() as int) == total_width(s),
    decreases s.len(),
{
    if s.len() > 0 {
        lemma_prefix_width_total(s.drop_last());
        lemma_prefix_width_drop_last(s, s.len() - 1);
    }
}

proof fn lemma_prefix_width_monotone(s: Seq<Segment>, i: int, j: int)
    requires
        all_wf(s),
        0 <= i <= j <= s.len(),
    ensures
        prefix_width(s, i) <= prefix_width(s, j),
        i < j ==> prefix_width(s, i) < prefix_width(s, j),
    decreases j - i,
{
    if i < j {
        lemma_prefix_width_monotone(s, i, j - 1);
        assert(s[j - 1].wf());
    }
}

/// In a well-formed image, segment `k` starts where the first segment
/// starts, advanced by the combined width of the segments before it.
proof fn lemma_start_is_prefix(im: Image, k: int)
    requires
        im.wf(),
        0 <= k < im.segments@.len(),
    ensures
        0 <= prefix_width(im.segments@, k),
        prefix_width(im.segments@, k) + im.segments@[k].width <= TURN,
        im.segments@[k].start_spec() == angle::add_mod_spec(
            im.segments@[0].start_spec(),
            prefix_width(im.segments@, k),
        ),
    decreases k,
{
    let s = im.segments@;
    lemma_prefix_width_total(s);
    lemma_prefix_width_monotone(s, k + 1, s.len() as int);
    lemma_prefix_width_monotone(s, 0, k);
    if k > 0 {
        lemma_start_is_prefix(im, k - 1);
        assert(s[(k - 1) + 1].start_spec() == s[k - 1].end_spec());
    }
}

proof fn lemma_exists_cover_interval(im: Image, y: int, k: int)
    requires
        im.wf(),
        0 <= k < im.segments@.len(),
        prefix_width(im.segments@, k) <= y < TURN,
    ensures
        exists|i: int|
            k <= i < im.segments@.len() && #[trigger] prefix_width(im.segments@, i) <= y
                < prefix_width(im.segments@, i + 1),
    decreases im.segments@.len() - k,
{
    let s = im.segments@;
    lemma_prefix_width_total(s);
    if y < prefix_width(s, k + 1) {
        assert(prefix_width(s, k) <= y < prefix_width(s, k + 1));
    } else {
        assert(k + 1 < s.len());
        lemma_exists_cover_interval(im, y, k + 1);
    }
}

/// The partition law: a well-formed image covers every angle of the circle
/// with exactly one segment - the arcs are pairwise disjoint and leave no
/// gap.
pub proof fn lemma_partition_covers_exactly_once(im: Image, x: int)
    requires
        im.wf(),
        angle::wf_angle(x),
    ensures
        exists|i: int| 0 <= i < im.segments@.len() && covers_spec(#[trigger] im.segments@[i], x),
        forall|i: int, j: int|
            0 <= i < j < im.segments@.len() ==> !(covers_spec(#[trigger] im.segments@[i], x) && covers_spec(
                #[trigger] im.segments@[j],
                x,
            )),
{
    let s = im.segments@;
    let s0 = s[0].start_spec();
    let y = angle::sub_mod_spec(x, s0);
    assert forall|k: int| 0 <= k < s.len() implies (covers_spec(#[trigger] s[k], x) <==> (prefix_width(
        s,
        k,
    ) <= y < prefix_width(s, k + 1))) by {
        lemma_start_is_prefix(im, k);
    }
    lemma_prefix_width_total(s);
    lemma_exists_cover_interval(im, y, 0);
    let w = choose|i: int|
        0 <= i < s.len() && #[trigger] prefix_width(s, i) <= y < prefix_width(s, i + 1);
    assert(covers_spec(s[w], x));
    assert forall|i: int, j: int| 0 <= i < j < s.len() implies !(covers_spec(#[trigger] s[i], x)
        && covers_spec(#[trigger] s[j], x)) by {
        lemma_prefix_width_monotone(s, i + 1, j);
    }
}

/// One projection step: when the cones of the first `i` obstacles are
/// covered by the collected segments, they still are after the next
/// obstacle's cone (if any) is appended.
proof fn lemma_projection_step(
    obstacles: Seq<Obstacle>,
    position: Vec2,
    before: Seq<Segment>,
    after: Seq<Segment>,
    i: int,
)
    requires
        0 <= i < obstacles.len(),
        forall|x: int|
            angle::wf_angle(x) && occluded_at(obstacles, position, i, x) ==> covered_by_some(
                before,
                x,
            ),
        forall|x: int|
            angle::wf_angle(x) && covered_by_some(before, x) ==> occluded_at(
                obstacles,
                position,
                i,
                x,
            ),
        match obstacles[i].map_spec(position) {
            Option::Some(seg) => after == before.push(seg),
            Option::None => after == before,
        },
    ensures
        forall|x: int|
            angle::wf_angle(x) && occluded_at(obstacles, position, i + 1, x) ==> covered_by_some(
                after,
                x,
            ),
        forall|x: int|
            angle::wf_angle(x) && covered_by_some(after, x) ==> occluded_at(
                obstacles,
                position,
                i + 1,
                x,
            ),
{
    assert forall|x: int|
        angle::wf_angle(x) && occluded_at(obstacles, position, i + 1, x) implies covered_by_some(
        after,
        x,
    ) by {
        reveal(covered_by_some);
        reveal(occluded_at);
        let k = choose|k: int|
            0 <= k < i + 1 && match (#[trigger] obstacles[k]).map_spec(position) {
                Option::Some(c) => covers_spec(c, x),
                Option::None => false,
            };
        if k < i {
            assert(occluded_at(obstacles, position, i, x));
            assert(covered_by_some(before, x));
            let w = choose|w: int| 0 <= w < before.len() && covers_spec(#[trigger] before[w], x);
            assert(covers_spec(after[w], x));
        } else {
            assert(covers_spec(after[after.len() - 1], x));
        }
    }
    assert forall|x: int|
        angle::wf_angle(x) && covered_by_some(after, x) implies occluded_at(
        obstacles,
        position,
        i + 1,
        x,
    ) by {
        reveal(covered_by_some);
        reveal(occluded_at);
        let w = choose|w: int| 0 <= w < after.len() && covers_spec(#[trigger] after[w], x);
        if w < before.len() {
            assert(covers_spec(before[w], x));
            assert(covered_by_some(before, x));
            assert(occluded_at(obstacles, position, i, x));
            let k = choose|k: int|
                0 <= k < i && match (#[trigger] obstacles[k]).map_spec(position) {
                    Option::Some(c) => covers_spec(c, x),
                    Option::None => false,
                };
            assert(0 <= k < i + 1);
        } else {
            assert(obstacles[i].map_spec(position) matches Option::Some(c) && covers_spec(c, x));
        }
    }
}

/// Total width splits over concatenation.
proof fn lemma_total_width_concat(a: Seq<Segment>, b: Seq<Segment>)
    ensures
        total_width(a + b) == total_width(a) + total_width(b),
    decreases b.len(),
{
    if b.len() == 0 {
        assert(a + b =~= a);
    } else {
        assert((a + b).drop_last() =~= a + b.drop_last());
        lemma_total_width_concat(a, b.drop_last());
    }
}

/// Rotating a well-formed partition keeps it well-formed: circular adjacency
/// and the total width are unchanged by the cut.
#[verifier::rlimit(100)]
proof fn lemma_rotation_wf(s: Seq<Segment>, t: int)
    requires
        wf_seq(s),
        0 <= t <= s.len(),
    ensures
        wf_seq(s.subrange(t, s.len() as int) + s.subrange(0, t)),
{
    let n = s.len() as int;
    let r = s.subrange(t, n) + s.subrange(0, t);
    assert(s.subrange(0, n) =~= s);
    lemma_total_width_concat(s.subrange(t, n), s.subrange(0, t));
    lemma_total_width_concat(s.subrange(0, t), s.subrange(t, n));
    assert(s.subrange(0, t) + s.subrange(t, n) =~= s);
    assert(total_width(r) == total_width(s));
    assert forall|k: int| 0 <= k < r.len() - 1 implies #[trigger] r[k + 1].start_spec() == r[
        k
    ].end_spec() by {
        if k + 1 < n - t {
            assert(r[k] == s[t + k] && r[k + 1] == s[(t + k) + 1]);
        } else if k + 1 == n - t {
            assert(r[k] == s[n - 1] && r[k + 1] == s[0]);
        } else {
            assert(r[k] == s[k - (n - t)] && r[k + 1] == s[(k - (n - t)) + 1]);
        }
    }
    if 0 < t < n {
        assert(r[0] == s[t] && r[r.len() - 1] == s[t - 1]);
        assert(s[(t - 1) + 1].start_spec() == s[t - 1].end_spec());
    } else {
        assert(r =~= s);
    }
}

/// Rotation keeps every element of a sequence, in both directions.
proof fn lemma_rotation_contains(s: Seq<Segment>, t: int)
    requires
        0 <= t <= s.len(),
    ensures
        forall|y: Segment|
            s.contains(y) ==> #[trigger] (s.subrange(t, s.len() as int) + s.subrange(
                0,
                t,
            )).contains(y),
        forall|y: Segment|
            #[trigger] (s.subrange(t, s.len() as int) + s.subrange(0, t)).contains(y)
                ==> s.contains(y),
{
    let n = s.len() as int;
    let r = s.subrange(t, n) + s.subrange(0, t);
    assert forall|y: Segment| s.contains(y) implies #[trigger] r.contains(y) by {
        let w = choose|w: int| 0 <= w < s.len() && s[w] == y;
        if w >= t {
            assert(r[w - t] == y);
        } else {
            assert(r[w + (n - t)] == y);
        }
    }
    assert forall|y: Segment| #[trigger] r.contains(y) implies s.contains(y) by {
        let w = choose|w: int| 0 <= w < r.len() && r[w] == y;
        if w < n - t {
            assert(s[t + w] == y);
        } else {
            assert(s[w - (n - t)] == y);
        }
    }
}

/// Cutting the chain at the first bisector that wrapped past angle zero
/// yields ascending bisector order: along the chain the bisectors ascend
/// except for the single wrap, and the cut moves the wrapped tail to the
/// front.
proof fn lemma_rotation_sorts(im: Image, t: int)
    requires
        im.wf(),
        0 < t <= im.segments@.len(),
        forall|q: int|
            0 < q < t ==> (#[trigger] im.segments@[q]).bisector >= im.segments@[0].bisector,
        t < im.segments@.len() ==> im.segments@[t].bisector < im.segments@[0].bisector,
    ensures
        sorted_by_bisector(
            im.segments@.subrange(t, im.segments@.len() as int) + im.segments@.subrange(0, t),
        ),
{
    let s = im.segments@;
    let n = s.len() as int;
    let s0 = s[0].start_spec();
    let r = s.subrange(t, n) + s.subrange(0, t);
    lemma_bis_is_prefix(im, 0);
    if s0 + prefix_width(s, 0) + s[0].half_spec() >= TURN {
        // the whole chain is wrapped, so it is already in ascending order
        // and the scan found no cut
        assert forall|q: int| 0 < q < n implies (#[trigger] s[q]).bisector >= s[0].bisector by {
            lemma_bis_is_prefix(im, q);
            lemma_bis_offset_ascends(im, 0, q);
        }
        assert(t == n);
        assert(r =~= s);
        assert forall|i: int, j: int| 0 <= i < j < r.len() implies r[i].bisector <= r[
            j
        ].bisector by {
            lemma_bis_is_prefix(im, i);
            lemma_bis_is_prefix(im, j);
            lemma_bis_offset_ascends(im, i, j);
            if i > 0 {
                lemma_bis_offset_ascends(im, 0, i);
            }
        }
    } else {
        assert forall|q: int| 0 <= q < t implies s0 + prefix_width(s, q) + s[q].half_spec()
            < TURN by {
            lemma_bis_is_prefix(im, q);
            if q > 0 {
                lemma_bis_offset_ascends(im, 0, q);
            }
        }
        assert forall|q: int| t <= q < n implies s0 + prefix_width(s, q) + s[q].half_spec()
            >= TURN by {
            lemma_bis_is_prefix(im, q);
            lemma_bis_is_prefix(im, t);
            lemma_bis_offset_ascends(im, 0, t);
            if q > t {
                lemma_bis_offset_ascends(im, t, q);
            }
        }
        assert forall|i: int, j: int| 0 <= i < j < r.len() implies r[i].bisector <= r[
            j
        ].bisector by {
            let a = if i < n - t { t + i } else { i - (n - t) };
            let b = if j < n - t { t + j } else { j - (n - t) };
            assert(r[i] == s[a] && r[j] == s[b]);
            lemma_bis_is_prefix(im, a);
            lemma_bis_is_prefix(im, b);
            if a != b {
                if a < b {
                    lemma_bis_offset_ascends(im, a, b);
                } else {
                    lemma_bis_offset_ascends(im, b, a);
                }
            }
        }
    }
}

/// Rotating a circularly alternating sequence keeps it circularly
/// alternating: neighbor pairs of the rotation are neighbor pairs of the
/// original circle.
proof fn lemma_rotation_alternates(s: Seq<Segment>, t: int)
    requires
        0 <= t <= s.len(),
        forall|k: int| 0 <= k < s.len() - 1 ==> (#[trigger] s[k + 1]).color == opposite(s[k].color),
        s.len() > 1 ==> s[0].color == opposite(s[s.len() - 1].color),
    ensures
        forall|k: int|
            0 <= k < s.len() - 1 ==> (#[trigger] (s.subrange(t, s.len() as int) + s.subrange(
                0,
                t,
            ))[k + 1]).color == opposite(
                (s.subrange(t, s.len() as int) + s.subrange(0, t))[k].color,
            ),
        s.len() > 1 ==> (s.subrange(t, s.len() as int) + s.subrange(0, t))[0].color == opposite(
            (s.subrange(t, s.len() as int) + s.subrange(0, t))[s.len() - 1].color,
        ),
{
    let n = s.len() as int;
    let r = s.subrange(t, n) + s.subrange(0, t);
    assert forall|k: int| 0 <= k < n - 1 implies (#[trigger] r[k + 1]).color == opposite(
        r[k].color,
    ) by {
        if k + 1 < n - t {
            assert(r[k] == s[t + k] && r[k + 1] == s[(t + k) + 1]);
        } else if k + 1 == n - t {
            assert(r[k] == s[n - 1] && r[k + 1] == s[0]);
        } else {
            assert(r[k] == s[k - (n - t)] && r[k + 1] == s[(k - (n - t)) + 1]);
        }
    }
    if n > 1 {
        if 0 < t < n {
            assert(r[0] == s[t] && r[n - 1] == s[t - 1]);
            assert(s[(t - 1) + 1].color == opposite(s[t - 1].color));
        } else {
            assert(r =~= s);
        }
    }
}

/// The bisector of segment `k` of a well-formed image sits at the anchor
/// (the first segment's leading edge) advanced by the prefix width plus half
/// the segment's own width; that offset ascends strictly along the chain.
proof fn lemma_bis_is_prefix(im: Image, k: int)
    requires
        im.wf(),
        0 <= k < im.segments@.len(),
    ensures
        ({
            let s = im.segments@;
            let u = prefix_width(s, k) + s[k].half_spec();
            &&& 0 <= u < TURN
            &&& s[k].bisector == angle::add_mod_spec(s[0].start_spec(), u)
        }),
{
    let s = im.segments@;
    lemma_start_is_prefix(im, k);
    assert(s[k].start_spec() == angle::sub_mod_spec(s[k].bisector as int, s[k].half_spec()));
}

/// In a well-formed image the chain offsets of two segments ascend.
proof fn lemma_bis_offset_ascends(im: Image, i: int, j: int)
    requires
        im.wf(),
        0 <= i < j < im.segments@.len(),
    ensures
        prefix_width(im.segments@, i) + im.segments@[i].half_spec() < prefix_width(
            im.segments@,
            j,
        ) + im.segments@[j].half_spec(),
{
    let s = im.segments@;
    lemma_prefix_width_monotone(s, i + 1, j);
    assert(s[i].wf());
    assert(s[j].wf());
    assert(prefix_width(s, i + 1) == prefix_width(s, i) + s[i].width);
}

/// The degenerate build: with no visible occlusion the image is the single
/// full-circle background segment, which is a well-formed partition, and the
/// coverage and containment guarantees hold vacuously.
proof fn lemma_empty_build(occluded: Seq<Segment>, merged: Seq<Segment>, s: Seq<Segment>)
    requires
        occluded.len() == 0,
        merged.len() == 0,
        s =~= seq![full_background_spec()],
    ensures
        wf_seq(s),
        forall|x: int|
            angle::wf_angle(x) && covered_by_some(occluded, x) ==> occluded_cover(s, x),
        forall|k: int| 0 <= k < occluded.len() ==> #[trigger] s.contains(occluded[k]),
        forall|x: int|
            angle::wf_angle(x) && occluded_cover(s, x) ==> covered_by_some(occluded, x),
{
    assert(s.drop_last() =~= Seq::<Segment>::empty());
    assert(total_width(Seq::<Segment>::empty()) == 0);
    assert(total_width(s) == TURN);
    assert(s[0].start_spec() == 0);
    assert(s[0].end_spec() == 0);
    assert forall|x: int|
        angle::wf_angle(x) && covered_by_some(occluded, x) implies occluded_cover(s, x) by {
        reveal(covered_by_some);
        let w = choose|w: int| 0 <= w < occluded.len() && covers_spec(#[trigger] occluded[w], x);
    }
    assert forall|x: int|
        angle::wf_angle(x) && occluded_cover(s, x) implies covered_by_some(occluded, x) by {
        reveal(occluded_cover);
        let i = choose|i: int|
            0 <= i < s.len() && (#[trigger] s[i]).color == Color::Occluded && covers_spec(
                s[i],
                x,
            );
        assert(s[0].color == Color::Background);
    }
}

/// Chains the fill-stage facts and the wrap cut into the builder's final
/// postconditions over the rotated sequence.
proof fn lemma_rotated_build(
    occluded: Seq<Segment>,
    pre_sort: Seq<Segment>,
    merged_seq: Seq<Segment>,
    im0: Image,
    chain: Seq<Segment>,
    rot: Seq<Segment>,
    t: int,
)
    requires
        im0.segments@ == chain,
        wf_seq(chain),
        forall|k: int| 0 <= k < merged_seq.len() ==> #[trigger] chain.contains(merged_seq[k]),
        forall|k: int|
            0 <= k < chain.len() ==> (#[trigger] chain[k]).color == (if k % 2 == 0 {
                Color::Occluded
            } else {
                Color::Background
            }),
        chain.len() == 2 * merged_seq.len() || (merged_seq.len() == 1 && chain.len() == 1),
        forall|k: int|
            0 <= k < chain.len() && (#[trigger] chain[k]).color == Color::Occluded
                ==> merged_seq.contains(chain[k]),
        0 < t <= chain.len(),
        forall|q: int| 0 < q < t ==> (#[trigger] chain[q]).bisector >= chain[0].bisector,
        t < chain.len() ==> chain[t].bisector < chain[0].bisector,
        pairwise_separated(occluded) ==> pre_sort == occluded,
        forall|x: int|
            angle::wf_angle(x) && covered_by_some(occluded, x) ==> covered_by_some(pre_sort, x),
        forall|x: int|
            angle::wf_angle(x) && covered_by_some(pre_sort, x) ==> covered_by_some(occluded, x),
        forall|y: Segment| pre_sort.contains(y) ==> #[trigger] merged_seq.contains(y),
        forall|y: Segment| merged_seq.contains(y) ==> #[trigger] pre_sort.contains(y),
        all_occluded(merged_seq),
        rot == chain.subrange(t, chain.len() as int) + chain.subrange(0, t),
    ensures
        wf_seq(rot),
        pairwise_separated(occluded) ==> forall|k: int|
            0 <= k < occluded.len() ==> #[trigger] rot.contains(occluded[k]),
        forall|x: int|
            angle::wf_angle(x) && covered_by_some(occluded, x) ==> occluded_cover(rot, x),
        forall|x: int|
            angle::wf_angle(x) && occluded_cover(rot, x) ==> covered_by_some(occluded, x),
        rot.len() == 1 || rot.len() % 2 == 0,
        forall|k: int|
            0 <= k < rot.len() - 1 ==> (#[trigger] rot[k + 1]).color == opposite(rot[k].color),
        rot.len() > 1 ==> rot[0].color == opposite(rot[rot.len() - 1].color),
        sorted_by_bisector(rot),
{
    assert forall|k: int|
        0 <= k < chain.len() - 1 implies (#[trigger] chain[k + 1]).color == opposite(
        chain[k].color,
    ) by {
        assert(chain[k].color == (if k % 2 == 0 {
            Color::Occluded
        } else {
            Color::Background
        }));
        assert(chain[k + 1].color == (if (k + 1) % 2 == 0 {
            Color::Occluded
        } else {
            Color::Background
        }));
    }
    if chain.len() > 1 {
        assert((chain.len() - 1) % 2 == 1);
    }
    lemma_rotation_sorts(im0, t);
    lemma_rotation_wf(chain, t);
    lemma_rotation_contains(chain, t);
    lemma_rotation_alternates(chain, t);
    assert forall|k: int| 0 <= k < merged_seq.len() implies #[trigger] rot.contains(
        merged_seq[k],
    ) by {
        assert(chain.contains(merged_seq[k]));
    }
    assert forall|k: int|
        0 <= k < rot.len() && (#[trigger] rot[k]).color == Color::Occluded
            implies merged_seq.contains(rot[k]) by {
        assert(rot.contains(rot[k])) by {
            assert(rot[k] == rot[k]);
        }
        assert(chain.contains(rot[k]));
        let w = choose|w: int| 0 <= w < chain.len() && chain[w] == rot[k];
        assert(chain[w].color == Color::Occluded);
    }
    lemma_builder_containment(occluded, pre_sort, merged_seq, rot);
}

/// Chains the guarantees of the merge, sort and fill stages into the
/// builder's containment and coverage postconditions.
proof fn lemma_builder_containment(
    occluded: Seq<Segment>,
    pre_sort: Seq<Segment>,
    merged_seq: Seq<Segment>,
    segs: Seq<Segment>,
)
    requires
        pairwise_separated(occluded) ==> pre_sort == occluded,
        forall|x: int|
            angle::wf_angle(x) && covered_by_some(occluded, x) ==> covered_by_some(pre_sort, x),
        forall|x: int|
            angle::wf_angle(x) && covered_by_some(pre_sort, x) ==> covered_by_some(occluded, x),
        forall|y: Segment| pre_sort.contains(y) ==> #[trigger] merged_seq.contains(y),
        forall|y: Segment| merged_seq.contains(y) ==> #[trigger] pre_sort.contains(y),
        all_occluded(merged_seq),
        forall|k: int|
            0 <= k < merged_seq.len() ==> #[trigger] segs.contains(merged_seq[k]),
        forall|k: int|
            0 <= k < segs.len() && (#[trigger] segs[k]).color == Color::Occluded
                ==> merged_seq.contains(segs[k]),
    ensures
        pairwise_separated(occluded) ==> forall|k: int|
            0 <= k < occluded.len() ==> #[trigger] segs.contains(occluded[k]),
        forall|x: int|
            angle::wf_angle(x) && covered_by_some(occluded, x) ==> occluded_cover(segs, x),
        forall|x: int|
            angle::wf_angle(x) && occluded_cover(segs, x) ==> covered_by_some(occluded, x),
{
    assert forall|x: int|
        angle::wf_angle(x) && occluded_cover(segs, x) implies covered_by_some(occluded, x) by {
        reveal(covered_by_some);
        reveal(occluded_cover);
        let i = choose|i: int|
            0 <= i < segs.len() && (#[trigger] segs[i]).color == Color::Occluded && covers_spec(
                segs[i],
                x,
            );
        assert(merged_seq.contains(segs[i]));
        assert(pre_sort.contains(segs[i]));
        let w = choose|w: int| 0 <= w < pre_sort.len() && pre_sort[w] == segs[i];
        assert(covers_spec(pre_sort[w], x));
        assert(covered_by_some(pre_sort, x));
    }
    if pairwise_separated(occluded) {
        assert forall|k: int| 0 <= k < occluded.len() implies #[trigger] segs.contains(
            occluded[k],
        ) by {
            assert(pre_sort.contains(occluded[k])) by {
                assert(pre_sort[k] == occluded[k]);
            }
            assert(merged_seq.contains(occluded[k]));
            let w = choose|w: int| 0 <= w < merged_seq.len() && merged_seq[w] == occluded[k];
            assert(segs.contains(merged_seq[w]));
        }
    }
    assert forall|x: int|
        angle::wf_angle(x) && covered_by_some(occluded, x) implies occluded_cover(segs, x) by {
        reveal(covered_by_some);
        reveal(occluded_cover);
        assert(covered_by_some(pre_sort, x));
        let k = choose|k: int| 0 <= k < pre_sort.len() && covers_spec(#[trigger] pre_sort[k], x);
        let y = pre_sort[k];
        assert(pre_sort.contains(y)) by {
            assert(pre_sort[k] == y);
        }
        assert(merged_seq.contains(y));
        let w = choose|w: int| 0 <= w < merged_seq.len() && merged_seq[w] == y;
        assert(segs.contains(merged_seq[w]));
        let z = choose|z: int| 0 <= z < segs.len() && segs[z] == merged_seq[w];
        assert(segs[z].color == Color::Occluded);
        assert(covers_spec(segs[z], x));
    }
}

/// The single full-circle background segment: the degenerate image seen when
/// no obstacle is visible.
pub open spec fn full_background_spec() -> Segment {
    Segment { bisector: HALF_TURN, width: TURN, color: Color::Background }
}

/// The other color.
pub open spec fn opposite(c: Color) -> Color {
    match c {
        Color::Occluded => Color::Background,
        Color::Background => Color::Occluded,
    }
}

/// The segments' bisectors ascend along the sequence.
pub open spec fn sorted_by_bisector(s: Seq<Segment>) -> bool {
    forall|i: int, j: int| 0 <= i < j < s.len() ==> s[i].bisector <= s[j].bisector
}

/// A well-formed partition of the circle: every segment is well-formed,
/// each segment's leading edge is the previous segment's trailing edge
/// (circularly, wrapping from the last back to the first), and the widths
/// sum to precisely one full turn.
pub open spec fn wf_seq(s: Seq<Segment>) -> bool {
    &&& s.len() > 0
    &&& all_wf(s)
    &&& forall|k: int| 0 <= k < s.len() - 1 ==> #[trigger] s[k + 1].start_spec() == s[k].end_spec()
    &&& s[0].start_spec() == s[s.len() - 1].end_spec()
    &&& total_width(s) == TURN
}

/// What the image builder guarantees of an image built from `obstacles` seen
/// from `position`: an exact partition of the circle; the single full-circle
/// background segment when nothing is visible; and every occluded angle
/// covered by an occluded segment.
pub open spec fn built_from(s: Seq<Segment>, obstacles: Seq<Obstacle>, position: Vec2) -> bool {
    &&& wf_seq(s)
    &&& (forall|k: int|
        0 <= k < obstacles.len() ==> (#[trigger] obstacles[k]).map_spec(position) is None) ==> s
        =~= seq![full_background_spec()]
    &&& forall|x: int|
        angle::wf_angle(x) && occluded_at(obstacles, position, obstacles.len() as int, x)
            ==> occluded_cover(s, x)
    &&& forall|x: int|
        angle::wf_angle(x) && occluded_cover(s, x) ==> occluded_at(
            obstacles,
            position,
            obstacles.len() as int,
            x,
        )
    &&& s.len() == 1 || s.len() % 2 == 0
    &&& forall|k: int|
        0 <= k < s.len() - 1 ==> (#[trigger] s[k + 1]).color == opposite(s[k].color)
    &&& s.len() > 1 ==> s[0].color == opposite(s[s.len() - 1].color)
    &&& sorted_by_bisector(s)
}

/// Fill the gaps between sorted, separated occluded arcs with background
/// segments, producing an exact circular partition in chain order: each
/// occluded segment at an even index, the background filler after it at the
/// following odd index (the filler after the last occluded arc wraps around
/// to the first; it is omitted only when a single occluded arc already spans
/// the whole circle).
#[verifier::rlimit(100)]
fn fill_background(merged: Vec<Segment>) -> (out: Vec<Segment>)
    requires
        merged@.len() > 0,
        all_wf(merged@),
        pairwise_separated(merged@),
        all_occluded(merged@),
        sorted_by_start(merged@),
    ensures
        wf_seq(out@),
        forall|k: int| 0 <= k < merged@.len() ==> #[trigger] out@.contains(merged@[k]),
        forall|k: int|
            0 <= k < out@.len() ==> (#[trigger] out@[k]).color == (if k % 2 == 0 {
                Color::Occluded
            } else {
                Color::Background
            }),
        out@.len() == 2 * merged@.len() || (merged@.len() == 1 && out@.len() == 1),
        forall|k: int|
            0 <= k < out@.len() && (#[trigger] out@[k]).color == Color::Occluded
                ==> merged@.contains(out@[k]),
{
    let ghost merged_seq = merged@;
    let n = merged.len();
    let s0 = merged[0].start();
    let mut segs: Vec<Segment> = Vec::new();
    let mut i: usize = 0;
    let mut cursor: u64 = s0;
    while i < n
        invariant
            n == merged@.len(),
            merged@ == merged_seq,
            0 < n,
            all_wf(merged@),
            pairwise_separated(merged@),
            all_occluded(merged@),
            sorted_by_start(merged@),
            s0 == merged@[0].start_spec(),
            0 <= i <= n,
            i < n ==> cursor == merged@[i as int].start_spec(),
            i == n ==> cursor == s0 + TURN,
            s0 <= cursor <= s0 + TURN,
            total_width(segs@) == cursor - s0,
            all_wf(segs@),
            i > 0 ==> segs@.len() > 0,
            segs@.len() > 0 ==> segs@[0].start_spec() == s0,
            segs@.len() > 0 ==> segs@.last().end_spec() == (
                if cursor >= TURN { cursor - TURN } else { cursor as int }
            ),
            forall|k: int|
                0 <= k < segs@.len() - 1 ==> #[trigger] segs@[k + 1].start_spec()
                    == segs@[k].end_spec(),
            forall|k: int|
                0 <= k < merged@.len() && k < i ==> #[trigger] segs@.contains(merged@[k]),
            forall|k: int|
                0 <= k < segs@.len() ==> (#[trigger] segs@[k]).color == (if k % 2 == 0 {
                    Color::Occluded
                } else {
                    Color::Background
                }),
            forall|k: int|
                0 <= k < segs@.len() && k % 2 == 0 ==> #[trigger] segs@[k] == merged@[k / 2],
            i < n ==> segs@.len() == 2 * i,
            i == n ==> segs@.len() == 2 * n || (n == 1 && segs@.len() == 1),
        decreases n - i,
    {
        let current = merged[i];
        proof {
            lemma_total_width_push(segs@, current);
            lemma_contains_push(segs@, current);
        }
        let ghost before_occ = segs@;
        segs.push(current);
        proof {
            assert(segs@ == before_occ.push(current));
            assert(segs@.drop_last() =~= before_occ);
            assert forall|k: int|
                0 <= k < segs@.len() implies (#[trigger] segs@[k]).color == (if k % 2 == 0 {
                Color::Occluded
            } else {
                Color::Background
            }) by {
                if k < segs@.len() - 1 {
                    assert(segs@[k] == before_occ[k]);
                } else {
                    assert(segs@[k] == current);
                }
            }
        }
        // unwrapped trailing edge of the segment just placed
        let reach: u64 = cursor + current.width;
        // unwrapped leading edge of the next occluded segment, or of the
        // first one again after a full turn
        let target: u64 = if i + 1 < n {
            proof {
                lemma_separated_strict(merged@[i as int], merged@[i + 1]);
            }
            merged[i + 1].start()
        } else {
            proof {
                if n > 1 {
                    lemma_mergeable_symmetric(merged@[n - 1], merged@[0]);
                    lemma_separated_strict(merged@[n - 1], merged@[0]);
                }
            }
            s0 + TURN
        };
        let gap: u64 = target - reach;
        proof {
            if n > 1 {
                assert(gap >= 1);
            }
        }
        if gap > 0 {
            let gap_start: u64 = if reach >= TURN {
                reach - TURN
            } else {
                reach
            };
            let filler = Segment {
                bisector: angle::add_mod(gap_start, gap / 2),
                width: gap,
                color: Color::Background,
            };
            proof {
                lemma_total_width_push(segs@, filler);
                lemma_contains_push(segs@, filler);
            }
            let ghost before_fill = segs@;
            segs.push(filler);
            proof {
                assert(segs@ == before_fill.push(filler));
                assert(segs@.drop_last() =~= before_fill);
                assert forall|k: int|
                    0 <= k < segs@.len() implies (#[trigger] segs@[k]).color == (if k % 2
                    == 0 {
                    Color::Occluded
                } else {
                    Color::Background
                }) by {
                    if k < segs@.len() - 1 {
                        assert(segs@[k] == before_fill[k]);
                    } else {
                        assert(segs@[k] == filler);
                    }
                }
                assert forall|k: int|
                    0 <= k < merged@.len() && k < i + 1 implies #[trigger] segs@.contains(
                    merged@[k],
                ) by {
                    assert(before_fill.contains(merged@[k]));
                }
            }
        }
        cursor = target;
        i += 1;
    }
    proof {
        assert(segs@[0].start_spec() == s0);
        assert(segs@.last().end_spec() == s0) by {
            assert(cursor == s0 + TURN);
        }
        assert forall|k: int|
            0 <= k < segs@.len() && (#[trigger] segs@[k]).color == Color::Occluded
                implies merged@.contains(segs@[k]) by {
            assert(k % 2 == 0);
            assert(segs@[k] == merged@[k / 2]);
        }
    }
    segs
}

impl Image {
    /// A well-formed image partitions the circle exactly.
    pub open spec fn wf(self) -> bool {
        wf_seq(self.segments@)
    }

    /// Build the full-circle image from the projected occlusion cones of the
    /// visible obstacles.  Overlapping cones are merged, the gaps are filled
    /// with background segments, and the result tiles the circle exactly.
    ///
    /// When no obstacle is visible the image degenerates to a single
    /// full-circle background segment.
    #[verifier::rlimit(100)]
    #[verifier::spinoff_prover]
    pub fn from_occluded(occluded: Vec<Segment>) -> (im: Image)
        requires
            all_wf(occluded@),
            all_occluded(occluded@),
        ensures
            im.wf(),
            occluded@.len() == 0 ==> im.segments@ =~= seq![full_background_spec()],
            pairwise_separated(occluded@) ==> forall|k: int|
                0 <= k < occluded@.len() ==> #[trigger] im.segments@.contains(occluded@[k]),
            forall|x: int|
                angle::wf_angle(x) && covered_by_some(occluded@, x) ==> occluded_cover(
                    im.segments@,
                    x,
                ),
            forall|x: int|
                angle::wf_angle(x) && occluded_cover(im.segments@, x) ==> covered_by_some(
                    occluded@,
                    x,
                ),
            im.segments@.len() == 1 || im.segments@.len() % 2 == 0,
            forall|k: int|
                0 <= k < im.segments@.len() - 1 ==> (#[trigger] im.segments@[k + 1]).color
                    == opposite(im.segments@[k].color),
            im.segments@.len() > 1 ==> im.segments@[0].color == opposite(
                im.segments@[im.segments@.len() - 1].color,
            ),
            sorted_by_bisector(im.segments@),
    {
        let mut merged = merge_all(occluded);
        if merged.len() == 0 {
            let segs = vec![
                Segment { bisector: HALF_TURN, width: TURN, color: Color::Background },
            ];
            let im = Image { segments: segs };
            proof {
                assert(im.segments@ =~= seq![full_background_spec()]);
                lemma_empty_build(occluded@, merged@, im.segments@);
            }
            return im;
        }
        let ghost pre_sort = merged@;
        sort_by_start(&mut merged);
        let ghost merged_seq = merged@;
        let segs = fill_background(merged);
        let ghost chain = segs@;
        // cut the chain at the first bisector that wrapped past angle zero,
        // so the segments come out sorted by bisector
        let n2 = segs.len();
        let mut t: usize = n2;
        let mut found = false;
        let mut k2: usize = 1;
        while k2 < n2
            invariant
                n2 == segs@.len(),
                segs@ == chain,
                0 < n2,
                1 <= k2 <= n2,
                !found ==> t == n2 && forall|q: int|
                    0 < q < k2 ==> (#[trigger] segs@[q]).bisector >= segs@[0].bisector,
                found ==> 0 < t < n2 && segs@[t as int].bisector < segs@[0].bisector && forall|
                    q: int,
                |
                    0 < q < t ==> (#[trigger] segs@[q]).bisector >= segs@[0].bisector,
            decreases n2 - k2,
        {
            if !found && segs[k2].bisector < segs[0].bisector {
                t = k2;
                found = true;
            }
            k2 += 1;
        }
        let mut rotated: Vec<Segment> = Vec::new();
        let mut a: usize = t;
        while a < n2
            invariant
                n2 == segs@.len(),
                segs@ == chain,
                t <= a <= n2,
                rotated@ == segs@.subrange(t as int, a as int),
            decreases n2 - a,
        {
            let ghost prev = rotated@;
            rotated.push(segs[a]);
            proof {
                assert(rotated@ =~= segs@.subrange(t as int, a + 1));
            }
            a += 1;
        }
        let mut b2: usize = 0;
        while b2 < t
            invariant
                n2 == segs@.len(),
                segs@ == chain,
                0 <= b2 <= t <= n2,
                rotated@ == segs@.subrange(t as int, n2 as int) + segs@.subrange(0, b2 as int),
            decreases t - b2,
        {
            rotated.push(segs[b2]);
            proof {
                assert(rotated@ =~= segs@.subrange(t as int, n2 as int) + segs@.subrange(
                    0,
                    b2 + 1,
                ));
            }
            b2 += 1;
        }
        let im = Image { segments: rotated };
        proof {
            let rot = chain.subrange(t as int, chain.len() as int) + chain.subrange(0, t as int);
            assert(im.segments@ =~= rot);
            let im0 = Image { segments: segs };
            lemma_rotated_build(occluded@, pre_sort, merged_seq, im0, chain, rot, t as int);
        }
        im
    }

    /// Build the panoramic image seen from `position`: project every
    /// obstacle, keep the occlusion cones that exist, and partition the
    /// circle around them.
    pub fn new(position: Vec2, obstacles: &Vec<Obstacle>) -> (im: Image)
        requires
            position.within(WORLD_LIMIT as int),
            forall|k: int| 0 <= k < obstacles@.len() ==> (#[trigger] obstacles@[k]).wf(),
        ensures
            im.wf(),
            (forall|k: int|
                0 <= k < obstacles@.len() ==> (#[trigger] obstacles@[k]).map_spec(position)
                    is None) ==> im.segments@ =~= seq![full_background_spec()],
            forall|x: int|
                angle::wf_angle(x) && occluded_at(obstacles@, position, obstacles@.len() as int, x)
                    ==> occluded_cover(im.segments@, x),
            forall|x: int|
                angle::wf_angle(x) && occluded_cover(im.segments@, x) ==> occluded_at(
                    obstacles@,
                    position,
                    obstacles@.len() as int,
                    x,
                ),
            built_from(im.segments@, obstacles@, position),
            im.segments@.len() == 1 || im.segments@.len() % 2 == 0,
            sorted_by_bisector(im.segments@),
    {
        let mut occluded: Vec<Segment> = Vec::new();
        let n = obstacles.len();
        proof {
            assert forall|x: int|
                angle::wf_angle(x) && occluded_at(obstacles@, position, 0, x)
                    implies covered_by_some(occluded@, x) by {
                reveal(occluded_at);
            }
            assert forall|x: int|
                angle::wf_angle(x) && covered_by_some(occluded@, x) implies occluded_at(
                obstacles@,
                position,
                0,
                x,
            ) by {
                reveal(covered_by_some);
            }
        }
        let mut i: usize = 0;
        while i < n
            invariant
                n == obstacles@.len(),
                0 <= i <= n,
                position.within(WORLD_LIMIT as int),
                forall|k: int| 0 <= k < n ==> (#[trigger] obstacles@[k]).wf(),
                all_wf(occluded@),
                all_occluded(occluded@),
                (forall|k: int|
                    0 <= k < i ==> (#[trigger] obstacles@[k]).map_spec(position) is None)
                    ==> occluded@.len() == 0,
                occluded@.len() == 0 ==> forall|k: int|
                    0 <= k < i ==> (#[trigger] obstacles@[k]).map_spec(position) is None,
                forall|x: int|
                    angle::wf_angle(x) && occluded_at(obstacles@, position, i as int, x)
                        ==> covered_by_some(occluded@, x),
                forall|x: int|
                    angle::wf_angle(x) && covered_by_some(occluded@, x) ==> occluded_at(
                        obstacles@,
                        position,
                        i as int,
                        x,
                    ),
            decreases n - i,
        {
            let ghost before = occluded@;
            let projected = obstacles[i].map(position);
            match projected {
                Some(seg) => {
                    occluded.push(seg);
                },
                None => {},
            }
            proof {
                assert(projected == obstacles@[i as int].map_spec(position));
                lemma_projection_step(obstacles@, position, before, occluded@, i as int);
            }
            i += 1;
        }
        Image::from_occluded(occluded)
    }
}

} // verus!
