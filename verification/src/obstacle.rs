//! Obstacles and their projection onto the image circle: each visible
//! obstacle blocks one angular cone, reported as an occluded segment.

use vstd::prelude::*;
use crate::trig;
use crate::vec2::Vec2;
use crate::segment::Color;
use crate::segment::Segment;
use crate::angle::HALF_TURN;

verus! {

/// Largest coordinate magnitude for obstacle centers, radii and viewpoints
/// (fixed-point units), so squared distances stay within machine range.
pub const WORLD_LIMIT: i64 = 1073741824;

/// A circular obstacle: a disc that blocks the view.
#[derive(Clone, Copy, PartialEq, Eq, Structural, Debug)]
pub struct Circle {
    /// Center of the disc, fixed-point coordinates.
    pub center: Vec2,
    /// Radius of the disc, fixed-point, positive.
    pub radius: i64,
}

impl Circle {
    /// A well-formed circle: center in world range, radius positive and in
    /// range.
    pub open spec fn wf(self) -> bool {
        &&& self.center.within(WORLD_LIMIT as int)
        &&& 0 < self.radius <= WORLD_LIMIT
    }

    /// Squared distance from `position` to the center.
    pub open spec fn dist2_spec(self, position: Vec2) -> int {
        let dx = self.center.x - position.x;
        let dy = self.center.y - position.y;
        dx * dx + dy * dy
    }

    /// The occlusion cone of the disc seen from `position`: none when the
    /// viewpoint is inside the disc or on its rim (the projection is
    /// undefined there), else one occluded segment whose bisector points at
    /// the center and whose width is twice the half-angle of the tangent
    /// cone (clamped up to one angle unit so the segment never degenerates).
    /// At a viewpoint one grid unit outside the rim the rounded arcsine can
    /// reach a full quarter turn, so the width can come out as exactly half
    /// a turn, one rounding step above the open bound of the exact cone.
    pub open spec fn map_spec(self, position: Vec2) -> Option<Segment> {
        let dx = self.center.x - position.x;
        let dy = self.center.y - position.y;
        if self.dist2_spec(position) <= self.radius * self.radius {
            Option::None
        } else {
            let d = trig::isqrt_spec(self.dist2_spec(position));
            let w = 2 * trig::asin_frac_spec(self.radius as int, d);
            Option::Some(
                Segment {
                    bisector: trig::atan2_spec(dy, dx) as u64,
                    width: (if w == 0 {
                        1int
                    } else {
                        w
                    }) as u64,
                    color: Color::Occluded,
                },
            )
        }
    }

    /// Project the disc onto the image circle as seen from `position`.
    pub fn map(&self, position: Vec2) -> (r: Option<Segment>)
        requires
            self.wf(),
            position.within(WORLD_LIMIT as int),
        ensures
            r == self.map_spec(position),
            r is None <==> self.dist2_spec(position) <= self.radius * self.radius,
            r matches Some(s) ==> s.wf() && s.color == Color::Occluded && s.width <= HALF_TURN,
    {
        let dx: i64 = self.center.x - position.x;
        let dy: i64 = self.center.y - position.y;
        let adx: u64 = if dx < 0 {
            (-dx) as u64
        } else {
            dx as u64
        };
        let ady: u64 = if dy < 0 {
            (-dy) as u64
        } else {
            dy as u64
        };
        proof {
            assert(adx * adx == dx * dx && ady * ady == dy * dy && adx * adx + ady * ady
                <= 0x8000000000000000int) by (nonlinear_arith)
                requires
                    0 <= adx <= 2147483648int,
                    0 <= ady <= 2147483648int,
                    adx == (if dx < 0 { -dx as int } else { dx as int }),
                    ady == (if dy < 0 { -dy as int } else { dy as int }),
            ;
        }
        let d2: u64 = adx * adx + ady * ady;
        proof {
            assert(self.radius * self.radius <= 1073741824int * 1073741824int)
                by (nonlinear_arith)
                requires
                    0 < self.radius <= 1073741824int,
            ;
        }
        let r2: u64 = (self.radius as u64) * (self.radius as u64);
        if d2 <= r2 {
            None
        } else {
            let d: u64 = trig::isqrt64(d2);
            proof {
                assert(self.radius <= d && 0 < d) by (nonlinear_arith)
                    requires
                        0 <= d,
                        0 < self.radius,
                        d2 > self.radius * self.radius,
                        d2 < (d + 1) * (d + 1),
                ;
            }
            let bis: u64 = trig::atan2_fp(dy, dx);
            let half_cone: u64 = trig::asin_frac(self.radius as u64, d);
            let w: u64 = 2 * half_cone;
            let width: u64 = if w == 0 {
                1
            } else {
                w
            };
            Some(Segment { bisector: bis, width, color: Color::Occluded })
        }
    }
}

/// The closed set of obstacle shapes: anything that can report the angular
/// cone it blocks from a viewpoint.
#[derive(Clone, Copy, PartialEq, Eq, Structural, Debug)]
pub enum Obstacle {
    /// A circular silhouette.
    Circle(Circle),
}

impl Obstacle {
    /// A well-formed obstacle.
    pub open spec fn wf(self) -> bool {
        match self {
            Obstacle::Circle(c) => c.wf(),
        }
    }

    /// The occlusion cone of the obstacle seen from `position`.
    pub open spec fn map_spec(self, position: Vec2) -> Option<Segment> {
        match self {
            Obstacle::Circle(c) => c.map_spec(position),
        }
    }

    /// Project the obstacle onto the image circle as seen from `position`.
    pub fn map(&self, position: Vec2) -> (r: Option<Segment>)
        requires
            self.wf(),
            position.within(WORLD_LIMIT as int),
        ensures
            r == self.map_spec(position),
            r matches Some(s) ==> s.wf() && s.color == Color::Occluded,
    {
        match self {
            Obstacle::Circle(c) => c.map(position),
        }
    }
}

} // verus!
