//! The bee: a stored snapshot image, captured once at the home position, and
//! a current position from which homing queries are made.

use vstd::prelude::*;
use crate::image::built_from;
use crate::image::Image;
use crate::vec2::Vec2;
use crate::world::World;
use crate::obstacle::WORLD_LIMIT;
use crate::homing;
use crate::homing::steer_spec;
use crate::homing::fully_matched_spec;
use crate::homing::HomingError;
use crate::segment::Segment;
use crate::trig::SCALE;

verus! {

/// A bee with a fixed snapshot and a movable position.
pub struct Bee {
    /// The panoramic image captured at the home position; never recomputed.
    pub snapshot: Image,
    /// The bee's current position (fixed-point world coordinates).
    pub position: Vec2,
}

impl Bee {
    /// A well-formed bee: a well-formed snapshot and a position in world
    /// range.
    pub open spec fn wf(self) -> bool {
        &&& self.snapshot.wf()
        &&& self.position.within(WORLD_LIMIT as int)
    }

    /// Create a bee at `home_position`, capturing the snapshot there: the
    /// snapshot carries everything the image builder guarantees of the view
    /// from the home position.
    pub fn new(world: &World, home_position: Vec2) -> (b: Bee)
        requires
            world.wf(),
            home_position.within(WORLD_LIMIT as int),
        ensures
            b.wf(),
            b.position == home_position,
            built_from(b.snapshot.segments@, world.obstacles@, home_position),
    {
        let snapshot = Image::new(home_position, &world.obstacles);
        Bee { snapshot, position: home_position }
    }

    /// Capture a fresh retina image at the current position and derive the
    /// steering vector against the stored snapshot, with the default
    /// positioning weight: for a retina carrying the builder's guarantees at
    /// the current position, the query succeeds with the engine's steering
    /// vector exactly when every snapshot segment finds a same-color retina
    /// segment, and fails with the explicit error otherwise.  A retina that
    /// coincides with the snapshot yields the zero sentinel.
    pub fn home(&self, world: &World) -> (r: Result<Vec2, HomingError>)
        requires
            self.wf(),
            world.wf(),
        ensures
            exists|ret: Seq<Segment>|
                #[trigger] built_from(ret, world.obstacles@, self.position) && r == (
                if fully_matched_spec(self.snapshot.segments@, ret) {
                    Result::<Vec2, HomingError>::Ok(
                        steer_spec(
                            self.snapshot.segments@,
                            ret,
                            homing::DEFAULT_POSITIONING_WEIGHT as int,
                        ),
                    )
                } else {
                    Result::<Vec2, HomingError>::Err(HomingError::NoMatchingSegment)
                }),
            r matches Ok(v) ==> -SCALE <= v.x <= SCALE && -SCALE <= v.y <= SCALE,
            r matches Ok(v) ==> v == crate::homing::zero_vec_spec() || (SCALE - 3
                <= crate::vec2::len_spec(v) <= SCALE),
            r matches Err(e) ==> e == HomingError::NoMatchingSegment,
    {
        let retina = Image::new(self.position, &world.obstacles);
        let out = homing::compute_homing_vector(
            &self.snapshot,
            &retina,
            homing::DEFAULT_POSITIONING_WEIGHT,
        );
        proof {
            let ret = retina.segments@;
            assert(built_from(ret, world.obstacles@, self.position));
            if fully_matched_spec(self.snapshot.segments@, ret) {
                assert(out == Result::<Vec2, HomingError>::Ok(
                    steer_spec(
                        self.snapshot.segments@,
                        ret,
                        homing::DEFAULT_POSITIONING_WEIGHT as int,
                    ),
                ));
            } else {
                assert(out == Result::<Vec2, HomingError>::Err(HomingError::NoMatchingSegment));
            }
        }
        out
    }
}

} // verus!
