//! The vector field driver: evaluate the homing vector on every grid cell.

use vstd::prelude::*;
use crate::bee::Bee;
use crate::homing::fully_matched_spec;
use crate::homing::steer_spec;
use crate::homing::zero_vec_spec;
use crate::homing::DEFAULT_POSITIONING_WEIGHT;
use crate::image::built_from;
use crate::obstacle::Obstacle;
use crate::segment::Segment;
use crate::vec2::Vec2;
use crate::world::cell_position_spec;
use crate::world::Grid;
use crate::world::World;
use crate::trig::SCALE;

verus! {

/// The homing vector evaluated at every cell of a grid.  Row `r` holds the
/// cells with `y == y_end - 1 - r` (top row first), column `c` the cells
/// with `x == x_start + c`.
pub struct VectorField {
    /// The grid the field was evaluated on.
    pub grid: Grid,
    /// The vectors, one row per grid `y`, top row first.
    pub vectors: Vec<Vec<Vec2>>,
}

/// What a stored cell value means: against some retina carrying the image
/// builder's guarantees at the cell's position, the value is the engine's
/// steering vector when the snapshot is fully matched, and the zero sentinel
/// when the homing query fails there.
pub open spec fn cell_ok(v: Vec2, snap: Seq<Segment>, obstacles: Seq<Obstacle>, x: int, y: int) -> bool {
    exists|ret: Seq<Segment>|
        #[trigger] built_from(ret, obstacles, cell_position_spec(x, y)) && v == (
        if fully_matched_spec(snap, ret) {
            steer_spec(snap, ret, DEFAULT_POSITIONING_WEIGHT as int)
        } else {
            zero_vec_spec()
        })
}

impl VectorField {
    /// A well-formed field: one vector per grid cell, each of at most unit
    /// length per component.
    pub open spec fn wf(self) -> bool {
        &&& self.grid.wf()
        &&& self.vectors@.len() == self.grid.height_spec()
        &&& forall|r: int|
            0 <= r < self.vectors@.len() ==> (#[trigger] self.vectors@[r])@.len()
                == self.grid.width_spec()
        &&& forall|r: int, c: int|
            0 <= r < self.vectors@.len() && 0 <= c < self.vectors@[r]@.len() ==> {
                let v = #[trigger] self.vectors@[r]@[c];
                -SCALE <= v.x <= SCALE && -SCALE <= v.y <= SCALE
            }
    }

    /// The storage slot of the grid cell `(x, y)`: `(row, column)`, with the
    /// row order reversed so that larger `y` comes first.
    pub fn index(&self, x: i64, y: i64) -> (r: (usize, usize))
        requires
            self.grid.wf(),
            self.grid.on_grid(x as int, y as int),
        ensures
            r.0 == self.grid.height_spec() - 1 - (y - self.grid.y_start),
            r.1 == x - self.grid.x_start,
            r.0 < self.grid.height_spec(),
            r.1 < self.grid.width_spec(),
    {
        let height_total = self.grid.y_end - self.grid.y_start;
        let row = height_total - (y - self.grid.y_start) - 1;
        let col = x - self.grid.x_start;
        (row as usize, col as usize)
    }

    /// Evaluate the homing vector at every grid cell: place the bee on the
    /// cell, query it, and store the steering vector (the zero sentinel for
    /// a cell on which the query fails, so one bad cell does not abort the
    /// sweep).
    pub fn generate(bee: Bee, world: &World) -> (out: VectorField)
        requires
            bee.wf(),
            world.wf(),
        ensures
            out.wf(),
            out.grid == world.grid,
            forall|x: int, y: int|
                #[trigger] world.grid.on_grid(x, y) ==> cell_ok(
                    out.vectors@[world.grid.height_spec() - 1 - (y - world.grid.y_start)]@[x
                        - world.grid.x_start],
                    bee.snapshot.segments@,
                    world.obstacles@,
                    x,
                    y,
                ),
    {
        let grid = world.grid;
        let mut roving = bee;
        let mut rows: Vec<Vec<Vec2>> = Vec::new();
        let height = grid.y_end - grid.y_start;
        let width = grid.x_end - grid.x_start;
        let mut r: i64 = 0;
        while r < height
            invariant
                grid == world.grid,
                grid.wf(),
                world.wf(),
                roving.snapshot == bee.snapshot,
                bee.wf(),
                height == grid.height_spec(),
                width == grid.width_spec(),
                0 <= r <= height,
                rows@.len() == r,
                forall|p: int| 0 <= p < r ==> (#[trigger] rows@[p])@.len() == width,
                forall|p: int, c: int|
                    0 <= p < r && 0 <= c < rows@[p]@.len() ==> {
                        let v = #[trigger] rows@[p]@[c];
                        -SCALE <= v.x <= SCALE && -SCALE <= v.y <= SCALE
                    },
                forall|p: int, c: int|
                    0 <= p < r && 0 <= c < width ==> cell_ok(
                        #[trigger] rows@[p]@[c],
                        bee.snapshot.segments@,
                        world.obstacles@,
                        grid.x_start + c,
                        grid.y_end - 1 - p,
                    ),
            decreases height - r,
        {
            let y = grid.y_end - 1 - r;
            let mut row: Vec<Vec2> = Vec::new();
            let mut c: i64 = 0;
            while c < width
                invariant
                    grid == world.grid,
                    grid.wf(),
                    world.wf(),
                    roving.snapshot == bee.snapshot,
                    bee.wf(),
                    width == grid.width_spec(),
                    y == grid.y_end - 1 - r,
                    0 <= r < grid.height_spec(),
                    0 <= c <= width,
                    row@.len() == c,
                    forall|p: int|
                        0 <= p < c ==> {
                            let v = #[trigger] row@[p];
                            -SCALE <= v.x <= SCALE && -SCALE <= v.y <= SCALE
                        },
                    forall|p: int|
                        0 <= p < c ==> cell_ok(
                            #[trigger] row@[p],
                            bee.snapshot.segments@,
                            world.obstacles@,
                            grid.x_start + p,
                            y as int,
                        ),
                decreases width - c,
            {
                let x = grid.x_start + c;
                roving.position = World::cell_position(x, y);
                let out = roving.home(world);
                proof {
                    let ret = choose|ret: Seq<Segment>|
                        #[trigger] built_from(ret, world.obstacles@, roving.position) && out == (
                        if fully_matched_spec(roving.snapshot.segments@, ret) {
                            Result::<Vec2, crate::homing::HomingError>::Ok(
                                steer_spec(
                                    roving.snapshot.segments@,
                                    ret,
                                    DEFAULT_POSITIONING_WEIGHT as int,
                                ),
                            )
                        } else {
                            Result::<Vec2, crate::homing::HomingError>::Err(
                                crate::homing::HomingError::NoMatchingSegment,
                            )
                        });
                    assert(roving.position == cell_position_spec(x as int, y as int));
                    let stored = match out {
                        Result::Ok(v) => v,
                        Result::Err(_) => zero_vec_spec(),
                    };
                    assert(built_from(ret, world.obstacles@, cell_position_spec(x as int, y as int)));
                    assert(stored == (
                        if fully_matched_spec(bee.snapshot.segments@, ret) {
                            steer_spec(bee.snapshot.segments@, ret, DEFAULT_POSITIONING_WEIGHT as int)
                        } else {
                            zero_vec_spec()
                        }
                    ));
                    assert(cell_ok(
                        stored,
                        bee.snapshot.segments@,
                        world.obstacles@,
                        x as int,
                        y as int,
                    ));
                }
                let v = match out {
                    Ok(v) => v,
                    Err(_) => Vec2 { x: 0, y: 0 },
                };
                row.push(v);
                c += 1;
            }
            rows.push(row);
            r += 1;
        }
        let out = VectorField { grid, vectors: rows };
        proof {
            assert forall|x: int, y: int| #[trigger] world.grid.on_grid(x, y) implies cell_ok(
                out.vectors@[world.grid.height_spec() - 1 - (y - world.grid.y_start)]@[x
                    - world.grid.x_start],
                bee.snapshot.segments@,
                world.obstacles@,
                x,
                y,
            ) by {
                let p = world.grid.height_spec() - 1 - (y - world.grid.y_start);
                let c = x - world.grid.x_start;
                assert(cell_ok(
                    rows@[p]@[c],
                    bee.snapshot.segments@,
                    world.obstacles@,
                    grid.x_start + c,
                    grid.y_end - 1 - p,
                ));
            }
        }
        out
    }
}

} // verus!
