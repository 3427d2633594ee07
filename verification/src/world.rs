//! The world: an immutable set of obstacles plus the rectangular grid of
//! integer cells the bee may stand on.

use vstd::prelude::*;
use crate::obstacle::Obstacle;
use crate::obstacle::WORLD_LIMIT;
use crate::trig::SCALE;

verus! {

/// Largest grid coordinate magnitude, chosen so that a grid cell scaled by
/// `SCALE` stays within `WORLD_LIMIT`.
pub const GRID_LIMIT: i64 = 16384;

/// A rectangular grid of integer cells: `x` in `[x_start, x_end)`, `y` in
/// `[y_start, y_end)`.
#[derive(Clone, Copy, PartialEq, Eq, Structural, Debug)]
pub struct Grid {
    /// First column.
    pub x_start: i64,
    /// One past the last column.
    pub x_end: i64,
    /// First row.
    pub y_start: i64,
    /// One past the last row.
    pub y_end: i64,
}

impl Grid {
    /// A well-formed grid: nonempty ranges within the world bounds.
    pub open spec fn wf(self) -> bool {
        &&& -GRID_LIMIT <= self.x_start < self.x_end <= GRID_LIMIT
        &&& -GRID_LIMIT <= self.y_start < self.y_end <= GRID_LIMIT
    }

    /// Number of columns.
    pub open spec fn width_spec(self) -> int {
        self.x_end - self.x_start
    }

    /// Number of rows.
    pub open spec fn height_spec(self) -> int {
        self.y_end - self.y_start
    }

    /// Whether the cell `(x, y)` lies on the grid.
    pub open spec fn on_grid(self, x: int, y: int) -> bool {
        self.x_start <= x < self.x_end && self.y_start <= y < self.y_end
    }
}

/// A grid cell as a fixed-point world position.
pub open spec fn cell_position_spec(x: int, y: int) -> crate::vec2::Vec2 {
    crate::vec2::Vec2 { x: (x * SCALE) as i64, y: (y * SCALE) as i64 }
}

/// The world: obstacles (not necessarily on the grid) and the traversable
/// grid.
pub struct World {
    /// The obstacles in the world.
    pub obstacles: Vec<Obstacle>,
    /// The grid the bee is allowed to move on.
    pub grid: Grid,
}

impl World {
    /// A well-formed world: a well-formed grid and well-formed obstacles.
    pub open spec fn wf(self) -> bool {
        &&& self.grid.wf()
        &&& forall|k: int| 0 <= k < self.obstacles@.len() ==> (#[trigger] self.obstacles@[k]).wf()
    }


    /// Turn a grid cell into a fixed-point world position.
    pub fn cell_position(x: i64, y: i64) -> (r: crate::vec2::Vec2)
        requires
            -GRID_LIMIT <= x <= GRID_LIMIT,
            -GRID_LIMIT <= y <= GRID_LIMIT,
        ensures
            r == cell_position_spec(x as int, y as int),
            r.x == x * SCALE,
            r.y == y * SCALE,
            r.within(WORLD_LIMIT as int),
    {
        crate::vec2::Vec2 { x: x * SCALE, y: y * SCALE }
    }
}

} // verus!
