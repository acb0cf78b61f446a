use vstd::prelude::*;

verus! {

/// Largest traversal cost of a grid cell.
pub const MAX_COST: u32 = 1000;
/// Side of one grid cell, in micro-units.
pub const CELL_SIZE: i32 = 5_000_000;
/// Number of cells along each side of the grid.
pub const GRID_SPLIT: usize = 100;

/// Traversal cost of an ordinary cell.
pub const HALF_COST: u32 = MAX_COST / 2;
/// Side of the whole grid, in micro-units.
pub const GRID_SIZE: i32 = 100 * CELL_SIZE;
/// Distance from the grid's centre to each of its edges, in micro-units.
pub const GRID_HALF_SIZE: i32 = 250_000_000;
/// Width of the lines the display draws, in micro-units.
pub const LINE_WIDTH: i32 = 500_000;
/// Collision radius of an agent, in micro-units.
pub const AGENT_RADIUS: i32 = 2 * CELL_SIZE;
/// An agent this close to its mission's target completes the mission.
pub const DISTANCE_TO_TARGET: i32 = 5_000_000;

/// Share of a velocity kept over one tick of drag, as `RETENTION_NUM / RETENTION_DEN`:
/// four fifths of it are kept over a thousand ticks.
pub const RETENTION_NUM: u32 = 999_777;
pub const RETENTION_DEN: u32 = 1_000_000;
/// Largest magnitude of each component of a commanded acceleration.
pub const MAX_ACCEL: i32 = 100;

} // verus!
