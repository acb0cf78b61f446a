use vstd::prelude::*;

use crate::consts::{AGENT_RADIUS, GRID_HALF_SIZE, GRID_SIZE, GRID_SPLIT, HALF_COST, MAX_COST};
use crate::geometry::Vec2;
use crate::kinematics::Kinematics;

verus! {

/// Half a turn, in micro-radians.
pub const HALF_TURN: i32 = 3_141_593;

/// One cell of the cost map.
#[derive(Clone, Copy, Debug, PartialEq, Eq, Structural)]
pub enum Cell {
    Uncrossable,
    /// A cell that can be crossed at this traversal cost.
    Crossable(u32),
}

/// The static cost map, row-major, `width` cells per row.
pub struct Grid {
    pub cells: Vec<Cell>,
    pub width: usize,
}

/// The cell at row `i` and column `j` of the standard `n`-by-`n` map: a wall
/// all around, a band of columns between two fifths and three fifths of the
/// width whose cost grows with the row, and the ordinary cost elsewhere.
pub open spec fn standard_cell(i: int, j: int, n: int) -> Cell {
    if i == 0 || j == 0 || i == n - 1 || j == n - 1 {
        Cell::Uncrossable
    } else if j > 2 * n / 5 && j < 3 * n / 5 {
        Cell::Crossable((MAX_COST * i / n) as u32)
    } else {
        Cell::Crossable(HALF_COST)
    }
}

/// The standard cost map, `GRID_SPLIT` cells on each side.
pub fn init_grid() -> (r: Grid)
    ensures
        r.width == GRID_SPLIT,
        r.cells@.len() == GRID_SPLIT * GRID_SPLIT,
        forall|i: int, j: int|
            0 <= i < GRID_SPLIT && 0 <= j < GRID_SPLIT ==> #[trigger] r.cells@[i * GRID_SPLIT + j]
                == standard_cell(i, j, GRID_SPLIT as int),
{
    let n = GRID_SPLIT;
    let mut cells: Vec<Cell> = Vec::new();
    let mut i: usize = 0;
    while i < n
        invariant
            n == GRID_SPLIT,
            i <= n,
            cells@.len() == i * n,
            forall|a: int, b: int|
                0 <= a < i && 0 <= b < n ==> #[trigger] cells@[a * n + b] == standard_cell(a, b, n as int),
        decreases n - i,
    {
        let mut j: usize = 0;
        while j < n
            invariant
                n == GRID_SPLIT,
                i < n,
                j <= n,
                cells@.len() == i * n + j,
                forall|a: int, b: int|
                    0 <= a < i && 0 <= b < n ==> #[trigger] cells@[a * n + b] == standard_cell(a, b, n as int),
                forall|b: int| 0 <= b < j ==> #[trigger] cells@[i * n + b] == standard_cell(i as int, b, n as int),
            decreases n - j,
        {
            let cell = if i == 0 || j == 0 || i == n - 1 || j == n - 1 {
                Cell::Uncrossable
            } else if j > 2 * n / 5 && j < 3 * n / 5 {
                Cell::Crossable(MAX_COST * (i as u32) / (n as u32))
            } else {
                Cell::Crossable(HALF_COST)
            };
            cells.push(cell);
            j = j + 1;
        }
        i = i + 1;
    }
    Grid { cells, width: n }
}

/// The starting state of the agent in row `i` and column `j` of the layout.
pub open spec fn start_kinematics(i: int, j: int) -> Kinematics {
    Kinematics {
        p: Vec2 {
            x: ((j + 1) * GRID_SIZE / 3 - GRID_HALF_SIZE) as i32,
            y: ((i + 1) * GRID_SIZE / 3 - GRID_HALF_SIZE) as i32,
        },
        v: Vec2 { x: 0, y: 0 },
        a: Vec2 { x: 0, y: 0 },
        theta: (j * HALF_TURN) as i32,
        radius: AGENT_RADIUS,
    }
}

/// The starting layout: four agents at rest on a 2-by-2 lattice at one and two
/// thirds of the grid's side, those of the second column facing the other way.
pub fn init_agent_kinematics() -> (r: Vec<Kinematics>)
    ensures
        r@.len() == 4,
        forall|i: int, j: int|
            0 <= i < 2 && 0 <= j < 2 ==> #[trigger] r@[2 * i + j] == start_kinematics(i, j),
{
    let mut out: Vec<Kinematics> = Vec::new();
    let mut i: i32 = 0;
    while i < 2
        invariant
            0 <= i <= 2,
            out@.len() == 2 * i,
            forall|a: int, b: int|
                0 <= a < i && 0 <= b < 2 ==> #[trigger] out@[2 * a + b] == start_kinematics(a, b),
        decreases 2 - i,
    {
        let mut j: i32 = 0;
        while j < 2
            invariant
                0 <= i < 2,
                0 <= j <= 2,
                out@.len() == 2 * i + j,
                forall|a: int, b: int|
                    0 <= a < i && 0 <= b < 2 ==> #[trigger] out@[2 * a + b] == start_kinematics(a, b),
                forall|b: int|
                    0 <= b < j ==> #[trigger] out@[2 * i + b] == start_kinematics(i as int, b as int),
            decreases 2 - j,
        {
            let k = Kinematics {
                p: Vec2 {
                    x: (j + 1) * (GRID_SIZE / 3) + (j + 1) * (GRID_SIZE % 3) / 3 - GRID_HALF_SIZE,
                    y: (i + 1) * (GRID_SIZE / 3) + (i + 1) * (GRID_SIZE % 3) / 3 - GRID_HALF_SIZE,
                },
                v: Vec2::zeros(),
                a: Vec2::zeros(),
                theta: j * HALF_TURN,
                radius: AGENT_RADIUS,
            };
            out.push(k);
            j = j + 1;
        }
        i = i + 1;
    }
    out
}

} // verus!
