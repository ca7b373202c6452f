//! The board as a grid of cells, and what a move makes of it.

use vstd::prelude::*;
use crate::block::BlockSize;
use crate::constants::{COLS_COUNT, GameMovementDirection, ROWS_COUNT};
use crate::lane::{slide, Lane};

verus! {

/// The cells of a board: `grid[y][x]` is the cell in column `x` of row `y`.
pub type Grid = Seq<Seq<Option<BlockSize>>>;

/// Whether `(x, y)` names a cell of the board.
pub open spec fn in_bounds(x: int, y: int) -> bool {
    0 <= x < COLS_COUNT && 0 <= y < ROWS_COUNT
}

/// Whether `grid` has the board's rows and columns.
pub open spec fn well_formed(grid: Grid) -> bool {
    &&& grid.len() == ROWS_COUNT
    &&& forall|y: int| 0 <= y < ROWS_COUNT ==> (#[trigger] grid[y]).len() == COLS_COUNT
}

/// The board without any tile.
pub open spec fn empty_grid() -> Grid {
    Seq::new(ROWS_COUNT as nat, |y: int| Seq::new(COLS_COUNT as nat, |x: int| None))
}

/// `grid` with the cell at `(x, y)` replaced by `cell`.
pub open spec fn put(grid: Grid, x: int, y: int, cell: Option<BlockSize>) -> Grid {
    grid.update(y, grid[y].update(x, cell))
}

/// Whether a move in `direction` runs along the columns.
pub open spec fn vertical(direction: GameMovementDirection) -> bool {
    direction == GameMovementDirection::Up || direction == GameMovementDirection::Down
}

/// The number of cells in a lane of a move in `direction`.
pub open spec fn lane_len(direction: GameMovementDirection) -> int {
    if vertical(direction) {
        ROWS_COUNT as int
    } else {
        COLS_COUNT as int
    }
}

/// How far the cell at `(x, y)` lies from the edge that `direction` pushes
/// toward, counted in cells.
pub open spec fn depth(direction: GameMovementDirection, x: int, y: int) -> int {
    match direction {
        GameMovementDirection::Up => y,
        GameMovementDirection::Down => ROWS_COUNT - 1 - y,
        GameMovementDirection::Left => x,
        GameMovementDirection::Right => COLS_COUNT - 1 - x,
    }
}

/// The cell at depth `k` of the lane through `(x, y)`.
pub open spec fn lane_coord(direction: GameMovementDirection, x: int, y: int, k: int) -> (
    int,
    int,
) {
    match direction {
        GameMovementDirection::Up => (x, k),
        GameMovementDirection::Down => (x, ROWS_COUNT - 1 - k),
        GameMovementDirection::Left => (k, y),
        GameMovementDirection::Right => (COLS_COUNT - 1 - k, y),
    }
}

/// The lane through `(x, y)` of a move in `direction`: the column or row of
/// that cell, listed from the edge that the move pushes toward.
pub open spec fn lane(grid: Grid, direction: GameMovementDirection, x: int, y: int) -> Lane {
    Seq::new(
        lane_len(direction) as nat,
        |k: int| grid[lane_coord(direction, x, y, k).1][lane_coord(direction, x, y, k).0],
    )
}

/// The board after a move in `direction`: every lane slides on its own.
pub open spec fn moved(grid: Grid, direction: GameMovementDirection) -> Grid {
    Seq::new(
        ROWS_COUNT as nat,
        |y: int|
            Seq::new(
                COLS_COUNT as nat,
                |x: int| slide(lane(grid, direction, x, y))[depth(direction, x, y)],
            ),
    )
}

/// The cells of a lane share the lane, and each lies in it at its own depth.
pub proof fn lemma_lane_shared(
    grid: Grid,
    direction: GameMovementDirection,
    x: int,
    y: int,
    k: int,
)
    requires
        in_bounds(x, y),
        0 <= k < lane_len(direction),
    ensures
        in_bounds(lane_coord(direction, x, y, k).0, lane_coord(direction, x, y, k).1),
        depth(direction, lane_coord(direction, x, y, k).0, lane_coord(direction, x, y, k).1) == k,
        lane(grid, direction, lane_coord(direction, x, y, k).0, lane_coord(direction, x, y, k).1)
            == lane(grid, direction, x, y),
        lane_coord(direction, x, y, depth(direction, x, y)) == (x, y),
        0 <= depth(direction, x, y) < lane_len(direction),
{
    let at = lane_coord(direction, x, y, k);
    assert(lane(grid, direction, at.0, at.1) =~= lane(grid, direction, x, y));
}

} // verus!
