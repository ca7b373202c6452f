//! A move as a list of patches: which tile goes from which cell to which.
//!
//! The patches are planned on the board as it stands before the move, cell by
//! cell from the destination edge inward, and then applied in that order.

use vstd::prelude::*;
use crate::constants::{COLS_COUNT, GameMovementDirection, ROWS_COUNT};
use crate::grid::{
    depth, in_bounds, lane, lane_coord, lemma_lane_shared, moved, put, vertical, well_formed, Grid,
};
use crate::lane::{
    arriving, lemma_resting_ends, lemma_resting_next, lemma_travel_is_distance, resting, travel,
};

verus! {

/// The cell that a tile leaves and the cell that it goes to, each as `(x, y)`.
pub type Patch = ((u8, u8), (u8, u8));

/// Whether the scan of a move in `direction` runs from the last row and column
/// back to the first.
pub open spec fn reversed(direction: GameMovementDirection) -> bool {
    direction == GameMovementDirection::Down || direction == GameMovementDirection::Right
}

/// The cell that the scan visits as number `j` of its row number `i`.
pub open spec fn scan_cell(direction: GameMovementDirection, i: int, j: int) -> (int, int) {
    if reversed(direction) {
        (COLS_COUNT - 1 - j, ROWS_COUNT - 1 - i)
    } else {
        (j, i)
    }
}

/// The patch for the cell at `(x, y)`: none where the cell is empty or its tile
/// stays, else the tile's way from there to the cell where it comes to rest.
pub open spec fn patch_at(grid: Grid, direction: GameMovementDirection, x: int, y: int) -> Option<
    Patch,
> {
    let distance = travel(lane(grid, direction, x, y), depth(direction, x, y));
    let to = lane_coord(direction, x, y, depth(direction, x, y) - distance);
    if grid[y][x] is Some && distance > 0 {
        Some(((x as u8, y as u8), (to.0 as u8, to.1 as u8)))
    } else {
        None
    }
}

/// The patches for the cells that the scan visits before it reaches number `j`
/// of row number `i`, in the order of the scan.
pub open spec fn plan_before(grid: Grid, direction: GameMovementDirection, i: int, j: int) -> Seq<
    Patch,
>
    decreases i, j,
{
    if i < 0 || j < 0 {
        Seq::empty()
    } else if j > 0 {
        let earlier = plan_before(grid, direction, i, j - 1);
        let at = scan_cell(direction, i, j - 1);
        match patch_at(grid, direction, at.0, at.1) {
            Some(patch) => earlier.push(patch),
            None => earlier,
        }
    } else if i > 0 {
        plan_before(grid, direction, i - 1, COLS_COUNT as int)
    } else {
        Seq::empty()
    }
}

/// The patches of a whole move of `grid` in `direction`.
pub open spec fn plan(grid: Grid, direction: GameMovementDirection) -> Seq<Patch> {
    plan_before(grid, direction, ROWS_COUNT as int, 0)
}

/// `grid` after one patch: the tile at the first cell of the patch arrives at
/// the second. A patch does nothing where its first cell is empty or its second
/// cell takes no tile.
pub open spec fn apply_patch(grid: Grid, patch: Patch) -> Grid {
    let (from, to) = patch;
    match grid[from.1 as int][from.0 as int] {
        None => grid,
        Some(rank) => match arriving(rank, grid[to.1 as int][to.0 as int]) {
            Some(tile) => put(
                put(grid, to.0 as int, to.1 as int, Some(tile)),
                from.0 as int,
                from.1 as int,
                None,
            ),
            None => grid,
        },
    }
}

/// `grid` after the patches, applied first to last.
pub open spec fn apply_all(grid: Grid, patches: Seq<Patch>) -> Grid
    decreases patches.len(),
{
    if patches.len() == 0 {
        grid
    } else {
        apply_patch(apply_all(grid, patches.drop_last()), patches.last())
    }
}

/// Whether both ends of every patch are cells of the board.
pub open spec fn patches_in_bounds(patches: Seq<Patch>) -> bool {
    forall|n: int|
        0 <= n < patches.len() ==> in_bounds(
            (#[trigger] patches[n]).0.0 as int,
            patches[n].0.1 as int,
        ) && in_bounds(patches[n].1.0 as int, patches[n].1.1 as int)
}

/// How many cells of the lane through `(x, y)` the scan has visited before it
/// reaches number `j` of row number `i`.
pub open spec fn progress(direction: GameMovementDirection, x: int, y: int, i: int, j: int) -> int {
    let row = if reversed(direction) {
        ROWS_COUNT - 1 - y
    } else {
        y
    };
    let column = if reversed(direction) {
        COLS_COUNT - 1 - x
    } else {
        x
    };
    if vertical(direction) {
        if column < j {
            i + 1
        } else {
            i
        }
    } else {
        if row < i {
            COLS_COUNT as int
        } else if row == i {
            j
        } else {
            0
        }
    }
}

/// The board at the moment when the patches planned before number `j` of row
/// number `i` have been applied.
pub open spec fn stage(grid: Grid, direction: GameMovementDirection, i: int, j: int) -> Grid {
    Seq::new(
        ROWS_COUNT as nat,
        |y: int|
            Seq::new(
                COLS_COUNT as nat,
                |x: int|
                    resting(lane(grid, direction, x, y), progress(direction, x, y, i, j))[depth(
                        direction,
                        x,
                        y,
                    )],
            ),
    )
}

/// A patch that is planned leads from a cell of the board to a cell of the
/// same lane that lies nearer the edge.
pub proof fn lemma_patch_at(grid: Grid, direction: GameMovementDirection, x: int, y: int)
    requires
        well_formed(grid),
        in_bounds(x, y),
    ensures
        patch_at(grid, direction, x, y) matches Some(patch) ==> ({
            let distance = travel(lane(grid, direction, x, y), depth(direction, x, y));
            let to = lane_coord(direction, x, y, depth(direction, x, y) - distance);
            &&& 0 < distance <= depth(direction, x, y)
            &&& patch.0.0 == x
            &&& patch.0.1 == y
            &&& patch.1.0 == to.0
            &&& patch.1.1 == to.1
            &&& in_bounds(to.0, to.1)
        }),
{
    let cells = lane(grid, direction, x, y);
    let d = depth(direction, x, y);
    lemma_lane_shared(grid, direction, x, y, d);
    if patch_at(grid, direction, x, y) is Some {
        assert(cells[d] == grid[y][x]);
        lemma_travel_is_distance(cells, d);
        lemma_lane_shared(grid, direction, x, y, d - travel(cells, d));
    }
}

/// Every patch of a plan lies on the board.
pub proof fn lemma_plan_in_bounds(grid: Grid, direction: GameMovementDirection, i: int, j: int)
    requires
        well_formed(grid),
        0 <= i < ROWS_COUNT && 0 <= j <= COLS_COUNT || i == ROWS_COUNT && j == 0,
    ensures
        patches_in_bounds(plan_before(grid, direction, i, j)),
    decreases i, j,
{
    if j > 0 {
        lemma_plan_in_bounds(grid, direction, i, j - 1);
        let at = scan_cell(direction, i, j - 1);
        lemma_patch_at(grid, direction, at.0, at.1);
    } else if i > 0 {
        lemma_plan_in_bounds(grid, direction, i - 1, COLS_COUNT as int);
    }
}

/// What a patch leaves in each cell of the board.
pub proof fn lemma_apply_patch_cell(grid: Grid, patch: Patch, x: int, y: int)
    requires
        well_formed(grid),
        in_bounds(patch.0.0 as int, patch.0.1 as int),
        in_bounds(patch.1.0 as int, patch.1.1 as int),
        in_bounds(x, y),
    ensures
        well_formed(apply_patch(grid, patch)),
        apply_patch(grid, patch)[y][x] == (match grid[patch.0.1 as int][patch.0.0 as int] {
            None => grid[y][x],
            Some(rank) => match arriving(rank, grid[patch.1.1 as int][patch.1.0 as int]) {
                Some(tile) => if x == patch.0.0 && y == patch.0.1 {
                    None
                } else if x == patch.1.0 && y == patch.1.1 {
                    Some(tile)
                } else {
                    grid[y][x]
                },
                None => grid[y][x],
            },
        }),
{
}

/// What the board of a moment holds in each cell.
pub proof fn lemma_stage_cell(
    grid: Grid,
    direction: GameMovementDirection,
    i: int,
    j: int,
    x: int,
    y: int,
)
    requires
        in_bounds(x, y),
    ensures
        well_formed(stage(grid, direction, i, j)),
        stage(grid, direction, i, j)[y][x] == resting(
            lane(grid, direction, x, y),
            progress(direction, x, y, i, j),
        )[depth(direction, x, y)],
{
}

/// Visiting one more cell changes each cell of the board as the patch for the
/// visited cell does.
proof fn lemma_stage_next_cell(
    grid: Grid,
    direction: GameMovementDirection,
    i: int,
    j: int,
    x: int,
    y: int,
)
    requires
        well_formed(grid),
        0 <= i < ROWS_COUNT,
        0 <= j < COLS_COUNT,
        in_bounds(x, y),
    ensures
        stage(grid, direction, i, j + 1)[y][x] == (match patch_at(
            grid,
            direction,
            scan_cell(direction, i, j).0,
            scan_cell(direction, i, j).1,
        ) {
            Some(patch) => apply_patch(stage(grid, direction, i, j), patch),
            None => stage(grid, direction, i, j),
        })[y][x],
{
    let at = scan_cell(direction, i, j);
    let cells = lane(grid, direction, at.0, at.1);
    let d = depth(direction, at.0, at.1);
    let e = depth(direction, x, y);
    let now = stage(grid, direction, i, j);
    let next = stage(grid, direction, i, j + 1);
    lemma_stage_cell(grid, direction, i, j, x, y);
    lemma_stage_cell(grid, direction, i, j + 1, x, y);
    lemma_lane_shared(grid, direction, at.0, at.1, d);
    lemma_lane_shared(grid, direction, x, y, e);
    let same_lane = if vertical(direction) {
        x == at.0
    } else {
        y == at.1
    };
    if same_lane {
        assert(lane(grid, direction, x, y) =~= cells);
        assert(progress(direction, x, y, i, j) == d);
        assert(progress(direction, x, y, i, j + 1) == d + 1);
        assert(cells[d] == grid[at.1][at.0]);
        lemma_resting_next(cells, d);
    } else {
        assert(progress(direction, x, y, i, j + 1) == progress(direction, x, y, i, j));
    }
    match patch_at(grid, direction, at.0, at.1) {
        Some(patch) => {
            let t = travel(cells, d);
            let to = lane_coord(direction, at.0, at.1, d - t);
            lemma_patch_at(grid, direction, at.0, at.1);
            lemma_lane_shared(grid, direction, at.0, at.1, d - t);
            lemma_stage_cell(grid, direction, i, j, at.0, at.1);
            lemma_stage_cell(grid, direction, i, j, to.0, to.1);
            lemma_apply_patch_cell(now, patch, x, y);
            assert(progress(direction, at.0, at.1, i, j) == d);
            assert(progress(direction, to.0, to.1, i, j) == d);
            assert(now[at.1][at.0] == resting(cells, d)[d]);
            assert(now[to.1][to.0] == resting(cells, d)[d - t]);
            if same_lane {
                assert((x == at.0 && y == at.1) <==> e == d);
                assert((x == to.0 && y == to.1) <==> e == d - t);
            }
        },
        None => {},
    }
}

/// Visiting one more cell changes the board as the patch for that cell does.
pub proof fn lemma_stage_next(grid: Grid, direction: GameMovementDirection, i: int, j: int)
    requires
        well_formed(grid),
        0 <= i < ROWS_COUNT,
        0 <= j < COLS_COUNT,
    ensures
        stage(grid, direction, i, j + 1) == (match patch_at(
            grid,
            direction,
            scan_cell(direction, i, j).0,
            scan_cell(direction, i, j).1,
        ) {
            Some(patch) => apply_patch(stage(grid, direction, i, j), patch),
            None => stage(grid, direction, i, j),
        }),
{
    let at = scan_cell(direction, i, j);
    let now = stage(grid, direction, i, j);
    let next = stage(grid, direction, i, j + 1);
    let after = match patch_at(grid, direction, at.0, at.1) {
        Some(patch) => apply_patch(now, patch),
        None => now,
    };
    lemma_stage_cell(grid, direction, i, j, 0, 0);
    lemma_stage_cell(grid, direction, i, j + 1, 0, 0);
    if patch_at(grid, direction, at.0, at.1) is Some {
        lemma_patch_at(grid, direction, at.0, at.1);
        lemma_apply_patch_cell(now, patch_at(grid, direction, at.0, at.1).unwrap(), 0, 0);
    }
    assert forall|y: int| 0 <= y < ROWS_COUNT implies #[trigger] next[y] == after[y] by {
        assert forall|x: int| 0 <= x < COLS_COUNT implies next[y][x] == after[y][x] by {
            lemma_stage_next_cell(grid, direction, i, j, x, y);
        }
        assert(next[y] =~= after[y]);
    }
    assert(next =~= after);
}

/// Applying the patches planned so far gives the board of that moment.
pub proof fn lemma_plan_applied_before(
    grid: Grid,
    direction: GameMovementDirection,
    i: int,
    j: int,
)
    requires
        well_formed(grid),
        0 <= i < ROWS_COUNT && 0 <= j <= COLS_COUNT || i == ROWS_COUNT && j == 0,
    ensures
        apply_all(grid, plan_before(grid, direction, i, j)) == stage(grid, direction, i, j),
    decreases i, j,
{
    if j > 0 {
        lemma_plan_applied_before(grid, direction, i, j - 1);
        lemma_stage_next(grid, direction, i, j - 1);
        let earlier = plan_before(grid, direction, i, j - 1);
        let at = scan_cell(direction, i, j - 1);
        match patch_at(grid, direction, at.0, at.1) {
            Some(patch) => {
                assert(earlier.push(patch).drop_last() =~= earlier);
            },
            None => {},
        }
    } else if i > 0 {
        lemma_plan_applied_before(grid, direction, i - 1, COLS_COUNT as int);
        assert(stage(grid, direction, i, 0) =~~= stage(grid, direction, i - 1, COLS_COUNT as int));
    } else {
        assert forall|y: int, x: int| in_bounds(x, y) implies #[trigger] stage(
            grid,
            direction,
            0,
            0,
        )[y][x] == grid[y][x] by {
            lemma_lane_shared(grid, direction, x, y, depth(direction, x, y));
            lemma_resting_ends(lane(grid, direction, x, y));
        }
        assert(stage(grid, direction, 0, 0) =~~= grid);
    }
}

/// Applying the plan of a move gives the board after the move.
pub proof fn lemma_plan_applied(grid: Grid, direction: GameMovementDirection)
    requires
        well_formed(grid),
    ensures
        apply_all(grid, plan(grid, direction)) == moved(grid, direction),
{
    lemma_plan_applied_before(grid, direction, ROWS_COUNT as int, 0);
    assert forall|y: int, x: int| in_bounds(x, y) implies #[trigger] stage(
        grid,
        direction,
        ROWS_COUNT as int,
        0,
    )[y][x] == moved(grid, direction)[y][x] by {
        lemma_lane_shared(grid, direction, x, y, depth(direction, x, y));
        lemma_resting_ends(lane(grid, direction, x, y));
    }
    assert(stage(grid, direction, ROWS_COUNT as int, 0) =~~= moved(grid, direction));
}

} // verus!
