//! Sums over the cells of a board, taken by rows or by columns in either
//! direction, and what a move does to them.

use vstd::prelude::*;
use crate::block::BlockSize;
use crate::constants::{COLS_COUNT, GameMovementDirection, ROWS_COUNT};
use crate::grid::{in_bounds, lane, moved, vertical, well_formed, Grid};
use crate::lane::{merges, slide, Lane};
use crate::lane_laws::{lemma_total_preserved, occupied, total};
use crate::laws::lemma_moved_lane;

verus! {

/// What a cell counts for in a sum.
pub type Weight = spec_fn(Option<BlockSize>) -> nat;

/// The weight that counts a tile for its magnitude.
pub open spec fn by_magnitude() -> Weight {
    |cell: Option<BlockSize>|
        match cell {
            Some(rank) => rank.magnitude(),
            None => 0,
        }
}

/// The weight that counts each tile for one.
pub open spec fn by_presence() -> Weight {
    |cell: Option<BlockSize>|
        if cell is Some {
            1nat
        } else {
            0nat
        }
}

/// The sum of the weights of the cells of `lane`.
pub open spec fn tally(lane: Lane, weight: Weight) -> nat
    decreases lane.len(),
{
    if lane.len() == 0 {
        0
    } else {
        tally(lane.drop_last(), weight) + weight(lane.last())
    }
}

/// The sum of the weights of the cells of `rows`.
pub open spec fn grid_tally(rows: Grid, weight: Weight) -> nat
    decreases rows.len(),
{
    if rows.len() == 0 {
        0
    } else {
        grid_tally(rows.drop_last(), weight) + tally(rows.last(), weight)
    }
}

/// The sum of the magnitudes of all tiles of `grid`.
pub open spec fn grid_total(grid: Grid) -> nat {
    grid_tally(grid, by_magnitude())
}

/// The number of tiles of `grid`.
pub open spec fn grid_tiles(grid: Grid) -> nat {
    grid_tally(grid, by_presence())
}

/// Column `x` of `rows`, top cell first.
pub open spec fn column(rows: Grid, x: int) -> Lane {
    Seq::new(rows.len(), |y: int| rows[y][x])
}

/// The sum of the weights of the cells in the first `count` columns of `rows`,
/// taken column by column.
pub open spec fn columns_tally(rows: Grid, count: int, weight: Weight) -> nat
    decreases count,
{
    if count <= 0 {
        0
    } else {
        columns_tally(rows, count - 1, weight) + tally(column(rows, count - 1), weight)
    }
}

/// The sum of the weights of the cells in the first `count` columns of `rows`,
/// taken row by row.
pub open spec fn clipped_tally(rows: Grid, count: int, weight: Weight) -> nat
    decreases rows.len(),
{
    if rows.len() == 0 {
        0
    } else {
        clipped_tally(rows.drop_last(), count, weight) + tally(rows.last().take(count), weight)
    }
}

/// The sum of the magnitudes in a lane is its tally by magnitude, and the
/// number of its tiles is its tally by presence.
pub proof fn lemma_tally_names(lane: Lane)
    ensures
        tally(lane, by_magnitude()) == total(lane),
        tally(lane, by_presence()) == occupied(lane),
    decreases lane.len(),
{
    if lane.len() > 0 {
        lemma_tally_names(lane.drop_last());
    }
}

/// A sum can be taken from the first cell on as well as from the last.
pub proof fn lemma_tally_front(lane: Lane, weight: Weight)
    requires
        lane.len() > 0,
    ensures
        tally(lane, weight) == weight(lane[0]) + tally(lane.skip(1), weight),
    decreases lane.len(),
{
    if lane.len() == 1 {
        assert(lane.skip(1) =~= Seq::empty());
        assert(lane.drop_last() =~= Seq::empty());
    } else {
        lemma_tally_front(lane.drop_last(), weight);
        assert(lane.drop_last().skip(1) =~= lane.skip(1).drop_last());
    }
}

/// A lane read backward sums to the same.
pub proof fn lemma_tally_backward(lane: Lane, backward: Lane, weight: Weight)
    requires
        backward.len() == lane.len(),
        forall|k: int| 0 <= k < lane.len() ==> backward[k] == lane[lane.len() - 1 - k],
    ensures
        tally(backward, weight) == tally(lane, weight),
    decreases lane.len(),
{
    if lane.len() > 0 {
        lemma_tally_front(lane, weight);
        let rest = lane.skip(1);
        let rest_backward = backward.drop_last();
        assert forall|k: int| 0 <= k < rest.len() implies rest_backward[k] == rest[rest.len() - 1
            - k] by {
            assert(backward[k] == lane[lane.len() - 1 - k]);
        }
        lemma_tally_backward(rest, rest_backward, weight);
        assert(backward.last() == lane[0]);
    }
}

/// Taking the last row away takes its cells away from the columns.
proof fn lemma_columns_without_last_row(rows: Grid, count: int, weight: Weight)
    requires
        rows.len() > 0,
        0 <= count <= rows.last().len(),
    ensures
        columns_tally(rows, count, weight) == columns_tally(rows.drop_last(), count, weight)
            + tally(rows.last().take(count), weight),
    decreases count,
{
    if count > 0 {
        lemma_columns_without_last_row(rows, count - 1, weight);
        let x = count - 1;
        assert(column(rows, x).drop_last() =~= column(rows.drop_last(), x));
        assert(rows.last().take(count).drop_last() =~= rows.last().take(count - 1));
    } else {
        assert(rows.last().take(0) =~= Seq::empty());
    }
}

/// Without rows the columns hold nothing.
proof fn lemma_columns_of_no_rows(rows: Grid, count: int, weight: Weight)
    requires
        rows.len() == 0,
    ensures
        columns_tally(rows, count, weight) == 0,
    decreases count,
{
    if count > 0 {
        lemma_columns_of_no_rows(rows, count - 1, weight);
    }
}

/// The cells of a board sum to the same by columns as by rows.
pub proof fn lemma_columns_are_rows(rows: Grid, count: int, weight: Weight)
    requires
        0 <= count,
        forall|y: int| 0 <= y < rows.len() ==> count <= (#[trigger] rows[y]).len(),
    ensures
        columns_tally(rows, count, weight) == clipped_tally(rows, count, weight),
    decreases rows.len(),
{
    if rows.len() == 0 {
        lemma_columns_of_no_rows(rows, count, weight);
    } else {
        let above = rows.drop_last();
        assert forall|y: int| 0 <= y < above.len() implies count <= (#[trigger] above[y]).len() by {
            assert(above[y] == rows[y]);
        }
        lemma_columns_are_rows(above, count, weight);
        lemma_columns_without_last_row(rows, count, weight);
    }
}

/// Rows that are as wide as the count of columns are taken whole.
proof fn lemma_clipped_is_whole(rows: Grid, count: int, weight: Weight)
    requires
        forall|y: int| 0 <= y < rows.len() ==> (#[trigger] rows[y]).len() == count,
    ensures
        clipped_tally(rows, count, weight) == grid_tally(rows, weight),
    decreases rows.len(),
{
    if rows.len() > 0 {
        let above = rows.drop_last();
        assert forall|y: int| 0 <= y < above.len() implies (#[trigger] above[y]).len() == count by {
            assert(above[y] == rows[y]);
        }
        lemma_clipped_is_whole(above, count, weight);
        assert(rows.last().take(count) =~= rows.last());
    }
}

/// Two boards whose rows sum to the same, row for row, sum to the same.
proof fn lemma_rows_alike(before: Grid, after: Grid, weight: Weight)
    requires
        before.len() == after.len(),
        forall|y: int|
            0 <= y < before.len() ==> tally(#[trigger] before[y], weight) == tally(
                after[y],
                weight,
            ),
    ensures
        grid_tally(before, weight) == grid_tally(after, weight),
    decreases before.len(),
{
    if before.len() > 0 {
        let before_above = before.drop_last();
        let after_above = after.drop_last();
        assert forall|y: int| 0 <= y < before_above.len() implies tally(
            #[trigger] before_above[y],
            weight,
        ) == tally(after_above[y], weight) by {
            assert(before_above[y] == before[y]);
            assert(after_above[y] == after[y]);
        }
        lemma_rows_alike(before_above, after_above, weight);
        assert(tally(before[before.len() - 1], weight) == tally(after[before.len() - 1], weight));
    }
}

/// Two boards whose columns sum to the same, column for column, sum to the
/// same over those columns.
proof fn lemma_columns_alike(before: Grid, after: Grid, count: int, weight: Weight)
    requires
        forall|x: int|
            0 <= x < count ==> tally(#[trigger] column(before, x), weight) == tally(
                column(after, x),
                weight,
            ),
    ensures
        columns_tally(before, count, weight) == columns_tally(after, count, weight),
    decreases count,
{
    if count > 0 {
        lemma_columns_alike(before, after, count - 1, weight);
        assert(tally(column(before, count - 1), weight) == tally(column(after, count - 1), weight));
    }
}

/// The lane through a cell sums to the same as the row or the column of the
/// cell.
proof fn lemma_lane_tally(
    grid: Grid,
    direction: GameMovementDirection,
    x: int,
    y: int,
    weight: Weight,
)
    requires
        well_formed(grid),
        in_bounds(x, y),
    ensures
        vertical(direction) ==> tally(lane(grid, direction, x, y), weight) == tally(
            column(grid, x),
            weight,
        ),
        !vertical(direction) ==> tally(lane(grid, direction, x, y), weight) == tally(
            grid[y],
            weight,
        ),
{
    let cells = lane(grid, direction, x, y);
    match direction {
        GameMovementDirection::Up => {
            assert(cells =~= column(grid, x));
        },
        GameMovementDirection::Down => {
            lemma_tally_backward(column(grid, x), cells, weight);
        },
        GameMovementDirection::Left => {
            assert(cells =~= grid[y]);
        },
        GameMovementDirection::Right => {
            lemma_tally_backward(grid[y], cells, weight);
        },
    }
}

/// A move keeps the sum of the magnitudes of all tiles on the board.
pub proof fn lemma_move_keeps_total(grid: Grid, direction: GameMovementDirection)
    requires
        well_formed(grid),
    ensures
        grid_total(moved(grid, direction)) == grid_total(grid),
{
    let after = moved(grid, direction);
    let weight = by_magnitude();
    lemma_moved_lane(grid, direction, 0, 0);
    if vertical(direction) {
        assert forall|x: int| 0 <= x < COLS_COUNT implies tally(
            #[trigger] column(grid, x),
            weight,
        ) == tally(column(after, x), weight) by {
            lemma_moved_lane(grid, direction, x, 0);
            lemma_lane_tally(grid, direction, x, 0, weight);
            lemma_lane_tally(after, direction, x, 0, weight);
            lemma_tally_names(lane(grid, direction, x, 0));
            lemma_tally_names(slide(lane(grid, direction, x, 0)));
            lemma_total_preserved(lane(grid, direction, x, 0));
        }
        lemma_columns_alike(grid, after, COLS_COUNT as int, weight);
        lemma_columns_are_rows(grid, COLS_COUNT as int, weight);
        lemma_columns_are_rows(after, COLS_COUNT as int, weight);
        lemma_clipped_is_whole(grid, COLS_COUNT as int, weight);
        lemma_clipped_is_whole(after, COLS_COUNT as int, weight);
    } else {
        assert forall|y: int| 0 <= y < ROWS_COUNT implies tally(#[trigger] grid[y], weight)
            == tally(after[y], weight) by {
            lemma_moved_lane(grid, direction, 0, y);
            lemma_lane_tally(grid, direction, 0, y, weight);
            lemma_lane_tally(after, direction, 0, y, weight);
            lemma_tally_names(lane(grid, direction, 0, y));
            lemma_tally_names(slide(lane(grid, direction, 0, y)));
            lemma_total_preserved(lane(grid, direction, 0, y));
        }
        lemma_rows_alike(grid, after, weight);
    }
}

/// Lane number `n` of a move in `direction`: column `n` where the move runs
/// along the columns, row `n` where it runs along the rows.
pub open spec fn nth_lane(grid: Grid, direction: GameMovementDirection, n: int) -> Lane {
    if vertical(direction) {
        lane(grid, direction, n, 0)
    } else {
        lane(grid, direction, 0, n)
    }
}

/// The number of merges that a move in `direction` brings about in the first
/// `count` lanes of `grid`.
pub open spec fn lane_merges(grid: Grid, direction: GameMovementDirection, count: int) -> nat
    decreases count,
{
    if count <= 0 {
        0
    } else {
        lane_merges(grid, direction, count - 1) + merges(nth_lane(grid, direction, count - 1))
    }
}

/// The number of merges that a move in `direction` brings about on `grid`.
pub open spec fn grid_merges(grid: Grid, direction: GameMovementDirection) -> nat {
    if vertical(direction) {
        lane_merges(grid, direction, COLS_COUNT as int)
    } else {
        lane_merges(grid, direction, ROWS_COUNT as int)
    }
}

/// A move takes one tile off the board for each merge, and adds none.
pub proof fn lemma_move_takes_merged_tiles(grid: Grid, direction: GameMovementDirection)
    requires
        well_formed(grid),
    ensures
        grid_tiles(moved(grid, direction)) + grid_merges(grid, direction) == grid_tiles(grid),
        grid_tiles(moved(grid, direction)) <= grid_tiles(grid),
{
    let after = moved(grid, direction);
    let weight = by_presence();
    lemma_moved_lane(grid, direction, 0, 0);
    if vertical(direction) {
        lemma_columns_less_merges(grid, after, direction, COLS_COUNT as int);
        lemma_columns_are_rows(grid, COLS_COUNT as int, weight);
        lemma_columns_are_rows(after, COLS_COUNT as int, weight);
        lemma_clipped_is_whole(grid, COLS_COUNT as int, weight);
        lemma_clipped_is_whole(after, COLS_COUNT as int, weight);
    } else {
        lemma_rows_less_merges(grid, after, direction, ROWS_COUNT as int);
        assert(grid.take(ROWS_COUNT as int) =~= grid);
        assert(after.take(ROWS_COUNT as int) =~= after);
    }
}

/// After a move along the columns, the first columns hold as many tiles fewer
/// as merges took place in them.
proof fn lemma_columns_less_merges(
    grid: Grid,
    after: Grid,
    direction: GameMovementDirection,
    count: int,
)
    requires
        well_formed(grid),
        vertical(direction),
        after == moved(grid, direction),
        0 <= count <= COLS_COUNT,
    ensures
        columns_tally(after, count, by_presence()) + lane_merges(grid, direction, count)
            == columns_tally(grid, count, by_presence()),
    decreases count,
{
    if count > 0 {
        let x = count - 1;
        lemma_columns_less_merges(grid, after, direction, count - 1);
        lemma_moved_lane(grid, direction, x, 0);
        lemma_lane_tally(grid, direction, x, 0, by_presence());
        lemma_lane_tally(after, direction, x, 0, by_presence());
        lemma_tally_names(lane(grid, direction, x, 0));
        lemma_tally_names(slide(lane(grid, direction, x, 0)));
        lemma_total_preserved(lane(grid, direction, x, 0));
    }
}

/// After a move along the rows, the first rows hold as many tiles fewer as
/// merges took place in them.
proof fn lemma_rows_less_merges(
    grid: Grid,
    after: Grid,
    direction: GameMovementDirection,
    count: int,
)
    requires
        well_formed(grid),
        !vertical(direction),
        after == moved(grid, direction),
        0 <= count <= ROWS_COUNT,
    ensures
        grid_tally(after.take(count), by_presence()) + lane_merges(grid, direction, count)
            == grid_tally(grid.take(count), by_presence()),
    decreases count,
{
    if count > 0 {
        let y = count - 1;
        lemma_rows_less_merges(grid, after, direction, count - 1);
        lemma_moved_lane(grid, direction, 0, y);
        lemma_lane_tally(grid, direction, 0, y, by_presence());
        lemma_lane_tally(after, direction, 0, y, by_presence());
        lemma_tally_names(lane(grid, direction, 0, y));
        lemma_tally_names(slide(lane(grid, direction, 0, y)));
        lemma_total_preserved(lane(grid, direction, 0, y));
        assert(grid.take(count).drop_last() =~= grid.take(count - 1));
        assert(after.take(count).drop_last() =~= after.take(count - 1));
    } else {
        assert(grid.take(0) =~= Seq::empty());
        assert(after.take(0) =~= Seq::empty());
    }
}

} // verus!
