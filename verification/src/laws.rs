//! What holds of every board under a move.

use vstd::prelude::*;
use crate::block::BlockSize;
use crate::constants::GameMovementDirection;
use crate::grid::{
    depth, empty_grid, in_bounds, lane, lane_coord, lane_len, lemma_lane_shared, moved, put,
    vertical, well_formed, Grid,
};
use crate::lane::{merges, slide, travel};
use crate::lane_laws::{
    all_empty, first_tile, lemma_blocked_lane, lemma_lone_tile, lemma_pair_merges,
    lemma_settle_empties, lemma_slide_cells, lemma_still_iff_no_travel, lemma_tile_arrives,
    lemma_triple_merges_once, occupied, total,
};

verus! {

/// The cell that follows `(x, y)` in its lane, one cell farther from the edge
/// that `direction` pushes toward.
pub open spec fn behind(direction: GameMovementDirection, x: int, y: int) -> (int, int) {
    lane_coord(direction, x, y, depth(direction, x, y) + 1)
}

/// The cell at the edge that `direction` pushes toward, in the lane through
/// `(x, y)`.
pub open spec fn edge(direction: GameMovementDirection, x: int, y: int) -> (int, int) {
    lane_coord(direction, x, y, 0)
}

/// Whether `grid` is full of tiles and no tile has a neighbour along the
/// direction of the move that it merges with.
pub open spec fn blocked(grid: Grid, direction: GameMovementDirection) -> bool {
    forall|x: int, y: int| #[trigger]
        in_bounds(x, y) ==> {
            let next = behind(direction, x, y);
            &&& grid[y][x] is Some
            &&& in_bounds(next.0, next.1) ==> !(grid[y][x] == grid[next.1][next.0]
                && grid[y][x].unwrap().successor() is Some)
        }
}

/// Whether no tile of `grid` travels under a move in `direction`.
pub open spec fn at_rest(grid: Grid, direction: GameMovementDirection) -> bool {
    forall|x: int, y: int|
        in_bounds(x, y) && (#[trigger] grid[y][x]) is Some ==> travel(
            lane(grid, direction, x, y),
            depth(direction, x, y),
        ) == 0
}

/// A move makes of each lane what sliding makes of it.
pub proof fn lemma_moved_lane(grid: Grid, direction: GameMovementDirection, x: int, y: int)
    requires
        well_formed(grid),
        in_bounds(x, y),
    ensures
        well_formed(moved(grid, direction)),
        lane(moved(grid, direction), direction, x, y) == slide(lane(grid, direction, x, y)),
        moved(grid, direction)[y][x] == slide(lane(grid, direction, x, y))[depth(direction, x, y)],
{
    let after = lane(moved(grid, direction), direction, x, y);
    let slid = slide(lane(grid, direction, x, y));
    assert forall|k: int| 0 <= k < lane_len(direction) implies after[k] == slid[k] by {
        lemma_lane_shared(grid, direction, x, y, k);
    }
    assert(after =~= slid);
}

/// On a board with a single tile, the tile travels as far as it stands from
/// the edge, and the move puts it at the edge of its lane.
pub proof fn lemma_single_tile(
    direction: GameMovementDirection,
    x: int,
    y: int,
    rank: BlockSize,
)
    requires
        in_bounds(x, y),
    ensures
        travel(
            lane(put(empty_grid(), x, y, Some(rank)), direction, x, y),
            depth(direction, x, y),
        ) == depth(direction, x, y),
        moved(put(empty_grid(), x, y, Some(rank)), direction) == put(
            empty_grid(),
            edge(direction, x, y).0,
            edge(direction, x, y).1,
            Some(rank),
        ),
{
    let grid = put(empty_grid(), x, y, Some(rank));
    let at = edge(direction, x, y);
    let goal = put(empty_grid(), at.0, at.1, Some(rank));
    let d = depth(direction, x, y);
    lemma_lane_shared(grid, direction, x, y, d);
    lemma_lane_shared(grid, direction, x, y, 0);
    lemma_lone_tile(lane(grid, direction, x, y), d, rank);
    assert forall|cx: int, cy: int| in_bounds(cx, cy) implies #[trigger] moved(
        grid,
        direction,
    )[cy][cx] == goal[cy][cx] by {
        let cells = lane(grid, direction, cx, cy);
        let e = depth(direction, cx, cy);
        lemma_lane_shared(grid, direction, cx, cy, e);
        let shared = if vertical(direction) {
            cx == x
        } else {
            cy == y
        };
        if shared {
            assert(cells =~= lane(grid, direction, x, y));
        } else {
            assert(all_empty(cells));
            lemma_settle_empties(cells);
            lemma_slide_cells(cells);
        }
    }
    assert(moved(grid, direction) =~~= goal);
}

/// Two tiles of one rank that stand next to each other along the direction
/// of the move, with no tile between them and the edge, merge at the edge of
/// their lane into one tile of the next rank: both travel there, the two leave
/// one tile, and that tile is worth what the two were together.
pub proof fn lemma_adjacent_pair_merges(
    grid: Grid,
    direction: GameMovementDirection,
    x: int,
    y: int,
    rank: BlockSize,
)
    requires
        well_formed(grid),
        in_bounds(x, y),
        in_bounds(behind(direction, x, y).0, behind(direction, x, y).1),
        all_empty(lane(grid, direction, x, y).take(depth(direction, x, y))),
        grid[y][x] == Some(rank),
        grid[behind(direction, x, y).1][behind(direction, x, y).0] == Some(rank),
        rank.successor() is Some,
    ensures
        moved(grid, direction)[edge(direction, x, y).1][edge(direction, x, y).0]
            == rank.successor(),
        rank.successor().unwrap().magnitude() == rank.magnitude() + rank.magnitude(),
        travel(lane(grid, direction, x, y), depth(direction, x, y)) == depth(direction, x, y),
        travel(lane(grid, direction, x, y), depth(direction, x, y) + 1) == depth(direction, x, y)
            + 1,
        ({
            let pair = lane(grid, direction, x, y).take(depth(direction, x, y) + 2);
            &&& occupied(pair) == 2
            &&& occupied(slide(pair)) == 1
            &&& total(slide(pair)) == total(pair)
        }),
{
    let cells = lane(grid, direction, x, y);
    let d = depth(direction, x, y);
    lemma_lane_shared(grid, direction, x, y, d);
    lemma_lane_shared(grid, direction, x, y, 0);
    lemma_pair_merges(cells, d, rank);
    lemma_moved_lane(grid, direction, edge(direction, x, y).0, edge(direction, x, y).1);
}

/// Of three tiles of one rank in a row along the direction of the move, with
/// no tile between them and the edge, the two nearest the edge merge there,
/// and the third comes to rest in the next cell, unmerged: one merge takes
/// place among the three. The one case apart is that the next tile behind the
/// three is of their rank as well.
pub proof fn lemma_three_in_a_row(
    grid: Grid,
    direction: GameMovementDirection,
    x: int,
    y: int,
    rank: BlockSize,
)
    requires
        well_formed(grid),
        in_bounds(x, y),
        depth(direction, x, y) + 2 < lane_len(direction),
        all_empty(lane(grid, direction, x, y).take(depth(direction, x, y))),
        grid[y][x] == Some(rank),
        grid[behind(direction, x, y).1][behind(direction, x, y).0] == Some(rank),
        ({
            let second = behind(direction, x, y);
            let third = behind(direction, second.0, second.1);
            grid[third.1][third.0] == Some(rank)
        }),
        rank.successor() is Some,
        first_tile(lane(grid, direction, x, y).skip(depth(direction, x, y) + 3)) != Some(rank),
    ensures
        moved(grid, direction)[edge(direction, x, y).1][edge(direction, x, y).0]
            == rank.successor(),
        ({
            let next = behind(direction, edge(direction, x, y).0, edge(direction, x, y).1);
            moved(grid, direction)[next.1][next.0] == Some(rank)
        }),
        merges(lane(grid, direction, x, y).take(depth(direction, x, y) + 3)) == 1,
        travel(lane(grid, direction, x, y), depth(direction, x, y)) == depth(direction, x, y),
        travel(lane(grid, direction, x, y), depth(direction, x, y) + 1) == depth(direction, x, y)
            + 1,
        travel(lane(grid, direction, x, y), depth(direction, x, y) + 2) == depth(direction, x, y)
            + 1,
{
    let cells = lane(grid, direction, x, y);
    let d = depth(direction, x, y);
    lemma_lane_shared(grid, direction, x, y, d);
    lemma_lane_shared(grid, direction, x, y, d + 1);
    lemma_lane_shared(grid, direction, x, y, 0);
    lemma_lane_shared(grid, direction, x, y, 1);
    lemma_triple_merges_once(cells, d, rank);
    let at = edge(direction, x, y);
    let next = behind(direction, at.0, at.1);
    lemma_moved_lane(grid, direction, at.0, at.1);
    lemma_moved_lane(grid, direction, next.0, next.1);
}

/// A move of a board that is full of tiles, no two neighbours of which along
/// the direction of the move merge, leaves the board as it is.
pub proof fn lemma_blocked_board_stays(grid: Grid, direction: GameMovementDirection)
    requires
        well_formed(grid),
        blocked(grid, direction),
    ensures
        moved(grid, direction) == grid,
{
    assert forall|x: int, y: int| in_bounds(x, y) implies #[trigger] moved(grid, direction)[y][x]
        == grid[y][x] by {
        let cells = lane(grid, direction, x, y);
        lemma_lane_shared(grid, direction, x, y, depth(direction, x, y));
        assert forall|k: int| 0 <= k < cells.len() implies (#[trigger] cells[k]) is Some by {
            lemma_lane_shared(grid, direction, x, y, k);
            let at = lane_coord(direction, x, y, k);
            assert(in_bounds(at.0, at.1));
        }
        assert forall|k: int| 0 <= k < cells.len() - 1 implies !(cells[k] == #[trigger] cells[k
            + 1] && cells[k].unwrap().successor() is Some) by {
            lemma_lane_shared(grid, direction, x, y, k);
            lemma_lane_shared(grid, direction, x, y, k + 1);
            let at = lane_coord(direction, x, y, k);
            assert(in_bounds(at.0, at.1));
            assert(behind(direction, at.0, at.1) == lane_coord(direction, x, y, k + 1));
        }
        lemma_blocked_lane(cells);
    }
    assert(moved(grid, direction) =~~= grid);
}

/// A move leaves the board as it is if and only if no tile travels.
pub proof fn lemma_stays_iff_at_rest(grid: Grid, direction: GameMovementDirection)
    requires
        well_formed(grid),
    ensures
        moved(grid, direction) == grid <==> at_rest(grid, direction),
{
    if moved(grid, direction) == grid {
        assert forall|x: int, y: int| in_bounds(x, y) && (#[trigger] grid[y][x]) is Some implies travel(
            lane(grid, direction, x, y),
            depth(direction, x, y),
        ) == 0 by {
            let cells = lane(grid, direction, x, y);
            lemma_lane_shared(grid, direction, x, y, depth(direction, x, y));
            lemma_moved_lane(grid, direction, x, y);
            lemma_still_iff_no_travel(cells);
            assert(cells[depth(direction, x, y)] is Some);
        }
    }
    if at_rest(grid, direction) {
        assert forall|x: int, y: int| in_bounds(x, y) implies #[trigger] moved(
            grid,
            direction,
        )[y][x] == grid[y][x] by {
            let cells = lane(grid, direction, x, y);
            lemma_lane_shared(grid, direction, x, y, depth(direction, x, y));
            assert forall|k: int| 0 <= k < cells.len() && (#[trigger] cells[k]) is Some implies travel(
                cells,
                k,
            ) == 0 by {
                lemma_lane_shared(grid, direction, x, y, k);
                let at = lane_coord(direction, x, y, k);
                assert(grid[at.1][at.0] is Some);
            }
            lemma_still_iff_no_travel(cells);
        }
        assert(moved(grid, direction) =~~= grid);
    }
}

/// The tile at `(x, y)` arrives at the cell that lies as many cells nearer the
/// edge as the tile travels. After the move that cell holds the tile, or the
/// tile of the next rank that a merge has made of it.
pub proof fn lemma_tile_lands(
    grid: Grid,
    direction: GameMovementDirection,
    x: int,
    y: int,
    rank: BlockSize,
)
    requires
        well_formed(grid),
        in_bounds(x, y),
        grid[y][x] == Some(rank),
    ensures
        ({
            let distance = travel(lane(grid, direction, x, y), depth(direction, x, y));
            let to = lane_coord(direction, x, y, depth(direction, x, y) - distance);
            &&& distance <= depth(direction, x, y)
            &&& in_bounds(to.0, to.1)
            &&& moved(grid, direction)[to.1][to.0] == Some(rank) || (rank.successor() is Some
                && moved(grid, direction)[to.1][to.0] == rank.successor())
        }),
{
    let cells = lane(grid, direction, x, y);
    let d = depth(direction, x, y);
    lemma_lane_shared(grid, direction, x, y, d);
    lemma_tile_arrives(cells, d, rank);
    let to = lane_coord(direction, x, y, d - travel(cells, d));
    lemma_lane_shared(grid, direction, x, y, d - travel(cells, d));
    lemma_moved_lane(grid, direction, to.0, to.1);
}

/// After a move no empty cell is left between a tile and the edge: every
/// cell that lies nearer the edge than a tile holds a tile as well.
pub proof fn lemma_moved_is_packed(
    grid: Grid,
    direction: GameMovementDirection,
    x: int,
    y: int,
    k: int,
)
    requires
        well_formed(grid),
        in_bounds(x, y),
        moved(grid, direction)[y][x] is Some,
        0 <= k <= depth(direction, x, y),
    ensures
        in_bounds(lane_coord(direction, x, y, k).0, lane_coord(direction, x, y, k).1),
        moved(grid, direction)[lane_coord(direction, x, y, k).1][lane_coord(
            direction,
            x,
            y,
            k,
        ).0] is Some,
{
    let cells = lane(grid, direction, x, y);
    let at = lane_coord(direction, x, y, k);
    lemma_lane_shared(grid, direction, x, y, k);
    lemma_moved_lane(grid, direction, x, y);
    lemma_moved_lane(grid, direction, at.0, at.1);
    lemma_slide_cells(cells);
}

} // verus!
