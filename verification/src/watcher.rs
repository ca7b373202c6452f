//! Bringing what is shown in line with the board after a move.
//!
//! Each block on screen shows a rank at a position. After a move the blocks
//! have gone where their tiles went, so two blocks whose tiles have merged
//! stand on one cell, and both show the rank that the tiles had, not the rank
//! that the cell now holds. Such blocks are taken away, and for every two of
//! them on a cell one block of the new rank is put there.

use vstd::prelude::*;
use crate::block::BlockSize;
use crate::game_board::GameBoard;
use crate::grid::{in_bounds, put, Grid};
use crate::movement::{holds_tile, Position};

verus! {

/// A rank and the position at which it is shown.
pub type ShownBlock = (BlockSize, Position);

/// What has to change on screen after a move.
pub struct BoardChanges {
    /// For each block, in the order in which the blocks were given, whether
    /// it is to be taken away.
    pub despawned: Vec<bool>,
    /// The blocks that are to appear, in the order in which they were found.
    pub blocks_to_spawn: Vec<ShownBlock>,
}

/// Whether `block` shows another rank than its cell holds.
pub open spec fn outdated(grid: Grid, block: ShownBlock) -> bool {
    grid[block.1.y as int][block.1.x as int] != Some(block.0)
}

/// Whether one of the first `count` blocks is outdated and stands at `at`.
pub open spec fn outdated_at(grid: Grid, blocks: Seq<ShownBlock>, count: int, at: Position)
    -> bool {
    exists|j: int| 0 <= j < count && outdated(grid, #[trigger] blocks[j]) && blocks[j].1 == at
}

/// Whether block number `i` is outdated and an earlier outdated block stands
/// on the same cell.
pub open spec fn completes_merge(grid: Grid, blocks: Seq<ShownBlock>, i: int) -> bool {
    outdated(grid, blocks[i]) && outdated_at(grid, blocks, i, blocks[i].1)
}

/// The blocks that appear on account of the first `count` blocks: for each
/// block that completes a merge, one block of the rank that its cell holds.
pub open spec fn respawns(grid: Grid, blocks: Seq<ShownBlock>, count: int) -> Seq<ShownBlock>
    decreases count,
{
    if count <= 0 {
        Seq::empty()
    } else {
        let earlier = respawns(grid, blocks, count - 1);
        let block = blocks[count - 1];
        if completes_merge(grid, blocks, count - 1) {
            earlier.push((grid[block.1.y as int][block.1.x as int].unwrap(), block.1))
        } else {
            earlier
        }
    }
}

/// `grid` with each of `blocks` put on its cell, first to last.
pub open spec fn placed(grid: Grid, blocks: Seq<ShownBlock>) -> Grid
    decreases blocks.len(),
{
    if blocks.len() == 0 {
        grid
    } else {
        put(
            placed(grid, blocks.drop_last()),
            blocks.last().1.x as int,
            blocks.last().1.y as int,
            Some(blocks.last().0),
        )
    }
}

/// Whether `at` is among `positions`.
pub open spec fn listed(positions: Seq<Position>, at: Position) -> bool {
    exists|k: int| 0 <= k < positions.len() && #[trigger] positions[k] == at
}

/// Returns whether `position` is among `positions`.
fn contains(positions: &Vec<Position>, position: Position) -> (found: bool)
    ensures
        found == listed(positions@, position),
{
    let mut k: usize = 0;
    while k < positions.len()
        invariant
            k <= positions.len(),
            forall|n: int| 0 <= n < k ==> #[trigger] positions[n] != position,
        decreases positions.len() - k,
    {
        let here = positions[k];
        if here.x == position.x && here.y == position.y {
            return true;
        }
        k = k + 1;
    }
    false
}

/// Compares the blocks on screen, each of which stands on a cell with a tile,
/// with the board. Every block that shows another rank than its cell holds is
/// to be taken away, and for every such block that is not the first on its
/// cell a block of the cell's rank is to appear.
pub fn game_board_watcher(blocks: &Vec<ShownBlock>, game_board: &GameBoard) -> (changes:
    BoardChanges)
    requires
        forall|i: int| 0 <= i < blocks.len() ==> holds_tile(game_board@, (#[trigger] blocks[i]).1),
    ensures
        changes.despawned.len() == blocks.len(),
        forall|i: int|
            0 <= i < blocks.len() ==> #[trigger] changes.despawned[i] == outdated(
                game_board@,
                blocks[i],
            ),
        changes.blocks_to_spawn@ == respawns(game_board@, blocks@, blocks.len() as int),
{
    let mut despawned: Vec<bool> = Vec::new();
    let mut despawned_positions: Vec<Position> = Vec::new();
    let mut blocks_to_spawn: Vec<ShownBlock> = Vec::new();
    let mut i: usize = 0;
    while i < blocks.len()
        invariant
            i <= blocks.len(),
            despawned.len() == i,
            forall|n: int| 0 <= n < blocks.len() ==> holds_tile(game_board@, (#[trigger] blocks[n]).1),
            forall|n: int| 0 <= n < i ==> #[trigger] despawned[n] == outdated(game_board@, blocks[n]),
            forall|at: Position| #[trigger]
                listed(despawned_positions@, at) <==> outdated_at(
                    game_board@,
                    blocks@,
                    i as int,
                    at,
                ),
            blocks_to_spawn@ == respawns(game_board@, blocks@, i as int),
        decreases blocks.len() - i,
    {
        let (block_size, pos) = blocks[i];
        assert(holds_tile(game_board@, blocks[i as int].1));
        let game_board_block_size = game_board.get_cell(pos.x, pos.y).unwrap();
        let ghost seen = despawned_positions@;
        // blocks merged and now have new size
        if block_size != game_board_block_size {
            if contains(&despawned_positions, pos) {
                blocks_to_spawn.push((game_board_block_size, pos));
            } else {
                despawned_positions.push(pos);
            }
            despawned.push(true);
        } else {
            despawned.push(false);
        }
        proof {
            let grid = game_board@;
            let now = despawned_positions@;
            assert forall|at: Position| #[trigger]
                listed(now, at) <==> outdated_at(grid, blocks@, i + 1, at) by {
                assert(listed(seen, at) <==> outdated_at(grid, blocks@, i as int, at));
                if listed(now, at) {
                    let k = choose|k: int| 0 <= k < now.len() && #[trigger] now[k] == at;
                    if k < seen.len() {
                        assert(seen[k] == at);
                        let j = choose|j: int|
                            0 <= j < i && outdated(grid, #[trigger] blocks@[j]) && blocks@[j].1
                                == at;
                        assert(outdated(grid, blocks@[j]) && blocks@[j].1 == at);
                    } else {
                        assert(outdated(grid, blocks@[i as int]) && blocks@[i as int].1 == at);
                    }
                }
                if outdated_at(grid, blocks@, i + 1, at) {
                    let j = choose|j: int|
                        0 <= j < i + 1 && outdated(grid, #[trigger] blocks@[j]) && blocks@[j].1
                            == at;
                    if j < i {
                        assert(outdated_at(grid, blocks@, i as int, at));
                        let k = choose|k: int| 0 <= k < seen.len() && #[trigger] seen[k] == at;
                        assert(now[k] == at);
                    } else if listed(seen, at) {
                        let k = choose|k: int| 0 <= k < seen.len() && #[trigger] seen[k] == at;
                        assert(now[k] == at);
                    } else {
                        assert(now[seen.len() as int] == at);
                    }
                }
            }
        }
        i = i + 1;
    }
    BoardChanges { despawned, blocks_to_spawn }
}

/// Puts each of `blocks` on its cell of the board, first to last.
pub fn place_blocks(game_board: &mut GameBoard, blocks: &Vec<ShownBlock>)
    requires
        forall|i: int|
            0 <= i < blocks.len() ==> in_bounds(
                (#[trigger] blocks[i]).1.x as int,
                blocks[i].1.y as int,
            ),
    ensures
        final(game_board)@ == placed(old(game_board)@, blocks@),
{
    let mut i: usize = 0;
    proof {
        assert(blocks@.take(0) =~= Seq::empty());
    }
    while i < blocks.len()
        invariant
            i <= blocks.len(),
            forall|n: int|
                0 <= n < blocks.len() ==> in_bounds(
                    (#[trigger] blocks[n]).1.x as int,
                    blocks[n].1.y as int,
                ),
            game_board@ == placed(old(game_board)@, blocks@.take(i as int)),
        decreases blocks.len() - i,
    {
        let (block_size, pos) = blocks[i];
        assert(in_bounds(blocks[i as int].1.x as int, blocks[i as int].1.y as int));
        game_board.set_cell(pos.x, pos.y, Some(block_size));
        proof {
            assert(blocks@.take(i + 1).drop_last() =~= blocks@.take(i as int));
        }
        i = i + 1;
    }
    proof {
        assert(blocks@.take(blocks.len() as int) =~= blocks@);
    }
}

} // verus!
