//! The board and the queries and moves that it answers.

use vstd::prelude::*;
use vstd::string::*;
use crate::block::BlockSize;
use crate::constants::{COLS_COUNT, GameMovementDirection, ROWS_COUNT};
use crate::grid::{
    depth, empty_grid, in_bounds, lane, lane_coord, lane_len, moved, put, well_formed, Grid,
};
use crate::lane::{
    lemma_cells_accounted, lemma_take_next, merges, merges_at_end, settle, travel, vacancies,
};
use crate::laws::{at_rest, lemma_stays_iff_at_rest, lemma_tile_lands};
use crate::render::{render, render_cell, render_cells, render_row, render_rows};
use crate::patch::{
    apply_all, lemma_patch_at, lemma_plan_applied, lemma_plan_in_bounds, patches_in_bounds, plan,
    plan_before, reversed, Patch,
};

verus! {

/// The cells of a board, row by row.
pub type GameBoardArray = [[Option<BlockSize>; 4]; 4];

/// A board of tiles. Its cells are reached through the methods only.
pub struct GameBoard {
    game_board_array: GameBoardArray,
}

impl View for GameBoard {
    type V = Grid;

    closed spec fn view(&self) -> Grid {
        Seq::new(ROWS_COUNT as nat, |y: int| self.game_board_array@[y]@)
    }
}

impl GameBoard {
    /// The grid of every board has the board's rows and columns.
    pub proof fn lemma_well_formed(&self)
        ensures
            well_formed(self@),
    {
    }

    /// Returns a board without any tile.
    pub fn new() -> (board: Self)
        ensures
            board@ == empty_grid(),
    {
        let game_board_array: GameBoardArray = [[None; 4]; 4];
        let board = GameBoard { game_board_array };
        assert forall|y: int| 0 <= y < ROWS_COUNT implies #[trigger] board@[y] == empty_grid()[y] by {
            assert(board@[y] =~= empty_grid()[y]);
        }
        assert(board@ =~= empty_grid());
        board
    }

    /// Returns the cell in column `x` of row `y`.
    pub fn get_cell(&self, x: u8, y: u8) -> (cell: Option<BlockSize>)
        requires
            in_bounds(x as int, y as int),
        ensures
            cell == self@[y as int][x as int],
    {
        self.game_board_array[y as usize][x as usize]
    }

    /// Replaces the cell in column `x` of row `y` by `block`.
    pub fn set_cell(&mut self, x: u8, y: u8, block: Option<BlockSize>)
        requires
            in_bounds(x as int, y as int),
        ensures
            final(self)@ == put(old(self)@, x as int, y as int, block),
    {
        self.game_board_array[y as usize][x as usize] = block;
        assert(self@ =~= put(old(self)@, x as int, y as int, block));
    }

    /// Returns the board as text: a line feed, then one line for each row, in
    /// which each cell shows its tile's label or a dash.
    pub fn pretty_string(&self) -> (text: String)
        ensures
            text@ == render(self@),
    {
        proof {
            reveal_strlit("\n");
            self.lemma_well_formed();
        }
        let mut result = String::from_str("\n");
        assert(self@.take(0) =~= Seq::empty());
        assert(result@ =~= seq!['\n'] + render_rows(self@.take(0)));
        let mut y: u8 = 0;
        while y < ROWS_COUNT
            invariant
                y <= ROWS_COUNT,
                well_formed(self@),
                result@ == seq!['\n'] + render_rows(self@.take(y as int)),
            decreases ROWS_COUNT - y,
        {
            let ghost above = result@;
            let ghost row = self@[y as int];
            proof {
                reveal_strlit("|");
                reveal_strlit("\n");
            }
            result.append("|");
            assert(row.take(0) =~= Seq::empty());
            assert(result@ =~= above + seq!['|'] + render_cells(row.take(0)));
            let mut x: u8 = 0;
            while x < COLS_COUNT
                invariant
                    y < ROWS_COUNT,
                    x <= COLS_COUNT,
                    well_formed(self@),
                    row == self@[y as int],
                    result@ == above + seq!['|'] + render_cells(row.take(x as int)),
                decreases COLS_COUNT - x,
            {
                let ghost before = result@;
                proof {
                    reveal_strlit("|");
                    reveal_strlit(" ");
                    reveal_strlit(" - ");
                }
                match self.get_cell(x, y) {
                    Some(block_size) => {
                        let label = block_size.to_string();
                        result.append(" ");
                        result.append(label.as_str());
                        result.append(" ");
                    },
                    None => {
                        result.append(" - ");
                    },
                }
                result.append("|");
                proof {
                    assert(row.take(x + 1).drop_last() =~= row.take(x as int));
                    assert(result@ =~= before + render_cell(row[x as int]));
                    assert(result@ =~= above + seq!['|'] + render_cells(row.take(x + 1)));
                }
                x = x + 1;
            }
            result.append("\n");
            proof {
                assert(row.take(COLS_COUNT as int) =~= row);
                assert(self@.take(y + 1).drop_last() =~= self@.take(y as int));
                assert(result@ =~= above + render_row(row));
                assert(result@ =~= seq!['\n'] + render_rows(self@.take(y + 1)));
            }
            y = y + 1;
        }
        proof {
            assert(self@.take(ROWS_COUNT as int) =~= self@);
        }
        result
    }

    /// Returns how far `(x, y)` lies from the edge that `direction` pushes toward.
    fn depth_of(x: u8, y: u8, direction: GameMovementDirection) -> (d: u8)
        requires
            in_bounds(x as int, y as int),
        ensures
            d == depth(direction, x as int, y as int),
            d < lane_len(direction),
    {
        match direction {
            GameMovementDirection::Up => y,
            GameMovementDirection::Down => ROWS_COUNT - 1 - y,
            GameMovementDirection::Left => x,
            GameMovementDirection::Right => COLS_COUNT - 1 - x,
        }
    }

    /// Returns the cell at depth `k` of the lane through `(x, y)`: the one
    /// scan that every query along a direction is made of.
    fn lane_cell(&self, x: u8, y: u8, direction: GameMovementDirection, k: u8) -> (cell: Option<
        BlockSize,
    >)
        requires
            in_bounds(x as int, y as int),
            k < lane_len(direction),
        ensures
            cell == lane(self@, direction, x as int, y as int)[k as int],
    {
        match direction {
            GameMovementDirection::Up => self.get_cell(x, k),
            GameMovementDirection::Down => self.get_cell(x, ROWS_COUNT - 1 - k),
            GameMovementDirection::Left => self.get_cell(k, y),
            GameMovementDirection::Right => self.get_cell(COLS_COUNT - 1 - k, y),
        }
    }

    /// Returns the number of empty cells from `(x, y)` to the edge that
    /// `direction` pushes toward, both ends included.
    pub fn free_cells(&self, x: u8, y: u8, direction: GameMovementDirection) -> (count: u8)
        requires
            in_bounds(x as int, y as int),
        ensures
            count == vacancies(
                lane(self@, direction, x as int, y as int).take(
                    depth(direction, x as int, y as int) + 1,
                ),
            ),
    {
        let end = Self::depth_of(x, y, direction);
        let ghost cells = lane(self@, direction, x as int, y as int);
        let mut count: u8 = 0;
        let mut k: u8 = 0;
        while k <= end
            invariant
                in_bounds(x as int, y as int),
                cells == lane(self@, direction, x as int, y as int),
                end < lane_len(direction),
                k <= end + 1,
                count == vacancies(cells.take(k as int)),
                count <= k,
            decreases end + 1 - k,
        {
            proof {
                lemma_take_next(cells, k as int);
            }
            if self.lane_cell(x, y, direction, k).is_none() {
                count = count + 1;
            }
            k = k + 1;
        }
        count
    }

    /// Returns the number of merges that a move in `direction` brings about
    /// from `(x, y)` to the edge that it pushes toward, both ends included.
    pub fn merge_credits(&self, x: u8, y: u8, direction: GameMovementDirection) -> (count: u8)
        requires
            in_bounds(x as int, y as int),
        ensures
            count == merges(
                lane(self@, direction, x as int, y as int).take(
                    depth(direction, x as int, y as int) + 1,
                ),
            ),
    {
        let end = Self::depth_of(x, y, direction);
        let ghost cells = lane(self@, direction, x as int, y as int);
        let mut count: u8 = 0;
        // The tile that the next one would merge into, if it is of the same rank.
        let mut open: Option<BlockSize> = None;
        let mut k: u8 = 0;
        while k <= end
            invariant
                in_bounds(x as int, y as int),
                cells == lane(self@, direction, x as int, y as int),
                end < lane_len(direction),
                k <= end + 1,
                count == merges(cells.take(k as int)),
                count <= k,
                open == (if settle(cells.take(k as int)).tiles.len() > 0 && !settle(
                    cells.take(k as int),
                ).sealed {
                    Some(settle(cells.take(k as int)).tiles.last())
                } else {
                    None
                }),
            decreases end + 1 - k,
        {
            proof {
                lemma_take_next(cells, k as int);
            }
            match self.lane_cell(x, y, direction, k) {
                None => {},
                Some(rank) => {
                    let merging = match open {
                        Some(ahead) => ahead == rank && rank.next().is_some(),
                        None => false,
                    };
                    assert(merging == merges_at_end(cells.take(k + 1)));
                    if merging {
                        count = count + 1;
                        open = None;
                    } else {
                        open = Some(rank);
                    }
                },
            }
            k = k + 1;
        }
        count
    }

    /// Returns the number of cells that the tile at `(x, y)` travels when the
    /// board moves in `direction`: one for each empty cell on its way to the
    /// edge and one for each merge that takes place there, its own included.
    /// That many cells nearer the edge the tile is found after the move, as it
    /// was or merged into the next rank. The count is made for an empty cell
    /// as well, where it stands for no tile.
    pub fn steps(&self, x: u8, y: u8, direction: GameMovementDirection) -> (count: u8)
        requires
            in_bounds(x as int, y as int),
        ensures
            count == travel(
                lane(self@, direction, x as int, y as int),
                depth(direction, x as int, y as int),
            ),
            self@[y as int][x as int] matches Some(rank) ==> ({
                let to = lane_coord(
                    direction,
                    x as int,
                    y as int,
                    depth(direction, x as int, y as int) - count,
                );
                let there = moved(self@, direction)[to.1][to.0];
                &&& count <= depth(direction, x as int, y as int)
                &&& in_bounds(to.0, to.1)
                &&& there == Some(rank) || (there is Some && there == rank.successor())
            }),
    {
        let free = self.free_cells(x, y, direction);
        let merged = self.merge_credits(x, y, direction);
        proof {
            let cells = lane(self@, direction, x as int, y as int);
            let d = depth(direction, x as int, y as int);
            lemma_take_next(cells, d);
            lemma_cells_accounted(cells.take(d + 1));
            self.lemma_well_formed();
            if self@[y as int][x as int] is Some {
                lemma_tile_lands(self@, direction, x as int, y as int, self@[y as int][x as int].unwrap());
            }
        }
        free + merged
    }

    /// Returns the cell that lies `distance` cells from `(x, y)` toward the
    /// edge that `direction` pushes toward.
    fn ahead(x: u8, y: u8, direction: GameMovementDirection, distance: u8) -> (to: (u8, u8))
        requires
            in_bounds(x as int, y as int),
            distance <= depth(direction, x as int, y as int),
        ensures
            (to.0 as int, to.1 as int) == lane_coord(
                direction,
                x as int,
                y as int,
                depth(direction, x as int, y as int) - distance,
            ),
    {
        match direction {
            GameMovementDirection::Up => (x, y - distance),
            GameMovementDirection::Down => (x, y + distance),
            GameMovementDirection::Left => (x - distance, y),
            GameMovementDirection::Right => (x + distance, y),
        }
    }

    /// Moves every tile as far as it goes toward the edge that `direction`
    /// names, merging tiles of equal rank that meet. Each row or column moves
    /// on its own. A tile merges at most once in a move, the pair nearest the
    /// edge first, and two tiles of the top rank do not merge. The board stays
    /// as it is if and only if no tile travels.
    pub fn move_board(&mut self, direction: GameMovementDirection)
        ensures
            final(self)@ == moved(old(self)@, direction),
            final(self)@ == old(self)@ <==> at_rest(old(self)@, direction),
    {
        let patchset = self.gen_patchset(direction);
        proof {
            self.lemma_well_formed();
            lemma_plan_in_bounds(self@, direction, ROWS_COUNT as int, 0);
            lemma_plan_applied(self@, direction);
            lemma_stays_iff_at_rest(self@, direction);
        }
        self.apply_patchset(patchset);
    }

    /// Plans a move in `direction` on the board as it stands: for each tile
    /// that travels, the cell it leaves and the cell it comes to rest in. The
    /// cells are visited row by row, from the first row and column for `Up` and
    /// `Left` and from the last for `Down` and `Right`, so that along the
    /// direction of the move a tile nearer the edge always comes first.
    fn gen_patchset(&self, direction: GameMovementDirection) -> (patchset: Vec<Patch>)
        ensures
            patchset@ == plan(self@, direction),
    {
        let backward = match direction {
            GameMovementDirection::Down | GameMovementDirection::Right => true,
            GameMovementDirection::Up | GameMovementDirection::Left => false,
        };
        let mut patchset: Vec<Patch> = Vec::new();
        let mut i: u8 = 0;
        while i < ROWS_COUNT
            invariant
                i <= ROWS_COUNT,
                backward == reversed(direction),
                patchset@ == plan_before(self@, direction, i as int, 0),
            decreases ROWS_COUNT - i,
        {
            let y = if backward {
                ROWS_COUNT - 1 - i
            } else {
                i
            };
            let mut j: u8 = 0;
            while j < COLS_COUNT
                invariant
                    i < ROWS_COUNT,
                    j <= COLS_COUNT,
                    backward == reversed(direction),
                    y == (if backward {
                        ROWS_COUNT - 1 - i
                    } else {
                        i as int
                    }),
                    patchset@ == plan_before(self@, direction, i as int, j as int),
                decreases COLS_COUNT - j,
            {
                let x = if backward {
                    COLS_COUNT - 1 - j
                } else {
                    j
                };
                proof {
                    self.lemma_well_formed();
                    lemma_patch_at(self@, direction, x as int, y as int);
                }
                if self.get_cell(x, y).is_some() {
                    let distance = self.steps(x, y, direction);
                    if distance != 0 {
                        let to = Self::ahead(x, y, direction, distance);
                        patchset.push(((x, y), to));
                    }
                }
                j = j + 1;
            }
            i = i + 1;
        }
        patchset
    }

    /// Applies the patches in their order.
    fn apply_patchset(&mut self, patchset: Vec<Patch>)
        requires
            patches_in_bounds(patchset@),
        ensures
            final(self)@ == apply_all(old(self)@, patchset@),
    {
        let mut n: usize = 0;
        while n < patchset.len()
            invariant
                n <= patchset.len(),
                patches_in_bounds(patchset@),
                self@ == apply_all(old(self)@, patchset@.take(n as int)),
            decreases patchset.len() - n,
        {
            let ((x, y), (new_x, new_y)) = patchset[n];
            proof {
                assert(patchset@.take(n + 1).drop_last() =~= patchset@.take(n as int));
            }
            if let Some(block) = self.get_cell(x, y) {
                match self.get_cell(new_x, new_y) {
                    None => {
                        self.set_cell(new_x, new_y, Some(block));
                        self.set_cell(x, y, None);
                    },
                    Some(block_to_merge) => {
                        if let Some(merged) = block_to_merge.next() {
                            self.set_cell(new_x, new_y, Some(merged));
                            self.set_cell(x, y, None);
                        }
                    },
                }
            }
            n = n + 1;
        }
        proof {
            assert(patchset@.take(patchset.len() as int) =~= patchset@);
        }
    }
}

} // verus!
