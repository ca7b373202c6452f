//! Choosing an empty cell for a new tile.
//!
//! The search starts at a random cell. It first scans the part of the board
//! that lies at and after that cell, or the part that lies before it, by
//! columns or by rows. Where that part holds no empty cell, it scans the whole
//! board row by row.

use vstd::prelude::*;
use crate::constants::{COLS_COUNT, ROWS_COUNT};
use crate::game_board::GameBoard;
use crate::grid::{in_bounds, Grid};
use crate::random::{random_below, random_flag};

verus! {

/// The board holds no empty cell.
#[derive(Clone, Copy, Debug, PartialEq, Eq, Structural)]
pub struct BoardFullError;

/// Where and how the first scan for an empty cell runs.
#[derive(Clone, Copy, Debug, PartialEq, Eq, Structural)]
pub struct ScanStart {
    /// The column of the cell at which the scan starts or stops.
    pub x: u8,
    /// The row of the cell at which the scan starts or stops.
    pub y: u8,
    /// Whether the scan runs down one column after the other, or along one row
    /// after the other.
    pub by_columns: bool,
    /// Whether the scan covers the columns from `x` on and the rows from `y`
    /// on, or the columns before `x` and the rows before `y`.
    pub forward: bool,
}

impl ScanStart {
    /// Whether the scan starts at a cell of the board.
    pub open spec fn on_board(self) -> bool {
        in_bounds(self.x as int, self.y as int)
    }

    /// Whether the scan visits the cell at `(x, y)`.
    pub open spec fn covers(self, x: int, y: int) -> bool {
        if self.forward {
            self.x <= x < COLS_COUNT && self.y <= y < ROWS_COUNT
        } else {
            0 <= x < self.x && 0 <= y < self.y
        }
    }

    /// Whether the scan comes to the cell `a` before it comes to the cell `b`.
    pub open spec fn before(self, a: (int, int), b: (int, int)) -> bool {
        if self.by_columns {
            a.0 < b.0 || (a.0 == b.0 && a.1 < b.1)
        } else {
            a.1 < b.1 || (a.1 == b.1 && a.0 < b.0)
        }
    }

    /// Draws a start at random: a cell of the board, and both flags.
    pub fn random() -> (start: ScanStart)
        ensures
            start.on_board(),
    {
        let mut rng = rand::thread_rng();
        let by_columns = random_flag(&mut rng);
        let forward = random_flag(&mut rng);
        let x = random_below(&mut rng, COLS_COUNT);
        let y = random_below(&mut rng, ROWS_COUNT);
        ScanStart { x, y, by_columns, forward }
    }
}

/// Whether `(x, y)` is an empty cell of the board.
pub open spec fn vacant(grid: Grid, x: int, y: int) -> bool {
    in_bounds(x, y) && grid[y][x] is None
}

/// Whether no cell of the board is empty.
pub open spec fn is_full(grid: Grid) -> bool {
    forall|x: int, y: int| !#[trigger] vacant(grid, x, y)
}

/// Whether `(x, y)` is the one empty cell of the board.
pub open spec fn sole_vacancy(grid: Grid, x: int, y: int) -> bool {
    &&& vacant(grid, x, y)
    &&& forall|other_x: int, other_y: int| #[trigger]
        vacant(grid, other_x, other_y) ==> other_x == x && other_y == y
}

/// Whether `(x, y)` is the first empty cell that the first scan comes to.
pub open spec fn first_scan_finds(grid: Grid, start: ScanStart, x: int, y: int) -> bool {
    &&& start.covers(x, y)
    &&& vacant(grid, x, y)
    &&& forall|other_x: int, other_y: int|
        #[trigger] start.covers(other_x, other_y) && start.before((other_x, other_y), (x, y))
            ==> !vacant(grid, other_x, other_y)
}

/// Whether the first scan comes to no empty cell.
pub open spec fn first_scan_fails(grid: Grid, start: ScanStart) -> bool {
    forall|x: int, y: int| #[trigger] start.covers(x, y) ==> !vacant(grid, x, y)
}

/// Whether `(x, y)` is the first empty cell of the board, row by row.
pub open spec fn row_scan_finds(grid: Grid, x: int, y: int) -> bool {
    &&& vacant(grid, x, y)
    &&& forall|other_x: int, other_y: int| #[trigger]
        vacant(grid, other_x, other_y) ==> other_y > y || (other_y == y && other_x >= x)
}

/// Whether the search from `start` ends in `found`: in the first empty cell of
/// the first scan, else in the first empty cell of the board row by row, else
/// in the error of a full board.
pub open spec fn search_finds(
    grid: Grid,
    start: ScanStart,
    found: Result<(u8, u8), BoardFullError>,
) -> bool {
    match found {
        Ok(at) => {
            ||| first_scan_finds(grid, start, at.0 as int, at.1 as int)
            ||| first_scan_fails(grid, start) && row_scan_finds(grid, at.0 as int, at.1 as int)
        },
        Err(_) => is_full(grid),
    }
}

/// The search from a start ends in one way only.
pub proof fn lemma_search_is_determined(
    grid: Grid,
    start: ScanStart,
    one: Result<(u8, u8), BoardFullError>,
    other: Result<(u8, u8), BoardFullError>,
)
    requires
        search_finds(grid, start, one),
        search_finds(grid, start, other),
    ensures
        one == other,
{
    match (one, other) {
        (Ok(a), Ok(b)) => {
            assert(vacant(grid, a.0 as int, a.1 as int));
            assert(vacant(grid, b.0 as int, b.1 as int));
            if first_scan_finds(grid, start, a.0 as int, a.1 as int) {
                assert(start.covers(a.0 as int, a.1 as int));
            }
            if first_scan_finds(grid, start, b.0 as int, b.1 as int) {
                assert(start.covers(b.0 as int, b.1 as int));
            }
            assert(a.0 == b.0 && a.1 == b.1);
        },
        (Ok(a), Err(_)) => {
            assert(vacant(grid, a.0 as int, a.1 as int));
        },
        (Err(_), Ok(b)) => {
            assert(vacant(grid, b.0 as int, b.1 as int));
        },
        (Err(full), Err(also_full)) => {
            assert(full == BoardFullError && also_full == BoardFullError);
        },
    }
}

impl GameBoard {
    /// Returns the empty cell that the search from `start` comes to first, or
    /// the error of a full board where no cell is empty.
    pub fn available_cell_from(&self, start: ScanStart) -> (found: Result<
        (u8, u8),
        BoardFullError,
    >)
        requires
            start.on_board(),
        ensures
            search_finds(self@, start, found),
            found is Err <==> is_full(self@),
            forall|x: int, y: int| #[trigger]
                sole_vacancy(self@, x, y) ==> found == Ok::<(u8, u8), BoardFullError>(
                    (x as u8, y as u8),
                ),
    {
        let (x_start, y_start) = if start.forward {
            (start.x, start.y)
        } else {
            (0, 0)
        };
        let (x_end, y_end) = if start.forward {
            (COLS_COUNT, ROWS_COUNT)
        } else {
            (start.x, start.y)
        };
        let (outer_start, outer_end) = if start.by_columns {
            (x_start, x_end)
        } else {
            (y_start, y_end)
        };
        let (inner_start, inner_end) = if start.by_columns {
            (y_start, y_end)
        } else {
            (x_start, x_end)
        };
        let mut outer = outer_start;
        while outer < outer_end
            invariant
                x_end <= COLS_COUNT,
                y_end <= ROWS_COUNT,
                outer_start <= outer,
                (outer_start, outer_end) == (if start.by_columns {
                    (x_start, x_end)
                } else {
                    (y_start, y_end)
                }),
                (inner_start, inner_end) == (if start.by_columns {
                    (y_start, y_end)
                } else {
                    (x_start, x_end)
                }),
                forall|x: int, y: int|
                    start.covers(x, y) <==> x_start <= x < x_end && y_start <= y < y_end,
                forall|x: int, y: int| #[trigger]
                    start.covers(x, y) && (if start.by_columns {
                        x
                    } else {
                        y
                    }) < outer ==> !vacant(self@, x, y),
            decreases outer_end - outer,
        {
            let mut inner = inner_start;
            while inner < inner_end
                invariant
                    x_end <= COLS_COUNT,
                    y_end <= ROWS_COUNT,
                    outer_start <= outer < outer_end,
                    inner_start <= inner,
                    (outer_start, outer_end) == (if start.by_columns {
                        (x_start, x_end)
                    } else {
                        (y_start, y_end)
                    }),
                    (inner_start, inner_end) == (if start.by_columns {
                        (y_start, y_end)
                    } else {
                        (x_start, x_end)
                    }),
                    forall|x: int, y: int|
                        start.covers(x, y) <==> x_start <= x < x_end && y_start <= y < y_end,
                    forall|x: int, y: int| #[trigger]
                        start.covers(x, y) && start.before(
                            (x, y),
                            (if start.by_columns {
                                (outer as int, inner as int)
                            } else {
                                (inner as int, outer as int)
                            }),
                        ) ==> !vacant(self@, x, y),
                decreases inner_end - inner,
            {
                let (x, y) = if start.by_columns {
                    (outer, inner)
                } else {
                    (inner, outer)
                };
                if self.get_cell(x, y).is_none() {
                    assert(start.covers(x as int, y as int));
                    assert(vacant(self@, x as int, y as int));
                    assert(first_scan_finds(self@, start, x as int, y as int));
                    return Ok((x, y));
                }
                inner = inner + 1;
            }
            outer = outer + 1;
        }
        assert(first_scan_fails(self@, start));
        let mut y: u8 = 0;
        while y < ROWS_COUNT
            invariant
                y <= ROWS_COUNT,
                first_scan_fails(self@, start),
                forall|other_x: int, other_y: int| #[trigger]
                    vacant(self@, other_x, other_y) ==> other_y >= y,
            decreases ROWS_COUNT - y,
        {
            let mut x: u8 = 0;
            while x < COLS_COUNT
                invariant
                    y < ROWS_COUNT,
                    x <= COLS_COUNT,
                    first_scan_fails(self@, start),
                    forall|other_x: int, other_y: int| #[trigger]
                        vacant(self@, other_x, other_y) ==> other_y > y || (other_y == y
                            && other_x >= x),
                decreases COLS_COUNT - x,
            {
                if self.get_cell(x, y).is_none() {
                    assert(vacant(self@, x as int, y as int));
                    assert(row_scan_finds(self@, x as int, y as int));
                    return Ok((x, y));
                }
                x = x + 1;
            }
            y = y + 1;
        }
        Err(BoardFullError)
    }

    /// Returns an empty cell of the board chosen at random, or the error of a
    /// full board where no cell is empty. Whatever is drawn, the cell is the
    /// one that the search from some start on the board comes to first.
    pub fn rand_available_cell(&self) -> (found: Result<(u8, u8), BoardFullError>)
        ensures
            exists|start: ScanStart| start.on_board() && #[trigger] search_finds(self@, start, found),
            found is Err <==> is_full(self@),
            found matches Ok(at) ==> vacant(self@, at.0 as int, at.1 as int),
            forall|x: int, y: int| #[trigger]
                sole_vacancy(self@, x, y) ==> found == Ok::<(u8, u8), BoardFullError>(
                    (x as u8, y as u8),
                ),
    {
        let start = ScanStart::random();
        self.available_cell_from(start)
    }
}

} // verus!
