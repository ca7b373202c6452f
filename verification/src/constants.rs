use vstd::prelude::*;

verus! {

/// Number of rows of the board.
pub const ROWS_COUNT: u8 = 4;

/// Number of columns of the board.
pub const COLS_COUNT: u8 = 4;

/// The edge toward which a move pushes the tiles.
#[derive(Clone, Copy, Debug, PartialEq, Eq, Structural)]
pub enum GameMovementDirection {
    Up,
    Right,
    Down,
    Left,
}

} // verus!
