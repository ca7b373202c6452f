//! From the arrow keys to a move of the board.
//!
//! A key that is pressed asks for one move in its direction. While it is held
//! it asks for no other, and no key is looked at before the move that was asked
//! for has been made.

use vstd::prelude::*;
use crate::constants::GameMovementDirection;
use crate::game_board::GameBoard;
use crate::grid::{depth, in_bounds, lane, lane_coord, lemma_lane_shared, moved, Grid};
use crate::lane::{lemma_travel_is_distance, travel};

verus! {

/// A cell of the board by its column and its row.
#[derive(Clone, Copy, Debug, PartialEq, Eq, Hash, Structural)]
pub struct Position {
    pub x: u8,
    pub y: u8,
}

impl Position {
    /// Returns the position of column `x` and row `y`.
    pub fn new(x: u8, y: u8) -> (position: Self)
        ensures
            position == (Position { x, y }),
    {
        Position { x, y }
    }
}

/// One truth value for each arrow key, named by the direction of the key.
#[derive(Clone, Copy, Debug, PartialEq, Eq, Structural)]
pub struct ArrowKeys {
    pub up: bool,
    pub right: bool,
    pub down: bool,
    pub left: bool,
}

impl ArrowKeys {
    /// The truth value of the key for `direction`.
    pub open spec fn spec_of(&self, direction: GameMovementDirection) -> bool {
        match direction {
            GameMovementDirection::Up => self.up,
            GameMovementDirection::Right => self.right,
            GameMovementDirection::Down => self.down,
            GameMovementDirection::Left => self.left,
        }
    }

    /// Returns the truth value of the key for `direction`.
    #[verifier::when_used_as_spec(spec_of)]
    pub fn of(&self, direction: GameMovementDirection) -> (value: bool)
        ensures
            value == self.spec_of(direction),
    {
        match direction {
            GameMovementDirection::Up => self.up,
            GameMovementDirection::Right => self.right,
            GameMovementDirection::Down => self.down,
            GameMovementDirection::Left => self.left,
        }
    }

    /// The first key that is set, in the order up, right, down, left.
    pub open spec fn first(self) -> Option<GameMovementDirection> {
        if self.up {
            Some(GameMovementDirection::Up)
        } else if self.right {
            Some(GameMovementDirection::Right)
        } else if self.down {
            Some(GameMovementDirection::Down)
        } else if self.left {
            Some(GameMovementDirection::Left)
        } else {
            None
        }
    }
}

/// What the keys have asked for and not yet got.
#[derive(Clone, Copy, Debug, PartialEq, Eq, Structural)]
pub struct GameMovement {
    /// The key that asked for the last move and has not been let go since.
    pub pressed_key: Option<GameMovementDirection>,
    /// The move that was asked for and has not been made yet.
    pub direction: Option<GameMovementDirection>,
}

impl Default for GameMovement {
    fn default() -> (movement: Self)
        ensures
            movement == (GameMovement { pressed_key: None, direction: None }),
    {
        GameMovement { pressed_key: None, direction: None }
    }
}

/// What the keys make of `before`. While a move waits to be made nothing
/// changes. While the key of the last move is held nothing changes either,
/// until it is let go. Else the first key that is down asks for its move.
pub open spec fn after_input(before: GameMovement, pressed: ArrowKeys, released: ArrowKeys)
    -> GameMovement {
    if before.direction is Some {
        before
    } else {
        match before.pressed_key {
            Some(key) => if released.of(key) {
                GameMovement { pressed_key: None, direction: None }
            } else {
                before
            },
            None => GameMovement { pressed_key: pressed.first(), direction: pressed.first() },
        }
    }
}

/// Whether the keys ask for a new move of `before`.
pub open spec fn asks_for_move(before: GameMovement, pressed: ArrowKeys) -> bool {
    before.direction is None && before.pressed_key is None && pressed.first() is Some
}

/// Takes the state of the arrow keys, `pressed` for the keys that are down and
/// `released` for the keys that have just been let go, and returns whether a
/// new move has been asked for.
pub fn input_movement(game_movement: &mut GameMovement, pressed: ArrowKeys, released: ArrowKeys)
    -> (asked: bool)
    ensures
        *final(game_movement) == after_input(*old(game_movement), pressed, released),
        asked == asks_for_move(*old(game_movement), pressed),
{
    if game_movement.direction.is_some() {
        return false;
    }
    if let Some(curr_pressed_key) = game_movement.pressed_key {
        if released.of(curr_pressed_key) {
            game_movement.pressed_key = None;
            return false;
        }
        return false;
    }
    let direction = if pressed.up {
        Some(GameMovementDirection::Up)
    } else if pressed.right {
        Some(GameMovementDirection::Right)
    } else if pressed.down {
        Some(GameMovementDirection::Down)
    } else if pressed.left {
        Some(GameMovementDirection::Left)
    } else {
        None
    };
    game_movement.pressed_key = direction;
    game_movement.direction = direction;
    direction.is_some()
}

/// Whether `at` is a cell of the board that holds a tile.
pub open spec fn holds_tile(grid: Grid, at: Position) -> bool {
    in_bounds(at.x as int, at.y as int) && grid[at.y as int][at.x as int] is Some
}

/// How many cells the tile at `at` travels under a move in `direction`.
pub open spec fn travel_from(grid: Grid, direction: GameMovementDirection, at: Position) -> nat {
    travel(lane(grid, direction, at.x as int, at.y as int), depth(direction, at.x as int, at.y as int))
}

/// The cell where the tile at `at` comes to rest under a move in `direction`.
pub open spec fn landing(grid: Grid, direction: GameMovementDirection, at: Position) -> Position {
    let to = lane_coord(
        direction,
        at.x as int,
        at.y as int,
        depth(direction, at.x as int, at.y as int) - travel_from(grid, direction, at),
    );
    Position { x: to.0 as u8, y: to.1 as u8 }
}

/// Whether one of the tiles at `positions` travels under a move in
/// `direction`.
pub open spec fn any_travels(
    grid: Grid,
    direction: GameMovementDirection,
    positions: Seq<Position>,
) -> bool {
    exists|i: int| 0 <= i < positions.len() && travel_from(grid, direction, #[trigger] positions[i]) != 0
}

/// Makes the move that was asked for, if any: each of `positions`, which are
/// cells with tiles, is replaced by the cell where its tile comes to rest, and
/// the board moves if one of these tiles travels. Returns whether the board
/// has moved. Without a move that was asked for nothing happens.
pub fn movement(
    positions: &mut Vec<Position>,
    game_movement: &mut GameMovement,
    game_board: &mut GameBoard,
) -> (board_moved: bool)
    requires
        old(game_movement).direction is Some ==> forall|i: int|
            0 <= i < old(positions).len() ==> holds_tile(
                old(game_board)@,
                #[trigger] old(positions)[i],
            ),
    ensures
        final(game_movement).pressed_key == old(game_movement).pressed_key,
        final(game_movement).direction is None,
        final(positions).len() == old(positions).len(),
        match old(game_movement).direction {
            None => {
                &&& !board_moved
                &&& final(positions)@ == old(positions)@
                &&& final(game_board)@ == old(game_board)@
            },
            Some(direction) => {
                &&& board_moved == any_travels(old(game_board)@, direction, old(positions)@)
                &&& forall|i: int|
                    0 <= i < old(positions).len() ==> #[trigger] final(positions)[i] == landing(
                        old(game_board)@,
                        direction,
                        old(positions)[i],
                    )
                &&& final(game_board)@ == (if board_moved {
                    moved(old(game_board)@, direction)
                } else {
                    old(game_board)@
                })
            },
        },
{
    if let Some(direction) = game_movement.direction {
        let mut any_block_moved = false;
        let mut i: usize = 0;
        while i < positions.len()
            invariant
                i <= positions.len(),
                positions.len() == old(positions).len(),
                game_board@ == old(game_board)@,
                forall|j: int|
                    0 <= j < positions.len() ==> holds_tile(game_board@, #[trigger] old(positions)[j]),
                forall|j: int| i <= j < positions.len() ==> positions[j] == old(positions)[j],
                forall|j: int|
                    0 <= j < i ==> #[trigger] positions[j] == landing(
                        game_board@,
                        direction,
                        old(positions)[j],
                    ),
                any_block_moved == any_travels(game_board@, direction, old(positions)@.take(i as int)),
            decreases positions.len() - i,
        {
            let pos = positions[i];
            assert(holds_tile(game_board@, old(positions)[i as int]));
            let available_steps = game_board.steps(pos.x, pos.y, direction);
            proof {
                let cells = lane(game_board@, direction, pos.x as int, pos.y as int);
                let d = depth(direction, pos.x as int, pos.y as int);
                lemma_lane_shared(game_board@, direction, pos.x as int, pos.y as int, d);
                lemma_travel_is_distance(cells, d);
                lemma_lane_shared(
                    game_board@,
                    direction,
                    pos.x as int,
                    pos.y as int,
                    d - available_steps,
                );
            }
            let moved_to = match direction {
                GameMovementDirection::Up => Position { x: pos.x, y: pos.y - available_steps },
                GameMovementDirection::Right => Position { x: pos.x + available_steps, y: pos.y },
                GameMovementDirection::Down => Position { x: pos.x, y: pos.y + available_steps },
                GameMovementDirection::Left => Position { x: pos.x - available_steps, y: pos.y },
            };
            positions[i] = moved_to;
            proof {
                let seen = old(positions)@.take(i as int);
                let seen_next = old(positions)@.take(i + 1);
                assert(seen_next[i as int] == old(positions)[i as int]);
                if any_travels(game_board@, direction, seen) {
                    let j = choose|j: int|
                        0 <= j < seen.len() && travel_from(game_board@, direction, #[trigger] seen[j])
                            != 0;
                    assert(seen_next[j] == seen[j]);
                }
                if any_travels(game_board@, direction, seen_next) {
                    let j = choose|j: int|
                        0 <= j < seen_next.len() && travel_from(
                            game_board@,
                            direction,
                            #[trigger] seen_next[j],
                        ) != 0;
                    if j < i {
                        assert(seen[j] == seen_next[j]);
                    }
                }
            }
            if available_steps != 0 {
                any_block_moved = true;
            }
            i = i + 1;
        }
        proof {
            assert(old(positions)@.take(positions.len() as int) =~= old(positions)@);
        }
        game_movement.direction = None;
        if !any_block_moved {
            return false;
        }
        game_board.move_board(direction);
        true
    } else {
        false
    }
}

} // verus!
