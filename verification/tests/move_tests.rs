use game2048::block::BlockSize;
use game2048::constants::{GameMovementDirection, COLS_COUNT, ROWS_COUNT};
use game2048::game_board::GameBoard;

const DIRECTIONS: [GameMovementDirection; 4] = [
    GameMovementDirection::Up,
    GameMovementDirection::Right,
    GameMovementDirection::Down,
    GameMovementDirection::Left,
];

/// Builds a board from its rows, top row first; 0 stands for an empty cell and
/// any other number for the tile of that magnitude.
fn board_of(rows: [[u32; 4]; 4]) -> GameBoard {
    let mut board = GameBoard::new();
    for y in 0..ROWS_COUNT {
        for x in 0..COLS_COUNT {
            board.set_cell(x, y, rank_of(rows[y as usize][x as usize]));
        }
    }
    board
}

fn rank_of(magnitude: u32) -> Option<BlockSize> {
    match magnitude {
        0 => None,
        2 => Some(BlockSize::_2),
        4 => Some(BlockSize::_4),
        8 => Some(BlockSize::_8),
        16 => Some(BlockSize::_16),
        32 => Some(BlockSize::_32),
        64 => Some(BlockSize::_64),
        128 => Some(BlockSize::_128),
        256 => Some(BlockSize::_256),
        512 => Some(BlockSize::_512),
        1024 => Some(BlockSize::_1024),
        2048 => Some(BlockSize::_2048),
        _ => panic!("no tile of magnitude {}", magnitude),
    }
}

fn magnitude_of(cell: Option<BlockSize>) -> u32 {
    match cell {
        None => 0,
        Some(rank) => 1 << rank.exponent(),
    }
}

fn rows_of(board: &GameBoard) -> [[u32; 4]; 4] {
    let mut rows = [[0u32; 4]; 4];
    for y in 0..ROWS_COUNT {
        for x in 0..COLS_COUNT {
            rows[y as usize][x as usize] = magnitude_of(board.get_cell(x, y));
        }
    }
    rows
}

fn tile_count(board: &GameBoard) -> usize {
    rows_of(board).iter().flatten().filter(|m| **m != 0).count()
}

fn tile_sum(board: &GameBoard) -> u32 {
    rows_of(board).iter().flatten().sum()
}

/// The number of cells between `(x, y)` and the edge that `direction` pushes
/// toward.
fn distance_to_edge(x: u8, y: u8, direction: GameMovementDirection) -> u8 {
    match direction {
        GameMovementDirection::Up => y,
        GameMovementDirection::Down => ROWS_COUNT - 1 - y,
        GameMovementDirection::Left => x,
        GameMovementDirection::Right => COLS_COUNT - 1 - x,
    }
}

fn edge_cell(x: u8, y: u8, direction: GameMovementDirection) -> (u8, u8) {
    match direction {
        GameMovementDirection::Up => (x, 0),
        GameMovementDirection::Down => (x, ROWS_COUNT - 1),
        GameMovementDirection::Left => (0, y),
        GameMovementDirection::Right => (COLS_COUNT - 1, y),
    }
}

#[test]
fn new_board_is_empty() {
    let board = GameBoard::new();
    assert_eq!(rows_of(&board), [[0; 4]; 4]);
}

#[test]
fn set_cell_changes_one_cell_only() {
    let mut board = GameBoard::new();
    board.set_cell(2, 1, Some(BlockSize::_8));
    assert_eq!(rows_of(&board), [[0, 0, 0, 0], [0, 0, 8, 0], [0, 0, 0, 0], [0, 0, 0, 0]]);
    board.set_cell(2, 1, None);
    assert_eq!(rows_of(&board), [[0; 4]; 4]);
}

#[test]
fn single_tile_slides_to_the_edge() {
    for direction in DIRECTIONS {
        for y in 0..ROWS_COUNT {
            for x in 0..COLS_COUNT {
                let mut board = GameBoard::new();
                board.set_cell(x, y, Some(BlockSize::_8));
                assert_eq!(board.steps(x, y, direction), distance_to_edge(x, y, direction));
                board.move_board(direction);
                let (edge_x, edge_y) = edge_cell(x, y, direction);
                let mut expected = GameBoard::new();
                expected.set_cell(edge_x, edge_y, Some(BlockSize::_8));
                assert_eq!(rows_of(&board), rows_of(&expected));
            }
        }
    }
}

#[test]
fn tile_at_the_edge_does_not_move() {
    let board = board_of([[0, 0, 0, 0], [0, 0, 0, 0], [0, 0, 0, 0], [0, 2, 4, 0]]);
    assert_eq!(board.steps(1, 3, GameMovementDirection::Down), 0);
    assert_eq!(board.steps(2, 3, GameMovementDirection::Down), 0);
}

#[test]
fn adjacent_pair_merges_at_the_edge() {
    let before = [[0, 0, 0, 0], [0, 16, 0, 0], [0, 16, 0, 0], [0, 0, 0, 0]];
    let mut board = board_of(before);
    assert_eq!(board.steps(1, 2, GameMovementDirection::Down), 1);
    assert_eq!(board.steps(1, 1, GameMovementDirection::Down), 2);
    board.move_board(GameMovementDirection::Down);
    assert_eq!(rows_of(&board), [[0, 0, 0, 0], [0, 0, 0, 0], [0, 0, 0, 0], [0, 32, 0, 0]]);
    assert_eq!(tile_count(&board), 1);
    assert_eq!(tile_sum(&board), 32);

    let mut board = board_of(before);
    board.move_board(GameMovementDirection::Up);
    assert_eq!(rows_of(&board), [[0, 32, 0, 0], [0, 0, 0, 0], [0, 0, 0, 0], [0, 0, 0, 0]]);

    let sideways = [[0, 0, 0, 0], [0, 0, 0, 0], [0, 4, 4, 0], [0, 0, 0, 0]];
    let mut board = board_of(sideways);
    board.move_board(GameMovementDirection::Left);
    assert_eq!(rows_of(&board), [[0, 0, 0, 0], [0, 0, 0, 0], [8, 0, 0, 0], [0, 0, 0, 0]]);
    let mut board = board_of(sideways);
    board.move_board(GameMovementDirection::Right);
    assert_eq!(rows_of(&board), [[0, 0, 0, 0], [0, 0, 0, 0], [0, 0, 0, 8], [0, 0, 0, 0]]);
}

#[test]
fn three_in_a_row_merge_once() {
    let before = [[0, 0, 0, 0], [2, 2, 2, 0], [0, 0, 0, 0], [0, 0, 0, 0]];
    let mut board = board_of(before);
    assert_eq!(board.steps(0, 1, GameMovementDirection::Right), 2);
    assert_eq!(board.steps(1, 1, GameMovementDirection::Right), 2);
    assert_eq!(board.steps(2, 1, GameMovementDirection::Right), 1);
    board.move_board(GameMovementDirection::Right);
    assert_eq!(rows_of(&board), [[0, 0, 0, 0], [0, 0, 2, 4], [0, 0, 0, 0], [0, 0, 0, 0]]);
    assert_eq!(tile_count(&board), 2);

    let mut board = board_of(before);
    board.move_board(GameMovementDirection::Left);
    assert_eq!(rows_of(&board), [[0, 0, 0, 0], [4, 2, 0, 0], [0, 0, 0, 0], [0, 0, 0, 0]]);

    let upright = [[0, 0, 0, 64], [0, 0, 0, 64], [0, 0, 0, 64], [0, 0, 0, 0]];
    let mut board = board_of(upright);
    board.move_board(GameMovementDirection::Down);
    assert_eq!(rows_of(&board), [[0, 0, 0, 0], [0, 0, 0, 0], [0, 0, 0, 64], [0, 0, 0, 128]]);
    let mut board = board_of(upright);
    board.move_board(GameMovementDirection::Up);
    assert_eq!(rows_of(&board), [[0, 0, 0, 128], [0, 0, 0, 64], [0, 0, 0, 0], [0, 0, 0, 0]]);
}

#[test]
fn three_of_a_rank_with_a_gap_merge_once() {
    let before = [[2, 0, 2, 2], [0, 0, 0, 0], [0, 0, 0, 0], [0, 0, 0, 0]];
    let mut board = board_of(before);
    assert_eq!(board.steps(0, 0, GameMovementDirection::Right), 2);
    board.move_board(GameMovementDirection::Right);
    assert_eq!(rows_of(&board), [[0, 0, 2, 4], [0, 0, 0, 0], [0, 0, 0, 0], [0, 0, 0, 0]]);
    let mut board = board_of(before);
    assert_eq!(board.steps(3, 0, GameMovementDirection::Left), 2);
    board.move_board(GameMovementDirection::Left);
    assert_eq!(rows_of(&board), [[4, 2, 0, 0], [0, 0, 0, 0], [0, 0, 0, 0], [0, 0, 0, 0]]);
}

#[test]
fn four_of_a_rank_merge_in_two_pairs() {
    let mut board = board_of([[4, 0, 0, 0], [4, 0, 0, 0], [4, 0, 0, 0], [4, 0, 0, 0]]);
    assert_eq!(board.steps(0, 0, GameMovementDirection::Down), 2);
    assert_eq!(board.steps(0, 1, GameMovementDirection::Down), 1);
    assert_eq!(board.steps(0, 2, GameMovementDirection::Down), 1);
    assert_eq!(board.steps(0, 3, GameMovementDirection::Down), 0);
    board.move_board(GameMovementDirection::Down);
    assert_eq!(rows_of(&board), [[0, 0, 0, 0], [0, 0, 0, 0], [8, 0, 0, 0], [8, 0, 0, 0]]);
}

#[test]
fn two_pairs_of_different_ranks_both_merge() {
    let mut board = board_of([[0, 0, 0, 0], [2, 2, 4, 4], [0, 0, 0, 0], [0, 0, 0, 0]]);
    assert_eq!(board.free_cells(3, 1, GameMovementDirection::Left), 0);
    assert_eq!(board.merge_credits(3, 1, GameMovementDirection::Left), 2);
    assert_eq!(board.steps(3, 1, GameMovementDirection::Left), 2);
    assert_eq!(board.steps(2, 1, GameMovementDirection::Left), 1);
    assert_eq!(board.steps(1, 1, GameMovementDirection::Left), 1);
    assert_eq!(board.steps(0, 1, GameMovementDirection::Left), 0);
    board.move_board(GameMovementDirection::Left);
    assert_eq!(rows_of(&board), [[0, 0, 0, 0], [4, 8, 0, 0], [0, 0, 0, 0], [0, 0, 0, 0]]);
}

#[test]
fn tile_of_another_rank_in_between_prevents_the_merge() {
    let before = [[2, 4, 2, 0], [0, 0, 0, 0], [0, 0, 0, 0], [0, 0, 0, 0]];
    let mut board = board_of(before);
    assert_eq!(board.merge_credits(0, 0, GameMovementDirection::Right), 0);
    assert_eq!(board.free_cells(0, 0, GameMovementDirection::Right), 1);
    board.move_board(GameMovementDirection::Right);
    assert_eq!(rows_of(&board), [[0, 2, 4, 2], [0, 0, 0, 0], [0, 0, 0, 0], [0, 0, 0, 0]]);
}

#[test]
fn a_merged_tile_does_not_merge_again_in_the_same_move() {
    let mut board = board_of([[2, 2, 4, 0], [0, 0, 0, 0], [0, 0, 0, 0], [0, 0, 0, 0]]);
    board.move_board(GameMovementDirection::Left);
    assert_eq!(rows_of(&board), [[4, 4, 0, 0], [0, 0, 0, 0], [0, 0, 0, 0], [0, 0, 0, 0]]);
    board.move_board(GameMovementDirection::Left);
    assert_eq!(rows_of(&board), [[8, 0, 0, 0], [0, 0, 0, 0], [0, 0, 0, 0], [0, 0, 0, 0]]);
}

#[test]
fn tiles_of_the_top_rank_do_not_merge() {
    let before = [[0, 0, 0, 0], [0, 0, 0, 0], [2048, 2048, 0, 0], [0, 0, 0, 0]];
    let mut board = board_of(before);
    assert_eq!(board.merge_credits(1, 2, GameMovementDirection::Left), 0);
    assert_eq!(board.steps(1, 2, GameMovementDirection::Left), 0);
    board.move_board(GameMovementDirection::Left);
    assert_eq!(rows_of(&board), before);
    board.move_board(GameMovementDirection::Right);
    assert_eq!(rows_of(&board), [[0, 0, 0, 0], [0, 0, 0, 0], [0, 0, 2048, 2048], [0, 0, 0, 0]]);
}

#[test]
fn tiles_of_the_rank_below_the_top_merge() {
    let mut board = board_of([[1024, 0, 0, 1024], [0, 0, 0, 0], [0, 0, 0, 0], [0, 0, 0, 0]]);
    board.move_board(GameMovementDirection::Left);
    assert_eq!(rows_of(&board), [[2048, 0, 0, 0], [0, 0, 0, 0], [0, 0, 0, 0], [0, 0, 0, 0]]);
}

#[test]
fn blocked_board_does_not_change() {
    let before = [[2, 4, 2, 4], [4, 2, 4, 2], [2, 4, 2, 4], [4, 2, 4, 2]];
    for direction in DIRECTIONS {
        let mut board = board_of(before);
        for y in 0..ROWS_COUNT {
            for x in 0..COLS_COUNT {
                assert_eq!(board.steps(x, y, direction), 0);
            }
        }
        board.move_board(direction);
        assert_eq!(rows_of(&board), before);
    }
}

#[test]
fn full_board_moves_only_along_equal_neighbours() {
    let before = [[2, 4, 8, 16], [2, 8, 16, 32], [4, 2, 4, 2], [8, 4, 2, 4]];
    let mut board = board_of(before);
    board.move_board(GameMovementDirection::Left);
    assert_eq!(rows_of(&board), before);
    board.move_board(GameMovementDirection::Right);
    assert_eq!(rows_of(&board), before);
    board.move_board(GameMovementDirection::Up);
    assert_eq!(rows_of(&board), [[4, 4, 8, 16], [4, 8, 16, 32], [8, 2, 4, 2], [0, 4, 2, 4]]);
}

#[test]
fn board_at_rest_does_not_change() {
    let before = [[2, 4, 0, 0], [8, 0, 0, 0], [0, 0, 0, 0], [16, 32, 64, 0]];
    let mut board = board_of(before);
    board.move_board(GameMovementDirection::Left);
    assert_eq!(rows_of(&board), before);
}

#[test]
fn every_move_keeps_the_sum_of_the_magnitudes() {
    let before = [[2, 2, 4, 4], [0, 8, 8, 8], [16, 0, 16, 2], [2, 2, 2, 2]];
    for direction in DIRECTIONS {
        let mut board = board_of(before);
        let sum = tile_sum(&board);
        board.move_board(direction);
        assert_eq!(tile_sum(&board), sum);
    }
}

#[test]
fn lanes_move_independently() {
    let mut board = board_of([[2, 0, 2, 0], [0, 4, 0, 4], [8, 8, 8, 8], [0, 0, 0, 16]]);
    board.move_board(GameMovementDirection::Right);
    assert_eq!(rows_of(&board), [[0, 0, 0, 4], [0, 0, 0, 8], [0, 0, 16, 16], [0, 0, 0, 16]]);
    board.move_board(GameMovementDirection::Up);
    assert_eq!(rows_of(&board), [[0, 0, 16, 4], [0, 0, 0, 8], [0, 0, 0, 32], [0, 0, 0, 0]]);
}

#[test]
fn steps_on_an_empty_cell_counts_the_cell_itself() {
    let board = board_of([[0, 0, 0, 0], [0, 0, 0, 0], [0, 0, 0, 0], [0, 0, 0, 0]]);
    assert_eq!(board.steps(0, 0, GameMovementDirection::Up), 1);
    assert_eq!(board.steps(0, 0, GameMovementDirection::Down), 4);
    assert_eq!(board.free_cells(0, 0, GameMovementDirection::Down), 4);
    assert_eq!(board.merge_credits(0, 0, GameMovementDirection::Down), 0);
}

#[test]
fn down_then_left() {
    let mut board = GameBoard::new();
    board.set_cell(0, 0, Some(BlockSize::_2));
    board.set_cell(2, 3, Some(BlockSize::_4));
    board.set_cell(1, 3, Some(BlockSize::_2));

    assert_eq!(board.steps(0, 0, GameMovementDirection::Down), 3);
    assert_eq!(board.steps(2, 3, GameMovementDirection::Down), 0);
    assert_eq!(board.steps(1, 3, GameMovementDirection::Down), 0);
    board.move_board(GameMovementDirection::Down);
    assert_eq!(rows_of(&board), [[0, 0, 0, 0], [0, 0, 0, 0], [0, 0, 0, 0], [2, 2, 4, 0]]);
    assert_eq!(board.get_cell(0, 3), Some(BlockSize::_2));

    board.move_board(GameMovementDirection::Left);
    assert_eq!(rows_of(&board), [[0, 0, 0, 0], [0, 0, 0, 0], [0, 0, 0, 0], [4, 4, 0, 0]]);
    assert_eq!(board.get_cell(0, 3), Some(BlockSize::_4));
    assert_eq!(board.get_cell(1, 3), Some(BlockSize::_4));
    assert_eq!(board.get_cell(2, 3), None);
}

#[test]
fn pretty_string_shows_rows_and_labels() {
    let board = board_of([[2, 0, 0, 0], [0, 16, 0, 0], [0, 0, 128, 0], [0, 0, 0, 2048]]);
    let expected = "\n| 2 | - | - | - |\n| - | 16 | - | - |\n| - | - | 128 | - |\n| - | - | - | 2048 |\n";
    assert_eq!(board.pretty_string(), String::from(expected));
}

#[test]
fn pretty_string_of_an_empty_board() {
    let board = GameBoard::new();
    let expected = "\n| - | - | - | - |\n| - | - | - | - |\n| - | - | - | - |\n| - | - | - | - |\n";
    assert_eq!(board.pretty_string(), String::from(expected));
}

/// Slides one lane toward its first cell by pairing equal neighbours from
/// that end, the way the game is played by hand.
fn slide_by_hand(cells: [u32; 4]) -> [u32; 4] {
    let tiles: Vec<u32> = cells.iter().copied().filter(|m| *m != 0).collect();
    let mut rest = [0u32; 4];
    let mut filled = 0;
    let mut i = 0;
    while i < tiles.len() {
        if i + 1 < tiles.len() && tiles[i] == tiles[i + 1] && tiles[i] != 2048 {
            rest[filled] = tiles[i] * 2;
            i += 2;
        } else {
            rest[filled] = tiles[i];
            i += 1;
        }
        filled += 1;
    }
    rest
}

fn all_lanes() -> Vec<[u32; 4]> {
    let choices = [0u32, 2, 4, 1024, 2048];
    let mut lanes = Vec::new();
    for a in choices {
        for b in choices {
            for c in choices {
                for d in choices {
                    lanes.push([a, b, c, d]);
                }
            }
        }
    }
    lanes
}

fn backward(cells: [u32; 4]) -> [u32; 4] {
    [cells[3], cells[2], cells[1], cells[0]]
}

#[test]
fn every_row_moves_as_by_hand() {
    for cells in all_lanes() {
        for y in 0..ROWS_COUNT {
            let mut rows = [[0u32; 4]; 4];
            rows[y as usize] = cells;

            let mut board = board_of(rows);
            board.move_board(GameMovementDirection::Left);
            let mut expected = [[0u32; 4]; 4];
            expected[y as usize] = slide_by_hand(cells);
            assert_eq!(rows_of(&board), expected);

            let mut board = board_of(rows);
            board.move_board(GameMovementDirection::Right);
            let mut expected = [[0u32; 4]; 4];
            expected[y as usize] = backward(slide_by_hand(backward(cells)));
            assert_eq!(rows_of(&board), expected);
        }
    }
}

#[test]
fn every_column_moves_as_by_hand() {
    for cells in all_lanes() {
        for x in 0..COLS_COUNT {
            let mut rows = [[0u32; 4]; 4];
            for y in 0..4 {
                rows[y][x as usize] = cells[y];
            }

            let mut board = board_of(rows);
            board.move_board(GameMovementDirection::Up);
            let slid = slide_by_hand(cells);
            let mut expected = [[0u32; 4]; 4];
            for y in 0..4 {
                expected[y][x as usize] = slid[y];
            }
            assert_eq!(rows_of(&board), expected);

            let mut board = board_of(rows);
            board.move_board(GameMovementDirection::Down);
            let slid = backward(slide_by_hand(backward(cells)));
            let mut expected = [[0u32; 4]; 4];
            for y in 0..4 {
                expected[y][x as usize] = slid[y];
            }
            assert_eq!(rows_of(&board), expected);
        }
    }
}

#[test]
fn steps_is_free_cells_plus_merges() {
    for cells in all_lanes() {
        let mut rows = [[0u32; 4]; 4];
        rows[2] = cells;
        let board = board_of(rows);
        for direction in DIRECTIONS {
            for x in 0..COLS_COUNT {
                assert_eq!(
                    board.steps(x, 2, direction),
                    board.free_cells(x, 2, direction) + board.merge_credits(x, 2, direction)
                );
            }
        }
    }
}

#[test]
fn a_tile_lands_steps_cells_nearer_the_edge() {
    for cells in all_lanes() {
        let mut rows = [[0u32; 4]; 4];
        rows[1] = cells;
        let before = board_of(rows);
        let mut after = board_of(rows);
        after.move_board(GameMovementDirection::Left);
        for x in 0..COLS_COUNT {
            if let Some(rank) = before.get_cell(x, 1) {
                let distance = before.steps(x, 1, GameMovementDirection::Left);
                assert!(distance <= x);
                let landed = after.get_cell(x - distance, 1);
                assert!(landed == Some(rank) || (landed.is_some() && landed == rank.next()));
            }
        }
    }
}

#[test]
fn board_changes_exactly_when_some_tile_travels() {
    for cells in all_lanes() {
        let mut rows = [[0u32; 4]; 4];
        rows[3] = cells;
        for direction in DIRECTIONS {
            let before = board_of(rows);
            let mut travels = false;
            for y in 0..ROWS_COUNT {
                for x in 0..COLS_COUNT {
                    if before.get_cell(x, y).is_some() && before.steps(x, y, direction) != 0 {
                        travels = true;
                    }
                }
            }
            let mut after = board_of(rows);
            after.move_board(direction);
            assert_eq!(rows_of(&after) != rows, travels);
        }
    }
}
