use game2048::block::BlockSize;
use game2048::constants::{GameMovementDirection, COLS_COUNT, ROWS_COUNT};
use game2048::game_board::GameBoard;

#[test]
fn steps_plain() {
    let mut game_board = GameBoard::new();

    game_board.set_cell(0, 0, Some(BlockSize::_2));

    println!("{}", game_board.pretty_string());

    assert!(game_board.get_cell(0, 0).is_some());
    assert!(game_board.get_cell(0, 3).is_none());

    game_board.move_board(GameMovementDirection::Down);

    println!("{}", game_board.pretty_string());

    assert!(game_board.get_cell(0, 0).is_none());
    assert!(game_board.get_cell(0, 3).is_some());
}

#[test]
fn steps_multi_blocks() {
    let mut game_board = GameBoard::new();

    game_board.set_cell(0, 0, Some(BlockSize::_2));
    game_board.set_cell(0, 1, Some(BlockSize::_4));

    println!("{}", game_board.pretty_string());

    assert!(game_board.get_cell(0, 0).is_some());
    assert!(game_board.get_cell(0, 1).is_some());
    assert!(game_board.get_cell(0, 3).is_none());
    assert!(game_board.get_cell(0, 2).is_none());

    game_board.move_board(GameMovementDirection::Down);

    println!("{}", game_board.pretty_string());

    assert!(game_board.get_cell(0, 0).is_none());
    assert!(game_board.get_cell(0, 1).is_none());
    assert!(game_board.get_cell(0, 3).is_some());
    assert!(game_board.get_cell(0, 2).is_some());

    assert_eq!(game_board.get_cell(0, 3).unwrap(), BlockSize::_4);
    assert_eq!(game_board.get_cell(0, 2).unwrap(), BlockSize::_2);
}

#[test]
fn blocks_merging() {
    let mut game_board = GameBoard::new();

    game_board.set_cell(0, 0, Some(BlockSize::_2));
    game_board.set_cell(0, 1, Some(BlockSize::_2));

    println!("{}", game_board.pretty_string());

    assert!(game_board.get_cell(0, 0).is_some());
    assert!(game_board.get_cell(0, 1).is_some());
    assert!(game_board.get_cell(0, 3).is_none());
    assert!(game_board.get_cell(0, 2).is_none());

    game_board.move_board(GameMovementDirection::Down);

    println!("{}", game_board.pretty_string());

    assert!(game_board.get_cell(0, 0).is_none());
    assert!(game_board.get_cell(0, 1).is_none());
    assert!(game_board.get_cell(0, 2).is_none());
    assert!(game_board.get_cell(0, 3).is_some());

    assert_eq!(game_board.get_cell(0, 3).unwrap(), BlockSize::_4);
}

#[test]
fn complex_blocks_merging() {
    let mut game_board = GameBoard::new();

    game_board.set_cell(0, 3, Some(BlockSize::_2));
    game_board.set_cell(1, 3, Some(BlockSize::_2));
    game_board.set_cell(2, 3, Some(BlockSize::_4));

    println!("{}", game_board.pretty_string());

    assert!(game_board.get_cell(0, 3).is_some());
    assert!(game_board.get_cell(1, 3).is_some());
    assert!(game_board.get_cell(2, 3).is_some());

    game_board.move_board(GameMovementDirection::Left);

    println!("{}", game_board.pretty_string());

    assert!(game_board.get_cell(0, 3).is_some());
    assert!(game_board.get_cell(1, 3).is_some());
    assert!(game_board.get_cell(2, 3).is_none());

    assert_eq!(game_board.get_cell(0, 3).unwrap(), BlockSize::_4);
    assert_eq!(game_board.get_cell(1, 3).unwrap(), BlockSize::_4);
}

#[test]
fn rand_cells() {
    let mut game_board = GameBoard::new();

    for _x in 0..ROWS_COUNT {
        for _y in 0..COLS_COUNT {
            println!("testing: ({}, {})", _x, _y);

            let (x, y) = game_board.rand_available_cell().unwrap();
            assert!(game_board.get_cell(x, y).is_none());

            game_board.set_cell(x, y, Some(BlockSize::_2));
        }
    }
}
