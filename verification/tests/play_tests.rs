use game2048::block::BlockSize;
use game2048::constants::GameMovementDirection;
use game2048::game_board::GameBoard;
use game2048::materials::{Materials, Rgba};
use game2048::movement::{input_movement, movement, ArrowKeys, GameMovement, Position};
use game2048::watcher::{game_board_watcher, place_blocks};

const NO_KEYS: ArrowKeys = ArrowKeys { up: false, right: false, down: false, left: false };

fn idle() -> GameMovement {
    GameMovement::default()
}

#[test]
fn position_new_keeps_column_and_row() {
    let position = Position::new(3, 1);
    assert_eq!(position.x, 3);
    assert_eq!(position.y, 1);
    assert_eq!(position, Position { x: 3, y: 1 });
}

#[test]
fn default_movement_waits_for_a_key() {
    assert_eq!(GameMovement::default(), GameMovement { pressed_key: None, direction: None });
}

#[test]
fn arrow_key_is_read_by_its_direction() {
    let keys = ArrowKeys { up: true, right: false, down: true, left: false };
    assert!(keys.of(GameMovementDirection::Up));
    assert!(!keys.of(GameMovementDirection::Right));
    assert!(keys.of(GameMovementDirection::Down));
    assert!(!keys.of(GameMovementDirection::Left));
}

#[test]
fn pressed_key_asks_for_its_move() {
    let cases = [
        (ArrowKeys { up: true, ..NO_KEYS }, GameMovementDirection::Up),
        (ArrowKeys { right: true, ..NO_KEYS }, GameMovementDirection::Right),
        (ArrowKeys { down: true, ..NO_KEYS }, GameMovementDirection::Down),
        (ArrowKeys { left: true, ..NO_KEYS }, GameMovementDirection::Left),
    ];
    for (pressed, direction) in cases {
        let mut state = idle();
        assert!(input_movement(&mut state, pressed, NO_KEYS));
        assert_eq!(state, GameMovement { pressed_key: Some(direction), direction: Some(direction) });
    }
}

#[test]
fn keys_are_taken_in_the_order_up_right_down_left() {
    let mut state = idle();
    let all = ArrowKeys { up: true, right: true, down: true, left: true };
    assert!(input_movement(&mut state, all, NO_KEYS));
    assert_eq!(state.direction, Some(GameMovementDirection::Up));

    let mut state = idle();
    let three = ArrowKeys { up: false, right: true, down: true, left: true };
    assert!(input_movement(&mut state, three, NO_KEYS));
    assert_eq!(state.direction, Some(GameMovementDirection::Right));

    let mut state = idle();
    let two = ArrowKeys { up: false, right: false, down: true, left: true };
    assert!(input_movement(&mut state, two, NO_KEYS));
    assert_eq!(state.direction, Some(GameMovementDirection::Down));
}

#[test]
fn no_key_asks_for_nothing() {
    let mut state = idle();
    assert!(!input_movement(&mut state, NO_KEYS, NO_KEYS));
    assert_eq!(state, idle());
}

#[test]
fn waiting_move_shuts_the_keys_out() {
    let before = GameMovement {
        pressed_key: Some(GameMovementDirection::Up),
        direction: Some(GameMovementDirection::Up),
    };
    let mut state = before;
    let pressed = ArrowKeys { left: true, ..NO_KEYS };
    let released = ArrowKeys { up: true, ..NO_KEYS };
    assert!(!input_movement(&mut state, pressed, released));
    assert_eq!(state, before);
}

#[test]
fn held_key_asks_for_no_second_move() {
    let before = GameMovement { pressed_key: Some(GameMovementDirection::Up), direction: None };
    let mut state = before;
    let pressed = ArrowKeys { up: true, left: true, ..NO_KEYS };
    assert!(!input_movement(&mut state, pressed, NO_KEYS));
    assert_eq!(state, before);
}

#[test]
fn letting_the_key_go_frees_the_keys() {
    let mut state = GameMovement { pressed_key: Some(GameMovementDirection::Up), direction: None };
    let released = ArrowKeys { up: true, ..NO_KEYS };
    let pressed = ArrowKeys { left: true, ..NO_KEYS };
    assert!(!input_movement(&mut state, pressed, released));
    assert_eq!(state, idle());
    assert!(input_movement(&mut state, pressed, NO_KEYS));
    assert_eq!(state.direction, Some(GameMovementDirection::Left));
}

#[test]
fn letting_another_key_go_changes_nothing() {
    let before = GameMovement { pressed_key: Some(GameMovementDirection::Up), direction: None };
    let mut state = before;
    let released = ArrowKeys { down: true, ..NO_KEYS };
    assert!(!input_movement(&mut state, NO_KEYS, released));
    assert_eq!(state, before);
}

fn board_with(tiles: &[(u8, u8, BlockSize)]) -> GameBoard {
    let mut board = GameBoard::new();
    for (x, y, rank) in tiles {
        board.set_cell(*x, *y, Some(*rank));
    }
    board
}

#[test]
fn movement_without_a_move_does_nothing() {
    let mut board = board_with(&[(0, 0, BlockSize::_2)]);
    let mut positions = vec![Position::new(0, 0)];
    let mut state = idle();
    assert!(!movement(&mut positions, &mut state, &mut board));
    assert_eq!(positions, vec![Position::new(0, 0)]);
    assert_eq!(board.get_cell(0, 0), Some(BlockSize::_2));
    assert_eq!(state, idle());
}

#[test]
fn movement_sends_each_position_where_its_tile_goes() {
    let mut board = board_with(&[
        (0, 0, BlockSize::_2),
        (0, 1, BlockSize::_2),
        (2, 3, BlockSize::_4),
        (3, 0, BlockSize::_8),
    ]);
    let mut positions = vec![
        Position::new(0, 0),
        Position::new(0, 1),
        Position::new(2, 3),
        Position::new(3, 0),
    ];
    let mut state = GameMovement {
        pressed_key: Some(GameMovementDirection::Down),
        direction: Some(GameMovementDirection::Down),
    };
    assert!(movement(&mut positions, &mut state, &mut board));
    assert_eq!(
        positions,
        vec![Position::new(0, 3), Position::new(0, 3), Position::new(2, 3), Position::new(3, 3)]
    );
    assert_eq!(state, GameMovement { pressed_key: Some(GameMovementDirection::Down), direction: None });
    assert_eq!(board.get_cell(0, 3), Some(BlockSize::_4));
    assert_eq!(board.get_cell(0, 0), None);
    assert_eq!(board.get_cell(0, 1), None);
    assert_eq!(board.get_cell(2, 3), Some(BlockSize::_4));
    assert_eq!(board.get_cell(3, 3), Some(BlockSize::_8));
}

#[test]
fn movement_that_moves_no_tile_leaves_the_board() {
    let mut board = board_with(&[(0, 3, BlockSize::_2), (1, 3, BlockSize::_4)]);
    let mut positions = vec![Position::new(0, 3), Position::new(1, 3)];
    let mut state = GameMovement {
        pressed_key: Some(GameMovementDirection::Down),
        direction: Some(GameMovementDirection::Down),
    };
    assert!(!movement(&mut positions, &mut state, &mut board));
    assert_eq!(positions, vec![Position::new(0, 3), Position::new(1, 3)]);
    assert_eq!(state.direction, None);
    assert_eq!(board.get_cell(0, 3), Some(BlockSize::_2));
    assert_eq!(board.get_cell(1, 3), Some(BlockSize::_4));
}

#[test]
fn watcher_replaces_merged_blocks_by_one_of_the_new_rank() {
    let board = board_with(&[(0, 3, BlockSize::_4), (2, 3, BlockSize::_4), (3, 3, BlockSize::_8)]);
    let blocks = vec![
        (BlockSize::_2, Position::new(0, 3)),
        (BlockSize::_4, Position::new(2, 3)),
        (BlockSize::_2, Position::new(0, 3)),
        (BlockSize::_8, Position::new(3, 3)),
    ];
    let changes = game_board_watcher(&blocks, &board);
    assert_eq!(changes.despawned, vec![true, false, true, false]);
    assert_eq!(changes.blocks_to_spawn, vec![(BlockSize::_4, Position::new(0, 3))]);
}

#[test]
fn watcher_keeps_blocks_that_show_their_cells() {
    let board = board_with(&[(1, 1, BlockSize::_16), (2, 2, BlockSize::_32)]);
    let blocks = vec![(BlockSize::_16, Position::new(1, 1)), (BlockSize::_32, Position::new(2, 2))];
    let changes = game_board_watcher(&blocks, &board);
    assert_eq!(changes.despawned, vec![false, false]);
    assert!(changes.blocks_to_spawn.is_empty());
}

#[test]
fn watcher_handles_two_merges() {
    let board = board_with(&[(0, 0, BlockSize::_4), (0, 1, BlockSize::_16)]);
    let blocks = vec![
        (BlockSize::_2, Position::new(0, 0)),
        (BlockSize::_8, Position::new(0, 1)),
        (BlockSize::_8, Position::new(0, 1)),
        (BlockSize::_2, Position::new(0, 0)),
    ];
    let changes = game_board_watcher(&blocks, &board);
    assert_eq!(changes.despawned, vec![true, true, true, true]);
    assert_eq!(
        changes.blocks_to_spawn,
        vec![(BlockSize::_16, Position::new(0, 1)), (BlockSize::_4, Position::new(0, 0))]
    );
}

#[test]
fn watcher_takes_a_lone_outdated_block_away() {
    let board = board_with(&[(1, 1, BlockSize::_16)]);
    let blocks = vec![(BlockSize::_2, Position::new(1, 1))];
    let changes = game_board_watcher(&blocks, &board);
    assert_eq!(changes.despawned, vec![true]);
    assert!(changes.blocks_to_spawn.is_empty());
}

#[test]
fn watcher_of_no_blocks_changes_nothing() {
    let board = GameBoard::new();
    let changes = game_board_watcher(&Vec::new(), &board);
    assert!(changes.despawned.is_empty());
    assert!(changes.blocks_to_spawn.is_empty());
}

#[test]
fn place_blocks_sets_each_cell_in_turn() {
    let mut board = GameBoard::new();
    let blocks = vec![
        (BlockSize::_2, Position::new(0, 0)),
        (BlockSize::_4, Position::new(1, 3)),
        (BlockSize::_8, Position::new(0, 0)),
    ];
    place_blocks(&mut board, &blocks);
    assert_eq!(board.get_cell(0, 0), Some(BlockSize::_8));
    assert_eq!(board.get_cell(1, 3), Some(BlockSize::_4));
    assert_eq!(board.get_cell(1, 0), None);
}

#[test]
fn palette_has_the_colours_of_the_game() {
    let materials = Materials::instantiate();
    assert_eq!(materials._2_color, Rgba { red: 238, green: 228, blue: 218, alpha: 100 });
    assert_eq!(materials._4_color, Rgba { red: 237, green: 224, blue: 200, alpha: 100 });
    assert_eq!(materials._8_color, Rgba { red: 242, green: 177, blue: 121, alpha: 100 });
    assert_eq!(materials._16_color, Rgba { red: 245, green: 149, blue: 99, alpha: 100 });
    assert_eq!(materials._32_color, Rgba { red: 246, green: 124, blue: 95, alpha: 100 });
    assert_eq!(materials._64_color, Rgba { red: 246, green: 94, blue: 59, alpha: 100 });
    assert_eq!(materials._128_color, Rgba { red: 237, green: 207, blue: 114, alpha: 100 });
    assert_eq!(materials._256_color, Rgba { red: 237, green: 204, blue: 97, alpha: 100 });
    assert_eq!(materials._512_color, Rgba { red: 237, green: 200, blue: 80, alpha: 100 });
    assert_eq!(materials._1024_color, Rgba { red: 237, green: 197, blue: 63, alpha: 100 });
    assert_eq!(materials._2048_color, Rgba { red: 237, green: 194, blue: 46, alpha: 100 });
    assert_eq!(materials.empty_color, Rgba { red: 238, green: 228, blue: 218, alpha: 35 });
    assert_eq!(materials.debug_color, Rgba { red: 220, green: 20, blue: 60, alpha: 100 });
    assert_eq!(materials.text_primary_color, Rgba { red: 119, green: 110, blue: 101, alpha: 100 });
    assert_eq!(materials.text_inverted_color, Rgba { red: 255, green: 255, blue: 255, alpha: 100 });
    assert_eq!(materials.transparent_color, Rgba { red: 0, green: 0, blue: 0, alpha: 0 });
}

#[test]
fn colour_is_picked_by_rank() {
    let materials = Materials::instantiate();
    assert_eq!(Materials::from_block_size(&materials, BlockSize::_2), materials._2_color);
    assert_eq!(Materials::from_block_size(&materials, BlockSize::_4), materials._4_color);
    assert_eq!(Materials::from_block_size(&materials, BlockSize::_8), materials._8_color);
    assert_eq!(Materials::from_block_size(&materials, BlockSize::_16), materials._16_color);
    assert_eq!(Materials::from_block_size(&materials, BlockSize::_32), materials._32_color);
    assert_eq!(Materials::from_block_size(&materials, BlockSize::_64), materials._64_color);
    assert_eq!(Materials::from_block_size(&materials, BlockSize::_128), materials._128_color);
    assert_eq!(Materials::from_block_size(&materials, BlockSize::_256), materials._256_color);
    assert_eq!(Materials::from_block_size(&materials, BlockSize::_512), materials._512_color);
    assert_eq!(Materials::from_block_size(&materials, BlockSize::_1024), materials._1024_color);
    assert_eq!(Materials::from_block_size(&materials, BlockSize::_2048), materials._2048_color);
}

#[test]
fn text_is_inverted_from_8_to_64_and_from_512_on() {
    let inverted = [
        (BlockSize::_2, false),
        (BlockSize::_4, false),
        (BlockSize::_8, true),
        (BlockSize::_16, true),
        (BlockSize::_32, true),
        (BlockSize::_64, true),
        (BlockSize::_128, false),
        (BlockSize::_256, false),
        (BlockSize::_512, true),
        (BlockSize::_1024, true),
        (BlockSize::_2048, true),
    ];
    for (rank, expected) in inverted {
        assert_eq!(Materials::should_use_inverted_color(&rank), expected);
    }
}
