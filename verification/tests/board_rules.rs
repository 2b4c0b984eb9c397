use crossword_bot::board::place_tiles_on_board;
use crossword_bot::game::{
    apply_placement_text, replay_history, validate_rack_len, EventKind, GameEvent, GameState,
};
use crossword_bot::game_config::{make_english_alphabet, make_game_config};
use crossword_bot::kwg::Kwg;
use crossword_bot::matrix::Dim;
use crossword_bot::GameError;

fn letters(s: &str) -> Vec<u8> {
    s.bytes().map(|b| if b == b'.' { 0 } else { b - b'A' + 1 }).collect()
}

fn board15() -> (Dim, Vec<u8>) {
    let dim = Dim { rows: 15, cols: 15 };
    (dim, vec![0u8; 15 * 15])
}

fn tiny_graph() -> Kwg {
    // accepts only the word AT: root, then A, then T
    let nodes = vec![
        (1 & 0x3fffff) | (1 << 22),
        (2 & 0x3fffff) | (1 << 22) | (1u32 << 24),
        (1 << 22) | (1 << 23) | (20u32 << 24),
    ];
    Kwg::from_nodes(nodes).unwrap()
}

#[test]
fn one_tile_is_not_enough() {
    let (dim, mut board) = board15();
    let r = place_tiles_on_board(&mut board, dim, false, 7, 7, &letters("A"));
    assert_eq!(r, Err(GameError::NotEnoughTilesPlayed));
}

#[test]
fn all_play_through_is_not_enough() {
    let (dim, mut board) = board15();
    board[7 * 15 + 7] = 1;
    board[7 * 15 + 8] = 20;
    let r = place_tiles_on_board(&mut board, dim, false, 7, 7, &letters(".."));
    assert_eq!(r, Err(GameError::NotEnoughTilesPlayed));
}

#[test]
fn a_filled_cell_before_the_start_is_a_prefix() {
    let (dim, mut board) = board15();
    board[7 * 15 + 6] = 5;
    let r = place_tiles_on_board(&mut board, dim, false, 7, 7, &letters("AT"));
    assert_eq!(r, Err(GameError::HasPrefix));
}

#[test]
fn a_filled_cell_after_the_end_is_a_suffix() {
    let (dim, mut board) = board15();
    board[7 * 15 + 9] = 5;
    let r = place_tiles_on_board(&mut board, dim, false, 7, 7, &letters("AT"));
    assert_eq!(r, Err(GameError::HasSuffix));
}

#[test]
fn running_off_the_board_is_out_of_bounds() {
    let (dim, mut board) = board15();
    let r = place_tiles_on_board(&mut board, dim, false, 7, 13, &letters("CAT"));
    assert_eq!(r, Err(GameError::OutOfBounds));
}

#[test]
fn play_through_needs_a_tile_underneath() {
    let (dim, mut board) = board15();
    let r = place_tiles_on_board(&mut board, dim, false, 7, 7, &letters("A.T"));
    assert_eq!(r, Err(GameError::PlayThroughVacant));
}

#[test]
fn new_tiles_need_an_empty_cell() {
    let (dim, mut board) = board15();
    board[7 * 15 + 8] = 5;
    let r = place_tiles_on_board(&mut board, dim, false, 7, 7, &letters("AT"));
    assert_eq!(r, Err(GameError::SquareOccupied));
}

#[test]
fn errors_leave_the_board_alone() {
    let (dim, mut board) = board15();
    board[7 * 15 + 9] = 5;
    let before = board.clone();
    let _ = place_tiles_on_board(&mut board, dim, false, 7, 7, &letters("AT"));
    assert_eq!(board, before);
}

#[test]
fn placements_write_exactly_their_cells() {
    let (dim, mut board) = board15();
    place_tiles_on_board(&mut board, dim, false, 7, 7, &letters("AT")).unwrap();
    assert_eq!(board[7 * 15 + 7], 1);
    assert_eq!(board[7 * 15 + 8], 20);
    let filled = board.iter().filter(|&&b| b != 0).count();
    assert_eq!(filled, 2);
}

#[test]
fn bad_rows_and_columns_are_rejected_in_replay() {
    let alpha = make_english_alphabet();
    let cfg = make_game_config(alpha, false, false);
    let g = tiny_graph();
    let mk = |row: i32, column: i32| GameEvent {
        kind: EventKind::TilePlacement,
        nickname: Vec::new(),
        player_index: 0,
        cumulative: 0,
        down: false,
        row,
        column,
        played_tiles: b"AT".to_vec(),
    };
    let nick0 = b"x".to_vec();
    let mut state = GameState::new(cfg.dim);
    let r = replay_history(&mut state, cfg.dim, &cfg.alphabet, &g, false, &vec![mk(15, 7)], &nick0);
    assert_eq!(r, Err(GameError::BadRow));
    let mut state = GameState::new(cfg.dim);
    let r = replay_history(&mut state, cfg.dim, &cfg.alphabet, &g, false, &vec![mk(7, -1)], &nick0);
    assert_eq!(r, Err(GameError::BadColumn));
}

#[test]
fn placement_lines_apply_and_validate() {
    let alpha = make_english_alphabet();
    let cfg = make_game_config(alpha, false, false);
    let g = tiny_graph();
    let mut board = vec![0u8; 15 * 15];
    // the line notation of the plain game server: coordinate, colon, tiles
    let valid = apply_placement_text(&mut board, &cfg, Some(&g), b"8H:AT").unwrap();
    assert!(valid);
    assert_eq!(board[7 * 15 + 7], 1);
    assert_eq!(board[7 * 15 + 8], 20);

    let mut board = vec![0u8; 15 * 15];
    let valid = apply_placement_text(&mut board, &cfg, Some(&g), b"H8:TA").unwrap();
    assert!(!valid, "TA spelled downward is no word of this graph");

    let mut board = vec![0u8; 15 * 15];
    assert_eq!(
        apply_placement_text(&mut board, &cfg, Some(&g), b"AT"),
        Err(GameError::BadCoordinate)
    );
    assert_eq!(
        apply_placement_text(&mut board, &cfg, Some(&g), b"99:AT"),
        Err(GameError::BadCoordinate)
    );
    assert_eq!(
        apply_placement_text(&mut board, &cfg, Some(&g), b"8H:A2"),
        Err(GameError::InvalidTile)
    );
}

#[test]
fn rack_size_is_enforced() {
    assert_eq!(validate_rack_len(&vec![1u8; 7], 7), Ok(()));
    assert_eq!(validate_rack_len(&vec![1u8; 8], 7), Err(GameError::RackTooLong));
}
