use connect_four::bitboard::Bitboard;
use connect_four::{COLS, ROWS};

#[test]
fn bitboard_test_bitboard_new() {
    let board = Bitboard::new();
    assert_eq!(board.current, 0);
    assert_eq!(board.mask, 0);
    assert_eq!(board.moves, 0);
}

#[test]
fn bitboard_test_can_play_empty_board() {
    let board = Bitboard::new();
    for col in 0..COLS {
        assert!(board.can_play(col));
    }
}

#[test]
fn bitboard_test_play_move() {
    let board = Bitboard::new();
    let board = board.play(3);
    assert_eq!(board.moves, 1);
    assert!(board.mask != 0);
}

#[test]
fn bitboard_test_column_full() {
    let mut board = Bitboard::new();
    for _ in 0..ROWS {
        assert!(board.can_play(0));
        board = board.play(0);
    }
    assert!(!board.can_play(0));
}

#[test]
fn bitboard_test_horizontal_win() {
    let mut board = Bitboard::new();
    board = board.play(0);
    board = board.play(6);
    board = board.play(1);
    board = board.play(6);
    board = board.play(2);
    board = board.play(6);
    board = board.play(3);

    assert!(board.opponent_wins());
}

#[test]
fn bitboard_test_vertical_win() {
    let mut board = Bitboard::new();
    board = board.play(0);
    board = board.play(1);
    board = board.play(0);
    board = board.play(1);
    board = board.play(0);
    board = board.play(1);
    board = board.play(0);

    assert!(board.opponent_wins());
}

#[test]
fn bitboard_test_diagonal_win() {
    let mut board = Bitboard::new();
    board = board.play(0);
    board = board.play(1);
    board = board.play(1);
    board = board.play(2);
    board = board.play(2);
    board = board.play(3);
    board = board.play(2);
    board = board.play(3);
    board = board.play(3);
    board = board.play(0);
    board = board.play(3);

    assert!(board.opponent_wins());
}

#[test]
fn bitboard_test_no_win() {
    let board = Bitboard::new();
    assert!(!board.opponent_wins());
}

fn board_after(cols: &[usize]) -> Bitboard {
    let mut board = Bitboard::new();
    for &col in cols {
        board = board.play(col);
    }
    board
}

#[test]
fn bitboard_to_array_codes() {
    let board = board_after(&[3, 3, 0]);
    let grid = board.to_array();
    // Top row first: the bottom row is the last one.
    assert_eq!(grid[5][3], 1);
    assert_eq!(grid[4][3], 2);
    assert_eq!(grid[5][0], 1);
    assert_eq!(grid[5][1], 0);
    assert_eq!(grid[0][3], 0);
}

#[test]
fn bitboard_moves_remaining_and_full() {
    let mut board = Bitboard::new();
    assert_eq!(board.moves_remaining(), 42);
    board = board.play(5);
    assert_eq!(board.moves_remaining(), 41);
    assert!(!board.is_full());
}

#[test]
fn bitboard_key_identifies_position() {
    // The same position reached in another order has the same key.
    assert_eq!(board_after(&[0, 1, 2]).key(), board_after(&[2, 1, 0]).key());
    // Swapping whose discs they are changes the key.
    assert_ne!(board_after(&[0, 1]).key(), board_after(&[1, 0]).key());
    assert_ne!(Bitboard::new().key(), board_after(&[3]).key());
}

#[test]
fn bitboard_masks() {
    assert_eq!(Bitboard::bottom_mask(0), 1);
    assert_eq!(Bitboard::bottom_mask(2), 1 << 14);
    assert_eq!(Bitboard::top_mask(0), 1 << 5);
    assert_eq!(Bitboard::column_mask(1), 0b11_1111 << 7);
    assert_eq!(Bitboard::new().possible_moves(), Bitboard::BOTTOM);
}

#[test]
fn bitboard_winning_drop_detected() {
    // A disc in column 3 completes the bottom row for the mover.
    let board = board_after(&[0, 6, 1, 6, 2, 6]);
    let winning = board.winning_positions() & board.possible_moves();
    assert_eq!(winning, Bitboard::bottom_mask(3));
    assert!(!board.opponent_wins());
    assert!(board.play(3).opponent_wins());
    assert!(!board.play(4).opponent_wins());
}

#[test]
fn bitboard_double_threat_leaves_no_safe_move() {
    let board = board_after(&[1, 6, 2, 6, 3]);
    assert_eq!(board.possible_non_losing_moves(), 0);
    assert_eq!(
        board.opponent_winning_positions() & board.possible_moves(),
        Bitboard::bottom_mask(0) | Bitboard::bottom_mask(4)
    );
}

#[test]
fn bitboard_avoids_move_below_threat() {
    // Yellow would win at column 3, row 1: playing column 3 now would let
    // them drop there.
    let board = board_after(&[0, 1, 2, 0, 6, 1, 6, 2]);
    let safe = board.possible_non_losing_moves();
    assert_eq!(safe & Bitboard::column_mask(3), 0);
    assert_ne!(safe & Bitboard::column_mask(5), 0);
}

#[test]
fn bitboard_move_score_counts_new_threats() {
    let board = board_after(&[0, 6, 1, 6]);
    // Adding column 2 to the red pair makes three with an open end.
    assert_eq!(board.move_score(Bitboard::bottom_mask(2)), 1);
    assert_eq!(board.move_score(Bitboard::bottom_mask(5)), 0);
}

#[test]
fn bitboard_kept_moves_leave_no_winning_reply() {
    // Yellow threatens no column: no move that is kept hands them a win.
    let board = board_after(&[0, 1, 2, 0, 6, 1, 6, 2]);
    let safe = board.possible_non_losing_moves();
    let mut kept = 0;
    for col in 0..7 {
        if safe & Bitboard::column_mask(col) != 0 {
            kept += 1;
            let next = board.play(col);
            assert_eq!(next.winning_positions() & next.possible_moves(), 0);
        }
    }
    assert_eq!(kept, 6);
}

#[test]
fn bitboard_single_threat_keeps_only_the_block() {
    let board = board_after(&[0, 6, 1, 6, 2]);
    assert_eq!(board.possible_non_losing_moves(), Bitboard::bottom_mask(3));
}

#[test]
fn bitboard_block_under_second_threat_is_not_kept() {
    // Yellow completes four at column 3 on row 0 and on row 1: blocking at
    // row 0 lets them win on row 1, so no move is kept.
    let board = board_after(&[0, 0, 1, 1, 0, 2, 1, 2, 2, 4, 4, 5, 5, 6]);
    assert_eq!(board.possible_non_losing_moves(), 0);
}

#[test]
fn bitboard_full_exactly_when_mask_filled_and_no_moves() {
    let mut board = Bitboard::new();
    let mut played = 0;
    for col in 0..COLS {
        for _ in 0..ROWS {
            assert!(!board.is_full());
            assert_ne!(board.mask, Bitboard::BOARD_MASK);
            assert_ne!(board.possible_moves(), 0);
            board = board.play(col);
            played += 1;
        }
    }
    assert_eq!(played, 42);
    assert!(board.is_full());
    assert_eq!(board.mask, Bitboard::BOARD_MASK);
    assert_eq!(board.possible_moves(), 0);
}

#[test]
fn bitboard_possible_moves_sit_above_each_column() {
    let board = board_after(&[3, 3, 0]);
    let moves = board.possible_moves();
    assert_eq!(moves & !Bitboard::BOARD_MASK, 0);
    // Column 3 holds two discs, column 0 one, the others none.
    assert_eq!(moves & Bitboard::column_mask(3), 1u64 << (7 * 3 + 2));
    assert_eq!(moves & Bitboard::column_mask(0), 1u64 << 1);
    assert_eq!(moves & Bitboard::column_mask(6), 1u64 << (7 * 6));
    // A filled column offers no move.
    let full_col = board_after(&[2, 2, 2, 2, 2, 2]);
    assert_eq!(full_col.possible_moves() & Bitboard::column_mask(2), 0);
}
