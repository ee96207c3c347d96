use connect_four::bitboard::Bitboard;
use connect_four::game::OpeningBook;
use connect_four::engine::{Solver, TranspositionTable};
use connect_four::solver::TTFlag;
use connect_four::{COLS, ROWS};

#[test]
fn main_test_bitboard_new() {
    let board = Bitboard::new();
    assert_eq!(board.current, 0);
    assert_eq!(board.mask, 0);
    assert_eq!(board.moves, 0);
}

#[test]
fn main_test_can_play_empty_board() {
    let board = Bitboard::new();
    for col in 0..COLS {
        assert!(board.can_play(col));
    }
}

#[test]
fn main_test_play_move() {
    let board = Bitboard::new();
    let board = board.play(3);
    assert_eq!(board.moves, 1);
    assert!(board.mask != 0);
}

#[test]
fn main_test_column_full() {
    let mut board = Bitboard::new();
    for _ in 0..ROWS {
        assert!(board.can_play(0));
        board = board.play(0);
    }
    assert!(!board.can_play(0));
}

#[test]
fn main_test_horizontal_win() {
    let mut board = Bitboard::new();
    // Player 1 plays: 0, 1, 2, 3 (with player 2 playing elsewhere)
    board = board.play(0); // P1
    board = board.play(6); // P2
    board = board.play(1); // P1
    board = board.play(6); // P2
    board = board.play(2); // P1
    board = board.play(6); // P2
    board = board.play(3); // P1 wins

    assert!(board.opponent_wins());
}

#[test]
fn main_test_vertical_win() {
    let mut board = Bitboard::new();
    board = board.play(0); // P1
    board = board.play(1); // P2
    board = board.play(0); // P1
    board = board.play(1); // P2
    board = board.play(0); // P1
    board = board.play(1); // P2
    board = board.play(0); // P1 wins

    assert!(board.opponent_wins());
}

#[test]
fn main_test_diagonal_win() {
    let mut board = Bitboard::new();
    board = board.play(0);
    board = board.play(1);
    board = board.play(1);
    board = board.play(2);
    board = board.play(2);
    board = board.play(3);
    board = board.play(2);
    board = board.play(3);
    board = board.play(3);
    board = board.play(0);
    board = board.play(3);

    assert!(board.opponent_wins());
}

#[test]
fn main_test_no_win() {
    let board = Bitboard::new();
    assert!(!board.opponent_wins());
}

#[test]
fn test_winning_positions() {
    let mut board = Bitboard::new();
    // Set up 3 in a row
    board = board.play(0); // P1
    board = board.play(6); // P2
    board = board.play(1); // P1
    board = board.play(6); // P2
    board = board.play(2); // P1

    // Check P1's winning positions
    let winning = Bitboard::compute_winning_positions(board.opponent(), board.mask);
    // P1 should be able to win at column 3
    let col3_bottom = Bitboard::bottom_mask(3);
    assert!(winning & col3_bottom != 0);
}

#[test]
fn main_test_solver_finds_winning_move() {
    let mut board = Bitboard::new();
    board = board.play(0); // P1
    board = board.play(6); // P2
    board = board.play(1); // P1
    board = board.play(6); // P2
    board = board.play(2); // P1
    board = board.play(6); // P2

    let mut tt = TranspositionTable::new();
    let mut solver = Solver::new(&mut tt);
    let (best_col, _) = solver.find_best_move(&board, 10);
    assert_eq!(best_col, 3);
}

#[test]
fn main_test_solver_blocks_opponent_win() {
    let mut board = Bitboard::new();
    board = board.play(0); // P1
    board = board.play(6); // P2
    board = board.play(1); // P1
    board = board.play(6); // P2
    board = board.play(2); // P1

    let mut tt = TranspositionTable::new();
    let mut solver = Solver::new(&mut tt);
    let (best_col, _) = solver.find_best_move(&board, 10);
    assert_eq!(best_col, 3);
}

#[test]
fn main_test_transposition_table() {
    let mut tt = TranspositionTable::new();
    tt.put(12345, 5, TTFlag::Exact, 10);

    let entry = tt.get(12345);
    assert!(entry.is_some());
    let e = entry.unwrap();
    assert_eq!(e.score, 5);
    assert_eq!(e.flag, TTFlag::Exact);
}

#[test]
fn main_test_opening_book() {
    let book = OpeningBook::new();
    let board = Bitboard::new();
    // Empty board should suggest center
    assert_eq!(book.lookup(&board), Some(3));
}

#[test]
fn test_possible_non_losing_moves() {
    let mut board = Bitboard::new();
    // Create a position where P2 has 3 in a row
    board = board.play(0); // P1
    board = board.play(3); // P2
    board = board.play(1); // P1
    board = board.play(3); // P2
    board = board.play(6); // P1
    board = board.play(3); // P2 has 3 in column 3
    // P1 must block at column 3

    let non_losing = board.possible_non_losing_moves();
    let col3_mask = Bitboard::column_mask(3) & board.possible_moves();
    // Only column 3 should be a valid non-losing move
    assert_eq!(non_losing, col3_mask);
}
