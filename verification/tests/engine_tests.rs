use connect_four::bitboard::Bitboard;
use connect_four::engine::{difficulty_depth, Game, Solver, TranspositionTable};
use connect_four::solver::TTFlag;
use connect_four::WIN_SCORE;

fn board_after(cols: &[usize]) -> Bitboard {
    let mut board = Bitboard::new();
    for &col in cols {
        board = board.play(col);
    }
    board
}

#[test]
fn engine_table_get_after_put() {
    let mut tt = TranspositionTable::new();
    assert!(tt.get(77).is_none());
    tt.put(77, -3, TTFlag::LowerBound, 4);
    let e = tt.get(77).unwrap();
    assert_eq!(e.key, 77);
    assert_eq!(e.score, -3);
    assert_eq!(e.flag, TTFlag::LowerBound);
    assert_eq!(e.depth, 4);
    assert!(tt.get(78).is_none());
}

#[test]
fn engine_table_keeps_deeper_exact_entry() {
    let mut tt = TranspositionTable::new();
    tt.put(9, 7, TTFlag::Exact, 10);
    // A shallower write does not replace a deeper exact entry.
    tt.put(9, 1, TTFlag::UpperBound, 3);
    let e = tt.get(9).unwrap();
    assert_eq!(e.score, 7);
    assert_eq!(e.flag, TTFlag::Exact);
    assert_eq!(e.depth, 10);
    // A write of the same depth does.
    tt.put(9, 2, TTFlag::LowerBound, 10);
    let e = tt.get(9).unwrap();
    assert_eq!(e.score, 2);
    assert_eq!(e.flag, TTFlag::LowerBound);
}

#[test]
fn engine_table_replaces_bound_entries() {
    let mut tt = TranspositionTable::new();
    tt.put(5, 4, TTFlag::UpperBound, 12);
    tt.put(5, 6, TTFlag::Exact, 1);
    let e = tt.get(5).unwrap();
    assert_eq!(e.score, 6);
    assert_eq!(e.depth, 1);
}

#[test]
fn engine_negamax_immediate_win() {
    // The mover has three in a row on the bottom row: a win now is worth
    // (36 + 1) / 2.
    let board = board_after(&[0, 6, 1, 6, 2, 6]);
    let mut tt = TranspositionTable::new();
    let mut solver = Solver::new(&mut tt);
    assert_eq!(solver.negamax(&board, -WIN_SCORE, WIN_SCORE, 5), 18);
}

#[test]
fn engine_negamax_static_evaluation() {
    let mut tt = TranspositionTable::new();
    let mut solver = Solver::new(&mut tt);
    assert_eq!(solver.negamax(&Bitboard::new(), -WIN_SCORE, WIN_SCORE, 0), 0);

    // The opponent has one threat (three in a row with an empty cell) and one
    // winning cell: 2 * 1 + 3 * 1 against the mover.
    let board = board_after(&[0, 6, 1, 6, 2]);
    let mut tt = TranspositionTable::new();
    let mut solver = Solver::new(&mut tt);
    assert_eq!(solver.negamax(&board, -WIN_SCORE, WIN_SCORE, 0), -5);
}

#[test]
fn engine_negamax_window_closed_by_bound() {
    // After one move, 41 remain: the mover scores at most (41 - 1) / 2.
    let board = board_after(&[3]);
    let mut tt = TranspositionTable::new();
    let mut solver = Solver::new(&mut tt);
    assert_eq!(solver.negamax(&board, 25, 30, 4), 20);
}

#[test]
fn engine_find_best_move_all_moves_lose() {
    // The opponent threatens both ends of an open three: every move loses,
    // and the first open column in exploration order is played.
    let board = board_after(&[1, 6, 2, 6, 3]);
    let mut tt = TranspositionTable::new();
    let mut solver = Solver::new(&mut tt);
    assert_eq!(solver.find_best_move(&board, 6), (3, -WIN_SCORE));
}

#[test]
fn engine_find_best_move_depth_zero() {
    let mut tt = TranspositionTable::new();
    let mut solver = Solver::new(&mut tt);
    assert_eq!(solver.find_best_move(&Bitboard::new(), 0), (3, i32::MIN));
}

#[test]
fn engine_find_best_move_vertical_win() {
    let board = board_after(&[4, 0, 4, 1, 4, 6]);
    let mut tt = TranspositionTable::new();
    let mut solver = Solver::new(&mut tt);
    assert_eq!(solver.find_best_move(&board, 4), (4, 18));
}

#[test]
fn engine_difficulty_depths() {
    assert_eq!(difficulty_depth(b"easy"), Some(6));
    assert_eq!(difficulty_depth(b"medium"), Some(10));
    assert_eq!(difficulty_depth(b"hard"), Some(14));
    assert_eq!(difficulty_depth(b"vhard"), Some(18));
    assert_eq!(difficulty_depth(b"expert"), Some(24));
    assert_eq!(difficulty_depth(b"impossible"), Some(42));
    assert_eq!(difficulty_depth(b"Easy"), None);
    assert_eq!(difficulty_depth(b""), None);
}

#[test]
fn engine_game_flow() {
    let mut game = Game::new(6);
    assert!(game.red_turn);
    assert_eq!(game.depth, 6);
    assert_eq!(game.opening_book.lookup(&game.board), Some(3));
    assert_eq!(game.column_from_input(0), None);
    assert_eq!(game.column_from_input(8), None);
    assert_eq!(game.column_from_input(4), Some(3));
    for col in [0, 6, 1, 6, 2, 6] {
        assert!(!game.is_game_over());
        game.play(col);
    }
    assert_eq!(game.get_winner(), None);
    game.play(3);
    assert!(game.is_game_over());
    assert_eq!(game.get_winner(), Some("RED"));
}

#[test]
fn engine_full_column_is_refused() {
    let mut game = Game::new(6);
    for _ in 0..6 {
        game.play(2);
    }
    assert!(!game.can_play(2));
    assert_eq!(game.column_from_input(3), None);
    assert_eq!(game.column_from_input(4), Some(3));
}

#[test]
fn engine_negamax_deep_search_is_exact() {
    // Every move loses to the open three; a search reaching the end of the
    // game answers the exact score, -(37 / 2).
    let board = board_after(&[1, 6, 2, 6, 3]);
    let mut tt = TranspositionTable::new();
    let mut solver = Solver::new(&mut tt);
    assert_eq!(solver.negamax(&board, -WIN_SCORE, WIN_SCORE, 40), -18);
}

#[test]
fn engine_negamax_every_move_loses_after_block() {
    let board = board_after(&[0, 0, 1, 1, 0, 2, 1, 2, 2, 4, 4, 5, 5, 6]);
    let mut tt = TranspositionTable::new();
    let mut solver = Solver::new(&mut tt);
    assert_eq!(solver.negamax(&board, -WIN_SCORE, WIN_SCORE, 10), -14);
}
