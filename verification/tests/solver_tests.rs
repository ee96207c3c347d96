use connect_four::bitboard::Bitboard;
use connect_four::solver::{
    conclude_parallel_search, plan_parallel_search, score_root_move, sort_by_priority,
    EndgameSolver, RootPlan, Solver, TTFlag, TranspositionTable,
};
use connect_four::WIN_SCORE;

#[test]
fn solver_test_solver_finds_winning_move() {
    let mut board = Bitboard::new();
    board = board.play(0);
    board = board.play(6);
    board = board.play(1);
    board = board.play(6);
    board = board.play(2);
    board = board.play(6);

    let mut tt = TranspositionTable::new();
    let mut solver = Solver::new(&mut tt);
    let (best_col, _) = solver.find_best_move(&board, 10);
    assert_eq!(best_col, 3);
}

#[test]
fn solver_test_solver_blocks_opponent_win() {
    let mut board = Bitboard::new();
    board = board.play(0);
    board = board.play(6);
    board = board.play(1);
    board = board.play(6);
    board = board.play(2);

    let mut tt = TranspositionTable::new();
    let mut solver = Solver::new(&mut tt);
    let (best_col, _) = solver.find_best_move(&board, 10);
    assert_eq!(best_col, 3);
}

#[test]
fn solver_test_transposition_table() {
    let mut tt = TranspositionTable::new();
    let board = Bitboard::new().play(3);
    tt.put(&board, 5, TTFlag::Exact, 10, Some(3));

    let entry = tt.get(&board);
    assert!(entry.is_some());
    let e = entry.unwrap();
    assert_eq!(e.score, 5);
    assert_eq!(e.flag(), TTFlag::Exact);
    assert_eq!(e.best_move, 3);
}

#[test]
fn test_endgame_solver() {
    let mut board = Bitboard::new();
    board = board.play(0);
    board = board.play(6);
    board = board.play(1);
    board = board.play(6);
    board = board.play(2);
    board = board.play(6);

    let score = EndgameSolver::solve(&board, -WIN_SCORE, WIN_SCORE);
    assert!(score > 0);
}

fn board_after(cols: &[usize]) -> Bitboard {
    let mut board = Bitboard::new();
    for &col in cols {
        board = board.play(col);
    }
    board
}

#[test]
fn solver_endgame_exact_win_score() {
    let board = board_after(&[0, 6, 1, 6, 2, 6]);
    assert_eq!(EndgameSolver::solve(&board, -WIN_SCORE, WIN_SCORE), 18);
}

#[test]
fn solver_endgame_forced_loss() {
    // Every move loses to the open three: the opponent wins with their next
    // disc, 36 moves before the board fills.
    let board = board_after(&[1, 6, 2, 6, 3]);
    assert_eq!(EndgameSolver::solve(&board, -WIN_SCORE, WIN_SCORE), -(37 / 2));
}

#[test]
fn solver_table_distinguishes_positions() {
    // Zobrist hashes of different positions differ, so a read of another
    // position misses.
    let mut tt = TranspositionTable::new();
    let a = Bitboard::new().play(3);
    let b = Bitboard::new().play(2);
    tt.put(&a, 9, TTFlag::LowerBound, 4, None);
    assert!(tt.get(&b).is_none());
    let e = tt.get(&a).unwrap();
    assert_eq!(e.score, 9);
    assert_eq!(e.flag(), TTFlag::LowerBound);
    assert_eq!(e.depth, 4);
    assert_eq!(e.best_move, 255);
}

#[test]
fn solver_table_clamps_score() {
    let mut tt = TranspositionTable::new();
    let a = Bitboard::new().play(3);
    tt.put(&a, WIN_SCORE, TTFlag::Exact, 1, Some(2));
    assert_eq!(tt.get(&a).unwrap().score, i16::MAX);
    tt.put(&a, -WIN_SCORE, TTFlag::UpperBound, 1, Some(2));
    assert_eq!(tt.get(&a).unwrap().score, i16::MIN);
    assert_eq!(tt.get(&a).unwrap().flag(), TTFlag::UpperBound);
}

#[test]
fn solver_negamax_depth_zero_evaluates() {
    let mut tt = TranspositionTable::new();
    let mut solver = Solver::new(&mut tt);
    assert_eq!(solver.negamax(&Bitboard::new(), -WIN_SCORE, WIN_SCORE, 0, 0), 0);
}

#[test]
fn solver_find_best_move_all_moves_lose() {
    let board = board_after(&[1, 6, 2, 6, 3]);
    let mut tt = TranspositionTable::new();
    let mut solver = Solver::new(&mut tt);
    assert_eq!(solver.find_best_move(&board, 6), (3, -WIN_SCORE));
}

#[test]
fn solver_sort_is_stable_and_descending() {
    let list = vec![(3usize, 1i32), (2, 5), (4, 1), (1, 5)];
    assert_eq!(sort_by_priority(&list), vec![(2, 5), (1, 5), (3, 1), (4, 1)]);
}

#[test]
fn solver_parallel_plan_and_conclusion() {
    let mut tt = TranspositionTable::new();
    match plan_parallel_search(&Bitboard::new(), &mut tt, 10) {
        RootPlan::Search(cols, safe) => {
            assert_eq!(cols, vec![3, 2, 4, 1, 5, 0, 6]);
            assert_eq!(safe, Bitboard::BOTTOM);
        }
        RootPlan::Decided(_, _) => panic!("expected a parallel search"),
    }
    // Shallow searches are decided at once.
    match plan_parallel_search(&Bitboard::new(), &mut tt, 0) {
        RootPlan::Decided(col, score) => assert_eq!((col, score), (3, i32::MIN)),
        RootPlan::Search(_, _) => panic!("expected a decision"),
    }
    let board = Bitboard::new();
    let results = vec![(2usize, 5i32), (3, 5), (4, 1)];
    assert_eq!(conclude_parallel_search(&board, &mut tt, &results, 10), (3, 5));
    let e = tt.get(&board).unwrap();
    assert_eq!(e.flag(), TTFlag::Exact);
    assert_eq!(e.score, 5);
    assert_eq!(e.best_move, 3);
    let results = vec![(2usize, 5i32), (4, 5)];
    assert_eq!(conclude_parallel_search(&board, &mut tt, &results, 10), (2, 5));
}

#[test]
fn solver_score_root_move_keeps_column() {
    let board = board_after(&[0, 6, 1, 6, 2]);
    let safe = board.possible_non_losing_moves();
    let (col, score) = score_root_move(&board, safe, 3, 2);
    assert_eq!(col, 3);
    assert!(score > -WIN_SCORE && score < WIN_SCORE);
}

#[test]
fn solver_negamax_deep_search_is_exact() {
    // Every move loses to the open three; a search reaching the end of the
    // game answers the exact score, -(37 / 2).
    let board = board_after(&[1, 6, 2, 6, 3]);
    let mut tt = TranspositionTable::new();
    let mut solver = Solver::new(&mut tt);
    assert_eq!(solver.negamax(&board, -WIN_SCORE, WIN_SCORE, 40, 0), -18);
}

#[test]
fn solver_negamax_every_move_loses_after_block() {
    // The only block, column 3, opens row 1 to the opponent: worth -(28 / 2).
    let board = board_after(&[0, 0, 1, 1, 0, 2, 1, 2, 2, 4, 4, 5, 5, 6]);
    let mut tt = TranspositionTable::new();
    let mut solver = Solver::new(&mut tt);
    assert_eq!(solver.negamax(&board, -WIN_SCORE, WIN_SCORE, 10, 1), -14);
}

#[test]
fn solver_parallel_plan_single_move() {
    // Column 3 is the only move that does not lose at once.
    let board = board_after(&[0, 3, 1, 3, 6, 3]);
    let mut tt = TranspositionTable::new();
    match plan_parallel_search(&board, &mut tt, 10) {
        RootPlan::Decided(col, score) => assert_eq!((col, score), (3, 0)),
        RootPlan::Search(_, _) => panic!("expected a decision"),
    }
    assert!(tt.get(&board).is_none());
}

#[test]
fn solver_table_entry_getters() {
    let mut tt = TranspositionTable::new();
    let board = Bitboard::new().play(4);
    tt.put(&board, -7, TTFlag::UpperBound, 6, Some(1));
    let e = tt.get(&board).unwrap();
    assert_eq!(e.score(), -7);
    assert_eq!(e.depth(), 6);
    assert_eq!(e.best_move(), 1);
}
