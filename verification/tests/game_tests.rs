use connect_four::bitboard::Bitboard;
use connect_four::game::{difficulty_depth, Game, OpeningBook};

#[test]
fn game_test_opening_book() {
    let book = OpeningBook::new();
    let board = Bitboard::new();
    assert_eq!(book.lookup(&board), Some(3));
}

#[test]
fn game_opening_book_entries() {
    let book = OpeningBook::new();
    for col in 0..7 {
        assert_eq!(book.lookup(&Bitboard::new().play(col)), Some(3));
    }
    let b33 = Bitboard::new().play(3).play(3);
    assert_eq!(book.lookup(&b33), Some(2));
    assert_eq!(book.lookup(&b33.play(2)), Some(4));
    assert_eq!(book.lookup(&b33.play(4)), Some(2));
    assert_eq!(book.lookup(&b33.play(0)), None);
}

#[test]
fn game_difficulty_depths() {
    assert_eq!(difficulty_depth(b"easy"), Some(8));
    assert_eq!(difficulty_depth(b"medium"), Some(12));
    assert_eq!(difficulty_depth(b"hard"), Some(16));
    assert_eq!(difficulty_depth(b"vhard"), Some(20));
    assert_eq!(difficulty_depth(b"expert"), Some(28));
    assert_eq!(difficulty_depth(b"impossible"), Some(42));
    assert_eq!(difficulty_depth(b"hardest"), None);
}

#[test]
fn game_turns_and_winner() {
    let mut game = Game::new(8);
    assert!(game.red_turn);
    assert_eq!(game.column_from_input(7), Some(6));
    for col in [4, 0, 4, 1, 4, 6] {
        game.play(col);
    }
    assert!(game.red_turn);
    assert!(!game.is_game_over());
    game.play(4);
    assert!(!game.red_turn);
    assert!(game.is_game_over());
    assert_eq!(game.get_winner(), Some("RED"));
}
