//! Game state and opening book

use std::collections::HashMap;
use vstd::prelude::*;
use crate::bitboard::{Bitboard, has_four};
use crate::solver::TranspositionTable;
use crate::COLS;

verus! {

broadcast use vstd::std_specs::hash::group_hash_axioms;

/// The empty board.
pub open spec fn empty_board() -> Bitboard {
    Bitboard { current: 0, mask: 0, moves: 0 }
}

/// The board after dropping discs in `cols`, in turn, from the empty board.
pub open spec fn board_after(cols: Seq<int>) -> Bitboard
    decreases cols.len(),
{
    if cols.len() == 0 {
        empty_board()
    } else {
        board_after(cols.drop_last()).spec_play(cols.last())
    }
}

/// The opening book: the key of each known position and the column to play
/// there.
pub open spec fn book_entries() -> Map<u64, usize> {
    Map::empty().insert(0u64, 3usize).insert(board_after(seq![0int]).spec_key(), 3usize).insert(
        board_after(seq![1int]).spec_key(),
        3usize,
    ).insert(board_after(seq![2int]).spec_key(), 3usize).insert(
        board_after(seq![3int]).spec_key(),
        3usize,
    ).insert(board_after(seq![4int]).spec_key(), 3usize).insert(
        board_after(seq![5int]).spec_key(),
        3usize,
    ).insert(board_after(seq![6int]).spec_key(), 3usize).insert(
        board_after(seq![3int, 3int]).spec_key(),
        2usize,
    ).insert(board_after(seq![3int, 3int, 2int]).spec_key(), 4usize).insert(
        board_after(seq![3int, 3int, 4int]).spec_key(),
        2usize,
    )
}

/// Opening book with pre-computed best moves for common positions
pub struct OpeningBook {
    positions: HashMap<u64, usize>,
}

/// `board.play(col)`, for a well-formed board with room in `col`.
fn play_checked(board: &Bitboard, col: usize) -> (r: Bitboard)
    requires
        board.wf(),
        board.playable(col as int),
    ensures
        r == board.spec_play(col as int),
        r.wf(),
{
    proof {
        board.lemma_wf_cells();
        board.lemma_play_bounds(col as int);
    }
    board.play(col)
}

/// `board.key()`, for a well-formed board.
fn key_of(board: &Bitboard) -> (r: u64)
    requires
        board.wf(),
    ensures
        r == board.spec_key(),
{
    proof {
        board.lemma_key_fits();
    }
    board.key()
}

impl OpeningBook {
    /// The positions of the book and their moves.
    pub closed spec fn view(&self) -> Map<u64, usize> {
        self.positions@
    }

    pub fn new() -> (r: Self)
        ensures
            r.view() == book_entries(),
    {
        let mut positions: HashMap<u64, usize> = HashMap::new();

        // Empty board - play center
        positions.insert(0, 3);

        // After opponent plays any column, we play center
        let empty = Bitboard::new();
        let mut col: usize = 0;
        while col < 7
            invariant
                col <= 7,
                empty == empty_board(),
                empty.wf(),
                forall|c: int| 0 <= c < 7 ==> #[trigger] empty.height(c) == 0,
                positions@ == book_prefix(col as int),
            decreases 7 - col,
        {
            let board = play_checked(&empty, col);
            proof {
                reveal_with_fuel(board_after, 2);
                assert(board_after(seq![col as int]).spec_key() == board.spec_key()) by {
                    assert(seq![col as int].drop_last() =~= Seq::<int>::empty());
                }
            }
            positions.insert(key_of(&board), 3);
            col = col + 1;
        }

        // Common strong continuations
        let b3 = play_checked(&empty, 3);
        let b33 = play_checked(&b3, 3);
        positions.insert(key_of(&b33), 2);
        let b332 = play_checked(&b33, 2);
        positions.insert(key_of(&b332), 4);
        let b334 = play_checked(&b33, 4);
        positions.insert(key_of(&b334), 2);
        proof {
            lemma_board_after_3(3, 3, 2);
            lemma_board_after_3(3, 3, 4);
            reveal_with_fuel(book_prefix, 8);
            assert(positions@ == book_entries());
        }

        OpeningBook { positions }
    }

    pub fn lookup(&self, board: &Bitboard) -> (r: Option<usize>)
        requires
            board.current + board.mask <= u64::MAX,
        ensures
            r == (if self.view().contains_key(board.spec_key()) {
                Some(self.view()[board.spec_key()])
            } else {
                None
            }),
    {
        match self.positions.get(&board.key()) {
            Some(m) => Some(*m),
            None => None,
        }
    }
}

/// The book after its first entry and the replies to `0..n`.
pub open spec fn book_prefix(n: int) -> Map<u64, usize>
    decreases n,
{
    if n <= 0 {
        Map::empty().insert(0u64, 3usize)
    } else {
        book_prefix(n - 1).insert(board_after(seq![n - 1]).spec_key(), 3usize)
    }
}

/// A well-formed board equals `board` when their keys agree and `board` is
/// well formed.
proof fn lemma_same_key(b: Bitboard, board: Bitboard)
    requires
        b.wf(),
        board.wf(),
        b.spec_key() == board.spec_key(),
    ensures
        b == board,
{
    b.lemma_key_fits();
    board.lemma_key_fits();
    Bitboard::lemma_key_unique(b, board);
}

/// The move the opening book gives for a position is a column with room
/// there.
pub proof fn lemma_book_moves_legal(b: Bitboard)
    requires
        b.wf(),
        book_entries().contains_key(b.spec_key()),
    ensures
        b.playable(book_entries()[b.spec_key()] as int),
{
    Bitboard::lemma_empty_board();
    let e = empty_board();
    lemma_board_after_3(3, 3, 2);
    lemma_board_after_3(3, 3, 4);
    reveal_with_fuel(board_after, 2);
    assert forall|c: int| 0 <= c < 7 implies #[trigger] board_after(seq![c]) == e.spec_play(c)
        && board_after(seq![c]).wf() && board_after(seq![c]).height(3) == (if c == 3 {
        1int
    } else {
        0int
    }) by {
        assert(seq![c].drop_last() =~= Seq::<int>::empty());
        e.lemma_play_wf(c);
    }
    let b3 = board_after(seq![3int]);
    let b33 = board_after(seq![3int, 3int]);
    b3.lemma_play_wf(3);
    assert(b33.height(3) == 2 && b33.height(2) == 0 && b33.height(4) == 0 && b33.wf());
    b33.lemma_play_wf(2);
    b33.lemma_play_wf(4);
    let k = b.spec_key();
    assert(e.spec_key() == 0u64);
    let m = book_entries();
    if k == board_after(seq![3int, 3int, 4int]).spec_key() {
        lemma_same_key(b, board_after(seq![3int, 3int, 4int]));
    } else if k == board_after(seq![3int, 3int, 2int]).spec_key() {
        lemma_same_key(b, board_after(seq![3int, 3int, 2int]));
    } else if k == b33.spec_key() {
        lemma_same_key(b, b33);
    } else {
        assert(m[k] == 3usize);
        if k == 0u64 {
            lemma_same_key(b, e);
        } else {
            let c = choose|c: int| 0 <= c < 7 && #[trigger] board_after(seq![c]).spec_key() == k;
            lemma_same_key(b, board_after(seq![c]));
        }
    }
}

proof fn lemma_board_after_3(a: int, b: int, c: int)
    ensures
        board_after(seq![a, b]) == board_after(seq![a]).spec_play(b),
        board_after(seq![a, b, c]) == board_after(seq![a, b]).spec_play(c),
        board_after(seq![a]) == empty_board().spec_play(a),
{
    reveal_with_fuel(board_after, 4);
    assert(seq![a, b].drop_last() =~= seq![a]);
    assert(seq![a, b, c].drop_last() =~= seq![a, b]);
    assert(seq![a].drop_last() =~= Seq::<int>::empty());
}

impl Default for OpeningBook {
    fn default() -> (r: Self)
        ensures
            r.view() == book_entries(),
    {
        Self::new()
    }
}

/// Game state
pub struct Game {
    pub board: Bitboard,
    pub red_turn: bool,
    pub depth: usize,
    pub tt: TranspositionTable,
    pub opening_book: OpeningBook,
}

impl Game {
    pub fn new(depth: usize) -> (r: Self)
        ensures
            r.board == empty_board(),
            r.red_turn,
            r.depth == depth,
            r.tt.wf(),
            r.tt.consistent(),
            r.opening_book.view() == book_entries(),
    {
        Game {
            board: Bitboard::new(),
            red_turn: true,
            depth,
            tt: TranspositionTable::new(),
            opening_book: OpeningBook::new(),
        }
    }

    pub fn play(&mut self, col: usize)
        requires
            col <= 9,
            old(self).board.mask + (1u64 << (7 * col) as u64) <= u64::MAX,
            old(self).board.moves < u32::MAX,
        ensures
            final(self).board.current == old(self).board.current ^ old(self).board.mask,
            final(self).board.mask == old(self).board.mask | ((old(self).board.mask + (1u64 << (7
                * col) as u64)) as u64),
            final(self).board.moves == old(self).board.moves + 1,
            old(self).board.wf() && old(self).board.playable(col as int) ==> final(self).board
                == old(self).board.spec_play(col as int),
            final(self).red_turn == !old(self).red_turn,
            final(self).depth == old(self).depth,
            final(self).tt == old(self).tt,
            final(self).opening_book == old(self).opening_book,
    {
        self.board = self.board.play(col);
        self.red_turn = !self.red_turn;
    }

    pub fn can_play(&self, col: usize) -> (r: bool)
        requires
            col <= 8,
        ensures
            r == (self.board.mask & (1u64 << (7 * col + 5) as u64) == 0),
            self.board.wf() && col < 7 ==> r == self.board.playable(col as int),
    {
        self.board.can_play(col)
    }

    /// The column a player means by the number `entered`, counting columns
    /// from 1: `None` unless it names a column with room.
    pub fn column_from_input(&self, entered: usize) -> (r: Option<usize>)
        requires
            self.board.wf(),
        ensures
            r == (if 1 <= entered <= 7 && self.board.playable(entered - 1) {
                Some((entered - 1) as usize)
            } else {
                None
            }),
    {
        if 1 <= entered && entered <= COLS && self.can_play(entered - 1) {
            Some(entered - 1)
        } else {
            None
        }
    }

    /// The game is over: the last move made four in a line, or the board is
    /// full.
    pub fn is_game_over(&self) -> (r: bool)
        requires
            self.board.wf(),
        ensures
            r == (has_four(self.board.opponent_bits()) || self.board.spec_is_full()),
    {
        self.board.opponent_wins() || self.board.is_full()
    }

    /// The winner, when the last move made four in a line: red moves on
    /// `red_turn`, so the last move was yellow's then.
    pub fn get_winner(&self) -> (r: Option<&str>)
        requires
            self.board.wf(),
        ensures
            has_four(self.board.opponent_bits()) ==> r == Some(
                if self.red_turn {
                    "YELLOW"
                } else {
                    "RED"
                },
            ),
            !has_four(self.board.opponent_bits()) ==> r.is_none(),
    {
        if self.board.opponent_wins() {
            Some(if self.red_turn { "YELLOW" } else { "RED" })
        } else {
            None
        }
    }
}

/// The search depth that the terminal interface gives each difficulty name, in lower
/// case: `None` for any other name.
pub open spec fn difficulty_table(name: Seq<u8>) -> Option<usize> {
    if name == seq![101u8, 97, 115, 121] {
        // "easy"
        Some(8usize)
    } else if name == seq![109u8, 101, 100, 105, 117, 109] {
        // "medium"
        Some(12usize)
    } else if name == seq![104u8, 97, 114, 100] {
        // "hard"
        Some(16usize)
    } else if name == seq![118u8, 104, 97, 114, 100] {
        // "vhard"
        Some(20usize)
    } else if name == seq![101u8, 120, 112, 101, 114, 116] {
        // "expert"
        Some(28usize)
    } else if name == seq![105u8, 109, 112, 111, 115, 115, 105, 98, 108, 101] {
        // "impossible"
        Some(42usize)
    } else {
        None
    }
}

/// The search depth for a difficulty name, given in lower case.
pub fn difficulty_depth(name: &[u8]) -> (r: Option<usize>)
    ensures
        r == difficulty_table(name@),
{
    if bytes_equal(name, &[101u8, 97, 115, 121]) {
        // "easy"
        Some(8)
    } else if bytes_equal(name, &[109u8, 101, 100, 105, 117, 109]) {
        // "medium"
        Some(12)
    } else if bytes_equal(name, &[104u8, 97, 114, 100]) {
        // "hard"
        Some(16)
    } else if bytes_equal(name, &[118u8, 104, 97, 114, 100]) {
        // "vhard"
        Some(20)
    } else if bytes_equal(name, &[101u8, 120, 112, 101, 114, 116]) {
        // "expert"
        Some(28)
    } else if bytes_equal(name, &[105u8, 109, 112, 111, 115, 115, 105, 98, 108, 101]) {
        // "impossible"
        Some(42)
    } else {
        None
    }
}


/// Whether two byte strings are equal.
pub(crate) fn bytes_equal(a: &[u8], b: &[u8]) -> (r: bool)
    ensures
        r == (a@ == b@),
{
    if a.len() != b.len() {
        return false;
    }
    let mut i: usize = 0;
    while i < a.len()
        invariant
            a@.len() == b@.len(),
            i <= a.len(),
            forall|j: int| 0 <= j < i ==> a@[j] == b@[j],
        decreases a.len() - i,
    {
        if a[i] != b[i] {
            return false;
        }
        i = i + 1;
    }
    proof {
        assert(a@ =~= b@);
    }
    true
}

} // verus!
