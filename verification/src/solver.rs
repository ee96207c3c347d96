//! AI solver for Connect Four
//!
//! Negamax with alpha-beta pruning, a transposition table with Zobrist
//! hashing, the killer-move heuristic, and an exact endgame solver.

use vstd::prelude::*;
use rand::rngs::StdRng;
use rand::{Rng, SeedableRng};
use crate::bits::{bit, subset_bits, group_bits, popcount, count_ones, lemma_popcount_bound};
use crate::bitboard::{Bitboard, cell_index, board_bits, threat_cells, completes_four, has_four};
use crate::value::{
    game_value, child_value, alpha_beta_ok, in_moves, lemma_value_bounds, lemma_pruned_move_loses,
    lemma_value_is_best_child, lemma_negate_window, lemma_window_narrowing, lemma_all_moves_lose,
};
use crate::{DRAW_SCORE, WIN_SCORE, ENDGAME_THRESHOLD, TT_MASK, TT_SIZE, MAX_KILLER_DEPTH, KILLERS_PER_PLY};

verus! {

/// Column order for move exploration (center-first for better pruning)
pub const COLUMN_ORDER: [usize; 7] = [3, 2, 4, 1, 5, 0, 6];

/// The exploration order as a sequence.
pub open spec fn column_order() -> Seq<int> {
    seq![3, 2, 4, 1, 5, 0, 6]
}

/// The column `COLUMN_ORDER[k]`.
pub fn order_at(k: usize) -> (col: usize)
    requires
        k < 7,
    ensures
        col == column_order()[k as int],
        col < 7,
{
    COLUMN_ORDER[k]
}

/// The order visits every column once.
pub proof fn lemma_order_covers(col: int)
    requires
        0 <= col < 7,
    ensures
        exists|k: int| 0 <= k < 7 && #[trigger] column_order()[k] == col,
{
    if col == 3 {
        assert(column_order()[0] == col);
    } else if col == 2 {
        assert(column_order()[1] == col);
    } else if col == 4 {
        assert(column_order()[2] == col);
    } else if col == 1 {
        assert(column_order()[3] == col);
    } else if col == 5 {
        assert(column_order()[4] == col);
    } else if col == 0 {
        assert(column_order()[5] == col);
    } else {
        assert(column_order()[6] == col);
    }
}


// ============================================================================
// Zobrist Hashing
// ============================================================================

/// `rand::rngs::StdRng`, declared so that a generator can be held and passed
/// on; nothing of its state is visible.
#[verifier::external_type_specification]
#[verifier::external_body]
pub struct ExStdRng(StdRng);

/// Calls `rand::SeedableRng::seed_from_u64` for `rand::rngs::StdRng`: a
/// generator seeded from `seed`. Nothing is claimed of its state.
#[verifier::external_body]
fn seeded_rng(seed: u64) -> StdRng {
    StdRng::seed_from_u64(seed)
}

/// Calls `rand::Rng::gen::<u64>` on `rng`: the next value of its stream.
/// Nothing is claimed of the value, which the generator alone decides.
#[verifier::external_body]
fn next_random_u64(rng: &mut StdRng) -> u64 {
    rng.gen()
}

/// The Zobrist hash of the pieces on cells `0..n`: the XOR of
/// `keys[0][cell]` over the mover's cells and `keys[1][cell]` over the other
/// player's cells.
pub open spec fn zobrist_fold(keys: [[u64; 49]; 2], current: u64, opponent: u64, n: int) -> u64
    decreases n,
{
    if n <= 0 {
        0
    } else {
        let h = zobrist_fold(keys, current, opponent, n - 1);
        let cell = n - 1;
        if bit(current, cell) {
            h ^ keys[0][cell]
        } else if bit(opponent, cell) {
            h ^ keys[1][cell]
        } else {
            h
        }
    }
}

/// Pre-computed random numbers for Zobrist hashing
struct ZobristKeys {
    keys: [[u64; 49]; 2],
}

impl ZobristKeys {
    /// The hash of a board under these keys.
    spec fn spec_hash(self, board: Bitboard) -> u64 {
        zobrist_fold(self.keys, board.current, board.current ^ board.mask, 49)
    }

    /// Fills both key rows from a generator with a fixed seed, row by row.
    fn new() -> Self {
        let mut rng = seeded_rng(0xDEADBEEF_CAFEBABE);
        let mut keys = [[0u64; 49]; 2];
        let mut player: usize = 0;
        while player < 2
            invariant
                player <= 2,
            decreases 2 - player,
        {
            let mut row = keys[player];
            let mut cell: usize = 0;
            while cell < 49
                invariant
                    cell <= 49,
                decreases 49 - cell,
            {
                row[cell] = next_random_u64(&mut rng);
                cell = cell + 1;
            }
            keys[player] = row;
            player = player + 1;
        }
        ZobristKeys { keys }
    }

    fn hash(&self, board: &Bitboard) -> (r: u64)
        ensures
            r == self.spec_hash(*board),
    {
        let mut hash = 0u64;
        let current = board.current;
        let opponent = board.opponent();
        let mut cell: usize = 0;
        while cell < 49
            invariant
                cell <= 49,
                current == board.current,
                opponent == board.current ^ board.mask,
                hash == zobrist_fold(self.keys, current, opponent, cell as int),
            decreases 49 - cell,
        {
            let b = 1u64 << cell as u64;
            proof {
                lemma_single_bit_test(current, cell as int);
                lemma_single_bit_test(opponent, cell as int);
            }
            if current & b != 0 {
                hash = hash ^ self.keys[0][cell];
            } else if opponent & b != 0 {
                hash = hash ^ self.keys[1][cell];
            }
            cell = cell + 1;
        }
        hash
    }
}

/// Testing one bit with a single-bit mask.
proof fn lemma_single_bit_test(x: u64, i: int)
    requires
        0 <= i < 64,
    ensures
        (x & (1u64 << (i as u64)) != 0) == bit(x, i),
{
    broadcast use group_bits;

    if x & (1u64 << (i as u64)) != 0 {
        crate::bits::lemma_nonzero_has_bit(x & (1u64 << (i as u64)));
    }
    if bit(x, i) {
        assert(bit(x & (1u64 << (i as u64)), i));
    }
}

// ============================================================================
// Transposition Table
// ============================================================================

#[derive(Clone, Copy, Debug, PartialEq, Eq, Structural)]
pub enum TTFlag {
    Exact,
    LowerBound,
    UpperBound,
}

/// The flag that a stored flag byte stands for.
pub open spec fn flag_of_code(code: u8) -> TTFlag {
    if code == 0 {
        TTFlag::Exact
    } else if code == 1 {
        TTFlag::LowerBound
    } else {
        TTFlag::UpperBound
    }
}

/// The flag byte that is stored for a flag.
pub open spec fn code_of_flag(flag: TTFlag) -> u8 {
    match flag {
        TTFlag::Exact => 0,
        TTFlag::LowerBound => 1,
        TTFlag::UpperBound => 2,
    }
}

#[derive(Clone, Copy)]
pub struct TTEntry {
    key: u64,
    pub score: i16,
    pub depth: u8,
    flag: u8,
    pub best_move: u8,
    _padding: [u8; 3],
}

impl TTEntry {
    /// The position hash this entry was stored under.
    pub closed spec fn stored_key(self) -> u64 {
        self.key
    }

    /// The stored score.
    pub closed spec fn stored_score(self) -> i16 {
        self.score
    }

    /// The stored search depth.
    pub closed spec fn stored_depth(self) -> u8 {
        self.depth
    }

    /// The stored best move byte (255 for none).
    pub closed spec fn stored_best_move(self) -> u8 {
        self.best_move
    }

    /// The stored flag byte.
    pub closed spec fn flag_code(self) -> u8 {
        self.flag
    }

    fn empty() -> (r: Self)
        ensures
            r.key == 0,
            r.score == 0,
            r.depth == 0,
            r.flag == 0,
            r.best_move == 255,
    {
        TTEntry { key: 0, score: 0, depth: 0, flag: 0, best_move: 255, _padding: [0;3] }
    }

    /// The stored score.
    pub fn score(&self) -> (r: i16)
        ensures
            r == self.stored_score(),
    {
        self.score
    }

    /// The stored search depth.
    pub fn depth(&self) -> (r: u8)
        ensures
            r == self.stored_depth(),
    {
        self.depth
    }

    /// The stored best move byte (255 for none).
    pub fn best_move(&self) -> (r: u8)
        ensures
            r == self.stored_best_move(),
    {
        self.best_move
    }

    pub fn flag(&self) -> (r: TTFlag)
        ensures
            r == flag_of_code(self.flag_code()),
    {
        match self.flag {
            0 => TTFlag::Exact,
            1 => TTFlag::LowerBound,
            _ => TTFlag::UpperBound,
        }
    }

    fn set_flag(&mut self, flag: TTFlag)
        ensures
            final(self).flag == code_of_flag(flag),
            final(self).key == old(self).key,
            final(self).score == old(self).score,
            final(self).depth == old(self).depth,
            final(self).best_move == old(self).best_move,
    {
        self.flag = match flag {
            TTFlag::Exact => 0,
            TTFlag::LowerBound => 1,
            TTFlag::UpperBound => 2,
        };
    }
}

/// `score` clamped into the range of `i16`.
pub open spec fn clamp_i16(score: i32) -> i16 {
    if score < -32768 {
        -32768i16
    } else if score > 32767 {
        32767i16
    } else {
        score as i16
    }
}

/// The byte stored for an optional best move: the column, truncated to a
/// byte, or 255 for none.
pub open spec fn move_code(best_move: Option<usize>) -> u8 {
    match best_move {
        Some(m) => m as u8,
        None => 255u8,
    }
}

/// Fixed-size transposition table
pub struct TranspositionTable {
    entries: Vec<TTEntry>,
    zobrist: ZobristKeys,
}

impl TranspositionTable {
    #[verifier::type_invariant]
    spec fn full_size(self) -> bool {
        self.entries.len() == TT_SIZE
    }

    /// The table has its full number of slots (always true: it is the
    /// type's invariant).
    pub closed spec fn wf(self) -> bool {
        self.entries.len() == TT_SIZE
    }

    /// The hash under which `board` is stored.
    pub closed spec fn hash_of(self, board: Bitboard) -> u64 {
        self.zobrist.spec_hash(board)
    }

    /// The slot of the table that a hash maps to.
    pub open spec fn slot_of(key: u64) -> int {
        (key & TT_MASK) as int
    }

    /// The entry in slot `i`.
    pub closed spec fn entry_at(self, i: int) -> TTEntry {
        self.entries@[i]
    }

    /// What `get` answers for `board`: the entry in its slot when that entry
    /// was stored under the board's hash.
    pub open spec fn lookup(self, board: Bitboard) -> Option<TTEntry> {
        let e = self.entry_at(Self::slot_of(self.hash_of(board)));
        if e.stored_key() == self.hash_of(board) {
            Some(e)
        } else {
            None
        }
    }

    /// Two tables hash positions alike (they share their Zobrist keys).
    pub closed spec fn same_hashing(self, other: Self) -> bool {
        self.zobrist == other.zobrist
    }

    /// The Zobrist keys the table hashes positions with.
    pub closed spec fn zobrist_keys(self) -> [[u64; 49]; 2] {
        self.zobrist.keys
    }

    /// The slots of the table, each as its stored hash, score, depth, flag
    /// byte and best move byte.
    pub closed spec fn slots(self) -> Seq<Slot> {
        self.entries@.map_values(|e: TTEntry| (e.key, e.score, e.depth, e.flag, e.best_move))
    }

    /// The hash of a position is its Zobrist hash under the table's keys.
    pub proof fn lemma_hash_of(self, board: Bitboard)
        ensures
            self.hash_of(board) == board_hash(self.zobrist_keys(), board),
    {
    }

    /// What `lookup` answers, read from the slots.
    pub proof fn lemma_lookup_slots(self, board: Bitboard)
        requires
            self.wf(),
        ensures
            slot_lookup(self.zobrist_keys(), self.slots(), board) == match self.lookup(board) {
                Some(e) => Some(
                    (e.stored_key(), e.stored_score(), e.stored_depth(), e.flag_code(), e.stored_best_move()),
                ),
                None => None::<Slot>,
            },
    {
        let h = self.hash_of(board);
        assert(h & 16_777_215u64 <= 16_777_215u64) by (bit_vector);
    }

    pub fn new() -> (r: Self)
        ensures
            r.wf(),
            r.consistent(),
            forall|i: int| 0 <= i < TT_SIZE ==> {
                let e = #[trigger] r.entry_at(i);
                &&& e.stored_key() == 0
                &&& e.stored_score() == 0
                &&& e.stored_depth() == 0
                &&& e.flag_code() == 0
                &&& e.stored_best_move() == 255
            },
            r.slots() == empty_slots(),
    {
        let empty = TTEntry::empty();
        let mut entries: Vec<TTEntry> = Vec::new();
        while entries.len() < TT_SIZE
            invariant
                entries.len() <= TT_SIZE,
                forall|i: int| 0 <= i < entries.len() ==> #[trigger] entries@[i] == empty,
            decreases TT_SIZE - entries.len(),
        {
            entries.push(empty);
        }
        let r = TranspositionTable { entries, zobrist: ZobristKeys::new() };
        proof {
            assert forall|b: Bitboard|
                #![trigger r.lookup(b)]
                b.wf() && r.lookup(b) is Some && r.lookup(b)->0.stored_depth()
                    >= b.spec_moves_remaining() implies stored_bounds(r.lookup(b)->0, game_value(b)) by {
                let h = r.hash_of(b);
                assert(h & 16_777_215u64 <= 16_777_215u64) by (bit_vector);
                assert(r.entry_at(TranspositionTable::slot_of(h)) == empty);
            }
            assert(r.slots() =~= empty_slots());
        }
        r
    }

    fn index(&self, key: u64) -> (r: usize)
        ensures
            r == Self::slot_of(key),
            r < TT_SIZE,
    {
        proof {
            assert(key & 16_777_215u64 <= 16_777_215u64) by (bit_vector);
        }
        (key & TT_MASK) as usize
    }

    pub fn get(&self, board: &Bitboard) -> (r: Option<TTEntry>)
        ensures
            r == self.lookup(*board),
    {
        proof {
            use_type_invariant(self);
        }
        let key = self.zobrist.hash(board);
        let idx = self.index(key);
        let entry = self.entries[idx];
        if entry.key == key {
            Some(entry)
        } else {
            None
        }
    }

    pub fn put(
        &mut self,
        board: &Bitboard,
        score: i32,
        flag: TTFlag,
        depth: u8,
        best_move: Option<usize>,
    )
        ensures
            final(self).wf(),
            final(self).same_hashing(*old(self)),
            final(self).hash_of(*board) == old(self).hash_of(*board),
            forall|b: Bitboard| #[trigger] final(self).hash_of(b) == old(self).hash_of(b),
            forall|i: int|
                0 <= i < TT_SIZE && i != Self::slot_of(old(self).hash_of(*board))
                    ==> #[trigger] final(self).entry_at(i) == old(self).entry_at(i),
            ({
                let e = final(self).entry_at(Self::slot_of(old(self).hash_of(*board)));
                &&& e.stored_key() == old(self).hash_of(*board)
                &&& e.stored_score() == clamp_i16(score)
                &&& e.stored_depth() == depth
                &&& e.flag_code() == code_of_flag(flag)
                &&& e.stored_best_move() == move_code(best_move)
            }),
            final(self).zobrist_keys() == old(self).zobrist_keys(),
            final(self).slots() == slot_put(
                old(self).zobrist_keys(),
                old(self).slots(),
                *board,
                score,
                flag,
                depth,
                best_move,
            ),
    {
        proof {
            use_type_invariant(&*self);
        }
        let key = self.zobrist.hash(board);
        let idx = self.index(key);

        let mut entry = TTEntry::empty();
        entry.key = key;
        entry.score = if score < -32768 {
            -32768i16
        } else if score > 32767 {
            32767i16
        } else {
            score as i16
        };
        entry.depth = depth;
        entry.set_flag(flag);
        entry.best_move = match best_move {
            Some(m) => #[verifier::truncate] (m as u8),
            None => 255,
        };

        let ghost before = self.entries@;
        self.entries[idx] = entry;
        proof {
            assert(key == board_hash(self.zobrist_keys(), *board));
            assert(self.slots() =~= slot_put(
                old(self).zobrist_keys(),
                old(self).slots(),
                *board,
                score,
                flag,
                depth,
                best_move,
            ));
        }
    }
}

impl Default for TranspositionTable {
    fn default() -> (r: Self)
        ensures
            r.wf(),
    {
        Self::new()
    }
}

/// A read after a write of the same position gives back what was written
/// (the score clamped to `i16`, the best move as a byte, 255 for none).
pub proof fn lemma_get_after_put(
    before: TranspositionTable,
    after: TranspositionTable,
    board: Bitboard,
    score: i32,
    flag: TTFlag,
    depth: u8,
    best_move: Option<usize>,
)
    requires
        after.hash_of(board) == before.hash_of(board),
        ({
            let e = after.entry_at(TranspositionTable::slot_of(before.hash_of(board)));
            &&& e.stored_key() == before.hash_of(board)
            &&& e.stored_score() == clamp_i16(score)
            &&& e.stored_depth() == depth
            &&& e.flag_code() == code_of_flag(flag)
            &&& e.stored_best_move() == move_code(best_move)
        }),
    ensures
        after.lookup(board) is Some,
        after.lookup(board)->0.stored_score() == clamp_i16(score),
        after.lookup(board)->0.stored_depth() == depth,
        flag_of_code(after.lookup(board)->0.flag_code()) == flag,
        after.lookup(board)->0.stored_best_move() == move_code(best_move),
{
}

/// The stored entry bounds the value `v` as its flag says.
pub open spec fn stored_bounds(e: TTEntry, v: int) -> bool {
    match flag_of_code(e.flag_code()) {
        TTFlag::Exact => v == e.stored_score(),
        TTFlag::LowerBound => v >= e.stored_score(),
        TTFlag::UpperBound => v <= e.stored_score(),
    }
}

impl TranspositionTable {
    /// No two positions share a hash under this table's Zobrist keys.
    pub open spec fn hashes_distinct(self) -> bool {
        forall|a: Bitboard, b: Bitboard|
            #![trigger self.hash_of(a), self.hash_of(b)]
            a.wf() && b.wf() && self.hash_of(a) == self.hash_of(b) ==> a == b
    }

    /// Every entry that the table answers for a position, stored from a
    /// search deep enough to reach the end of the game, bounds the game value
    /// of that position as its flag says.
    pub open spec fn consistent(self) -> bool {
        forall|b: Bitboard|
            #![trigger self.lookup(b)]
            b.wf() && self.lookup(b) is Some && self.lookup(b)->0.stored_depth()
                >= b.spec_moves_remaining() ==> stored_bounds(self.lookup(b)->0, game_value(b))
    }
}

/// Storing a search result that bounds the game value of its position (when
/// its depth reaches the end of the game) keeps a table consistent, as long
/// as no two positions share a hash.
proof fn lemma_put_consistent(
    before: TranspositionTable,
    after: TranspositionTable,
    board: Bitboard,
    score: i32,
    flag: TTFlag,
    depth: u8,
    best_move: Option<usize>,
)
    requires
        before.consistent(),
        before.hashes_distinct(),
        board.wf(),
        depth >= board.spec_moves_remaining() ==> match flag {
            TTFlag::Exact => game_value(board) == score,
            TTFlag::LowerBound => game_value(board) >= score,
            TTFlag::UpperBound => game_value(board) <= score,
        },
        forall|b: Bitboard| #[trigger] after.hash_of(b) == before.hash_of(b),
        forall|i: int|
            0 <= i < TT_SIZE && i != TranspositionTable::slot_of(before.hash_of(board))
                ==> #[trigger] after.entry_at(i) == before.entry_at(i),
        ({
            let e = after.entry_at(TranspositionTable::slot_of(before.hash_of(board)));
            &&& e.stored_key() == before.hash_of(board)
            &&& e.stored_score() == clamp_i16(score)
            &&& e.stored_depth() == depth
            &&& e.flag_code() == code_of_flag(flag)
            &&& e.stored_best_move() == move_code(best_move)
        }),
    ensures
        after.consistent(),
        after.hashes_distinct(),
{
    lemma_value_bounds(board);
    assert forall|b: Bitboard|
        #![trigger after.lookup(b)]
        b.wf() && after.lookup(b) is Some && after.lookup(b)->0.stored_depth()
            >= b.spec_moves_remaining() implies stored_bounds(after.lookup(b)->0, game_value(b)) by {
        assert(after.hash_of(b) == before.hash_of(b));
        let slot = TranspositionTable::slot_of(before.hash_of(b));
        assert(0 <= slot < TT_SIZE) by {
            let h = before.hash_of(b);
            assert(h & 16_777_215u64 <= 16_777_215u64) by (bit_vector);
        }
        if slot == TranspositionTable::slot_of(before.hash_of(board)) {
            assert(before.hash_of(b) == before.hash_of(board));
            assert(b == board);
        } else {
            assert(after.entry_at(slot) == before.entry_at(slot));
            assert(after.lookup(b) == before.lookup(b));
        }
    }
}

// ============================================================================
// Killer Move Heuristic
// ============================================================================

struct KillerTable {
    killers: [[u8; KILLERS_PER_PLY]; MAX_KILLER_DEPTH],
}

/// A killer slot as a move: the column when it names one, else none.
pub open spec fn killer_move(k: u8) -> Option<usize> {
    if k < 7 {
        Some(k as usize)
    } else {
        None
    }
}

impl KillerTable {
    /// The two killer slots of each ply.
    spec fn view(&self) -> Seq<(u8, u8)> {
        Seq::new(64, |p: int| (self.killers[p][0], self.killers[p][1]))
    }

    fn new() -> (r: Self)
        ensures
            forall|p: int| 0 <= p < 64 ==> #[trigger] r.killers[p][0] == 255 && r.killers[p][1] == 255,
            r.view() == no_killers(),
    {
        let r = KillerTable { killers: [[255u8; KILLERS_PER_PLY]; MAX_KILLER_DEPTH] };
        assert(r.view() =~= no_killers());
        r
    }

    /// Remember `col` as the newest killer at `ply`; the previous newest
    /// becomes the second.
    fn record(&mut self, ply: usize, col: usize)
        ensures
            ply >= 64 || old(self).killers[ply as int][0] == col as u8 ==> final(self).killers
                == old(self).killers,
            ply < 64 && old(self).killers[ply as int][0] != col as u8 ==> {
                &&& final(self).killers[ply as int][0] == col as u8
                &&& final(self).killers[ply as int][1] == old(self).killers[ply as int][0]
                &&& forall|p: int|
                    0 <= p < 64 && p != ply ==> #[trigger] final(self).killers[p] == old(
                        self,
                    ).killers[p]
            },
            final(self).view() == recorded(old(self).view(), ply as int, col),
    {
        if ply >= MAX_KILLER_DEPTH {
            return;
        }
        let c = #[verifier::truncate] (col as u8);
        if self.killers[ply][0] == c {
            return;
        }
        let first = self.killers[ply][0];
        self.killers[ply] = [c, first];
        assert(self.view() =~= recorded(old(self).view(), ply as int, col));
    }

    fn get_killers(&self, ply: usize) -> (r: [Option<usize>; KILLERS_PER_PLY])
        ensures
            (r[0], r[1]) == killer_pair(self.view(), ply as int),
            ply >= 64 ==> r[0] is None && r[1] is None,
            ply < 64 ==> r[0] == killer_move(self.killers[ply as int][0]) && r[1] == killer_move(
                self.killers[ply as int][1],
            ),
    {
        if ply >= MAX_KILLER_DEPTH {
            return [None; KILLERS_PER_PLY];
        }
        [
            if self.killers[ply][0] < 7 {
                Some(self.killers[ply][0] as usize)
            } else {
                None
            },
            if self.killers[ply][1] < 7 {
                Some(self.killers[ply][1] as usize)
            } else {
                None
            },
        ]
    }
}

/// A slot of the table: stored hash, score, depth, flag byte, best move byte.
pub type Slot = (u64, i16, u8, u8, u8);

/// The slots of a new table: each empty, with no best move.
pub open spec fn empty_slots() -> Seq<Slot> {
    Seq::new(TT_SIZE as nat, |i: int| (0u64, 0i16, 0u8, 0u8, 255u8))
}

/// The XOR of both Zobrist keys of every occupied cell among `0..n`.
pub open spec fn owner_flip(keys: [[u64; 49]; 2], mask: u64, n: int) -> u64
    decreases n,
{
    if n <= 0 {
        0
    } else if bit(mask, n - 1) {
        owner_flip(keys, mask, n - 1) ^ (keys[0][n - 1] ^ keys[1][n - 1])
    } else {
        owner_flip(keys, mask, n - 1)
    }
}

proof fn lemma_xor_regroup(a: u64, b: u64, x: u64, y: u64)
    ensures
        (a ^ x) ^ (b ^ y) == (a ^ b) ^ (x ^ y),
        x ^ y == y ^ x,
{
    broadcast use group_bits;

    assert forall|i: int| 0 <= i < 64 implies bit((a ^ x) ^ (b ^ y), i) == bit((a ^ b) ^ (x ^ y), i)
        by {}
    crate::bits::lemma_bits_ext((a ^ x) ^ (b ^ y), (a ^ b) ^ (x ^ y));
    assert forall|i: int| 0 <= i < 64 implies bit(x ^ y, i) == bit(y ^ x, i) by {}
    crate::bits::lemma_bits_ext(x ^ y, y ^ x);
}

/// Folding the hash over two disjoint sets of discs, and again with their
/// owners swapped, differs by both keys of every disc.
proof fn lemma_fold_swap(keys: [[u64; 49]; 2], p: u64, q: u64, n: int)
    requires
        0 <= n <= 49,
        forall|i: int| !(#[trigger] bit(p, i) && bit(q, i)),
    ensures
        zobrist_fold(keys, p, q, n) ^ zobrist_fold(keys, q, p, n) == owner_flip(keys, p | q, n),
    decreases n,
{
    broadcast use group_bits;

    if n > 0 {
        lemma_fold_swap(keys, p, q, n - 1);
        let a = zobrist_fold(keys, p, q, n - 1);
        let b = zobrist_fold(keys, q, p, n - 1);
        let c = n - 1;
        let k0 = keys[0][c];
        let k1 = keys[1][c];
        lemma_xor_regroup(a, b, k0, k1);
        lemma_xor_regroup(a, b, k1, k0);
        assert(bit(p | q, c) == (bit(p, c) || bit(q, c)));
        if bit(p, c) {
            assert(zobrist_fold(keys, p, q, n) == a ^ k0);
            assert(zobrist_fold(keys, q, p, n) == b ^ k1);
        } else if bit(q, c) {
            assert(zobrist_fold(keys, p, q, n) == a ^ k1);
            assert(zobrist_fold(keys, q, p, n) == b ^ k0);
        } else {
            assert(zobrist_fold(keys, p, q, n) == a);
            assert(zobrist_fold(keys, q, p, n) == b);
        }
    } else {
        assert forall|i: int| 0 <= i < 64 implies bit(0u64 ^ 0u64, i) == bit(0u64, i) by {}
        crate::bits::lemma_bits_ext(0u64 ^ 0u64, 0u64);
    }
}

/// Handing every disc to the other player changes the Zobrist hash by both
/// keys of every occupied cell: the hash tells apart who owns the discs.
pub proof fn lemma_hash_owner_swap(keys: [[u64; 49]; 2], b: Bitboard, b2: Bitboard)
    requires
        subset_bits(b.current, b.mask),
        b.mask >> 49u64 == 0,
        b2.current == b.current ^ b.mask,
        b2.mask == b.mask,
    ensures
        board_hash(keys, b) ^ board_hash(keys, b2) == owner_flip(keys, b.mask, 49),
{
    broadcast use group_bits;

    let p = b.current;
    let q = b.current ^ b.mask;
    lemma_swap_sides(b.current, b.mask);
    assert forall|i: int| !(#[trigger] bit(p, i) && bit(q, i)) by {
        if bit(p, i) {
            crate::bitboard::lemma_subset_bit(p, b.mask, i);
        }
    }
    assert forall|i: int| 0 <= i < 64 implies bit(p | q, i) == bit(b.mask, i) by {
        if bit(p, i) {
            crate::bitboard::lemma_subset_bit(p, b.mask, i);
        }
    }
    crate::bits::lemma_bits_ext(p | q, b.mask);
    lemma_fold_swap(keys, p, q, 49);
}

/// The Zobrist hash of `b` under `keys`.
pub open spec fn board_hash(keys: [[u64; 49]; 2], b: Bitboard) -> u64 {
    zobrist_fold(keys, b.current, b.current ^ b.mask, 49)
}

/// The slot that the slots `s` answer for `b`: the one its hash maps to,
/// when it was stored under that hash.
pub open spec fn slot_lookup(keys: [[u64; 49]; 2], s: Seq<Slot>, b: Bitboard) -> Option<Slot> {
    let h = board_hash(keys, b);
    let e = s[TranspositionTable::slot_of(h)];
    if e.0 == h {
        Some(e)
    } else {
        None
    }
}

/// The slots after storing a search result for `b`: its slot overwritten
/// with the hash, the score clamped to `i16`, the depth, the flag byte and
/// the best move byte.
pub open spec fn slot_put(
    keys: [[u64; 49]; 2],
    s: Seq<Slot>,
    b: Bitboard,
    score: i32,
    flag: TTFlag,
    depth: u8,
    best_move: Option<usize>,
) -> Seq<Slot> {
    let h = board_hash(keys, b);
    s.update(
        TranspositionTable::slot_of(h),
        (h, clamp_i16(score), depth, code_of_flag(flag), move_code(best_move)),
    )
}

/// What a slot found for the position says to a search of window
/// `(lo, hi)` to `depth`: an answer at once (first), or the window it
/// leaves (second and third). Only a slot from a search at least as deep
/// has a say.
pub open spec fn slot_probe(e: Option<Slot>, depth: u8, lo: int, hi: int) -> (Option<int>, int, int) {
    match e {
        Some(en) => if en.2 >= depth {
            match flag_of_code(en.3) {
                TTFlag::Exact => (Some(en.1 as int), lo, hi),
                TTFlag::LowerBound => if en.1 >= hi {
                    (Some(en.1 as int), lo, hi)
                } else if en.1 > lo {
                    (None, en.1 as int, hi)
                } else {
                    (None, lo, hi)
                },
                TTFlag::UpperBound => if en.1 <= lo {
                    (Some(en.1 as int), lo, hi)
                } else if en.1 < hi {
                    (None, lo, en.1 as int)
                } else {
                    (None, lo, hi)
                },
            }
        } else {
            (None, lo, hi)
        },
        None => (None, lo, hi),
    }
}

/// The best move a found slot names, if any.
pub open spec fn slot_move(e: Option<Slot>) -> Option<usize> {
    match e {
        Some(en) => if en.4 < 7 {
            Some(en.4 as usize)
        } else {
            None
        },
        None => None,
    }
}

/// No killer move at any ply.
pub open spec fn no_killers() -> Seq<(u8, u8)> {
    Seq::new(64, |p: int| (255u8, 255u8))
}

/// The two killer moves of `ply`: none beyond the last ply kept.
pub open spec fn killer_pair(ks: Seq<(u8, u8)>, ply: int) -> (Option<usize>, Option<usize>) {
    if ply < 0 || ply >= 64 {
        (None, None)
    } else {
        (killer_move(ks[ply].0), killer_move(ks[ply].1))
    }
}

/// The killer slots after `col` cut the search off at `ply`: it becomes the
/// newest killer there and the previous newest the second, unless it is
/// the newest already or `ply` is beyond the last ply kept.
pub open spec fn recorded(ks: Seq<(u8, u8)>, ply: int, col: usize) -> Seq<(u8, u8)> {
    if ply < 0 || ply >= 64 || ks[ply].0 == col as u8 {
        ks
    } else {
        ks.update(ply, (col as u8, ks[ply].0))
    }
}

/// The ordering bonus of a column: 10000 for the table's best move, else
/// 5000 for the newest killer, else 4000 for the other killer.
pub open spec fn ordering_bonus(col: usize, tt_move: Option<usize>, k0: Option<usize>, k1: Option<usize>) -> int {
    if tt_move == Some(col) {
        10000
    } else if k0 == Some(col) {
        5000
    } else if k1 == Some(col) {
        4000
    } else {
        0
    }
}

/// The scored moves with their ordering bonuses added.
pub open spec fn with_bonus(
    list: Seq<(usize, i32)>,
    tt_move: Option<usize>,
    k0: Option<usize>,
    k1: Option<usize>,
) -> Seq<(usize, i32)> {
    Seq::new(
        list.len(),
        |j: int| (list[j].0, (list[j].1 + ordering_bonus(list[j].0, tt_move, k0, k1)) as i32),
    )
}

/// The order in which the library's search tries the moves of `moves`: by
/// descending move score plus ordering bonus, ties in exploration order.
#[verifier::opaque]
pub open spec fn bonus_order(
    b: Bitboard,
    moves: u64,
    tt_move: Option<usize>,
    k0: Option<usize>,
    k1: Option<usize>,
) -> Seq<(usize, i32)> {
    sorted_by_priority(with_bonus(scored_prefix(b, moves, 7), tt_move, k0, k1))
}

/// The search of `b` with window `(alpha, beta)` down to `depth` plies at
/// `ply` from the root, over the table slots `s` hashed with `keys` and the
/// killer slots `ks`: its answer, and the slots and killers it leaves.
/// With few moves left (and depth to spare) the endgame search answers; a
/// full board is a draw; a win at once scores the moves left, halved,
/// rounded up; the window is cut to the best score still possible; a slot
/// from a search at least this deep answers or narrows the window; at depth
/// 0 the static evaluation answers; with no non-losing move the loss in the
/// moves left answers; else the non-losing moves are searched in
/// `bonus_order` (the slot's best move first, then the killers of the ply)
/// and the best score is stored with its flag and move.
pub open spec fn ply_search(
    keys: [[u64; 49]; 2],
    s: Seq<Slot>,
    ks: Seq<(u8, u8)>,
    b: Bitboard,
    alpha: int,
    beta: int,
    depth: u8,
    ply: int,
) -> (int, Seq<Slot>, Seq<(u8, u8)>)
    decreases depth, 1int, 0int,
{
    let rem = b.spec_moves_remaining();
    let max_score = (rem - 1) / 2;
    if rem <= ENDGAME_THRESHOLD && depth > 0 {
        (endgame_result(b, alpha, beta), s, ks)
    } else if b.spec_is_full() {
        (0, s, ks)
    } else if b.can_win_now() {
        ((rem + 1) / 2, s, ks)
    } else if beta > max_score && alpha >= max_score {
        (max_score, s, ks)
    } else {
        let e = slot_lookup(keys, s, b);
        let p = slot_probe(e, depth, alpha, min_int(beta, max_score));
        if p.0 is Some {
            (p.0->0, s, ks)
        } else if depth == 0 {
            (evaluation(b), s, ks)
        } else if b.non_losing_moves() == 0 {
            (-(rem / 2), s, ks)
        } else {
            let kp = killer_pair(ks, ply);
            let r = ply_search_moves(
                keys,
                s,
                ks,
                b,
                bonus_order(b, b.non_losing_moves(), slot_move(e), kp.0, kp.1),
                0,
                p.1,
                p.2,
                i32::MIN as int,
                None,
                depth,
                ply,
            );
            let best = if r.0 == i32::MIN { -(rem / 2) } else { r.0 };
            let flag = if best <= p.1 {
                TTFlag::UpperBound
            } else if best >= p.2 {
                TTFlag::LowerBound
            } else {
                TTFlag::Exact
            };
            (best, slot_put(keys, r.2, b, best as i32, flag, depth, r.1), r.3)
        }
    }
}

/// Past the last move there is nothing left to search.
proof fn lemma_ply_moves_done(
    keys: [[u64; 49]; 2],
    s: Seq<Slot>,
    ks: Seq<(u8, u8)>,
    b: Bitboard,
    order: Seq<(usize, i32)>,
    idx: int,
    lo: int,
    hi: int,
    best: int,
    best_move: Option<usize>,
    depth: u8,
    ply: int,
)
    requires
        idx >= order.len(),
    ensures
        ply_search_moves(keys, s, ks, b, order, idx, lo, hi, best, best_move, depth, ply) == (
            best,
            best_move,
            s,
            ks,
        ),
{
}

/// The moves of `order` from `idx` on, searched one after the other at
/// `ply + 1` with the lower end of the window at `lo`, the best score so
/// far `best` and its move `best_move`: the first move with the full window,
/// each later one with a null window first and again with the full window
/// when it lands inside. A score at or above `hi` cuts the rest off and
/// makes the move a killer of `ply`. The best score and move, and the slots
/// and killers left.
pub open spec fn ply_search_moves(
    keys: [[u64; 49]; 2],
    s: Seq<Slot>,
    ks: Seq<(u8, u8)>,
    b: Bitboard,
    order: Seq<(usize, i32)>,
    idx: int,
    lo: int,
    hi: int,
    best: int,
    best_move: Option<usize>,
    depth: u8,
    ply: int,
) -> (int, Option<usize>, Seq<Slot>, Seq<(u8, u8)>)
    decreases depth, 0int, order.len() - idx,
{
    if idx < 0 || idx >= order.len() || depth == 0 {
        (best, best_move, s, ks)
    } else {
        let col = order[idx].0;
        let child = b.spec_play(col as int);
        let d = (depth - 1) as u8;
        let first = ply_search(keys, s, ks, child, if idx == 0 { -hi } else { -lo - 1 }, -lo, d, ply + 1);
        let searched = if idx > 0 && lo < -first.0 && -first.0 < hi {
            ply_search(keys, first.1, first.2, child, -hi, -lo, d, ply + 1)
        } else {
            first
        };
        let score = -searched.0;
        let best2 = if score > best { score } else { best };
        let move2 = if score > best { Some(col) } else { best_move };
        let lo2 = max_int(lo, score);
        if lo2 >= hi {
            (best2, move2, searched.1, recorded(searched.2, ply, col))
        } else {
            ply_search_moves(keys, searched.1, searched.2, b, order, idx + 1, lo2, hi, best2, move2, depth, ply)
        }
    }
}

/// Each scored root move of `log` is a move of `moves` and carries what the
/// search answered for it in its iteration and window (see `root_answer`
/// and `root_window`).
#[verifier::opaque]
pub open spec fn logged_root_moves(
    b: Bitboard,
    moves: u64,
    log: Seq<(usize, i32)>,
    win: Seq<(int, int)>,
    endgame: bool,
    deep: bool,
) -> bool {
    forall|i: int|
        #![trigger log[i]]
        0 <= i < log.len() ==> in_moves(b, moves, log[i].0 as int) && root_answer(
            b,
            log[i],
            win[i],
            endgame,
            deep,
        ) && root_window(log, win, i)
}

/// The root moves of `order` from `idx` on in one iteration of the root
/// search, over the table slots `s` and killer slots `ks`: each searched at
/// ply 1 to the depth byte `d8` with the window `(-WIN_SCORE, -lo)` for the
/// position after it, its score negated; `lo` rises to each score and
/// `prefer` keeps the best move. The best move, and the slots and killers
/// left.
#[verifier::opaque]
pub open spec fn ply_root_moves(
    keys: [[u64; 49]; 2],
    s: Seq<Slot>,
    ks: Seq<(u8, u8)>,
    b: Bitboard,
    order: Seq<(usize, i32)>,
    idx: int,
    lo: int,
    best: (usize, i32),
    d8: u8,
) -> ((usize, i32), Seq<Slot>, Seq<(u8, u8)>)
    decreases order.len() - idx,
{
    if idx < 0 || idx >= order.len() {
        (best, s, ks)
    } else {
        let col = order[idx].0;
        let r = ply_search(keys, s, ks, b.spec_play(col as int), -WIN_SCORE, -lo, d8, 1);
        let score = -r.0;
        ply_root_moves(keys, r.1, r.2, b, order, idx + 1, max_int(lo, score), prefer(best, (col, score as i32)), d8)
    }
}

/// `x / 2` rounded toward zero, as machine division rounds.
pub open spec fn half_toward_zero(x: int) -> int {
    if x >= 0 {
        x / 2
    } else {
        -((-x) / 2)
    }
}

/// Iterative deepening from iteration `depth` up to `max_depth`: each
/// iteration scores the non-losing moves in `search_order` with
/// `ply_root_moves`, carrying the best move on, and the deepening stops
/// early once the best score reaches half the moves left after this many
/// plies.
#[verifier::opaque]
pub open spec fn ply_root_deepening(
    keys: [[u64; 49]; 2],
    s: Seq<Slot>,
    ks: Seq<(u8, u8)>,
    b: Bitboard,
    depth: int,
    max_depth: int,
    best: (usize, i32),
) -> ((usize, i32), Seq<Slot>, Seq<(u8, u8)>)
    decreases max_depth + 1 - depth,
{
    if depth < 1 || depth > max_depth {
        (best, s, ks)
    } else {
        let it = ply_root_moves(
            keys,
            s,
            ks,
            b,
            search_order(b, b.non_losing_moves()),
            0,
            -WIN_SCORE as int,
            best,
            (depth % 256) as u8,
        );
        if it.0.1 >= half_toward_zero(b.spec_moves_remaining() - depth) {
            it
        } else {
            ply_root_deepening(keys, it.1, it.2, b, depth + 1, max_depth, it.0)
        }
    }
}

/// Past the last iteration the deepening answers what it carries.
proof fn lemma_ply_deepening_done(
    keys: [[u64; 49]; 2],
    s: Seq<Slot>,
    ks: Seq<(u8, u8)>,
    b: Bitboard,
    depth: int,
    max_depth: int,
    best: (usize, i32),
)
    requires
        depth > max_depth,
    ensures
        ply_root_deepening(keys, s, ks, b, depth, max_depth, best) == (best, s, ks),
{
    reveal(ply_root_deepening);
}

/// The root search of `b` with up to `max_depth` iterations over the table
/// slots `s` hashed with `keys` and the killer slots `ks`: its move and
/// score, and the slots and killers it leaves. The first winning column in
/// exploration order, with the moves left halved and rounded up; else, when
/// every move loses at once, the first open column with `-WIN_SCORE`; else
/// what the iterative deepening gives, starting from column 3 with no score.
pub open spec fn ply_root(keys: [[u64; 49]; 2], s: Seq<Slot>, ks: Seq<(u8, u8)>, b: Bitboard, max_depth: int) -> (
    (usize, i32),
    Seq<Slot>,
    Seq<(u8, u8)>,
) {
    if b.can_win_now() {
        ((first_col(wins_in(b), 0) as usize, ((b.spec_moves_remaining() + 1) / 2) as i32), s, ks)
    } else if b.non_losing_moves() == 0 && !b.spec_is_full() {
        ((first_col(open_in(b), 0) as usize, (-WIN_SCORE) as i32), s, ks)
    } else {
        ply_root_deepening(keys, s, ks, b, 1, max_depth, (3usize, i32::MIN))
    }
}

// ============================================================================
// Endgame Solver
// ============================================================================

/// What the endgame search answers for `b` with window `(alpha, beta)`:
/// 0 on a full board, the win at once when there is one, the cap on the
/// score when it closes the window, the loss at once when every move loses,
/// and otherwise the scan of the non-losing moves in exploration order.
pub open spec fn endgame_result(b: Bitboard, alpha: int, beta: int) -> int
    decreases 42 - b.moves, 8int,
{
    if !b.wf() || b.spec_is_full() {
        0
    } else if b.can_win_now() {
        (b.spec_moves_remaining() + 1) / 2
    } else {
        let max_score = (b.spec_moves_remaining() - 1) / 2;
        if beta > max_score && alpha >= max_score {
            max_score
        } else if b.non_losing_moves() == 0 {
            -(b.spec_moves_remaining() / 2)
        } else {
            endgame_scan(b, 0, alpha, if beta > max_score { max_score } else { beta })
        }
    }
}

/// The scan of the endgame search from position `k` of the exploration
/// order with window `(lo, hi)`: each non-losing move raises `lo` to its
/// score when higher, and the scan stops once `lo` reaches `hi`.
pub open spec fn endgame_scan(b: Bitboard, k: int, lo: int, hi: int) -> int
    decreases 42 - b.moves, 7 - k,
{
    if k < 0 || k >= 7 || !b.wf() || b.spec_is_full() {
        lo
    } else {
        let col = column_order()[k];
        if in_moves(b, b.non_losing_moves(), col) {
            let score = -endgame_result(b.spec_play(col), -hi, -lo);
            let lo2 = if score > lo {
                score
            } else {
                lo
            };
            if lo2 >= hi {
                lo2
            } else {
                endgame_scan(b, k + 1, lo2, hi)
            }
        } else {
            endgame_scan(b, k + 1, lo, hi)
        }
    }
}

/// Perfect endgame solver for positions with few moves remaining
pub struct EndgameSolver;

impl EndgameSolver {
    /// Alpha-beta search of the full game tree below `board`, exploring only
    /// the moves that do not lose at once, center columns first.
    #[verifier::rlimit(60)]
    pub fn solve(board: &Bitboard, alpha: i32, beta: i32) -> (r: i32)
        requires
            board.wf(),
            alpha > i32::MIN,
            beta > i32::MIN,
        ensures
            r > i32::MIN,
            alpha < beta ==> alpha_beta_ok(game_value(*board), alpha as int, beta as int, r as int),
            min_int(alpha as int, -21) <= r <= max_int(max_int(alpha as int, beta as int), 21),
            alpha < -21 && beta > 21 ==> r == game_value(*board),
            alpha < beta ==> -21 <= r <= 21,
            r == endgame_result(*board, alpha as int, beta as int),
        decreases 42 - board.moves,
    {
        let ghost alpha0 = alpha as int;
        let ghost beta0 = beta as int;
        let ghost v = game_value(*board);
        proof {
            lemma_value_bounds(*board);
        }
        let mut lo = alpha;
        let mut hi = beta;
        if board.is_full() {
            return DRAW_SCORE;
        }
        proof {
            board.lemma_landing_fits();
        }
        let winning = board.winning_positions();
        let possible = board.possible_moves();
        proof {
            board.lemma_can_win_now(winning);
        }
        if winning & possible != 0 {
            return (board.moves_remaining() + 1) / 2;
        }
        proof {
            lemma_value_bounds(*board);
            lemma_value_is_best_child(*board);
        }
        let max_score = (board.moves_remaining() - 1) / 2;
        if hi > max_score {
            hi = max_score;
            if lo >= hi {
                return hi;
            }
        }
        let moves = board.possible_non_losing_moves();
        if moves == 0 {
            proof {
                assert forall|col: int| #[trigger] board.playable(col) implies child_value(*board, col)
                    == -(board.spec_moves_remaining() / 2) by {
                    lemma_no_moves(*board, moves, col);
                    lemma_pruned_move_loses(*board, moves, col);
                }
            }
            return -board.moves_remaining() / 2;
        }
        let mut k: usize = 0;
        while k < 7
            invariant
                board.wf(),
                !board.spec_is_full(),
                !board.can_win_now(),
                v == game_value(*board),
                board.non_losing_model(moves),
                subset_bits(moves, board.landing_cells()),
                moves == board.non_losing_moves(),
                endgame_scan(*board, k as int, lo as int, hi as int) == endgame_result(
                    *board,
                    alpha0,
                    beta0,
                ),
                moves != 0,
                0 <= k <= 7,
                alpha0 <= lo <= max_int(max_int(alpha0, beta0), 21),
                -21 <= v <= 21,
                hi <= beta0,
                board.spec_moves_remaining() <= 42,
                alpha0 == alpha as int,
                beta0 == beta as int,
                alpha0 <= lo,
                alpha0 > i32::MIN,
                hi > i32::MIN,
                forall|col: int| #[trigger] board.playable(col) ==> child_value(*board, col) <= v,
                alpha0 < beta0 ==> {
                    &&& lo < hi <= beta0
                    &&& (v <= hi || hi == beta0)
                    &&& forall|j: int|
                        0 <= j < k && #[trigger] in_moves(*board, moves, column_order()[j])
                            ==> child_value(*board, column_order()[j]) <= lo
                    &&& (lo == alpha0 || exists|c: int|
                        #[trigger] board.playable(c) && child_value(*board, c) == lo)
                },
            decreases 7 - k,
        {
            let col = order_at(k);
            let col_mask = Bitboard::column_mask(col);
            let move_mask = moves & col_mask;
            proof {
                lemma_column_move(*board, moves, col as int);
            }
            if move_mask != 0 {
                let new_board = board.play_move(move_mask);
                proof {
                    assert(in_moves(*board, moves, col as int));
                    assert(new_board == board.spec_play(col as int));
                }
                let child = Self::solve(&new_board, -hi, -lo);
                let score = -child;
                proof {
                    assert(child_value(*board, col as int) == -game_value(new_board));
                    if alpha0 < beta0 {
                        lemma_child_window(
                            child_value(*board, col as int),
                            lo as int,
                            hi as int,
                            child as int,
                        );
                    }
                }
                if score > lo {
                    lo = score;
                }
                if lo >= hi {
                    proof {
                        if alpha0 < beta0 {
                            assert(board.playable(col as int));
                        }
                    }
                    return lo;
                }
            }
            k = k + 1;
        }
        proof {
            if alpha0 < beta0 {
                assert forall|col: int| #[trigger] board.playable(col) implies child_value(
                    *board,
                    col,
                ) <= lo by {
                    lemma_order_covers(col);
                    let j = choose|j: int| 0 <= j < 7 && #[trigger] column_order()[j] == col;
                    if !in_moves(*board, moves, col) {
                        lemma_pruned_move_loses(*board, moves, col);
                        lemma_some_move(*board, moves);
                    } else {
                        assert(in_moves(*board, moves, column_order()[j]));
                    }
                }
            }
        }
        lo
    }
}

pub open spec fn min_int(a: int, b: int) -> int {
    if a <= b {
        a
    } else {
        b
    }
}

pub open spec fn max_int(a: int, b: int) -> int {
    if a >= b {
        a
    } else {
        b
    }
}

/// The moves in one column: the landing cell there, or nothing.
pub(crate) proof fn lemma_column_move(b: Bitboard, moves: u64, col: int)
    requires
        b.wf(),
        0 <= col < 7,
        subset_bits(moves, b.landing_cells()),
    ensures
        (moves & (63u64 << (7 * col) as u64) != 0) == in_moves(b, moves, col),
        in_moves(b, moves, col) ==> moves & (63u64 << (7 * col) as u64) == b.landing_bit(col),
{
    broadcast use group_bits;

    b.lemma_landing_in_column(moves, col);
    b.lemma_wf_cells();
    let idx = cell_index(col, b.height(col));
    if in_moves(b, moves, col) {
        assert(bit(b.landing_bit(col), idx));
    }
}

/// No moves: the landing cell of any column is not among them.
proof fn lemma_no_moves(b: Bitboard, moves: u64, col: int)
    requires
        moves == 0,
    ensures
        !in_moves(b, moves, col),
{
    broadcast use group_bits;

    assert(!bit(0u64, cell_index(col, b.height(col))));
}

/// Reading a child's windowed answer from the parent's side.
proof fn lemma_child_window(cv: int, a: int, b: int, child: int)
    requires
        a < b,
        alpha_beta_ok(-cv, -b, -a, child),
    ensures
        -child <= a ==> cv <= a,
        a < -child < b ==> cv == -child,
        -child >= b ==> cv >= -child,
{
}

/// A non-empty set of non-losing moves has a move, worth at least
/// `-(moves_remaining / 2)`, which the search has scored at most `alpha`.
pub(crate) proof fn lemma_some_move(b: Bitboard, moves: u64)
    requires
        b.wf(),
        moves != 0,
        subset_bits(moves, b.landing_cells()),
    ensures
        exists|c: int| #[trigger] in_moves(b, moves, c) && child_value(b, c) >= -(
        b.spec_moves_remaining() / 2),
{
    broadcast use group_bits;

    b.lemma_landing_cells();
    crate::bits::lemma_nonzero_has_bit(moves);
    let i = choose|i: int| 0 <= i < 64 && bit(moves, i);
    crate::bitboard::lemma_subset_bit(moves, b.landing_cells(), i);
    let c = i / 7;
    assert(in_moves(b, moves, c));
    b.lemma_play_wf(c);
    lemma_value_bounds(b.spec_play(c));
}


// ============================================================================
// Static evaluation
// ============================================================================

/// Number of set bits, as an integer.
pub open spec fn pc(x: u64) -> int {
    popcount(x) as int
}

/// Three-in-a-row patterns of `position` with the fourth cell empty.
pub open spec fn threat_count(position: u64, mask: u64) -> int {
    let empty = board_bits() ^ mask;
    let h1 = position & (position >> 7u64);
    let h2 = h1 & (position >> 14u64);
    let h_gap1 = position & (position >> 7u64) & (position >> 21u64);
    let h_gap2 = position & (position >> 14u64) & (position >> 21u64);
    let v1 = position & (position >> 1u64);
    let v2 = v1 & (position >> 2u64);
    let d1 = position & (position >> 6u64);
    let d2 = d1 & (position >> 12u64);
    let d3 = position & (position >> 8u64);
    let d4 = d3 & (position >> 16u64);
    pc(h2 & (empty >> 21u64)) + pc((position >> 21u64) & (h1 >> 7u64) & empty) + pc(
        h_gap1 & (empty >> 14u64),
    ) + pc(h_gap2 & (empty >> 7u64)) + pc(v2 & (empty >> 3u64)) + pc(d2 & (empty >> 18u64)) + pc(
        (position >> 18u64) & (d1 >> 6u64) & empty,
    ) + pc(d4 & (empty >> 24u64)) + pc((position >> 24u64) & (d3 >> 8u64) & empty)
}

/// Pairs of `position` with room on both sides (above, for vertical pairs).
pub open spec fn open_pair_count(position: u64, empty: u64) -> int {
    pc(position & (position >> 7u64) & (empty >> 14u64) & (empty << 7u64)) + pc(
        position & (position >> 1u64) & (empty >> 2u64),
    ) + pc(position & (position >> 6u64) & (empty >> 12u64) & (empty << 6u64)) + pc(
        position & (position >> 8u64) & (empty >> 16u64) & (empty << 8u64),
    )
}

/// Weight of each column for center control.
pub const COL_WEIGHTS: [i32; 7] = [1, 2, 3, 4, 3, 2, 1];

/// Weighted difference of pieces per column, over columns `0..n`.
pub open spec fn center_sum(current: u64, opponent: u64, n: int) -> int
    decreases n,
{
    if n <= 0 {
        0
    } else {
        let col = n - 1;
        let cm = 63u64 << ((7 * col) as u64);
        center_sum(current, opponent, n - 1) + (pc(current & cm) - pc(opponent & cm))
            * COL_WEIGHTS@[col] as int
    }
}

/// Odd rows (1, 3, 5 counting from 0 at the bottom) of every column.
pub open spec fn odd_rows() -> u64 {
    0xa952a54a952au64
}

/// Winning cells on odd and even rows, weighted by who moves first.
pub open spec fn odd_even_score(current_wins: u64, opponent_wins: u64, moves: u32) -> int {
    let even = board_bits() & !odd_rows();
    let co = pc(current_wins & odd_rows());
    let ce = pc(current_wins & even);
    let oo = pc(opponent_wins & odd_rows());
    let oe = pc(opponent_wins & even);
    if moves % 2 == 0 {
        (co * 15 + ce * 5) - (oo * 5 + oe * 15)
    } else {
        (ce * 15 + co * 5) - (oe * 5 + oo * 15)
    }
}

/// Adjacent pairs of `position` in the four directions.
pub open spec fn connectivity(position: u64) -> int {
    pc(position & (position >> 7u64)) + pc(position & (position >> 1u64)) + pc(
        position & (position >> 6u64),
    ) + pc(position & (position >> 8u64))
}

/// The static evaluation of a position for the player to move.
pub open spec fn evaluation(board: Bitboard) -> int {
    let current = board.current;
    let opponent = board.current ^ board.mask;
    let empty = board_bits() ^ board.mask;
    let current_wins = threat_cells(current, board.mask);
    let opponent_wins = threat_cells(opponent, board.mask);
    (pc(current_wins) - pc(opponent_wins)) * 100 + (threat_count(current, board.mask)
        - threat_count(opponent, board.mask)) * 30 + (open_pair_count(current, empty)
        - open_pair_count(opponent, empty)) * 10 + center_sum(current, opponent, 7) * 3
        + odd_even_score(current_wins, opponent_wins, board.moves) + (connectivity(current)
        - connectivity(opponent)) * 5
}

/// Handing the move over swaps the two players' pieces.
pub proof fn lemma_swap_sides(c: u64, m: u64)
    ensures
        (c ^ m) ^ m == c,
{
    broadcast use group_bits;

    assert forall|i: int| 0 <= i < 64 implies bit((c ^ m) ^ m, i) == bit(c, i) by {}
    crate::bits::lemma_bits_ext((c ^ m) ^ m, c);
}

/// Swapping the players negates the weighted center count.
proof fn lemma_center_sum_swap(current: u64, opponent: u64, n: int)
    ensures
        center_sum(opponent, current, n) == -center_sum(current, opponent, n),
    decreases n,
{
    if n > 0 {
        lemma_center_sum_swap(current, opponent, n - 1);
        let col = n - 1;
        let d = pc(current & (63u64 << ((7 * col) as u64))) - pc(opponent & (63u64 << ((7 * col) as u64)));
        let wgt = COL_WEIGHTS@[col] as int;
        assert((-d) * wgt == -(d * wgt)) by (nonlinear_arith);
    }
}

/// The static evaluation scores the position for the player to move: with
/// no winning cell on either side and the threats, open pairs and linked
/// discs even, it is three times the mover's weighted lead in discs per
/// column, so above zero exactly when the mover holds the centre better.
pub proof fn lemma_evaluation_center_lead(b: Bitboard)
    requires
        threat_cells(b.current, b.mask) == 0,
        threat_cells(b.current ^ b.mask, b.mask) == 0,
        threat_count(b.current, b.mask) == threat_count(b.current ^ b.mask, b.mask),
        open_pair_count(b.current, board_bits() ^ b.mask) == open_pair_count(
            b.current ^ b.mask,
            board_bits() ^ b.mask,
        ),
        connectivity(b.current) == connectivity(b.current ^ b.mask),
    ensures
        evaluation(b) == 3 * center_sum(b.current, b.current ^ b.mask, 7),
        center_sum(b.current, b.current ^ b.mask, 7) > 0 ==> evaluation(b) > 0,
        center_sum(b.current, b.current ^ b.mask, 7) < 0 ==> evaluation(b) < 0,
{
    crate::bits::lemma_zero_and(odd_rows());
    crate::bits::lemma_zero_and(board_bits() & !odd_rows());
}

/// The static evaluation rewards the player to move for winning cells: when
/// the opponent has none and the mover has some, with the threats, open
/// pairs, linked discs and centre even, it is at least 100.
pub proof fn lemma_evaluation_mover_wins(b: Bitboard)
    requires
        threat_cells(b.current, b.mask) != 0,
        threat_cells(b.current ^ b.mask, b.mask) == 0,
        threat_count(b.current, b.mask) == threat_count(b.current ^ b.mask, b.mask),
        open_pair_count(b.current, board_bits() ^ b.mask) == open_pair_count(
            b.current ^ b.mask,
            board_bits() ^ b.mask,
        ),
        connectivity(b.current) == connectivity(b.current ^ b.mask),
        center_sum(b.current, b.current ^ b.mask, 7) == 0,
    ensures
        evaluation(b) >= 100,
{
    let w = threat_cells(b.current, b.mask);
    crate::bits::lemma_zero_and(odd_rows());
    crate::bits::lemma_zero_and(board_bits() & !odd_rows());
    lemma_popcount_bound(w & odd_rows());
    lemma_popcount_bound(w & (board_bits() & !odd_rows()));
    lemma_popcount_nonzero(w);
}

/// A non-zero word counts at least one set bit.
pub(crate) proof fn lemma_popcount_nonzero(x: u64)
    requires
        x != 0,
    ensures
        popcount(x) >= 1,
{
    broadcast use group_bits;

    crate::bits::lemma_nonzero_has_bit(x);
    let i = choose|i: int| 0 <= i < 64 && bit(x, i);
    let k = i as u64;
    let y = x & !(1u64 << k);
    assert forall|j: int| 0 <= j < 64 implies bit(y | (1u64 << k), j) == bit(x, j) by {}
    crate::bits::lemma_bits_ext(y | (1u64 << k), x);
    assert(!bit(y, k as int));
    crate::bits::lemma_popcount_set_bit(y, k);
}

/// The static evaluation is zero-sum: the same discs seen from the other
/// side, with the other player to move, evaluate to the negation.
pub proof fn lemma_evaluation_zero_sum(b: Bitboard, b2: Bitboard)
    requires
        b2.current == b.current ^ b.mask,
        b2.mask == b.mask,
        b2.moves % 2 != b.moves % 2,
    ensures
        evaluation(b2) == -evaluation(b),
{
    lemma_swap_sides(b.current, b.mask);
    lemma_center_sum_swap(b.current, b.current ^ b.mask, 7);
}

proof fn lemma_pc_bound(x: u64)
    ensures
        0 <= pc(x) <= 64,
{
    lemma_popcount_bound(x);
}

pub(crate) fn count_bits(x: u64) -> (r: i32)
    ensures
        r == pc(x),
        0 <= r <= 64,
{
    count_ones(x) as i32
}

// ============================================================================
// Move ordering
// ============================================================================

/// `perm` sends each position of `out` to the position in `inp` that it was
/// taken from, one to one; `out` is ordered by descending priority, and
/// moves of equal priority keep their order from `inp`.
pub open spec fn sorts_stably(inp: Seq<(usize, i32)>, out: Seq<(usize, i32)>, perm: Seq<int>) -> bool {
    &&& out.len() == inp.len()
    &&& perm.len() == inp.len()
    &&& forall|k: int| 0 <= k < out.len() ==> 0 <= #[trigger] perm[k] < inp.len() && out[k] == inp[perm[k]]
    &&& forall|k: int, l: int| 0 <= k < l < out.len() ==> #[trigger] perm[k] != #[trigger] perm[l]
    &&& forall|k: int, l: int| 0 <= k < l < out.len() ==> #[trigger] out[k].1 >= #[trigger] out[l].1
    &&& forall|k: int, l: int|
        0 <= k < l < out.len() && #[trigger] out[k].1 == #[trigger] out[l].1 ==> perm[k] < perm[l]
    &&& forall|i: int| 0 <= i < inp.len() ==> #[trigger] perm.contains(i)
}

/// The first position from `k` on in `out` whose priority is below `v`, or
/// the length of `out` when there is none.
pub open spec fn first_lower(out: Seq<(usize, i32)>, v: i32, k: int) -> int
    decreases out.len() - k,
{
    if k < 0 || k >= out.len() {
        out.len() as int
    } else if out[k].1 < v {
        k
    } else {
        first_lower(out, v, k + 1)
    }
}

/// `list` sorted by descending priority by insertion: each move goes in
/// before the first move of lower priority already placed.
pub open spec fn sorted_by_priority(list: Seq<(usize, i32)>) -> Seq<(usize, i32)>
    decreases list.len(),
{
    if list.len() == 0 {
        Seq::empty()
    } else {
        let placed = sorted_by_priority(list.drop_last());
        placed.insert(first_lower(placed, list.last().1, 0), list.last())
    }
}

/// `out` is `inp` sorted by descending priority, stably.
pub open spec fn stable_sort_desc(inp: Seq<(usize, i32)>, out: Seq<(usize, i32)>) -> bool {
    exists|perm: Seq<int>| #[trigger] sorts_stably(inp, out, perm)
}

/// Sort moves by descending priority; moves of equal priority keep their
/// order.
#[verifier::spinoff_prover]
#[verifier::rlimit(30)]
pub fn sort_by_priority(list: &Vec<(usize, i32)>) -> (out: Vec<(usize, i32)>)
    ensures
        stable_sort_desc(list@, out@),
        out@ == sorted_by_priority(list@),
{
    let mut out: Vec<(usize, i32)> = Vec::new();
    let ghost mut perm: Seq<int> = Seq::empty();
    let n = list.len();
    let mut i: usize = 0;
    while i < n
        invariant
            n == list.len(),
            i <= n,
            sorts_stably(list@.take(i as int), out@, perm),
            out@ == sorted_by_priority(list@.take(i as int)),
        decreases n - i,
    {
        let x = list[i];
        let mut pos: usize = 0;
        while pos < out.len() && out[pos].1 >= x.1
            invariant
                pos <= out.len(),
                forall|k: int| 0 <= k < pos ==> #[trigger] out@[k].1 >= x.1,
                first_lower(out@, x.1, pos as int) == first_lower(out@, x.1, 0),
            decreases out.len() - pos,
        {
            pos = pos + 1;
        }
        proof {
            assert(list@.take(i + 1).drop_last() == list@.take(i as int));
            assert(list@.take(i + 1).last() == x);
            assert(first_lower(out@, x.1, pos as int) == pos);
        }
        proof {
            let inp = list@.take(i as int);
            let inp2 = list@.take(i + 1);
            let out2 = out@.insert(pos as int, x);
            let perm2 = perm.insert(pos as int, i as int);
            assert forall|k: int| pos <= k < out@.len() implies #[trigger] out@[k].1 < x.1 by {
                assert(out@[pos as int].1 < x.1);
                if k > pos {
                    assert(out@[pos as int].1 >= out@[k].1);
                }
            }
            assert forall|k: int| 0 <= k < out2.len() implies 0 <= #[trigger] perm2[k] < inp2.len()
                && out2[k] == inp2[perm2[k]] by {
                if k < pos {
                } else if k == pos {
                } else {
                    assert(perm2[k] == perm[k - 1]);
                }
            }
            assert forall|k: int, l: int| 0 <= k < l < out2.len() implies #[trigger] perm2[k]
                != #[trigger] perm2[l] by {
                if k < pos && l < pos {
                } else if k < pos && l == pos {
                } else if k < pos {
                    assert(perm2[l] == perm[l - 1]);
                } else if k == pos {
                    assert(perm2[l] == perm[l - 1]);
                } else {
                    assert(perm2[l] == perm[l - 1]);
                    assert(perm2[k] == perm[k - 1]);
                }
            }
            assert forall|k: int, l: int| 0 <= k < l < out2.len() implies #[trigger] out2[k].1
                >= #[trigger] out2[l].1 by {
                if l < pos {
                } else if l == pos {
                } else if k < pos {
                    assert(out2[l] == out@[l - 1]);
                } else if k == pos {
                    assert(out2[l] == out@[l - 1]);
                } else {
                    assert(out2[l] == out@[l - 1]);
                    assert(out2[k] == out@[k - 1]);
                }
            }
            assert forall|k: int, l: int|
                0 <= k < l < out2.len() && #[trigger] out2[k].1 == #[trigger] out2[l].1 implies perm2[k]
                < perm2[l] by {
                if l < pos {
                } else if l == pos {
                    assert(perm2[k] < i);
                } else if k < pos {
                    assert(out2[l] == out@[l - 1]);
                    assert(perm2[l] == perm[l - 1]);
                } else if k == pos {
                    assert(out2[l] == out@[l - 1]);
                } else {
                    assert(out2[l] == out@[l - 1]);
                    assert(out2[k] == out@[k - 1]);
                    assert(perm2[l] == perm[l - 1]);
                    assert(perm2[k] == perm[k - 1]);
                }
            }
            assert forall|j: int| 0 <= j < inp2.len() implies #[trigger] perm2.contains(j) by {
                if j == i {
                    assert(perm2[pos as int] == j);
                } else {
                    assert(perm.contains(j));
                    let k = choose|k: int| 0 <= k < perm.len() && perm[k] == j;
                    if k < pos {
                        assert(perm2[k] == j);
                    } else {
                        assert(perm2[k + 1] == j);
                    }
                }
            }
            assert(sorts_stably(inp2, out2, perm2));
            perm = perm2;
        }
        out.insert(pos, x);
        i = i + 1;
    }
    proof {
        assert(list@.take(n as int) == list@);
    }
    out
}

/// The moves of `moves` in the first `k` columns of exploration order, each
/// with its move score: the number of cells where the mover would then
/// complete four.
pub open spec fn scored_prefix(b: Bitboard, moves: u64, k: int) -> Seq<(usize, i32)>
    decreases k,
{
    if k <= 0 {
        Seq::empty()
    } else {
        let prev = scored_prefix(b, moves, k - 1);
        let col = column_order()[k - 1];
        let move_mask = moves & (63u64 << (7 * col) as u64);
        if move_mask != 0 {
            prev.push(
                (
                    col as usize,
                    popcount(threat_cells(b.current | move_mask, b.mask | move_mask)) as i32,
                ),
            )
        } else {
            prev
        }
    }
}

/// The order in which a search tries the moves of `moves`: by descending
/// move score, ties in exploration order.
#[verifier::opaque]
pub open spec fn search_order(b: Bitboard, moves: u64) -> Seq<(usize, i32)> {
    sorted_by_priority(scored_prefix(b, moves, 7))
}

/// The non-losing moves in exploration order, each with its move score.
pub(crate) fn scored_moves(board: &Bitboard, moves: u64) -> (move_list: Vec<(usize, i32)>)
    requires
        board.wf(),
        subset_bits(moves, board.landing_cells()),
    ensures
        move_list.len() <= 7,
        moves != 0 ==> move_list.len() > 0,
        moves == 0 ==> move_list.len() == 0,
        forall|j: int|
            0 <= j < move_list.len() ==> #[trigger] in_moves(*board, moves, move_list@[j].0 as int)
                && move_list@[j].0 < 7,
        forall|c: int|
            #[trigger] in_moves(*board, moves, c) ==> exists|j: int|
                0 <= j < move_list.len() && move_list@[j].0 == c,
        scores_in_range(move_list@),
        move_list@ == scored_prefix(*board, moves, 7),
{
    let mut move_list: Vec<(usize, i32)> = Vec::new();
    let mut k: usize = 0;
    while k < 7
        invariant
            move_list@ == scored_prefix(*board, moves, k as int),
            board.wf(),
            subset_bits(moves, board.landing_cells()),
            k <= 7,
            move_list.len() <= k,
            moves == 0 ==> move_list.len() == 0,
            scores_in_range(move_list@),
            (exists|j: int| 0 <= j < k && #[trigger] in_moves(*board, moves, column_order()[j]))
                ==> move_list.len() > 0,
            forall|j: int|
                0 <= j < move_list.len() ==> #[trigger] in_moves(
                    *board,
                    moves,
                    move_list@[j].0 as int,
                ) && move_list@[j].0 < 7,
            forall|k2: int|
                0 <= k2 < k && #[trigger] in_moves(*board, moves, column_order()[k2]) ==> exists|j: int|
                    0 <= j < move_list.len() && move_list@[j].0 == column_order()[k2],
        decreases 7 - k,
    {
        let col = order_at(k);
        let col_mask = Bitboard::column_mask(col);
        let move_mask = moves & col_mask;
        proof {
            lemma_column_move(*board, moves, col as int);
            if moves == 0 {
                crate::bits::lemma_zero_and(col_mask);
            }
        }
        let ghost before = move_list@;
        if move_mask != 0 {
            let priority = board.move_score(move_mask);
            move_list.push((col, priority));
            proof {
                lemma_push_move(*board, moves, before, move_list@, col, priority);
                lemma_push_in_range(before, col, priority);
            }
        }
        assert(forall|j: int| 0 <= j < move_list.len() ==> #[trigger] in_moves(*board, moves, move_list@[j].0 as int) && move_list@[j].0 < 7);
        assert forall|k2: int|
            0 <= k2 <= k && #[trigger] in_moves(*board, moves, column_order()[k2]) implies exists|j: int|
                0 <= j < move_list.len() && move_list@[j].0 == column_order()[k2] by {
            if k2 < k {
                let j = choose|j: int| 0 <= j < before.len() && before[j].0 == column_order()[k2];
                assert(move_list@[j] == before[j]);
            } else {
                assert(move_list@[before.len() as int].0 == col);
            }
        }
        k = k + 1;
    }
    proof {
        if moves != 0 {
            lemma_some_safe_column(*board, moves);
        }
        assert forall|c: int| #[trigger] in_moves(*board, moves, c) implies exists|j: int|
            0 <= j < move_list.len() && move_list@[j].0 == c by {
            lemma_order_covers(c);
            let k2 = choose|k2: int| 0 <= k2 < 7 && #[trigger] column_order()[k2] == c;
            assert(in_moves(*board, moves, column_order()[k2]));
        }
    }
    move_list
}

/// Every move score in `list` lies in `0..=64`.
pub open spec fn scores_in_range(list: Seq<(usize, i32)>) -> bool {
    forall|j: int| 0 <= j < list.len() ==> 0 <= #[trigger] list[j].1 <= 64
}

proof fn lemma_push_in_range(list: Seq<(usize, i32)>, col: usize, score: i32)
    requires
        scores_in_range(list),
        0 <= score <= 64,
    ensures
        scores_in_range(list.push((col, score))),
{
    assert forall|j: int| 0 <= j < list.len() + 1 implies 0 <= #[trigger] list.push((col, score))[j].1
        <= 64 by {
        if j < list.len() {
            assert(list.push((col, score))[j] == list[j]);
        }
    }
}

/// A root move `e` searched in iteration `w.0` (to a depth of `w.0` modulo
/// 256, the depth byte) with the root window's lower end at `w.1` carries, negated, what every search answers at once for the
/// position after it with window `(-WIN_SCORE, -w.1)`: the endgame search
/// near the end of the game (in the library's search), 0 for a full board,
/// and the win at once; and, where `deep` holds (a search that reaches
/// the end of the game over a consistent table), a correct alpha-beta
/// bound of the game score of that position.
pub open spec fn root_answer(
    b: Bitboard,
    e: (usize, i32),
    w: (int, int),
    endgame: bool,
    deep: bool,
) -> bool {
    let child = b.spec_play(e.0 as int);
    let c = -(e.1 as int);
    &&& deep && w.0 % 256 >= child.spec_moves_remaining() ==> alpha_beta_ok(
        game_value(child),
        -WIN_SCORE,
        -w.1,
        c,
    )
    &&& endgame && child.spec_moves_remaining() <= ENDGAME_THRESHOLD && w.0 % 256 > 0 ==> c
        == endgame_result(child, -WIN_SCORE, -w.1)
    &&& child.spec_is_full() ==> c == 0
    &&& !child.spec_is_full() && child.can_win_now() ==> c == (child.spec_moves_remaining() + 1)
        / 2
}

/// The iteration and window of the `i`-th scored root move: the first
/// iteration is 1; a move of the same iteration as the one before it has
/// the lower end raised to that move's score; the first move of the next
/// iteration starts again from `-WIN_SCORE`.
pub open spec fn root_window(log: Seq<(usize, i32)>, w: Seq<(int, int)>, i: int) -> bool {
    if i == 0 {
        w[0] == (1int, -WIN_SCORE as int)
    } else if w[i].0 == w[i - 1].0 {
        w[i].1 == max_int(w[i - 1].1, log[i - 1].1 as int)
    } else {
        w[i].0 == w[i - 1].0 + 1 && w[i].1 == -WIN_SCORE
    }
}

/// Every move of `moves` is among the columns of `log`.
pub open spec fn covers_moves(b: Bitboard, moves: u64, log: Seq<(usize, i32)>) -> bool {
    forall|c: int|
        #[trigger] in_moves(b, moves, c) ==> exists|i: int| 0 <= i < log.len() && log[i].0 == c
}

/// `log` lists the scored root moves of the iterations, with their
/// iterations and windows in `w`: each a non-losing move, every non-losing
/// move among them, each score what the search answered for it.
pub open spec fn scored_root_moves(
    b: Bitboard,
    log: Seq<(usize, i32)>,
    w: Seq<(int, int)>,
    endgame: bool,
    deep: bool,
) -> bool {
    &&& log.len() > 0
    &&& w.len() == log.len()
    &&& forall|i: int|
        #![trigger log[i]]
        0 <= i < log.len() ==> in_moves(b, b.non_losing_moves(), log[i].0 as int) && root_answer(
            b,
            log[i],
            w[i],
            endgame,
            deep,
        ) && root_window(log, w, i)
    &&& covers_moves(b, b.non_losing_moves(), log)
}

/// What the root search answers for `b` with up to `max_depth` iterations:
/// the first winning column in exploration order; else column 3 with no
/// score on a full board or with no iteration; else the first open column
/// with `-WIN_SCORE` when every move loses at once; else the best of the
/// scored root moves of its iterations, in the order they were scored, ties
/// going to column 3.
pub open spec fn best_move_answer(
    b: Bitboard,
    max_depth: int,
    r: (usize, i32),
    endgame: bool,
    deep: bool,
) -> bool {
    if b.can_win_now() {
        r.0 == first_col(wins_in(b), 0) && r.1 == (b.spec_moves_remaining() + 1) / 2
    } else if b.spec_is_full() || (b.non_losing_moves() != 0 && max_depth == 0) {
        r == (3usize, i32::MIN)
    } else if b.non_losing_moves() == 0 {
        r.0 == first_col(open_in(b), 0) && r.1 == -WIN_SCORE
    } else {
        exists|log: Seq<(usize, i32)>, w: Seq<(int, int)>|
            #[trigger] scored_root_moves(b, log, w, endgame, deep) && r == pick_best(
                log,
                log.len() as int,
            )
    }
}

/// Single-threaded negamax solver
pub struct Solver<'a> {
    tt: &'a mut TranspositionTable,
    killers: KillerTable,
    nodes_explored: u64,
}

/// The first column in exploration order, from position `k` on, that
/// satisfies `p`; 7 when none does.
pub open spec fn first_col(p: spec_fn(int) -> bool, k: int) -> int
    decreases 7 - k,
{
    if k < 0 || k >= 7 {
        7
    } else if p(column_order()[k]) {
        column_order()[k]
    } else {
        first_col(p, k + 1)
    }
}

/// Columns where the mover completes four with the next disc.
pub open spec fn wins_in(b: Bitboard) -> spec_fn(int) -> bool {
    |c: int| b.playable(c) && completes_four(b.current, c, b.height(c))
}

/// Columns with room.
pub open spec fn open_in(b: Bitboard) -> spec_fn(int) -> bool {
    |c: int| b.playable(c)
}

/// The least score a search with window `(alpha, beta)` answers: below the
/// window only as far as the static evaluation reaches.
pub open spec fn score_floor(alpha: i32, beta: i32) -> int {
    min_int(min_int(alpha as int, beta as int), -40000)
}

/// The greatest score a search with window `(alpha, beta)` answers.
pub open spec fn score_ceiling(alpha: i32, beta: i32) -> int {
    max_int(max_int(alpha as int, beta as int), 40000)
}

/// `Some(col)` as a move.
pub(crate) fn is_move(m: Option<usize>, col: usize) -> (r: bool)
    ensures
        r == (m == Some(col)),
{
    match m {
        Some(c) => c == col,
        None => false,
    }
}

/// The search of `board` with window `(alpha, beta)` to `depth` gets past
/// its early answers: the board is not full, the mover cannot win at once,
/// the bound on the score does not close the window, and the table holds no
/// entry for the position from a search at least this deep.
pub open spec fn search_proceeds(
    tt: TranspositionTable,
    board: Bitboard,
    alpha: i32,
    beta: i32,
    depth: u8,
) -> bool {
    let max_score = (board.spec_moves_remaining() - 1) / 2;
    &&& !board.spec_is_full()
    &&& !board.can_win_now()
    &&& !(beta > max_score && alpha >= max_score)
    &&& !(tt.lookup(board) is Some && tt.lookup(board)->0.stored_depth() >= depth)
}

impl<'a> Solver<'a> {
    /// The table the search reads and writes is well formed.
    pub closed spec fn wf(self) -> bool {
        self.tt.wf()
    }

    /// The transposition table this solver uses.
    pub closed spec fn table(self) -> TranspositionTable {
        *self.tt
    }

    /// The lent table the solver reads and writes.
    pub closed spec fn table_ref(self) -> &'a mut TranspositionTable {
        self.tt
    }

    /// The two killer slots of each ply.
    pub closed spec fn killer_slots(self) -> Seq<(u8, u8)> {
        self.killers.view()
    }

    pub fn new(tt: &'a mut TranspositionTable) -> (r: Self)
        ensures
            r.wf(),
            r.table() == *old(tt),
            r.killer_slots() == no_killers(),
            *final(tt) == *final(r.table_ref()),
    {
        proof {
            use_type_invariant(&*tt);
        }
        Solver { tt, killers: KillerTable::new(), nodes_explored: 0 }
    }

    /// The non-losing moves in exploration order, each with its ordering
    /// priority: the move score, plus a bonus for the table's best move or a
    /// killer move.
    #[verifier::spinoff_prover]
    fn prioritized_moves(
        board: &Bitboard,
        moves: u64,
        tt_move: Option<usize>,
        killers: [Option<usize>; KILLERS_PER_PLY],
    ) -> (move_list: Vec<(usize, i32)>)
        requires
            board.wf(),
            subset_bits(moves, board.landing_cells()),
        ensures
            move_list.len() <= 7,
            forall|j: int|
                0 <= j < move_list.len() ==> #[trigger] in_moves(
                    *board,
                    moves,
                    move_list@[j].0 as int,
                ) && move_list@[j].0 < 7,
            forall|c: int|
                #[trigger] in_moves(*board, moves, c) ==> exists|j: int|
                    0 <= j < move_list.len() && move_list@[j].0 == c,
            move_list@ == with_bonus(scored_prefix(*board, moves, 7), tt_move, killers[0], killers[1]),
    {
        let mut move_list = scored_moves(board, moves);
        let ghost scored = move_list@;
        assert(forall|j: int|
            0 <= j < scored.len() ==> #[trigger] in_moves(*board, moves, scored[j].0 as int)
                && scored[j].0 < 7);
        assert(forall|c: int|
            #[trigger] in_moves(*board, moves, c) ==> exists|j: int|
                0 <= j < scored.len() && scored[j].0 == c);

        let mut i: usize = 0;
        while i < move_list.len()
            invariant
                i <= move_list.len(),
                move_list.len() == scored.len(),
                scored.len() <= 7,
                forall|j: int| 0 <= j < scored.len() ==> (#[trigger] move_list@[j]).0 == scored[j].0,
                scores_in_range(scored),
                forall|j: int| i <= j < scored.len() ==> #[trigger] move_list@[j] == scored[j],
                forall|j: int| 0 <= j < i ==> #[trigger] move_list@[j] == with_bonus(scored, tt_move, killers[0], killers[1])[j],
            decreases scored.len() - i,
        {
            let (col, score) = move_list[i];
            let mut priority = score;
            if is_move(tt_move, col) {
                priority += 10000;
            } else if is_move(killers[0], col) {
                priority += 5000;
            } else if is_move(killers[1], col) {
                priority += 4000;
            }
            move_list[i] = (col, priority);
            i = i + 1;
        }
        proof {
            assert(move_list@ =~= with_bonus(scored, tt_move, killers[0], killers[1]));
            assert forall|j: int| 0 <= j < move_list.len() implies #[trigger] in_moves(
                *board,
                moves,
                move_list@[j].0 as int,
            ) && move_list@[j].0 < 7 by {
                assert(move_list@[j].0 == scored[j].0);
                assert(in_moves(*board, moves, scored[j].0 as int));
            }
            assert forall|c: int| #[trigger] in_moves(*board, moves, c) implies exists|j: int|
                0 <= j < move_list.len() && move_list@[j].0 == c by {
                let j = choose|j: int| 0 <= j < scored.len() && scored[j].0 == c;
                assert(move_list@[j].0 == scored[j].0);
            }
        }
        move_list
    }

    /// Principal variation search: negamax with alpha-beta pruning, the
    /// transposition table and killer moves, down to `depth` plies, with
    /// the exact endgame solver once few moves remain. With a consistent
    /// table whose Zobrist keys give distinct positions distinct hashes, and
    /// a depth that reaches the end of the game, the answer bounds the game
    /// value as an alpha-beta search must. The answer, and the table slots
    /// and killer moves it leaves, are those of `ply_search`.
    #[verifier::spinoff_prover]
    #[verifier::rlimit(80)]
    pub fn negamax(&mut self, board: &Bitboard, alpha: i32, beta: i32, depth: u8, ply: usize) -> (r: i32)
        requires
            old(self).wf(),
            board.wf(),
            alpha > i32::MIN,
            beta > i32::MIN,
            ply + depth < usize::MAX,
        ensures
            final(self).wf(),
            score_floor(alpha, beta) <= r <= score_ceiling(alpha, beta),
            alpha < beta ==> -40000 <= r <= 40000,
            board.spec_moves_remaining() <= ENDGAME_THRESHOLD && depth > 0 && alpha < beta
                ==> alpha_beta_ok(game_value(*board), alpha as int, beta as int, r as int),
            board.spec_moves_remaining() <= ENDGAME_THRESHOLD && depth > 0 ==> r == endgame_result(
                *board,
                alpha as int,
                beta as int,
            ) && final(self).table() == old(self).table(),
            board.spec_is_full() ==> r == 0,
            !board.spec_is_full() && board.can_win_now() ==> r == (board.spec_moves_remaining() + 1)
                / 2,
            !board.spec_is_full() && !board.can_win_now() && beta > (board.spec_moves_remaining()
                - 1) / 2 && alpha >= (board.spec_moves_remaining() - 1) / 2 ==> r == (
            board.spec_moves_remaining() - 1) / 2,
            !(board.spec_moves_remaining() <= ENDGAME_THRESHOLD && depth > 0) ==> {
                &&& search_proceeds(old(self).table(), *board, alpha, beta, depth) && depth == 0
                    ==> r == evaluation(*board)
                &&& search_proceeds(old(self).table(), *board, alpha, beta, depth) && depth > 0
                    && board.non_losing_moves() == 0 ==> r == -(board.spec_moves_remaining() / 2)
            },
            old(self).table().hashes_distinct() ==> final(self).table().hashes_distinct(),
            old(self).table().consistent() && old(self).table().hashes_distinct() && alpha < beta
                ==> final(self).table().consistent(),
            old(self).table().consistent() && old(self).table().hashes_distinct() && alpha < beta
                && depth >= board.spec_moves_remaining() ==> alpha_beta_ok(
                game_value(*board),
                alpha as int,
                beta as int,
                r as int,
            ),
            final(self).table().zobrist_keys() == old(self).table().zobrist_keys(),
            *final(final(self).table_ref()) == *final(old(self).table_ref()),
            (r as int, final(self).table().slots(), final(self).killer_slots()) == ply_search(
                old(self).table().zobrist_keys(),
                old(self).table().slots(),
                old(self).killer_slots(),
                *board,
                alpha as int,
                beta as int,
                depth,
                ply as int,
            ),
        decreases depth,
    {
        let ghost k0 = self.table().zobrist_keys();
        let ghost s0 = self.table().slots();
        let ghost ks0 = self.killer_slots();
        let ghost fl = score_floor(alpha, beta);
        let ghost ce = score_ceiling(alpha, beta);
        let ghost hd = old(self).table().hashes_distinct();
        let ghost c0 = old(self).table().consistent() && hd;
        let ghost cw = c0 && alpha < beta;
        let ghost exact = cw && depth >= board.spec_moves_remaining();
        let ghost v = game_value(*board);
        let mut lo = alpha;
        let mut hi = beta;
        self.nodes_explored = self.nodes_explored.saturating_add(1);

        if board.moves_remaining() <= ENDGAME_THRESHOLD && depth > 0 {
            return EndgameSolver::solve(board, lo, hi);
        }

        if board.is_full() {
            return DRAW_SCORE;
        }

        proof {
            board.lemma_landing_fits();
        }
        let winning = board.winning_positions();
        let possible = board.possible_moves();
        proof {
            board.lemma_can_win_now(winning);
        }
        if winning & possible != 0 {
            return (board.moves_remaining() + 1) / 2;
        }
        proof {
            lemma_value_bounds(*board);
        }

        let max_score = (board.moves_remaining() - 1) / 2;
        if hi > max_score {
            hi = max_score;
            if lo >= hi {
                return hi;
            }
        }

        let mut tt_move: Option<usize> = None;
        let ghost hi_clip = hi;
        assert(hi_clip == min_int(beta as int, (board.spec_moves_remaining() - 1) / 2));
        proof {
            self.table().lemma_lookup_slots(*board);
        }
        if let Some(entry) = self.tt.get(board) {
            proof {
                assert(self.table().lookup(*board) == Some(entry));
            }
            if entry.depth >= depth {
                match entry.flag() {
                    TTFlag::Exact => {
                        return entry.score as i32;
                    },
                    TTFlag::LowerBound => {
                        if entry.score as i32 >= hi {
                            return entry.score as i32;
                        }
                        if (entry.score as i32) > lo {
                            lo = entry.score as i32;
                        }
                    },
                    TTFlag::UpperBound => {
                        if (entry.score as i32) <= lo {
                            return entry.score as i32;
                        }
                        if (entry.score as i32) < hi {
                            hi = entry.score as i32;
                        }
                    },
                }
            }
            if entry.best_move < 7 {
                tt_move = Some(entry.best_move as usize);
            }
        }
        let ghost lo0 = lo;
        let ghost hi0 = hi;
        assert(slot_probe(slot_lookup(k0, s0, *board), depth, alpha as int, hi_clip as int) == (
        None::<int>, lo as int, hi as int));
        assert(tt_move == slot_move(slot_lookup(k0, s0, *board)));
        assert(alpha < beta ==> lo0 < hi0);
        assert(alpha >= beta ==> lo0 >= hi0);
        assert(exact ==> {
            &&& alpha <= lo0 < hi0 <= beta
            &&& lo0 > alpha ==> v >= lo0
            &&& hi0 < beta ==> v <= hi0
        });

        if depth == 0 {
            return self.evaluate(board);
        }

        let moves = board.possible_non_losing_moves();
        if moves == 0 {
            proof {
                lemma_all_moves_lose(*board, moves);
            }
            return -board.moves_remaining() / 2;
        }

        let killers = self.killers.get_killers(ply);
        let move_list = Self::prioritized_moves(board, moves, tt_move, killers);

        let ordered = sort_by_priority(&move_list);
        let ghost perm = choose|perm: Seq<int>| #[trigger] sorts_stably(move_list@, ordered@, perm);
        assert(ordered@ == bonus_order(*board, board.non_losing_moves(), tt_move, killers[0], killers[1]))
            by {
            reveal(bonus_order);
        }
        assert((killers[0], killers[1]) == killer_pair(ks0, ply as int));
        assert(self.table().slots() == s0 && self.killer_slots() == ks0);
        proof {
            assert forall|j: int| 0 <= j < ordered.len() implies #[trigger] in_moves(
                *board,
                moves,
                ordered@[j].0 as int,
            ) && ordered@[j].0 < 7 by {
                assert(ordered@[j] == move_list@[perm[j]]);
                assert(in_moves(*board, moves, move_list@[perm[j]].0 as int));
            }
            assert forall|c: int| #[trigger] in_moves(*board, moves, c) implies exists|k: int|
                0 <= k < ordered.len() && ordered@[k].0 == c by {
                let j = choose|j: int| 0 <= j < move_list.len() && move_list@[j].0 == c;
                assert(perm.contains(j));
                let k = choose|k: int| 0 <= k < perm.len() && perm[k] == j;
                assert(ordered@[k] == move_list@[j]);
            }
            lemma_some_move(*board, moves);
        }

        let mut best_score = i32::MIN;
        let mut best_move: Option<usize> = None;
        let orig_alpha = lo;
        let mut first_move = true;

        let n = ordered.len();
        let mut idx: usize = 0;
        proof {
            if n == 0 {
                lemma_ply_moves_done(k0, s0, ks0, *board, ordered@, 0, lo as int, hi as int, i32::MIN as int, None, depth, ply as int);
            }
        }
        while idx < n
            invariant_except_break
                idx > 0 ==> lo < hi,
                alpha < beta ==> lo < hi,
                cw ==> lo < hi,
                exact && best_score > lo0 ==> exists|c: int|
                    #[trigger] board.playable(c) && child_value(*board, c) == best_score,
                idx == 0 ==> best_score == i32::MIN && lo == lo0 && first_move && best_move is None,
                ply_search_moves(k0, s0, ks0, *board, ordered@, 0, lo0 as int, hi0 as int, i32::MIN as int, None, depth, ply as int)
                    == ply_search_moves(
                    k0,
                    self.table().slots(),
                    self.killer_slots(),
                    *board,
                    ordered@,
                    idx as int,
                    lo as int,
                    hi as int,
                    best_score as int,
                    best_move,
                    depth,
                    ply as int,
                ),
            invariant
                self.table().zobrist_keys() == k0,
                *final(self.table_ref()) == *final(old(self).table_ref()),
                idx == n ==> ply_search_moves(
                    k0,
                    self.table().slots(),
                    self.killer_slots(),
                    *board,
                    ordered@,
                    idx as int,
                    lo as int,
                    hi as int,
                    best_score as int,
                    best_move,
                    depth,
                    ply as int,
                ) == (best_score as int, best_move, self.table().slots(), self.killer_slots()),
                self.wf(),
                hd ==> self.table().hashes_distinct(),
                cw ==> self.table().consistent(),
                board.wf(),
                !board.spec_is_full(),
                subset_bits(moves, board.landing_cells()),
                n == ordered.len(),
                idx <= n,
                forall|j: int| 0 <= j < n ==> #[trigger] in_moves(*board, moves, ordered@[j].0 as int) && ordered@[j].0 < 7,
                1 <= depth,
                ply + depth < usize::MAX,
                fl == score_floor(alpha, beta),
                ce == score_ceiling(alpha, beta),
                alpha > i32::MIN,
                beta > i32::MIN,
                fl <= lo <= ce,
                fl <= hi <= ce,
                hi == hi0,
                orig_alpha == lo0,
                board.moves < 42,
                best_score == i32::MIN || fl <= best_score <= ce,
                alpha < beta && best_score != i32::MIN ==> -40000 <= best_score <= 40000,
                idx > 0 ==> best_score != i32::MIN && !first_move,
                lo >= lo0,
                best_score != i32::MIN ==> lo == max_int(lo0 as int, best_score as int),
                exact == (cw && depth >= board.spec_moves_remaining()),
                cw == (c0 && alpha < beta),
                c0 ==> hd,
                v == game_value(*board),
                alpha >= beta ==> lo0 >= hi0,
                alpha < beta ==> lo0 < hi0,
                exact ==> forall|j: int|
                    0 <= j < idx ==> child_value(*board, #[trigger] ordered@[j].0 as int)
                        <= best_score,
            ensures
                best_score == i32::MIN || fl <= best_score <= ce,
                alpha < beta && best_score != i32::MIN ==> -40000 <= best_score <= 40000,
                n > 0 ==> best_score != i32::MIN,
                self.wf(),
                hd ==> self.table().hashes_distinct(),
                cw ==> self.table().consistent(),
                lo >= hi || idx == n,
                exact && lo < hi && best_score > lo0 ==> exists|c: int|
                    #[trigger] board.playable(c) && child_value(*board, c) == best_score,
                exact && lo >= hi ==> best_score >= hi && exists|c: int|
                    #[trigger] board.playable(c) && child_value(*board, c) >= best_score,
                self.table().zobrist_keys() == k0,
                *final(self.table_ref()) == *final(old(self).table_ref()),
                ply_search_moves(k0, s0, ks0, *board, ordered@, 0, lo0 as int, hi0 as int, i32::MIN as int, None, depth, ply as int)
                    == (best_score as int, best_move, self.table().slots(), self.killer_slots()),
            decreases n - idx,
        {
            let ghost s_it = self.table().slots();
            let ghost ks_it = self.killer_slots();
            let ghost best_before = best_score;
            let ghost move_before = best_move;
            proof {
                assert(in_moves(*board, moves, ordered@[idx as int].0 as int));
            }
            let col = ordered[idx].0;
            let col_mask = Bitboard::column_mask(col);
            let move_mask = moves & col_mask;
            proof {
                lemma_column_move(*board, moves, col as int);
                board.lemma_play_wf(col as int);
            }
            let new_board = board.play_move(move_mask);
            let ghost cv = child_value(*board, col as int);
            let ghost lo_before = lo;
            assert(new_board == board.spec_play(col as int));
            assert(-cv == game_value(new_board));
            assert(new_board.spec_moves_remaining() == board.spec_moves_remaining() - 1);

            let score = if first_move {
                let c = self.negamax(&new_board, -hi, -lo, depth - 1, ply + 1);
                proof {
                    if exact {
                        lemma_negate_window(cv, lo as int, hi as int, c as int);
                    }
                }
                -c
            } else {
                let c1 = self.negamax(&new_board, -lo - 1, -lo, depth - 1, ply + 1);
                proof {
                    if exact {
                        lemma_negate_window(cv, lo as int, lo + 1, c1 as int);
                    }
                }
                let mut score = -c1;
                if score > lo && score < hi {
                    let c2 = self.negamax(&new_board, -hi, -lo, depth - 1, ply + 1);
                    proof {
                        if exact {
                            lemma_negate_window(cv, lo as int, hi as int, c2 as int);
                        }
                    }
                    score = -c2;
                }
                score
            };
            assert(exact ==> alpha_beta_ok(cv, lo_before as int, hi as int, score as int));
            assert({
                let d = (depth - 1) as u8;
                let first = ply_search(k0, s_it, ks_it, new_board, if idx == 0 { -hi } else { -lo_before - 1 }, -lo_before, d, ply + 1);
                let searched = if idx > 0 && lo_before < -first.0 && -first.0 < hi {
                    ply_search(k0, first.1, first.2, new_board, -hi as int, -lo_before as int, d, ply + 1)
                } else {
                    first
                };
                score == -searched.0 && self.table().slots() == searched.1 && self.killer_slots() == searched.2
            });
            first_move = false;

            if score > best_score {
                best_score = score;
                best_move = Some(col);
            }
            if score > lo {
                lo = score;
            }
            if lo >= hi {
                self.killers.record(ply, col);
                assert(ply_search_moves(k0, s_it, ks_it, *board, ordered@, idx as int, lo_before as int, hi as int, best_before as int, move_before, depth, ply as int)
                    == (best_score as int, best_move, self.table().slots(), self.killer_slots()));
                break;
            }
            assert(ply_search_moves(k0, s_it, ks_it, *board, ordered@, idx as int, lo_before as int, hi as int, best_before as int, move_before, depth, ply as int)
                == ply_search_moves(k0, self.table().slots(), self.killer_slots(), *board, ordered@, idx + 1, lo as int, hi as int, best_score as int, best_move, depth, ply as int));
            idx = idx + 1;
            proof {
                if idx == n {
                    lemma_ply_moves_done(k0, self.table().slots(), self.killer_slots(), *board, ordered@, idx as int, lo as int, hi as int, best_score as int, best_move, depth, ply as int);
                }
            }
        }

        if best_score == i32::MIN {
            best_score = -board.moves_remaining() / 2;
        }
        proof {
            if exact {
                lemma_value_is_best_child(*board);
                if lo < hi {
                    let c = choose|c: int| #[trigger] board.playable(c) && child_value(*board, c) == v;
                    if in_moves(*board, moves, c) {
                        let k = choose|k: int| 0 <= k < ordered.len() && ordered@[k].0 == c;
                        assert(child_value(*board, ordered@[k].0 as int) <= best_score);
                    } else {
                        lemma_pruned_move_loses(*board, moves, c);
                        let c2 = choose|c2: int| #[trigger] in_moves(*board, moves, c2) && child_value(
                            *board,
                            c2,
                        ) >= -(board.spec_moves_remaining() / 2);
                        let k = choose|k: int| 0 <= k < ordered.len() && ordered@[k].0 == c2;
                        assert(child_value(*board, ordered@[k].0 as int) <= best_score);
                    }
                    if best_score > lo0 {
                        let c3 = choose|c3: int| #[trigger] board.playable(c3) && child_value(*board, c3) == best_score;
                        assert(child_value(*board, c3) <= v);
                    }
                }
                assert(alpha_beta_ok(v, lo0 as int, hi0 as int, best_score as int));
                lemma_window_narrowing(v, alpha as int, beta as int, lo0 as int, hi0 as int, best_score as int);
            }
        }

        let flag = if best_score <= orig_alpha {
            TTFlag::UpperBound
        } else if best_score >= hi {
            TTFlag::LowerBound
        } else {
            TTFlag::Exact
        };
        let ghost before = *self.tt;
        self.tt.put(board, best_score, flag, depth, best_move);
        assert(self.table().slots() == slot_put(k0, before.slots(), *board, best_score, flag, depth, best_move));
        proof {
            if cw {
                lemma_put_consistent(before, *self.tt, *board, best_score, flag, depth, best_move);
            }
        }

        best_score
    }

    /// Find the best move for the player to move by iterative deepening:
    /// an immediate win if there is one, else any move if every move loses at
    /// once, else the best-scoring move that does not lose at once. The
    /// answer, and the table slots and killer moves it leaves, are those of
    /// `ply_root`.
    #[verifier::spinoff_prover]
    #[verifier::rlimit(40)]
    pub fn find_best_move(&mut self, board: &Bitboard, max_depth: usize) -> (r: (usize, i32))
        requires
            old(self).wf(),
            board.wf(),
            max_depth <= i32::MAX,
        ensures
            final(self).wf(),
            old(self).table().consistent() && old(self).table().hashes_distinct()
                ==> final(self).table().consistent() && final(self).table().hashes_distinct(),
            board.can_win_now() ==> r.0 == first_col(wins_in(*board), 0) && r.1 == (
            board.spec_moves_remaining() + 1) / 2,
            !board.can_win_now() && board.non_losing_moves() == 0 && !board.spec_is_full() ==> r.0
                == first_col(open_in(*board), 0) && r.1 == -WIN_SCORE,
            !board.can_win_now() && board.non_losing_moves() != 0 && max_depth >= 1 ==> in_moves(
                *board,
                board.non_losing_moves(),
                r.0 as int,
            ),
            !board.can_win_now() && (board.non_losing_moves() != 0 || board.spec_is_full())
                && max_depth == 0 ==> r == (3usize, i32::MIN),
            !board.can_win_now() && board.spec_is_full() ==> r == (3usize, i32::MIN),
            best_move_answer(
                *board,
                max_depth as int,
                r,
                true,
                old(self).table().consistent() && old(self).table().hashes_distinct(),
            ),
            final(self).table().zobrist_keys() == old(self).table().zobrist_keys(),
            *final(final(self).table_ref()) == *final(old(self).table_ref()),
            (r, final(self).table().slots(), final(self).killer_slots()) == ply_root(
                old(self).table().zobrist_keys(),
                old(self).table().slots(),
                old(self).killer_slots(),
                *board,
                max_depth as int,
            ),
    {
        self.nodes_explored = 0;
        let ghost cd = old(self).table().consistent() && old(self).table().hashes_distinct();
        let ghost k0 = self.table().zobrist_keys();
        let ghost s0 = self.table().slots();
        let ghost ks0 = self.killer_slots();

        proof {
            board.lemma_landing_fits();
        }
        let winning = board.winning_positions();
        let possible = board.possible_moves();
        proof {
            board.lemma_can_win_now(winning);
        }

        if winning & possible != 0 {
            let mut k: usize = 0;
            while k < 7
                invariant
                    self.wf(),
                    *final(self.table_ref()) == *final(old(self).table_ref()),
                    cd ==> self.table().consistent() && self.table().hashes_distinct(),
                    self.table() == old(self).table(),
                    self.killer_slots() == old(self).killer_slots(),
                    board.wf(),
                    board.can_win_now(),
                    k <= 7,
                    first_col(wins_in(*board), k as int) == first_col(wins_in(*board), 0),
                    board.winning_cells_model(board.current, winning),
                    possible == board.landing_cells(),
                decreases 7 - k,
            {
                let col = order_at(k);
                let col_mask = Bitboard::column_mask(col);
                proof {
                    lemma_column_win(*board, winning, col as int);
                }
                if winning & possible & col_mask != 0 {
                    return (col, (board.moves_remaining() + 1) / 2);
                }
                k = k + 1;
            }
            proof {
                let c = choose|c: int|
                    #![trigger board.playable(c)]
                    board.playable(c) && completes_four(board.current, c, board.height(c));
                assert(wins_in(*board)(c));
                lemma_first_col_exists(wins_in(*board));
            }
        }

        let safe_moves = board.possible_non_losing_moves();
        if safe_moves == 0 {
            let mut k: usize = 0;
            while k < 7
                invariant
                    self.wf(),
                    *final(self.table_ref()) == *final(old(self).table_ref()),
                    cd ==> self.table().consistent() && self.table().hashes_distinct(),
                    self.table() == old(self).table(),
                    self.killer_slots() == old(self).killer_slots(),
                    board.wf(),
                    !board.can_win_now(),
                    safe_moves == board.non_losing_moves(),
                    safe_moves == 0,
                    k <= 7,
                    first_col(open_in(*board), k as int) == first_col(open_in(*board), 0),
                decreases 7 - k,
            {
                let col = order_at(k);
                if board.can_play(col) {
                    return (col, -WIN_SCORE);
                }
                k = k + 1;
            }
            proof {
                if !board.spec_is_full() {
                    board.lemma_not_full_playable();
                    let c = choose|c: int| #[trigger] board.playable(c);
                    assert(open_in(*board)(c));
                    lemma_first_col_exists(open_in(*board));
                }
            }
        }
        proof {
            if board.spec_is_full() {
                lemma_full_no_moves(*board, safe_moves);
            }
        }

        let mut best_col: usize = 3;
        let mut best_score = i32::MIN;
        let ghost mut log: Seq<(usize, i32)> = Seq::empty();
        let ghost mut win: Seq<(int, int)> = Seq::empty();

        let mut depth: usize = 1;
        proof {
            reveal(logged_root_moves);
            if max_depth == 0 {
                lemma_ply_deepening_done(k0, s0, ks0, *board, 1, 0, (3usize, i32::MIN));
            }
        }
        while depth <= max_depth
            invariant_except_break
                depth == 1 ==> best_col == 3 && best_score == i32::MIN && log.len() == 0,
                depth <= max_depth + 1,
                log.len() > 0 ==> win[log.len() - 1].0 == depth - 1,
                ply_root_deepening(k0, s0, ks0, *board, 1, max_depth as int, (3usize, i32::MIN))
                    == ply_root_deepening(
                    k0,
                    self.table().slots(),
                    self.killer_slots(),
                    *board,
                    depth as int,
                    max_depth as int,
                    (best_col, best_score),
                ),
                depth > max_depth ==> ply_root_deepening(
                    k0,
                    self.table().slots(),
                    self.killer_slots(),
                    *board,
                    depth as int,
                    max_depth as int,
                    (best_col, best_score),
                ) == ((best_col, best_score), self.table().slots(), self.killer_slots()),
            invariant
                self.table().zobrist_keys() == k0,
                *final(self.table_ref()) == *final(old(self).table_ref()),
                self.wf(),
                cd ==> self.table().consistent() && self.table().hashes_distinct(),
                board.wf(),
                !board.can_win_now(),
                safe_moves == board.non_losing_moves(),
                subset_bits(safe_moves, board.landing_cells()),
                1 <= depth,
                max_depth <= i32::MAX,
                depth > 1 && safe_moves != 0 ==> in_moves(*board, safe_moves, best_col as int),
                safe_moves == 0 ==> best_col == 3 && best_score == i32::MIN && log.len() == 0,
                (best_col, best_score) == pick_best(log, log.len() as int),
                win.len() == log.len(),
                logged_root_moves(*board, safe_moves, log, win, true, cd),
                depth > 1 && safe_moves != 0 ==> covers_moves(*board, safe_moves, log) && log.len() > 0,
            ensures
                self.wf(),
                cd ==> self.table().consistent() && self.table().hashes_distinct(),
                safe_moves != 0 && (max_depth >= 1) ==> in_moves(*board, safe_moves, best_col as int),
                max_depth == 0 ==> best_col == 3 && best_score == i32::MIN,
                (best_col, best_score) == pick_best(log, log.len() as int),
                win.len() == log.len(),
                logged_root_moves(*board, safe_moves, log, win, true, cd),
                safe_moves != 0 && max_depth >= 1 ==> covers_moves(*board, safe_moves, log)
                    && log.len() > 0,
                self.table().zobrist_keys() == k0,
                *final(self.table_ref()) == *final(old(self).table_ref()),
                ply_root_deepening(k0, s0, ks0, *board, 1, max_depth as int, (3usize, i32::MIN)) == (
                    (best_col, best_score),
                    self.table().slots(),
                    self.killer_slots(),
                ),
            decreases max_depth + 1 - depth,
        {
            let ghost s_d = self.table().slots();
            let ghost ks_d = self.killer_slots();
            let ghost best_d = (best_col, best_score);
            let mut lo = -WIN_SCORE;
            let hi = WIN_SCORE;

            // Sort moves for this iteration
            let move_scores = scored_moves(board, safe_moves);
            let ordered = sort_by_priority(&move_scores);
            let ghost perm = choose|perm: Seq<int>| #[trigger] sorts_stably(move_scores@, ordered@, perm);
            proof {
                assert forall|j: int| 0 <= j < ordered.len() implies #[trigger] in_moves(
                    *board,
                    safe_moves,
                    ordered@[j].0 as int,
                ) && ordered@[j].0 < 7 by {
                    assert(ordered@[j] == move_scores@[perm[j]]);
                    assert(in_moves(*board, safe_moves, move_scores@[perm[j]].0 as int));
                }
                assert forall|c: int| #[trigger] in_moves(*board, safe_moves, c) implies exists|k: int|
                    0 <= k < ordered.len() && ordered@[k].0 == c by {
                    let j = choose|j: int| 0 <= j < move_scores.len() && move_scores@[j].0 == c;
                    assert(perm.contains(j));
                    let k = choose|k: int| 0 <= k < perm.len() && perm[k] == j;
                    assert(ordered@[k] == move_scores@[j]);
                }
            }
            let ghost log0 = log;
            assert(ordered@ == search_order(*board, board.non_losing_moves())) by {
                reveal(search_order);
            }

            let n = ordered.len();
            let mut idx: usize = 0;
            let d8 = (depth % 256) as u8;
            while idx < n
                invariant
                    self.wf(),
                    *final(self.table_ref()) == *final(old(self).table_ref()),
                    cd ==> self.table().consistent() && self.table().hashes_distinct(),
                    d8 == depth % 256,
                    board.wf(),
                    subset_bits(safe_moves, board.landing_cells()),
                    n == ordered.len(),
                    n <= 7,
                    idx <= n,
                    forall|j: int|
                        0 <= j < n ==> #[trigger] in_moves(*board, safe_moves, ordered@[j].0 as int)
                            && ordered@[j].0 < 7,
                    -WIN_SCORE <= lo <= 40000,
                    hi == WIN_SCORE,
                    (depth > 1 || idx > 0) && safe_moves != 0 ==> in_moves(*board, safe_moves, best_col as int),
                    depth == 1 && idx == 0 ==> best_col == 3 && best_score == i32::MIN,
                    safe_moves == 0 ==> n == 0 && best_col == 3 && best_score == i32::MIN,
                    1 <= depth <= max_depth,
                    max_depth <= i32::MAX,
                    (best_col, best_score) == pick_best(log, log.len() as int),
                    win.len() == log.len(),
                    logged_root_moves(*board, safe_moves, log, win, true, cd),
                    idx == 0 ==> lo == -WIN_SCORE,
                    idx > 0 ==> win[log.len() - 1].0 == depth && lo == max_int(
                        win[log.len() - 1].1,
                        log[log.len() - 1].1 as int,
                    ),
                    log0.len() > 0 ==> log.len() > 0 && win[log0.len() - 1].0 == depth - 1,
                    log.len() == log0.len() + idx,
                    forall|i: int| 0 <= i < log0.len() ==> log[i] == log0[i],
                    forall|j: int| 0 <= j < idx ==> log[log0.len() + j].0 == #[trigger] ordered@[j].0,
                    depth == 1 ==> log0.len() == 0,
                    depth > 1 && safe_moves != 0 ==> covers_moves(*board, safe_moves, log0)
                        && log0.len() > 0,
                    self.table().zobrist_keys() == k0,
                    *final(self.table_ref()) == *final(old(self).table_ref()),
                    ply_root_moves(k0, s_d, ks_d, *board, ordered@, 0, -WIN_SCORE as int, best_d, d8)
                        == ply_root_moves(
                        k0,
                        self.table().slots(),
                        self.killer_slots(),
                        *board,
                        ordered@,
                        idx as int,
                        lo as int,
                        (best_col, best_score),
                        d8,
                    ),
                decreases n - idx,
            {
                let ghost s_m = self.table().slots();
                let ghost ks_m = self.killer_slots();
                proof {
                    assert(in_moves(*board, safe_moves, ordered@[idx as int].0 as int));
                }
                let col = ordered[idx].0;
                let col_mask = Bitboard::column_mask(col);
                let move_mask = safe_moves & col_mask;
                proof {
                    lemma_column_move(*board, safe_moves, col as int);
                    board.lemma_play_wf(col as int);
                }
                let new_board = board.play_move(move_mask);
                let ghost lo_m = lo;
                let ghost best_m = (best_col, best_score);
                let child = self.negamax(&new_board, -hi, -lo, d8, 1);
                let score = -child;
                proof {
                    reveal(logged_root_moves);
                    assert(new_board == board.spec_play(col as int));
                    let e = (col, score);
                    let we = (depth as int, lo as int);
                    assert(new_board.spec_moves_remaining() <= ENDGAME_THRESHOLD && d8 > 0 ==> child
                        == endgame_result(new_board, -WIN_SCORE, -we.1));
                    assert(root_answer(*board, e, we, true, cd));
                    let log2 = log.push(e);
                    let win2 = win.push(we);
                    assert(root_window(log2, win2, log.len() as int));
                    assert forall|i: int| 0 <= i < log.len() implies #[trigger] root_window(log2, win2, i)
                        == root_window(log, win, i) by {
                        assert(log2[i] == log[i] && win2[i] == win[i]);
                        if i > 0 {
                            assert(log2[i - 1] == log[i - 1] && win2[i - 1] == win[i - 1]);
                        }
                    }
                    lemma_pick_best_push(log, e);
                    log = log2;
                    win = win2;
                }

                let best = prefer_move((best_col, best_score), col, score);
                best_col = best.0;
                best_score = best.1;
                if score > lo {
                    lo = score;
                }
                assert(ply_root_moves(k0, s_m, ks_m, *board, ordered@, idx as int, lo_m as int, best_m, d8)
                    == ply_root_moves(
                    k0,
                    self.table().slots(),
                    self.killer_slots(),
                    *board,
                    ordered@,
                    idx + 1,
                    lo as int,
                    (best_col, best_score),
                    d8,
                )) by {
                    reveal(ply_root_moves);
                }
                idx = idx + 1;
            }
            assert(ply_root_moves(k0, s_d, ks_d, *board, ordered@, 0, -WIN_SCORE as int, best_d, d8) == (
                (best_col, best_score),
                self.table().slots(),
                self.killer_slots(),
            )) by {
                reveal(ply_root_moves);
            }
            proof {
                if safe_moves != 0 {
                    assert forall|c: int| #[trigger] in_moves(*board, safe_moves, c) implies exists|i: int|
                        0 <= i < log.len() && log[i].0 == c by {
                        let k = choose|k: int| 0 <= k < ordered.len() && ordered@[k].0 == c;
                        assert(log[log0.len() + k].0 == ordered@[k].0);
                    }
                    lemma_some_safe_column(*board, safe_moves);
                    let c = choose|j: int| 0 <= j < 7 && #[trigger] in_moves(*board, safe_moves, column_order()[j]);
                    assert(in_moves(*board, safe_moves, column_order()[c]));
                }
            }

            // Early exit if we found a winning move
            let stop = best_score >= (board.moves_remaining() - depth as i32) / 2;
            assert(stop == (best_score >= half_toward_zero(board.spec_moves_remaining() - depth)));
            assert(ply_root_deepening(k0, s_d, ks_d, *board, depth as int, max_depth as int, best_d) == if stop {
                ((best_col, best_score), self.table().slots(), self.killer_slots())
            } else {
                ply_root_deepening(
                    k0,
                    self.table().slots(),
                    self.killer_slots(),
                    *board,
                    depth + 1,
                    max_depth as int,
                    (best_col, best_score),
                )
            }) by {
                reveal(ply_root_deepening);
            }
            if stop {
                break;
            }
            depth = depth + 1;
            proof {
                if depth > max_depth {
                    lemma_ply_deepening_done(
                        k0,
                        self.table().slots(),
                        self.killer_slots(),
                        *board,
                        depth as int,
                        max_depth as int,
                        (best_col, best_score),
                    );
                }
            }
        }
        proof {
            if !board.can_win_now() && board.non_losing_moves() != 0 && max_depth >= 1 {
                reveal(logged_root_moves);
                assert(scored_root_moves(*board, log, win, true, cd));
            }
        }

        (best_col, best_score)
    }

    fn count_threats(position: u64, mask: u64) -> (r: i32)
        ensures
            r == threat_count(position, mask),
            0 <= r <= 576,
    {
        let empty = Bitboard::BOARD_MASK ^ mask;
        let mut count = 0i32;

        let h1 = position & (position >> 7u64);
        let h2 = h1 & (position >> 14u64);
        count += count_bits(h2 & (empty >> 21u64));
        count += count_bits((position >> 21u64) & (h1 >> 7u64) & empty);

        let h_gap1 = position & (position >> 7u64) & (position >> 21u64);
        count += count_bits(h_gap1 & (empty >> 14u64));
        let h_gap2 = position & (position >> 14u64) & (position >> 21u64);
        count += count_bits(h_gap2 & (empty >> 7u64));

        let v1 = position & (position >> 1u64);
        let v2 = v1 & (position >> 2u64);
        count += count_bits(v2 & (empty >> 3u64));

        let d1 = position & (position >> 6u64);
        let d2 = d1 & (position >> 12u64);
        count += count_bits(d2 & (empty >> 18u64));
        count += count_bits((position >> 18u64) & (d1 >> 6u64) & empty);

        let d3 = position & (position >> 8u64);
        let d4 = d3 & (position >> 16u64);
        count += count_bits(d4 & (empty >> 24u64));
        count += count_bits((position >> 24u64) & (d3 >> 8u64) & empty);

        count
    }

    fn count_open_pairs(position: u64, empty: u64) -> (r: i32)
        ensures
            r == open_pair_count(position, empty),
            0 <= r <= 256,
    {
        let mut count = 0i32;

        let h_pair = position & (position >> 7u64);
        count += count_bits(h_pair & (empty >> 14u64) & (empty << 7u64));

        let v_pair = position & (position >> 1u64);
        count += count_bits(v_pair & (empty >> 2u64));

        let d1_pair = position & (position >> 6u64);
        count += count_bits(d1_pair & (empty >> 12u64) & (empty << 6u64));

        let d2_pair = position & (position >> 8u64);
        count += count_bits(d2_pair & (empty >> 16u64) & (empty << 8u64));

        count
    }

    fn center_control_score(current: u64, opponent: u64) -> (r: i32)
        ensures
            r == center_sum(current, opponent, 7) * 3,
            -5376 <= r <= 5376,
    {
        let mut score = 0i32;
        let mut col: usize = 0;
        while col < 7
            invariant
                col <= 7,
                score == center_sum(current, opponent, col as int),
                -256 * (col as int) <= score <= 256 * (col as int),
            decreases 7 - col,
        {
            let weight = COL_WEIGHTS[col];
            let col_mask = Bitboard::column_mask(col);
            let current_in_col = count_bits(current & col_mask);
            let opponent_in_col = count_bits(opponent & col_mask);
            let diff = current_in_col - opponent_in_col;
            proof {
                assert(1 <= weight <= 4);
                assert(-256 <= diff * weight <= 256) by (nonlinear_arith)
                    requires
                        -64 <= diff <= 64,
                        1 <= weight <= 4,
                ;
            }
            let delta = diff * weight;
            score += delta;
            col = col + 1;
        }
        score * 3
    }

    fn odd_even_analysis(current_wins: u64, opponent_wins: u64, moves: u32) -> (r: i32)
        ensures
            r == odd_even_score(current_wins, opponent_wins, moves),
            -1920 <= r <= 1920,
    {
        let is_first_player = moves % 2 == 0;

        let odd_mask: u64 = 0x2A | (0x2A << 7u64) | (0x2A << 14u64) | (0x2A << 21u64) | (0x2A
            << 28u64) | (0x2A << 35u64) | (0x2A << 42u64);
        proof {
            assert(0x2Au64 | (0x2Au64 << 7u64) | (0x2Au64 << 14u64) | (0x2Au64 << 21u64) | (0x2Au64
                << 28u64) | (0x2Au64 << 35u64) | (0x2Au64 << 42u64) == 0xa952a54a952au64)
                by (bit_vector);
        }
        let even_mask: u64 = Bitboard::BOARD_MASK & !odd_mask;

        let current_odd = count_bits(current_wins & odd_mask);
        let current_even = count_bits(current_wins & even_mask);
        let opponent_odd = count_bits(opponent_wins & odd_mask);
        let opponent_even = count_bits(opponent_wins & even_mask);

        if is_first_player {
            (current_odd * 15 + current_even * 5) - (opponent_odd * 5 + opponent_even * 15)
        } else {
            (current_even * 15 + current_odd * 5) - (opponent_even * 5 + opponent_odd * 15)
        }
    }

    fn connectivity_score(position: u64) -> (r: i32)
        ensures
            r == connectivity(position),
            0 <= r <= 256,
    {
        let mut score = 0i32;
        score += count_bits(position & (position >> 7u64));
        score += count_bits(position & (position >> 1u64));
        score += count_bits(position & (position >> 6u64));
        score += count_bits(position & (position >> 8u64));
        score
    }

    fn evaluate(&self, board: &Bitboard) -> (r: i32)
        ensures
            r == evaluation(*board),
            -40000 <= r <= 40000,
    {
        let current = board.current;
        let opponent = board.opponent();
        let empty = Bitboard::BOARD_MASK ^ board.mask;

        let current_wins = Bitboard::compute_winning_positions(current, board.mask);
        let opponent_wins = Bitboard::compute_winning_positions(opponent, board.mask);

        let current_win_count = count_bits(current_wins);
        let opponent_win_count = count_bits(opponent_wins);

        let current_threats = Self::count_threats(current, board.mask);
        let opponent_threats = Self::count_threats(opponent, board.mask);

        let current_pairs = Self::count_open_pairs(current, empty);
        let opponent_pairs = Self::count_open_pairs(opponent, empty);

        let center_control = Self::center_control_score(current, opponent);
        let odd_even_score = Self::odd_even_analysis(current_wins, opponent_wins, board.moves);

        let current_connectivity = Self::connectivity_score(current);
        let opponent_connectivity = Self::connectivity_score(opponent);

        let win_diff = (current_win_count - opponent_win_count) * 100;
        let threat_diff = (current_threats - opponent_threats) * 30;
        let pair_diff = (current_pairs - opponent_pairs) * 10;
        let connectivity_diff = (current_connectivity - opponent_connectivity) * 5;

        win_diff + threat_diff + pair_diff + center_control + odd_even_score + connectivity_diff
    }
}

/// Appending a move keeps every listed column among the moves.
pub(crate) proof fn lemma_push_move(
    b: Bitboard,
    moves: u64,
    before: Seq<(usize, i32)>,
    after: Seq<(usize, i32)>,
    col: usize,
    priority: i32,
)
    requires
        after == before.push((col, priority)),
        in_moves(b, moves, col as int),
        col < 7,
        forall|j: int|
            0 <= j < before.len() ==> #[trigger] in_moves(b, moves, before[j].0 as int) && before[j].0
                < 7,
    ensures
        forall|j: int|
            0 <= j < after.len() ==> #[trigger] in_moves(b, moves, after[j].0 as int) && after[j].0
                < 7,
{
    assert forall|j: int| 0 <= j < after.len() implies #[trigger] in_moves(
        b,
        moves,
        after[j].0 as int,
    ) && after[j].0 < 7 by {
        if j < before.len() {
            assert(after[j] == before[j]);
            assert(in_moves(b, moves, before[j].0 as int));
        }
    }
}

/// The winning landing cell of a column, if any.
pub(crate) proof fn lemma_column_win(b: Bitboard, winning: u64, col: int)
    requires
        b.wf(),
        0 <= col < 7,
        b.winning_cells_model(b.current, winning),
    ensures
        (winning & b.landing_cells() & (63u64 << (7 * col) as u64) != 0) == wins_in(b)(col),
{
    broadcast use group_bits;

    b.lemma_wf_cells();
    b.lemma_landing_cells();
    let u = winning & b.landing_cells();
    assert forall|i: int| 0 <= i < 64 implies !#[trigger] bit(u & !b.landing_cells(), i) by {}
    crate::bits::lemma_zero_iff_no_bits(u & !b.landing_cells());
    b.lemma_landing_in_column(u, col);
    if b.playable(col) {
        let idx = cell_index(col, b.height(col));
        assert(bit(b.landing_bit(col), idx));
        assert(bit(u, idx) == completes_four(b.current, col, b.height(col)));
    }
}

/// Dropping a disc in a column with room wins for the mover (who has no four
/// yet) exactly when the winning cells meet that column's landing cell.
pub proof fn lemma_column_drop_wins(b: Bitboard, winning: u64, col: int)
    requires
        b.wf(),
        b.playable(col),
        !has_four(b.current),
        b.winning_cells_model(b.current, winning),
    ensures
        (winning & b.landing_cells() & (63u64 << (7 * col) as u64) != 0) == has_four(
            b.spec_play(col).opponent_bits(),
        ),
{
    lemma_column_win(b, winning, col);
    b.lemma_drop_wins_iff(col);
}

/// When some column satisfies `p`, the first one in exploration order does.
pub(crate) proof fn lemma_first_col_exists(p: spec_fn(int) -> bool)
    requires
        exists|c: int| 0 <= c < 7 && #[trigger] p(c),
    ensures
        first_col(p, 0) < 7,
        p(first_col(p, 0)),
{
    let c = choose|c: int| 0 <= c < 7 && #[trigger] p(c);
    lemma_order_covers(c);
    let k = choose|k: int| 0 <= k < 7 && #[trigger] column_order()[k] == c;
    lemma_first_col_upto(p, 0, k);
}

proof fn lemma_first_col_upto(p: spec_fn(int) -> bool, k: int, j: int)
    requires
        0 <= k <= j < 7,
        p(column_order()[j]),
    ensures
        first_col(p, k) < 7,
        p(first_col(p, k)),
    decreases j - k,
{
    if !p(column_order()[k]) {
        lemma_first_col_upto(p, k + 1, j);
    }
}

/// Non-empty safe moves hold the landing cell of a column in the order.
pub(crate) proof fn lemma_some_safe_column(b: Bitboard, safe: u64)
    requires
        b.wf(),
        safe != 0,
        subset_bits(safe, b.landing_cells()),
    ensures
        exists|j: int| 0 <= j < 7 && #[trigger] in_moves(b, safe, column_order()[j]),
{
    broadcast use group_bits;

    b.lemma_landing_cells();
    crate::bits::lemma_nonzero_has_bit(safe);
    let i = choose|i: int| 0 <= i < 64 && bit(safe, i);
    crate::bitboard::lemma_subset_bit(safe, b.landing_cells(), i);
    let c = i / 7;
    assert(in_moves(b, safe, c));
    lemma_order_covers(c);
    let j = choose|j: int| 0 <= j < 7 && #[trigger] column_order()[j] == c;
    assert(in_moves(b, safe, column_order()[j]));
}

/// A full board has no moves.
pub(crate) proof fn lemma_full_no_moves(b: Bitboard, safe: u64)
    requires
        b.wf(),
        b.spec_is_full(),
        subset_bits(safe, b.landing_cells()),
    ensures
        safe == 0,
{
    broadcast use group_bits;

    b.lemma_landing_cells();
    b.lemma_wf_cells();
    if safe != 0 {
        crate::bits::lemma_nonzero_has_bit(safe);
        let i = choose|i: int| 0 <= i < 64 && bit(safe, i);
        crate::bitboard::lemma_subset_bit(safe, b.landing_cells(), i);
        b.lemma_playable_not_full(i / 7);
    }
}

// ============================================================================
// Parallel Search
// ============================================================================

/// What the parallel search does at the root.
pub enum RootPlan {
    /// The move and its score are known without a parallel search.
    Decided(usize, i32),
    /// Score each of these columns (all non-losing, in exploration order)
    /// on its own, then conclude; the word is the set of non-losing moves.
    Search(Vec<usize>, u64),
}

/// The columns from position `k` of the exploration order on whose landing
/// cell is in `moves`.
pub open spec fn move_columns(b: Bitboard, moves: u64, k: int) -> Seq<usize>
    decreases 7 - k,
{
    if k < 0 || k >= 7 {
        Seq::empty()
    } else if in_moves(b, moves, column_order()[k]) {
        seq![column_order()[k] as usize] + move_columns(b, moves, k + 1)
    } else {
        move_columns(b, moves, k + 1)
    }
}

/// The best of the first `n` scored columns: a higher score wins, and on a
/// tie the center column 3 wins; `(3, i32::MIN)` for none.
pub open spec fn pick_best(results: Seq<(usize, i32)>, n: int) -> (usize, i32)
    decreases n,
{
    if n <= 0 {
        (3usize, i32::MIN)
    } else {
        prefer(pick_best(results, n - 1), results[n - 1])
    }
}

/// The better of the best move so far and a newly scored move: the new one
/// when it scores higher, or as high and it is the center column.
pub open spec fn prefer(best: (usize, i32), next: (usize, i32)) -> (usize, i32) {
    if next.1 > best.1 || (next.1 == best.1 && next.0 == 3) {
        next
    } else {
        best
    }
}

/// Keep the better of the best move so far and a newly scored move.
pub fn prefer_move(best: (usize, i32), col: usize, score: i32) -> (r: (usize, i32))
    ensures
        r == prefer(best, (col, score)),
{
    if score > best.1 || (score == best.1 && col == 3) {
        (col, score)
    } else {
        best
    }
}

/// The pick over a list depends only on the entries it reads.
pub proof fn lemma_pick_best_prefix(a: Seq<(usize, i32)>, b: Seq<(usize, i32)>, n: int)
    requires
        0 <= n <= a.len(),
        n <= b.len(),
        forall|i: int| 0 <= i < n ==> a[i] == b[i],
    ensures
        pick_best(a, n) == pick_best(b, n),
    decreases n,
{
    if n > 0 {
        lemma_pick_best_prefix(a, b, n - 1);
    }
}

/// Of the best move so far and a newly scored move, `prefer` keeps one of
/// the two with the higher score; on equal scores the new move is kept
/// exactly when it is the centre column.
pub proof fn lemma_prefer_keeps_higher(best: (usize, i32), next: (usize, i32))
    ensures
        prefer(best, next) == best || prefer(best, next) == next,
        prefer(best, next).1 >= best.1,
        prefer(best, next).1 >= next.1,
        next.1 == best.1 && next.0 == 3 ==> prefer(best, next) == next,
        next.1 == best.1 && next.0 != 3 ==> prefer(best, next) == best,
{
}

/// The pick over the first `n` scored moves has the greatest score among
/// them, and is one of them (or column 3 with no score when there is none
/// scoring above `i32::MIN`); a centre move of that greatest score is the one
/// picked.
pub proof fn lemma_pick_best_is_max(log: Seq<(usize, i32)>, n: int)
    requires
        0 <= n <= log.len(),
    ensures
        forall|i: int| 0 <= i < n ==> pick_best(log, n).1 >= #[trigger] log[i].1,
        pick_best(log, n) == (3usize, i32::MIN) || exists|i: int|
            0 <= i < n && pick_best(log, n) == #[trigger] log[i],
        forall|i: int|
            0 <= i < n && #[trigger] log[i].1 == pick_best(log, n).1 && log[i].0 == 3 ==> pick_best(
                log,
                n,
            ).0 == 3,
    decreases n,
{
    if n > 0 {
        lemma_pick_best_is_max(log, n - 1);
        let prev = pick_best(log, n - 1);
        lemma_prefer_keeps_higher(prev, log[n - 1]);
        assert forall|i: int| 0 <= i < n implies pick_best(log, n).1 >= #[trigger] log[i].1 by {
            if i < n - 1 {
                assert(prev.1 >= log[i].1);
            }
        }
        if pick_best(log, n) != (3usize, i32::MIN) {
            if pick_best(log, n) == log[n - 1] {
                assert(exists|i: int| 0 <= i < n && pick_best(log, n) == #[trigger] log[i]);
            } else {
                assert(pick_best(log, n) == prev);
                let j = choose|j: int| 0 <= j < n - 1 && prev == #[trigger] log[j];
                assert(pick_best(log, n) == log[j]);
            }
        }
        assert forall|i: int|
            0 <= i < n && #[trigger] log[i].1 == pick_best(log, n).1 && log[i].0 == 3 implies pick_best(
                log,
                n,
            ).0 == 3 by {
            if i < n - 1 && pick_best(log, n) == prev {
                assert(prev.1 >= log[i].1);
            }
        }
    }
}

/// The root search's move, past its early answers, carries the greatest
/// score among the scored root moves and is one of them (or column 3 with
/// no score when none scores above `i32::MIN`).
pub proof fn lemma_best_move_is_max(b: Bitboard, max_depth: int, r: (usize, i32), endgame: bool, deep: bool)
    requires
        best_move_answer(b, max_depth, r, endgame, deep),
        !b.can_win_now(),
        !b.spec_is_full(),
        b.non_losing_moves() != 0,
        max_depth != 0,
    ensures
        exists|log: Seq<(usize, i32)>, w: Seq<(int, int)>|
            #[trigger] scored_root_moves(b, log, w, endgame, deep) && (forall|i: int|
                0 <= i < log.len() ==> r.1 >= #[trigger] log[i].1) && (r == (3usize, i32::MIN)
                || exists|i: int| 0 <= i < log.len() && r == #[trigger] log[i]),
{
    let (log, w) = choose|log: Seq<(usize, i32)>, w: Seq<(int, int)>|
        #[trigger] scored_root_moves(b, log, w, endgame, deep) && r == pick_best(log, log.len() as int);
    lemma_pick_best_is_max(log, log.len() as int);
    assert(scored_root_moves(b, log, w, endgame, deep));
}

/// Scoring one more move updates the pick by `prefer`.
pub proof fn lemma_pick_best_push(log: Seq<(usize, i32)>, e: (usize, i32))
    ensures
        pick_best(log.push(e), log.len() + 1int) == prefer(pick_best(log, log.len() as int), e),
{
    lemma_pick_best_prefix(log.push(e), log, log.len() as int);
}

/// The root of the parallel search: answer at once when the search is
/// shallow, the endgame is near, the mover wins at once, every move loses at
/// once, or a single move does not; otherwise list the columns to score.
/// A shallow or near-endgame search answers as `ply_root` does over the
/// table with no killer moves, and leaves the table's slots as it does.
pub fn plan_parallel_search(board: &Bitboard, tt: &mut TranspositionTable, max_depth: usize) -> (r:
    RootPlan)
    requires
        board.wf(),
        max_depth <= i32::MAX,
    ensures
        final(tt).wf(),
        board.can_win_now() ==> r == RootPlan::Decided(
            first_col(wins_in(*board), 0) as usize,
            ((board.spec_moves_remaining() + 1) / 2) as i32,
        ),
        !board.can_win_now() && board.non_losing_moves() == 0 && !board.spec_is_full() ==> r
            == RootPlan::Decided(first_col(open_in(*board), 0) as usize, (-WIN_SCORE) as i32),
        !board.can_win_now() && board.non_losing_moves() != 0 && max_depth >= 1 ==> match r {
            RootPlan::Decided(col, _) => in_moves(*board, board.non_losing_moves(), col as int),
            RootPlan::Search(cols, safe) => {
                &&& max_depth > 8
                &&& board.spec_moves_remaining() > ENDGAME_THRESHOLD
                &&& safe == board.non_losing_moves()
                &&& cols@ == move_columns(*board, safe, 0)
                &&& cols@.len() >= 2
            },
        },
        r is Search ==> max_depth > 8 && board.spec_moves_remaining() > ENDGAME_THRESHOLD
            && !board.can_win_now(),
        max_depth <= 8 || board.spec_moves_remaining() <= ENDGAME_THRESHOLD ==> (r matches RootPlan::Decided(
            col,
            score,
        ) && best_move_answer(
            *board,
            max_depth as int,
            (col, score),
            true,
            old(tt).consistent() && old(tt).hashes_distinct(),
        )),
        max_depth <= 8 || board.spec_moves_remaining() <= ENDGAME_THRESHOLD ==> {
            let root = ply_root(old(tt).zobrist_keys(), old(tt).slots(), no_killers(), *board, max_depth as int);
            &&& r == RootPlan::Decided(root.0.0, root.0.1)
            &&& final(tt).slots() == root.1
            &&& final(tt).zobrist_keys() == old(tt).zobrist_keys()
        },
        max_depth > 8 && board.spec_moves_remaining() > ENDGAME_THRESHOLD ==> *final(tt) == *old(tt),
        max_depth > 8 && board.spec_moves_remaining() > ENDGAME_THRESHOLD && !board.can_win_now()
            && board.non_losing_moves() != 0 && move_columns(*board, board.non_losing_moves(), 0).len()
            == 1 ==> r == RootPlan::Decided(
            move_columns(*board, board.non_losing_moves(), 0)[0],
            0i32,
        ),
{
    if max_depth <= 8 || board.moves_remaining() <= ENDGAME_THRESHOLD {
        let mut solver = Solver::new(tt);
        let (col, score) = solver.find_best_move(board, max_depth);
        let ghost t_after = solver.table();
        proof {
            use_type_invariant(&*tt);
        }
        assert(*tt == t_after);
        return RootPlan::Decided(col, score);
    }
    proof {
        use_type_invariant(&*tt);
        board.lemma_landing_fits();
    }
    let winning = board.winning_positions();
    let possible = board.possible_moves();
    proof {
        board.lemma_can_win_now(winning);
    }

    if winning & possible != 0 {
        let mut k: usize = 0;
        while k < 7
            invariant
                tt == old(tt),
                tt.wf(),
                board.wf(),
                board.can_win_now(),
                k <= 7,
                first_col(wins_in(*board), k as int) == first_col(wins_in(*board), 0),
                board.winning_cells_model(board.current, winning),
                possible == board.landing_cells(),
            decreases 7 - k,
        {
            let col = order_at(k);
            let col_mask = Bitboard::column_mask(col);
            proof {
                lemma_column_win(*board, winning, col as int);
            }
            if winning & possible & col_mask != 0 {
                return RootPlan::Decided(col, (board.moves_remaining() + 1) / 2);
            }
            k = k + 1;
        }
        proof {
            let c = choose|c: int|
                #![trigger board.playable(c)]
                board.playable(c) && completes_four(board.current, c, board.height(c));
            assert(wins_in(*board)(c));
            lemma_first_col_exists(wins_in(*board));
        }
    }

    let safe_moves = board.possible_non_losing_moves();
    if safe_moves == 0 {
        let mut k: usize = 0;
        while k < 7
            invariant
                tt == old(tt),
                tt.wf(),
                board.wf(),
                !board.can_win_now(),
                safe_moves == board.non_losing_moves(),
                safe_moves == 0,
                k <= 7,
                first_col(open_in(*board), k as int) == first_col(open_in(*board), 0),
            decreases 7 - k,
        {
            let col = order_at(k);
            if board.can_play(col) {
                return RootPlan::Decided(col, -WIN_SCORE);
            }
            k = k + 1;
        }
        proof {
            if !board.spec_is_full() {
                board.lemma_not_full_playable();
                let c = choose|c: int| #[trigger] board.playable(c);
                assert(open_in(*board)(c));
                lemma_first_col_exists(open_in(*board));
            }
        }
    }
    proof {
        if board.spec_is_full() {
            lemma_full_no_moves(*board, safe_moves);
        }
    }

    let mut moves: Vec<usize> = Vec::new();
    let mut k: usize = 0;
    while k < 7
        invariant
            board.wf(),
            subset_bits(safe_moves, board.landing_cells()),
            k <= 7,
            moves@ + move_columns(*board, safe_moves, k as int) == move_columns(*board, safe_moves, 0),
        decreases 7 - k,
    {
        let col = order_at(k);
        let col_mask = Bitboard::column_mask(col);
        proof {
            lemma_column_move(*board, safe_moves, col as int);
        }
        if safe_moves & col_mask != 0 {
            proof {
                assert(moves@.push(col) + move_columns(*board, safe_moves, k + 1) =~= moves@ + (seq![
                    col,
                ] + move_columns(*board, safe_moves, k + 1)));
            }
            moves.push(col);
        }
        k = k + 1;
    }
    proof {
        assert(moves@ =~= moves@ + move_columns(*board, safe_moves, 7));
        if safe_moves != 0 {
            lemma_some_safe_column(*board, safe_moves);
            let j = choose|j: int| 0 <= j < 7 && #[trigger] in_moves(*board, safe_moves, column_order()[j]);
            lemma_move_columns_contains(*board, safe_moves, 0, j);
        }
    }

    if moves.len() == 1 {
        proof {
            assert(in_moves(*board, safe_moves, moves@[0] as int)) by {
                lemma_move_columns_in_moves(*board, safe_moves, 0, 0);
            }
        }
        return RootPlan::Decided(moves[0], 0);
    }
    RootPlan::Search(moves, safe_moves)
}

proof fn lemma_move_columns_contains(b: Bitboard, moves: u64, k: int, j: int)
    requires
        0 <= k <= j < 7,
        in_moves(b, moves, column_order()[j]),
    ensures
        move_columns(b, moves, k).len() > 0,
    decreases j - k,
{
    if !in_moves(b, moves, column_order()[k]) {
        lemma_move_columns_contains(b, moves, k + 1, j);
    }
}

proof fn lemma_move_columns_in_moves(b: Bitboard, moves: u64, k: int, i: int)
    requires
        0 <= k <= 7,
        0 <= i < move_columns(b, moves, k).len(),
    ensures
        in_moves(b, moves, move_columns(b, moves, k)[i] as int),
        move_columns(b, moves, k)[i] < 7,
    decreases 7 - k,
{
    if k < 7 {
        if in_moves(b, moves, column_order()[k]) {
            if i > 0 {
                lemma_move_columns_in_moves(b, moves, k + 1, i - 1);
            }
        } else {
            lemma_move_columns_in_moves(b, moves, k + 1, i);
        }
    }
}

/// Score one root move with a fresh table: the negated search value of the
/// board after it, with the full window, at ply 1 with no killer moves. The
/// fresh table's Zobrist keys are random, so the score is `ply_search` from
/// empty slots under some keys.
pub fn score_root_move(board: &Bitboard, safe_moves: u64, col: usize, max_depth: usize) -> (r: (
    usize,
    i32,
))
    requires
        board.wf(),
        subset_bits(safe_moves, board.landing_cells()),
        in_moves(*board, safe_moves, col as int),
    ensures
        r.0 == col,
        -(WIN_SCORE + 256) <= r.1 <= WIN_SCORE + 256,
        exists|keys: [[u64; 49]; 2]|
            r.1 == -(#[trigger] ply_search(
                keys,
                empty_slots(),
                no_killers(),
                board.spec_play(col as int),
                -WIN_SCORE as int,
                WIN_SCORE as int,
                max_depth as u8,
                1,
            )).0,
        ({
            let child = board.spec_play(col as int);
            &&& child.spec_moves_remaining() <= ENDGAME_THRESHOLD && (max_depth as u8) > 0 ==> r.1
                == child_value(*board, col as int)
            &&& !(child.spec_moves_remaining() <= ENDGAME_THRESHOLD && (max_depth as u8) > 0)
                && child.spec_is_full() ==> r.1 == 0
            &&& !(child.spec_moves_remaining() <= ENDGAME_THRESHOLD && (max_depth as u8) > 0)
                && !child.spec_is_full() && child.can_win_now() ==> r.1 == -((
            child.spec_moves_remaining() + 1) / 2)
        }),
{
    let col_mask = Bitboard::column_mask(col);
    let move_mask = safe_moves & col_mask;
    proof {
        lemma_column_move(*board, safe_moves, col as int);
        board.lemma_play_wf(col as int);
    }
    let new_board = board.play_move(move_mask);

    let mut local_tt = TranspositionTable::new();
    let mut solver = Solver::new(&mut local_tt);

    let d8 = #[verifier::truncate] (max_depth as u8);
    let ghost keys = solver.table().zobrist_keys();
    let child = solver.negamax(&new_board, -WIN_SCORE, WIN_SCORE, d8, 1);
    proof {
        lemma_value_bounds(new_board);
        assert(new_board == board.spec_play(col as int));
        assert(-child == -ply_search(
            keys,
            empty_slots(),
            no_killers(),
            board.spec_play(col as int),
            -WIN_SCORE as int,
            WIN_SCORE as int,
            max_depth as u8,
            1,
        ).0);
    }
    (col, -child)
}

/// Pick the best scored column (ties to the center column), record it in
/// the table as exact, and return it.
pub fn conclude_parallel_search(
    board: &Bitboard,
    tt: &mut TranspositionTable,
    results: &Vec<(usize, i32)>,
    max_depth: usize,
) -> (r: (usize, i32))
    ensures
        r == pick_best(results@, results@.len() as int),
        final(tt).wf(),
        final(tt).hash_of(*board) == old(tt).hash_of(*board),
        final(tt).lookup(*board) is Some,
        final(tt).lookup(*board)->0.stored_score() == clamp_i16(r.1),
        flag_of_code(final(tt).lookup(*board)->0.flag_code()) == TTFlag::Exact,
        final(tt).lookup(*board)->0.stored_depth() == max_depth as u8,
        final(tt).lookup(*board)->0.stored_best_move() == move_code(Some(r.0)),
{
    let mut final_best_col: usize = 3;
    let mut final_best_score = i32::MIN;

    let mut i: usize = 0;
    while i < results.len()
        invariant
            i <= results.len(),
            (final_best_col, final_best_score) == pick_best(results@, i as int),
        decreases results.len() - i,
    {
        let (col, score) = results[i];
        if score > final_best_score || (score == final_best_score && col == 3) {
            final_best_score = score;
            final_best_col = col;
        }
        i = i + 1;
    }

    let ghost before = *tt;
    let d8 = #[verifier::truncate] (max_depth as u8);
    tt.put(board, final_best_score, TTFlag::Exact, d8, Some(final_best_col));
    proof {
        lemma_get_after_put(before, *tt, *board, final_best_score, TTFlag::Exact, d8, Some(final_best_col));
    }

    (final_best_col, final_best_score)
}

} // verus!
