//! The single-threaded engine of the command-line game: negamax with
//! alpha-beta pruning over a transposition table keyed by the position key,
//! without killer moves or the endgame solver.

use std::collections::HashMap;
use vstd::prelude::*;
use crate::bits::subset_bits;
use crate::bitboard::{Bitboard, board_bits, threat_cells, completes_four, has_four};
use crate::value::{
    game_value, child_value, alpha_beta_ok, in_moves, lemma_value_bounds, lemma_pruned_move_loses,
    lemma_value_is_best_child, lemma_negate_window, lemma_window_narrowing, lemma_all_moves_lose,
};
use crate::solver::{
    TTFlag, order_at, column_order, first_col, wins_in, open_in, sort_by_priority,
    sorts_stably, pc, count_bits, lemma_column_move, lemma_push_move,
    lemma_column_win, lemma_first_col_exists, lemma_some_safe_column,
    lemma_full_no_moves, lemma_some_move, max_int, min_int, search_order, logged_root_moves, half_toward_zero, scored_moves, prefer_move, lemma_pick_best_push,
    best_move_answer, scored_root_moves, root_answer, root_window, covers_moves, pick_best, prefer,
};
use crate::game::{OpeningBook, empty_board, book_entries, bytes_equal};
use crate::{COLS, DRAW_SCORE, WIN_SCORE};

verus! {

broadcast use vstd::std_specs::hash::group_hash_axioms;

// ============================================================================
// Transposition table
// ============================================================================

/// Transposition table entry
#[derive(Clone, Copy)]
pub struct TTEntry {
    pub key: u64,
    pub score: i32,
    pub flag: TTFlag,
    pub depth: u8,
}

/// Transposition table for caching evaluated positions, keyed by
/// `Bitboard::key`.
pub struct TranspositionTable {
    table: HashMap<u64, TTEntry>,
}

impl TranspositionTable {
    /// The stored entries by key.
    pub closed spec fn view(&self) -> Map<u64, TTEntry> {
        self.table@
    }

    /// What `get` answers for `key`: the entry stored under it, when that
    /// entry carries the same key.
    pub open spec fn lookup(self, key: u64) -> Option<TTEntry> {
        entry_for(self.view(), key)
    }

    /// `put` keeps the entry stored under `key` instead of a new one of
    /// this depth: an exact entry from a deeper search.
    pub open spec fn keeps_existing(self, key: u64, depth: u8) -> bool {
        &&& self.view().contains_key(key)
        &&& self.view()[key].depth > depth
        &&& self.view()[key].flag == TTFlag::Exact
    }

    pub fn new() -> (r: Self)
        ensures
            r.view() == Map::<u64, TTEntry>::empty(),
            r.consistent(),
            r.scores_within(),
    {
        TranspositionTable { table: HashMap::with_capacity(8_000_000) }
    }

    pub fn get(&self, key: u64) -> (r: Option<&TTEntry>)
        ensures
            r == (if self.lookup(key) is Some {
                Some(&self.view()[key])
            } else {
                None
            }),
    {
        match self.table.get(&key) {
            Some(e) => {
                if e.key == key {
                    Some(e)
                } else {
                    None
                }
            },
            None => None,
        }
    }

    /// Store an entry, unless an exact entry from a deeper search is there.
    pub fn put(&mut self, key: u64, score: i32, flag: TTFlag, depth: u8)
        ensures
            old(self).keeps_existing(key, depth) ==> final(self).view() == old(self).view(),
            !old(self).keeps_existing(key, depth) ==> final(self).view() == old(self).view().insert(
                key,
                (TTEntry { key: key, score: score, flag: flag, depth: depth }),
            ),
    {
        match self.table.get(&key) {
            Some(existing) => {
                if existing.depth > depth && existing.flag == TTFlag::Exact {
                    return ;
                }
            },
            None => {},
        }
        self.table.insert(key, TTEntry { key, score, flag, depth });
    }
}

/// The entry that the stored entries `tt` answer for `key`: the one stored
/// under it, when it carries the same key.
pub open spec fn entry_for(tt: Map<u64, TTEntry>, key: u64) -> Option<TTEntry> {
    if tt.contains_key(key) && tt[key].key == key {
        Some(tt[key])
    } else {
        None
    }
}

/// The stored entries after `put(key, score, flag, depth)` on `tt`: an exact
/// entry from a deeper search stays, else the new entry goes in.
pub open spec fn stored(tt: Map<u64, TTEntry>, key: u64, score: i32, flag: TTFlag, depth: u8) -> Map<
    u64,
    TTEntry,
> {
    if tt.contains_key(key) && tt[key].depth > depth && tt[key].flag == TTFlag::Exact {
        tt
    } else {
        tt.insert(key, TTEntry { key: key, score: score, flag: flag, depth: depth })
    }
}

/// A read after a write of the same key gives back what was written, unless
/// the write was refused for a deeper exact entry, which then stays.
pub proof fn lemma_get_after_put(
    before: TranspositionTable,
    after: TranspositionTable,
    key: u64,
    score: i32,
    flag: TTFlag,
    depth: u8,
)
    requires
        before.keeps_existing(key, depth) ==> after.view() == before.view(),
        !before.keeps_existing(key, depth) ==> after.view() == before.view().insert(
            key,
            (TTEntry { key: key, score: score, flag: flag, depth: depth }),
        ),
    ensures
        !before.keeps_existing(key, depth) ==> after.lookup(key) == Some(
            (TTEntry { key: key, score: score, flag: flag, depth: depth }),
        ),
        before.keeps_existing(key, depth) ==> after.lookup(key) == before.lookup(key),
        forall|k: u64| k != key ==> #[trigger] after.lookup(k) == before.lookup(k),
{
}

// ============================================================================
// Static evaluation
// ============================================================================

/// Three-in-a-row patterns of `position` with an empty cell to complete
/// them, plus half the horizontal pairs with two empty cells to the right.
pub open spec fn basic_threat_count(position: u64, mask: u64) -> int {
    let empty = board_bits() ^ mask;
    let h1 = position & (position >> 7u64);
    let h2 = h1 & (position >> 14u64);
    let h_open = h1 & (empty >> 14u64) & (empty >> 21u64);
    let v1 = position & (position >> 1u64);
    let v2 = v1 & (position >> 2u64);
    let d1 = position & (position >> 6u64);
    let d2 = d1 & (position >> 12u64);
    let d3 = position & (position >> 8u64);
    let d4 = d3 & (position >> 16u64);
    pc(h2 & (empty >> 21u64)) + pc(h2 & (empty << 7u64)) + pc(h_open) / 2 + pc(
        v2 & (empty >> 3u64),
    ) + pc(d2 & (empty >> 18u64)) + pc(d2 & (empty << 6u64)) + pc(d4 & (empty >> 24u64)) + pc(
        d4 & (empty << 8u64),
    )
}

/// The static evaluation of a position for the player to move: twice the
/// threats plus three times the winning cells, against the opponent's.
pub open spec fn basic_evaluation(board: Bitboard) -> int {
    let current = board.current;
    let opponent = board.current ^ board.mask;
    (basic_threat_count(current, board.mask) * 2 + pc(threat_cells(current, board.mask)) * 3) - (
    basic_threat_count(opponent, board.mask) * 2 + pc(threat_cells(opponent, board.mask)) * 3)
}

/// The static evaluation scores the position for the player to move: when
/// the mover has winning cells and the opponent none, with the threats even,
/// it is at least 3, and with the roles turned it is at most -3.
pub proof fn lemma_basic_evaluation_mover_side(b: Bitboard)
    requires
        basic_threat_count(b.current, b.mask) == basic_threat_count(b.current ^ b.mask, b.mask),
    ensures
        threat_cells(b.current, b.mask) != 0 && threat_cells(b.current ^ b.mask, b.mask) == 0
            ==> basic_evaluation(b) >= 3,
        threat_cells(b.current, b.mask) == 0 && threat_cells(b.current ^ b.mask, b.mask) != 0
            ==> basic_evaluation(b) <= -3,
{
    let w = threat_cells(b.current, b.mask);
    let wo = threat_cells(b.current ^ b.mask, b.mask);
    if w != 0 {
        crate::solver::lemma_popcount_nonzero(w);
    }
    if wo != 0 {
        crate::solver::lemma_popcount_nonzero(wo);
    }
}

/// The static evaluation is zero-sum: the same discs seen from the other
/// side evaluate to the negation.
pub proof fn lemma_basic_evaluation_zero_sum(b: Bitboard, b2: Bitboard)
    requires
        b2.current == b.current ^ b.mask,
        b2.mask == b.mask,
    ensures
        basic_evaluation(b2) == -basic_evaluation(b),
{
    crate::solver::lemma_swap_sides(b.current, b.mask);
}

// ============================================================================
// Solver
// ============================================================================

/// Negamax solver with alpha-beta pruning and a transposition table.
pub struct Solver<'a> {
    tt: &'a mut TranspositionTable,
    nodes_explored: u64,
}

impl<'a> Solver<'a> {
    /// The transposition table this solver uses.
    pub closed spec fn table(self) -> TranspositionTable {
        *self.tt
    }

    /// The lent table the solver reads and writes.
    pub closed spec fn table_ref(self) -> &'a mut TranspositionTable {
        self.tt
    }

    pub fn new(tt: &'a mut TranspositionTable) -> (r: Self)
        ensures
            r.table() == *old(tt),
            *final(tt) == *final(r.table_ref()),
    {
        Solver { tt, nodes_explored: 0 }
    }

    /// Count potential threats (3-in-a-row with empty slot)
    fn count_threats(position: u64, mask: u64) -> (r: i32)
        ensures
            r == basic_threat_count(position, mask),
            0 <= r <= 544,
    {
        let empty = Bitboard::BOARD_MASK ^ mask;
        let mut count = 0i32;

        // Horizontal
        let h1 = position & (position >> 7u64);
        let h2 = h1 & (position >> 14u64);
        count += count_bits(h2 & (empty >> 21u64));
        count += count_bits(h2 & (empty << 7u64));

        // Also count 2-in-a-row patterns with 2 empty slots
        let h_open = h1 & (empty >> 14u64) & (empty >> 21u64);
        count += count_bits(h_open) / 2;

        // Vertical
        let v1 = position & (position >> 1u64);
        let v2 = v1 & (position >> 2u64);
        count += count_bits(v2 & (empty >> 3u64));

        // Diagonals
        let d1 = position & (position >> 6u64);
        let d2 = d1 & (position >> 12u64);
        count += count_bits(d2 & (empty >> 18u64));
        count += count_bits(d2 & (empty << 6u64));

        let d3 = position & (position >> 8u64);
        let d4 = d3 & (position >> 16u64);
        count += count_bits(d4 & (empty >> 24u64));
        count += count_bits(d4 & (empty << 8u64));

        count
    }

    /// Static evaluation for positions at depth limit
    fn evaluate(&self, board: &Bitboard) -> (r: i32)
        ensures
            r == basic_evaluation(*board),
            -1280 <= r <= 1280,
    {
        let current = board.current;
        let opponent = board.opponent();

        // Count threats for each player
        let current_threats = Self::count_threats(current, board.mask);
        let opponent_threats = Self::count_threats(opponent, board.mask);

        // Also consider potential winning positions
        let current_wins = count_bits(Bitboard::compute_winning_positions(current, board.mask));
        let opponent_wins = count_bits(Bitboard::compute_winning_positions(opponent, board.mask));

        (current_threats * 2 + current_wins * 3) - (opponent_threats * 2 + opponent_wins * 3)
    }
    /// Principal variation search: negamax with alpha-beta pruning and the
    /// transposition table, down to `depth` plies. The first move is
    /// searched with the full window, the others with a null window first.
    /// The answer, and the table it leaves, are those of `table_search`.
    /// With a consistent table and a depth that reaches the end of the game,
    /// the answer bounds the game value as an alpha-beta search must.
    #[verifier::rlimit(80)]
    pub fn negamax(&mut self, board: &Bitboard, alpha: i32, beta: i32, depth: u8) -> (r: i32)
        requires
            old(self).table().scores_within(),
            board.wf(),
            alpha > i32::MIN,
            beta > i32::MIN,
        ensures
            final(self).table().scores_within(),
            -score_bound() <= r <= score_bound(),
            old(self).table().consistent() ==> -score_cap() <= r <= score_cap(),
            old(self).table().consistent() && alpha < beta ==> final(self).table().consistent(),
            old(self).table().consistent() && alpha < beta && depth >= board.spec_moves_remaining()
                ==> alpha_beta_ok(game_value(*board), alpha as int, beta as int, r as int),
            board.spec_is_full() ==> r == 0,
            !board.spec_is_full() && board.can_win_now() ==> r == (board.spec_moves_remaining() + 1)
                / 2,
            !board.spec_is_full() && !board.can_win_now() && beta > (board.spec_moves_remaining()
                - 1) / 2 && alpha >= (board.spec_moves_remaining() - 1) / 2 ==> r == (
            board.spec_moves_remaining() - 1) / 2,
            search_proceeds(old(self).table(), *board, alpha, beta, depth) && depth == 0 ==> r
                == basic_evaluation(*board),
            search_proceeds(old(self).table(), *board, alpha, beta, depth) && depth > 0
                && board.non_losing_moves() == 0 ==> r == -(board.spec_moves_remaining() / 2),
            *final(final(self).table_ref()) == *final(old(self).table_ref()),
            (r as int, final(self).table().view()) == table_search(
                old(self).table().view(),
                *board,
                alpha as int,
                beta as int,
                depth,
            ),
        decreases depth,
    {
        let ghost t0 = self.table().view();
        let ghost c0 = old(self).table().consistent();
        let ghost cw = c0 && alpha < beta;
        let ghost exact = cw && depth >= board.spec_moves_remaining();
        let ghost v = game_value(*board);
        let mut lo = alpha;
        let mut hi = beta;
        self.nodes_explored = self.nodes_explored.saturating_add(1);

        // Check for draw
        if board.is_full() {
            return DRAW_SCORE;
        }

        // Check if current player can win immediately
        proof {
            board.lemma_landing_fits();
        }
        let winning = board.winning_positions();
        let possible = board.possible_moves();
        proof {
            board.lemma_can_win_now(winning);
        }
        if winning & possible != 0 {
            return (board.moves_remaining() + 1) / 2;
        }
        proof {
            lemma_value_bounds(*board);
        }

        // Upper bound on score
        let max_score = (board.moves_remaining() - 1) / 2;
        if hi > max_score {
            hi = max_score;
            if lo >= hi {
                return hi;
            }
        }

        // Transposition table lookup
        proof {
            board.lemma_key_fits();
        }
        let key = board.key();
        let ghost hi_clip = hi;
        assert(hi_clip == min_int(beta as int, (board.spec_moves_remaining() - 1) / 2));
        match self.tt.get(key) {
            Some(entry) => {
                proof {
                    assert(self.table().lookup(board.spec_key()) == Some(*entry));
                }
                if entry.depth >= depth {
                    match entry.flag {
                        TTFlag::Exact => {
                            return entry.score;
                        },
                        TTFlag::LowerBound => {
                            if entry.score >= hi {
                                return entry.score;
                            }
                            if entry.score > lo {
                                lo = entry.score;
                            }
                        },
                        TTFlag::UpperBound => {
                            if entry.score <= lo {
                                return entry.score;
                            }
                            if entry.score < hi {
                                hi = entry.score;
                            }
                        },
                    }
                }
            },
            None => {},
        }
        let ghost lo0 = lo;
        let ghost hi0 = hi;
        assert(probe(entry_for(t0, board.spec_key()), depth, alpha as int, hi_clip as int) == (
        None::<int>, lo as int, hi as int));
        assert(alpha < beta ==> lo0 < hi0);
        assert(alpha >= beta ==> lo0 >= hi0);
        assert(exact ==> {
            &&& alpha <= lo0 < hi0 <= beta
            &&& lo0 > alpha ==> v >= lo0
            &&& hi0 < beta ==> v <= hi0
        });

        // Depth limit - use static evaluation
        if depth == 0 {
            return self.evaluate(board);
        }

        // Get non-losing moves
        let moves = board.possible_non_losing_moves();
        if moves == 0 {
            proof {
                lemma_all_moves_lose(*board, moves);
            }
            return -board.moves_remaining() / 2;
        }

        // Sort moves by their potential (move ordering optimization)
        let move_list = scored_moves(board, moves);
        let ordered = sort_by_priority(&move_list);
        let ghost perm = choose|perm: Seq<int>| #[trigger] sorts_stably(move_list@, ordered@, perm);
        assert(ordered@ == search_order(*board, board.non_losing_moves())) by {
            reveal(search_order);
        }
        assert(self.table().view() == t0);
        proof {
            assert forall|j: int| 0 <= j < ordered.len() implies #[trigger] in_moves(
                *board,
                moves,
                ordered@[j].0 as int,
            ) && ordered@[j].0 < 7 by {
                assert(ordered@[j] == move_list@[perm[j]]);
                assert(in_moves(*board, moves, move_list@[perm[j]].0 as int));
            }
            assert forall|c: int| #[trigger] in_moves(*board, moves, c) implies exists|k: int|
                0 <= k < ordered.len() && ordered@[k].0 == c by {
                let j = choose|j: int| 0 <= j < move_list.len() && move_list@[j].0 == c;
                assert(perm.contains(j));
                let k = choose|k: int| 0 <= k < perm.len() && perm[k] == j;
                assert(ordered@[k] == move_list@[j]);
            }
        }

        let mut best_score = i32::MIN;
        let orig_alpha = lo;
        let mut first_move = true;

        let n = ordered.len();
        let mut idx: usize = 0;
        proof {
            if n == 0 {
                lemma_moves_done(t0, *board, ordered@, 0, lo as int, hi as int, i32::MIN as int, depth);
            }
        }
        while idx < n
            invariant_except_break
                idx > 0 ==> lo < hi,
                cw ==> lo < hi,
                exact && best_score > lo0 ==> exists|c: int|
                    #[trigger] board.playable(c) && child_value(*board, c) == best_score,
                idx == 0 ==> best_score == i32::MIN && lo == lo0 && first_move,
                c0 ==> self.table().consistent(),
                table_search_moves(t0, *board, ordered@, 0, lo0 as int, hi0 as int, i32::MIN as int, depth)
                    == table_search_moves(
                    self.table().view(),
                    *board,
                    ordered@,
                    idx as int,
                    lo as int,
                    hi as int,
                    best_score as int,
                    depth,
                ),
            invariant
                self.table().scores_within(),
                *final(self.table_ref()) == *final(old(self).table_ref()),
                cw ==> self.table().consistent(),
                lo >= lo0,
                exact == (cw && depth >= board.spec_moves_remaining()),
                cw == (c0 && alpha < beta),
                v == game_value(*board),
                alpha >= beta ==> lo0 >= hi0,
                alpha < beta ==> lo0 < hi0,
                board.wf(),
                !board.spec_is_full(),
                subset_bits(moves, board.landing_cells()),
                n == ordered.len(),
                idx <= n,
                forall|j: int| 0 <= j < n ==> #[trigger] in_moves(*board, moves, ordered@[j].0 as int) && ordered@[j].0 < 7,
                1 <= depth,
                alpha > i32::MIN,
                lo0 >= alpha,
                hi > i32::MIN,
                hi == hi0,
                orig_alpha == lo0,
                best_score == i32::MIN || -score_bound() <= best_score <= score_bound(),
                c0 && best_score != i32::MIN ==> -score_cap() <= best_score <= score_cap(),
                idx > 0 ==> best_score != i32::MIN,
                idx > 0 ==> !first_move,
                best_score != i32::MIN ==> lo == max_int(lo0 as int, best_score as int),
                exact ==> forall|j: int|
                    0 <= j < idx ==> child_value(*board, #[trigger] ordered@[j].0 as int)
                        <= best_score,
                exact ==> depth - 1 >= board.spec_moves_remaining() - 1,
                idx == n ==> table_search_moves(
                    self.table().view(),
                    *board,
                    ordered@,
                    idx as int,
                    lo as int,
                    hi as int,
                    best_score as int,
                    depth,
                ) == (best_score as int, self.table().view()),
            ensures
                best_score == i32::MIN || -score_bound() <= best_score <= score_bound(),
                c0 && best_score != i32::MIN ==> -score_cap() <= best_score <= score_cap(),
                n > 0 ==> best_score != i32::MIN,
                self.table().scores_within(),
                *final(self.table_ref()) == *final(old(self).table_ref()),
                cw ==> self.table().consistent(),
                lo >= hi || idx == n,
                exact && lo < hi && best_score > lo0 ==> exists|c: int|
                    #[trigger] board.playable(c) && child_value(*board, c) == best_score,
                exact && lo >= hi ==> best_score >= hi && exists|c: int|
                    #[trigger] board.playable(c) && child_value(*board, c) >= best_score,
                table_search_moves(t0, *board, ordered@, 0, lo0 as int, hi0 as int, i32::MIN as int, depth)
                    == (best_score as int, self.table().view()),
            decreases n - idx,
        {
            let ghost t_it = self.table().view();
            let ghost best_before = best_score;
            proof {
                assert(in_moves(*board, moves, ordered@[idx as int].0 as int));
            }
            let col = ordered[idx].0;
            let col_mask = Bitboard::column_mask(col);
            let move_mask = moves & col_mask;
            proof {
                lemma_column_move(*board, moves, col as int);
                board.lemma_play_wf(col as int);
            }
            let new_board = board.play_move(move_mask);
            let ghost cv = child_value(*board, col as int);
            let ghost lo_before = lo;
            assert(new_board == board.spec_play(col as int));
            assert(-cv == game_value(new_board));
            assert(new_board.spec_moves_remaining() == board.spec_moves_remaining() - 1);

            let score = if first_move {
                // Search first move with full window
                let c = self.negamax(&new_board, -hi, -lo, depth - 1);
                proof {
                    if exact {
                        lemma_negate_window(cv, lo as int, hi as int, c as int);
                    }
                }
                -c
            } else {
                // Null window search for other moves
                let c1 = self.negamax(&new_board, -lo - 1, -lo, depth - 1);
                proof {
                    if exact {
                        lemma_negate_window(cv, lo as int, lo + 1, c1 as int);
                    }
                }
                let mut score = -c1;
                if score > lo && score < hi {
                    // Re-search with full window if it might be better
                    let c2 = self.negamax(&new_board, -hi, -lo, depth - 1);
                    proof {
                        if exact {
                            lemma_negate_window(cv, lo as int, hi as int, c2 as int);
                        }
                    }
                    score = -c2;
                }
                score
            };
            assert(exact ==> alpha_beta_ok(cv, lo_before as int, hi as int, score as int));
            assert({
                let d = (depth - 1) as u8;
                let first = table_search(t_it, new_board, if idx == 0 { -hi } else { -lo_before - 1 }, -lo_before, d);
                let searched = if idx > 0 && lo_before < -first.0 && -first.0 < hi {
                    table_search(first.1, new_board, -hi as int, -lo_before as int, d)
                } else {
                    first
                };
                score == -searched.0 && self.table().view() == searched.1
            });
            first_move = false;

            if score > best_score {
                best_score = score;
            }
            if score > lo {
                lo = score;
            }
            assert(table_search_moves(t_it, *board, ordered@, idx as int, lo_before as int, hi as int, best_before as int, depth)
                == if lo >= hi {
                (best_score as int, self.table().view())
            } else {
                table_search_moves(self.table().view(), *board, ordered@, idx + 1, lo as int, hi as int, best_score as int, depth)
            });
            if lo >= hi {
                break;
            }
            idx = idx + 1;
            proof {
                if idx == n {
                    lemma_moves_done(self.table().view(), *board, ordered@, idx as int, lo as int, hi as int, best_score as int, depth);
                }
            }
        }

        // Handle case where no moves were tried
        if best_score == i32::MIN {
            best_score = -board.moves_remaining() / 2;
        }
        proof {
            if exact {
                lemma_value_is_best_child(*board);
                if lo < hi {
                    let c = choose|c: int| #[trigger] board.playable(c) && child_value(*board, c) == v;
                    if in_moves(*board, moves, c) {
                        let k = choose|k: int| 0 <= k < ordered.len() && ordered@[k].0 == c;
                        assert(child_value(*board, ordered@[k].0 as int) <= best_score);
                    } else {
                        lemma_pruned_move_loses(*board, moves, c);
                        lemma_some_move(*board, moves);
                        let c2 = choose|c2: int| #[trigger] in_moves(*board, moves, c2) && child_value(
                            *board,
                            c2,
                        ) >= -(board.spec_moves_remaining() / 2);
                        let k = choose|k: int| 0 <= k < ordered.len() && ordered@[k].0 == c2;
                        assert(child_value(*board, ordered@[k].0 as int) <= best_score);
                    }
                    if best_score > lo0 {
                        let c3 = choose|c3: int| #[trigger] board.playable(c3) && child_value(*board, c3) == best_score;
                        assert(child_value(*board, c3) <= v);
                    }
                }
                assert(alpha_beta_ok(v, lo0 as int, hi0 as int, best_score as int));
                lemma_window_narrowing(v, alpha as int, beta as int, lo0 as int, hi0 as int, best_score as int);
            }
        }

        // Store in transposition table
        let flag = if best_score <= orig_alpha {
            TTFlag::UpperBound
        } else if best_score >= hi {
            TTFlag::LowerBound
        } else {
            TTFlag::Exact
        };
        let ghost before = *self.tt;
        self.tt.put(key, best_score, flag, depth);
        assert(self.table().view() == stored(before.view(), board.spec_key(), best_score, flag, depth));
        proof {
            if cw {
                lemma_put_consistent(before, *self.tt, *board, best_score, flag, depth);
            }
        }

        best_score
    }

    /// Find the best move for the current player using iterative deepening:
    /// an immediate win if there is one, else any move if every move loses
    /// at once, else the best-scoring move that does not lose at once. The
    /// answer, and the table it leaves, are those of `table_root`.
    #[verifier::spinoff_prover]
    #[verifier::rlimit(100)]
    pub fn find_best_move(&mut self, board: &Bitboard, max_depth: usize) -> (r: (usize, i32))
        requires
            old(self).table().scores_within(),
            board.wf(),
            max_depth <= i32::MAX,
        ensures
            final(self).table().scores_within(),
            old(self).table().consistent() ==> final(self).table().consistent(),
            board.can_win_now() ==> r.0 == first_col(wins_in(*board), 0) && r.1 == (
            board.spec_moves_remaining() + 1) / 2,
            !board.can_win_now() && board.non_losing_moves() == 0 && !board.spec_is_full() ==> r.0
                == first_col(open_in(*board), 0) && r.1 == -WIN_SCORE,
            !board.can_win_now() && board.non_losing_moves() != 0 && max_depth >= 1 ==> in_moves(
                *board,
                board.non_losing_moves(),
                r.0 as int,
            ),
            !board.can_win_now() && (board.non_losing_moves() != 0 || board.spec_is_full())
                && max_depth == 0 ==> r == (3usize, i32::MIN),
            !board.can_win_now() && board.spec_is_full() ==> r == (3usize, i32::MIN),
            best_move_answer(*board, max_depth as int, r, false, old(self).table().consistent()),
            *final(final(self).table_ref()) == *final(old(self).table_ref()),
            r == table_root(old(self).table().view(), *board, max_depth as int).0,
            final(self).table().view() == table_root(old(self).table().view(), *board, max_depth as int).1,
    {
        self.nodes_explored = 0;
        let ghost t0 = self.table().view();
        let ghost c0 = old(self).table().consistent();

        // Check for immediate wins first
        proof {
            board.lemma_landing_fits();
        }
        let winning = board.winning_positions();
        let possible = board.possible_moves();
        proof {
            board.lemma_can_win_now(winning);
        }

        if winning & possible != 0 {
            // Find which column wins
            let mut k: usize = 0;
            while k < 7
                invariant
                    self.table().scores_within(),
                    *final(self.table_ref()) == *final(old(self).table_ref()),
                    self.table() == old(self).table(),
                    board.wf(),
                    board.can_win_now(),
                    k <= 7,
                    first_col(wins_in(*board), k as int) == first_col(wins_in(*board), 0),
                    board.winning_cells_model(board.current, winning),
                    possible == board.landing_cells(),
                decreases 7 - k,
            {
                let col = order_at(k);
                let col_mask = Bitboard::column_mask(col);
                proof {
                    lemma_column_win(*board, winning, col as int);
                }
                if winning & possible & col_mask != 0 {
                    return (col, (board.moves_remaining() + 1) / 2);
                }
                k = k + 1;
            }
            proof {
                let c = choose|c: int|
                    #![trigger board.playable(c)]
                    board.playable(c) && completes_four(board.current, c, board.height(c));
                assert(wins_in(*board)(c));
                lemma_first_col_exists(wins_in(*board));
            }
        }

        // Get non-losing moves
        let safe_moves = board.possible_non_losing_moves();
        if safe_moves == 0 {
            // All moves lose - just play first available
            let mut k: usize = 0;
            while k < 7
                invariant
                    self.table().scores_within(),
                    *final(self.table_ref()) == *final(old(self).table_ref()),
                    self.table() == old(self).table(),
                    board.wf(),
                    !board.can_win_now(),
                    safe_moves == board.non_losing_moves(),
                    safe_moves == 0,
                    k <= 7,
                    first_col(open_in(*board), k as int) == first_col(open_in(*board), 0),
                decreases 7 - k,
            {
                let col = order_at(k);
                if board.can_play(col) {
                    return (col, -WIN_SCORE);
                }
                k = k + 1;
            }
            proof {
                if !board.spec_is_full() {
                    board.lemma_not_full_playable();
                    let c = choose|c: int| #[trigger] board.playable(c);
                    assert(open_in(*board)(c));
                    lemma_first_col_exists(open_in(*board));
                }
            }
        }
        proof {
            if board.spec_is_full() {
                lemma_full_no_moves(*board, safe_moves);
            }
        }

        let mut best_col: usize = 3;
        let mut best_score = i32::MIN;
        let ghost mut log: Seq<(usize, i32)> = Seq::empty();
        let ghost mut win: Seq<(int, int)> = Seq::empty();

        let mut depth: usize = 1;
        proof {
            reveal(logged_root_moves);
            if max_depth == 0 {
                lemma_deepening_done(t0, *board, 1, 0, (3usize, i32::MIN));
            }
        }
        while depth <= max_depth
            invariant_except_break
                depth == 1 ==> best_col == 3 && best_score == i32::MIN && log.len() == 0,
                depth <= max_depth + 1,
                log.len() > 0 ==> win[log.len() - 1].0 == depth - 1,
                root_deepening(t0, *board, 1, max_depth as int, (3usize, i32::MIN)) == root_deepening(
                    self.table().view(),
                    *board,
                    depth as int,
                    max_depth as int,
                    (best_col, best_score),
                ),
                depth > max_depth ==> root_deepening(
                    self.table().view(),
                    *board,
                    depth as int,
                    max_depth as int,
                    (best_col, best_score),
                ) == ((best_col, best_score), self.table().view()),
            invariant
                self.table().scores_within(),
                *final(self.table_ref()) == *final(old(self).table_ref()),
                c0 ==> self.table().consistent(),
                board.wf(),
                !board.can_win_now(),
                safe_moves == board.non_losing_moves(),
                subset_bits(safe_moves, board.landing_cells()),
                1 <= depth,
                max_depth <= i32::MAX,
                depth > 1 && safe_moves != 0 ==> in_moves(*board, safe_moves, best_col as int),
                safe_moves == 0 ==> best_col == 3 && best_score == i32::MIN && log.len() == 0,
                (best_col, best_score) == pick_best(log, log.len() as int),
                win.len() == log.len(),
                logged_root_moves(*board, safe_moves, log, win, false, c0),
                depth > 1 && safe_moves != 0 ==> covers_moves(*board, safe_moves, log) && log.len() > 0,
            ensures
                self.table().scores_within(),
                *final(self.table_ref()) == *final(old(self).table_ref()),
                c0 ==> self.table().consistent(),
                safe_moves != 0 && (max_depth >= 1) ==> in_moves(*board, safe_moves, best_col as int),
                max_depth == 0 ==> best_col == 3 && best_score == i32::MIN,
                (best_col, best_score) == pick_best(log, log.len() as int),
                win.len() == log.len(),
                logged_root_moves(*board, safe_moves, log, win, false, c0),
                safe_moves != 0 && max_depth >= 1 ==> covers_moves(*board, safe_moves, log)
                    && log.len() > 0,
                root_deepening(t0, *board, 1, max_depth as int, (3usize, i32::MIN)) == (
                    (best_col, best_score),
                    self.table().view(),
                ),
            decreases max_depth + 1 - depth,
        {
            let ghost t_d = self.table().view();
            let ghost best_d = (best_col, best_score);
            let mut lo = -WIN_SCORE;
            let hi = WIN_SCORE;

            // Sort moves for this iteration
            let move_scores = scored_moves(board, safe_moves);
            let ordered = sort_by_priority(&move_scores);
            let ghost perm = choose|perm: Seq<int>| #[trigger] sorts_stably(move_scores@, ordered@, perm);
            proof {
                assert forall|j: int| 0 <= j < ordered.len() implies #[trigger] in_moves(
                    *board,
                    safe_moves,
                    ordered@[j].0 as int,
                ) && ordered@[j].0 < 7 by {
                    assert(ordered@[j] == move_scores@[perm[j]]);
                    assert(in_moves(*board, safe_moves, move_scores@[perm[j]].0 as int));
                }
                assert forall|c: int| #[trigger] in_moves(*board, safe_moves, c) implies exists|k: int|
                    0 <= k < ordered.len() && ordered@[k].0 == c by {
                    let j = choose|j: int| 0 <= j < move_scores.len() && move_scores@[j].0 == c;
                    assert(perm.contains(j));
                    let k = choose|k: int| 0 <= k < perm.len() && perm[k] == j;
                    assert(ordered@[k] == move_scores@[j]);
                }
            }
            let ghost log0 = log;
            assert(ordered@ == search_order(*board, board.non_losing_moves())) by {
                reveal(search_order);
            }

            let n = ordered.len();
            let mut idx: usize = 0;
            let d8 = (depth % 256) as u8;
            while idx < n
                invariant
                    d8 == depth % 256,
                    self.table().scores_within(),
                    *final(self.table_ref()) == *final(old(self).table_ref()),
                    c0 ==> self.table().consistent(),
                    c0 ==> lo <= score_cap(),
                    board.wf(),
                    subset_bits(safe_moves, board.landing_cells()),
                    n == ordered.len(),
                    n <= 7,
                    idx <= n,
                    forall|j: int|
                        0 <= j < n ==> #[trigger] in_moves(*board, safe_moves, ordered@[j].0 as int)
                            && ordered@[j].0 < 7,
                    -WIN_SCORE <= lo <= score_bound(),
                    hi == WIN_SCORE,
                    (depth > 1 || idx > 0) && safe_moves != 0 ==> in_moves(*board, safe_moves, best_col as int),
                    depth == 1 && idx == 0 ==> best_col == 3 && best_score == i32::MIN,
                    safe_moves == 0 ==> n == 0 && best_col == 3 && best_score == i32::MIN,
                    1 <= depth <= max_depth,
                    max_depth <= i32::MAX,
                    (best_col, best_score) == pick_best(log, log.len() as int),
                    win.len() == log.len(),
                    logged_root_moves(*board, safe_moves, log, win, false, c0),
                    idx == 0 ==> lo == -WIN_SCORE,
                    idx > 0 ==> win[log.len() - 1].0 == depth && lo == max_int(
                        win[log.len() - 1].1,
                        log[log.len() - 1].1 as int,
                    ),
                    log0.len() > 0 ==> log.len() > 0 && win[log0.len() - 1].0 == depth - 1,
                    log.len() == log0.len() + idx,
                    forall|i: int| 0 <= i < log0.len() ==> log[i] == log0[i],
                    forall|j: int| 0 <= j < idx ==> log[log0.len() + j].0 == #[trigger] ordered@[j].0,
                    depth == 1 ==> log0.len() == 0,
                    depth > 1 && safe_moves != 0 ==> covers_moves(*board, safe_moves, log0)
                        && log0.len() > 0,
                    root_moves(t_d, *board, ordered@, 0, -WIN_SCORE as int, best_d, d8) == root_moves(
                        self.table().view(),
                        *board,
                        ordered@,
                        idx as int,
                        lo as int,
                        (best_col, best_score),
                        d8,
                    ),
                decreases n - idx,
            {
                let ghost t_m = self.table().view();
                proof {
                    assert(in_moves(*board, safe_moves, ordered@[idx as int].0 as int));
                }
                let col = ordered[idx].0;
                let col_mask = Bitboard::column_mask(col);
                let move_mask = safe_moves & col_mask;
                proof {
                    lemma_column_move(*board, safe_moves, col as int);
                    board.lemma_play_wf(col as int);
                }
                let new_board = board.play_move(move_mask);
                let ghost lo_m = lo;
                let ghost best_m = (best_col, best_score);
                let child = self.negamax(&new_board, -hi, -lo, d8);
                let score = -child;
                proof {
                    reveal(logged_root_moves);
                    assert(new_board == board.spec_play(col as int));
                    let e = (col, score);
                    let we = (depth as int, lo as int);
                    assert(root_answer(*board, e, we, false, c0));
                    let log2 = log.push(e);
                    let win2 = win.push(we);
                    assert(root_window(log2, win2, log.len() as int));
                    assert forall|i: int| 0 <= i < log.len() implies #[trigger] root_window(log2, win2, i)
                        == root_window(log, win, i) by {
                        assert(log2[i] == log[i] && win2[i] == win[i]);
                        if i > 0 {
                            assert(log2[i - 1] == log[i - 1] && win2[i - 1] == win[i - 1]);
                        }
                    }
                    lemma_pick_best_push(log, e);
                    log = log2;
                    win = win2;
                }

                let best = prefer_move((best_col, best_score), col, score);
                best_col = best.0;
                best_score = best.1;
                if score > lo {
                    lo = score;
                }
                assert(root_moves(t_m, *board, ordered@, idx as int, lo_m as int, best_m, d8) == root_moves(
                    self.table().view(),
                    *board,
                    ordered@,
                    idx + 1,
                    lo as int,
                    (best_col, best_score),
                    d8,
                )) by {
                    reveal(root_moves);
                }
                idx = idx + 1;
            }
            assert(root_moves(t_d, *board, ordered@, 0, -WIN_SCORE as int, best_d, d8) == (
                (best_col, best_score),
                self.table().view(),
            )) by {
                reveal(root_moves);
            }
            proof {
                if safe_moves != 0 {
                    assert forall|c: int| #[trigger] in_moves(*board, safe_moves, c) implies exists|i: int|
                        0 <= i < log.len() && log[i].0 == c by {
                        let k = choose|k: int| 0 <= k < ordered.len() && ordered@[k].0 == c;
                        assert(log[log0.len() + k].0 == ordered@[k].0);
                    }
                    lemma_some_safe_column(*board, safe_moves);
                    let c = choose|j: int| 0 <= j < 7 && #[trigger] in_moves(*board, safe_moves, column_order()[j]);
                    assert(in_moves(*board, safe_moves, column_order()[c]));
                }
            }

            // Early exit if we found a winning move
            let stop = best_score >= (board.moves_remaining() - depth as i32) / 2;
            assert(stop == (best_score >= half_toward_zero(board.spec_moves_remaining() - depth)));
            assert(root_deepening(t_d, *board, depth as int, max_depth as int, best_d) == if stop {
                ((best_col, best_score), self.table().view())
            } else {
                root_deepening(self.table().view(), *board, depth + 1, max_depth as int, (best_col, best_score))
            }) by {
                reveal(root_deepening);
            }
            if stop {
                break;
            }
            depth = depth + 1;
            proof {
                if depth > max_depth {
                    lemma_deepening_done(self.table().view(), *board, depth as int, max_depth as int, (best_col, best_score));
                }
            }
        }
        proof {
            if !board.can_win_now() && board.non_losing_moves() != 0 && max_depth >= 1 {
                reveal(logged_root_moves);
                assert(scored_root_moves(*board, log, win, false, c0));
            }
        }

        (best_col, best_score)
    }
}

/// Scores of a consistent table, and so every score the search returns,
/// stay within this cap: the static evaluation never exceeds it.
pub open spec fn score_cap() -> int {
    1280
}

/// The entry bounds the value `v` as its flag says.
pub open spec fn bounds_value(e: TTEntry, v: int) -> bool {
    match e.flag {
        TTFlag::Exact => v == e.score,
        TTFlag::LowerBound => v >= e.score,
        TTFlag::UpperBound => v <= e.score,
    }
}

impl TranspositionTable {
    /// Every stored score is within the cap, and every entry that the table
    /// answers for a position, stored from a search deep enough to reach the
    /// end of the game, bounds the game value of that position as its flag
    /// says.
    pub open spec fn consistent(self) -> bool {
        &&& forall|k: u64|
            self.view().contains_key(k) ==> -score_cap() <= #[trigger] self.view()[k].score
                <= score_cap()
        &&& forall|b: Bitboard|
            #![trigger self.lookup(b.spec_key())]
            b.wf() && self.lookup(b.spec_key()) is Some && self.lookup(b.spec_key())->0.depth
                >= b.spec_moves_remaining() ==> bounds_value(
                self.lookup(b.spec_key())->0,
                game_value(b),
            )
    }
}

/// An empty table is consistent.
pub proof fn lemma_empty_consistent(tt: TranspositionTable)
    requires
        tt.view() == Map::<u64, TTEntry>::empty(),
    ensures
        tt.consistent(),
{
}

/// Storing an entry that bounds the game value of its position (when its
/// depth reaches the end of the game) keeps a table consistent.
proof fn lemma_put_consistent(
    before: TranspositionTable,
    after: TranspositionTable,
    board: Bitboard,
    score: i32,
    flag: TTFlag,
    depth: u8,
)
    requires
        before.consistent(),
        board.wf(),
        -score_cap() <= score <= score_cap(),
        depth >= board.spec_moves_remaining() ==> bounds_value(
            (TTEntry { key: board.spec_key(), score: score, flag: flag, depth: depth }),
            game_value(board),
        ),
        before.keeps_existing(board.spec_key(), depth) ==> after.view() == before.view(),
        !before.keeps_existing(board.spec_key(), depth) ==> after.view() == before.view().insert(
            board.spec_key(),
            (TTEntry { key: board.spec_key(), score: score, flag: flag, depth: depth }),
        ),
    ensures
        after.consistent(),
{
    board.lemma_key_fits();
    assert forall|b: Bitboard|
        #![trigger after.lookup(b.spec_key())]
        b.wf() && after.lookup(b.spec_key()) is Some && after.lookup(b.spec_key())->0.depth
            >= b.spec_moves_remaining() implies bounds_value(
        after.lookup(b.spec_key())->0,
        game_value(b),
    ) by {
        if b.spec_key() == board.spec_key() && !before.keeps_existing(board.spec_key(), depth) {
            b.lemma_key_fits();
            Bitboard::lemma_key_unique(b, board);
        } else {
            assert(after.lookup(b.spec_key()) == before.lookup(b.spec_key()));
        }
    }
}

/// Scores are kept within this bound.
pub open spec fn score_bound() -> int {
    1_000_000_000
}

impl TranspositionTable {
    /// Every stored score is within the score bound.
    pub open spec fn scores_within(self) -> bool {
        forall|k: u64|
            self.view().contains_key(k) ==> -score_bound() <= #[trigger] self.view()[k].score
                <= score_bound()
    }
}

/// The search of `board` with window `(alpha, beta)` to `depth` gets past
/// its early answers: the board is not full, the mover cannot win at once,
/// the bound on the score does not close the window, and the table holds no
/// entry for the position from a search at least this deep.
pub open spec fn search_proceeds(
    tt: TranspositionTable,
    board: Bitboard,
    alpha: i32,
    beta: i32,
    depth: u8,
) -> bool {
    let max_score = (board.spec_moves_remaining() - 1) / 2;
    &&& !board.spec_is_full()
    &&& !board.can_win_now()
    &&& !(beta > max_score && alpha >= max_score)
    &&& !(tt.lookup(board.spec_key()) is Some && tt.lookup(board.spec_key())->0.depth >= depth)
}

/// What an entry found for the position says to a search of window
/// `(lo, hi)` to `depth`: an answer at once (first), or the window it
/// leaves (second and third). Only an entry from a search at least as deep
/// has a say.
pub open spec fn probe(e: Option<TTEntry>, depth: u8, lo: int, hi: int) -> (Option<int>, int, int) {
    match e {
        Some(en) => if en.depth >= depth {
            match en.flag {
                TTFlag::Exact => (Some(en.score as int), lo, hi),
                TTFlag::LowerBound => if en.score >= hi {
                    (Some(en.score as int), lo, hi)
                } else if en.score > lo {
                    (None, en.score as int, hi)
                } else {
                    (None, lo, hi)
                },
                TTFlag::UpperBound => if en.score <= lo {
                    (Some(en.score as int), lo, hi)
                } else if en.score < hi {
                    (None, lo, en.score as int)
                } else {
                    (None, lo, hi)
                },
            }
        } else {
            (None, lo, hi)
        },
        None => (None, lo, hi),
    }
}

/// The search of `b` with window `(alpha, beta)` down to `depth` plies over
/// the stored entries `tt`: its answer and the entries it leaves. A full
/// board is a draw; a win at once scores the moves left, halved, rounded
/// up; the window is cut to the best score still possible; an entry of the
/// table from a search at least this deep answers or narrows the window; at
/// depth 0 the static evaluation answers; with no non-losing move the loss
/// in the moves left answers; else the non-losing moves are searched in
/// `search_order` and the best score is stored with its flag.
pub open spec fn table_search(tt: Map<u64, TTEntry>, b: Bitboard, alpha: int, beta: int, depth: u8) -> (
    int,
    Map<u64, TTEntry>,
)
    decreases depth, 1int, 0int,
{
    let rem = b.spec_moves_remaining();
    let max_score = (rem - 1) / 2;
    if b.spec_is_full() {
        (0, tt)
    } else if b.can_win_now() {
        ((rem + 1) / 2, tt)
    } else if beta > max_score && alpha >= max_score {
        (max_score, tt)
    } else {
        let p = probe(entry_for(tt, b.spec_key()), depth, alpha, min_int(beta, max_score));
        if p.0 is Some {
            (p.0->0, tt)
        } else if depth == 0 {
            (basic_evaluation(b), tt)
        } else if b.non_losing_moves() == 0 {
            (-(rem / 2), tt)
        } else {
            let r = table_search_moves(
                tt,
                b,
                search_order(b, b.non_losing_moves()),
                0,
                p.1,
                p.2,
                i32::MIN as int,
                depth,
            );
            let best = if r.0 == i32::MIN { -(rem / 2) } else { r.0 };
            let flag = if best <= p.1 {
                TTFlag::UpperBound
            } else if best >= p.2 {
                TTFlag::LowerBound
            } else {
                TTFlag::Exact
            };
            (best, stored(r.1, b.spec_key(), best as i32, flag, depth))
        }
    }
}

/// The moves of `order` from `idx` on, searched one after the other from the
/// stored entries `tt` with the lower end of the window at `lo` and the best
/// score so far `best`: the first move with the full window, each later one
/// with a null window first and again with the full window when it lands
/// inside. A score at or above `hi` cuts the rest off. The best score and
/// the entries left.
pub open spec fn table_search_moves(
    tt: Map<u64, TTEntry>,
    b: Bitboard,
    order: Seq<(usize, i32)>,
    idx: int,
    lo: int,
    hi: int,
    best: int,
    depth: u8,
) -> (int, Map<u64, TTEntry>)
    decreases depth, 0int, order.len() - idx,
{
    if idx < 0 || idx >= order.len() || depth == 0 {
        (best, tt)
    } else {
        let child = b.spec_play(order[idx].0 as int);
        let d = (depth - 1) as u8;
        let first = table_search(tt, child, if idx == 0 { -hi } else { -lo - 1 }, -lo, d);
        let searched = if idx > 0 && lo < -first.0 && -first.0 < hi {
            table_search(first.1, child, -hi, -lo, d)
        } else {
            first
        };
        let score = -searched.0;
        let best2 = max_int(best, score);
        let lo2 = max_int(lo, score);
        if lo2 >= hi {
            (best2, searched.1)
        } else {
            table_search_moves(searched.1, b, order, idx + 1, lo2, hi, best2, depth)
        }
    }
}
/// The root moves of `order` from `idx` on in one iteration of the root
/// search, from the stored entries `tt`: each searched to the depth byte
/// `d8` with the window `(-WIN_SCORE, -lo)` for the position after it, its
/// score negated; `lo` rises to each score and `prefer` keeps the best move.
/// The best move and the entries left.
#[verifier::opaque]
pub open spec fn root_moves(
    tt: Map<u64, TTEntry>,
    b: Bitboard,
    order: Seq<(usize, i32)>,
    idx: int,
    lo: int,
    best: (usize, i32),
    d8: u8,
) -> ((usize, i32), Map<u64, TTEntry>)
    decreases order.len() - idx,
{
    if idx < 0 || idx >= order.len() {
        (best, tt)
    } else {
        let col = order[idx].0;
        let s = table_search(tt, b.spec_play(col as int), -WIN_SCORE, -lo, d8);
        let score = -s.0;
        root_moves(s.1, b, order, idx + 1, max_int(lo, score), prefer(best, (col, score as i32)), d8)
    }
}

/// Iterative deepening from iteration `depth` up to `max_depth`: each
/// iteration scores the non-losing moves in `search_order` with `root_moves`,
/// carrying the best move on, and the deepening stops early once the best
/// score reaches half the moves left after this many plies.
#[verifier::opaque]
pub open spec fn root_deepening(
    tt: Map<u64, TTEntry>,
    b: Bitboard,
    depth: int,
    max_depth: int,
    best: (usize, i32),
) -> ((usize, i32), Map<u64, TTEntry>)
    decreases max_depth + 1 - depth,
{
    if depth < 1 || depth > max_depth {
        (best, tt)
    } else {
        let it = root_moves(
            tt,
            b,
            search_order(b, b.non_losing_moves()),
            0,
            -WIN_SCORE as int,
            best,
            (depth % 256) as u8,
        );
        if it.0.1 >= half_toward_zero(b.spec_moves_remaining() - depth) {
            it
        } else {
            root_deepening(it.1, b, depth + 1, max_depth, it.0)
        }
    }
}

/// Past the last move there is nothing left to search.
proof fn lemma_moves_done(
    tt: Map<u64, TTEntry>,
    b: Bitboard,
    order: Seq<(usize, i32)>,
    idx: int,
    lo: int,
    hi: int,
    best: int,
    depth: u8,
)
    requires
        idx >= order.len(),
    ensures
        table_search_moves(tt, b, order, idx, lo, hi, best, depth) == (best, tt),
{
}

/// Past the last iteration the deepening answers what it carries.
proof fn lemma_deepening_done(
    tt: Map<u64, TTEntry>,
    b: Bitboard,
    depth: int,
    max_depth: int,
    best: (usize, i32),
)
    requires
        depth > max_depth,
    ensures
        root_deepening(tt, b, depth, max_depth, best) == (best, tt),
{
    reveal(root_deepening);
}

/// The root search of `b` with up to `max_depth` iterations over the stored
/// entries `tt`: its move and score, and the entries it leaves. The first
/// winning column in exploration order, with the moves left halved and
/// rounded up; else, when every move loses at once, the first open column
/// with `-WIN_SCORE`; else what the iterative deepening gives, starting from
/// column 3 with no score.
pub open spec fn table_root(tt: Map<u64, TTEntry>, b: Bitboard, max_depth: int) -> (
    (usize, i32),
    Map<u64, TTEntry>,
) {
    if b.can_win_now() {
        ((first_col(wins_in(b), 0) as usize, ((b.spec_moves_remaining() + 1) / 2) as i32), tt)
    } else if b.non_losing_moves() == 0 && !b.spec_is_full() {
        ((first_col(open_in(b), 0) as usize, (-WIN_SCORE) as i32), tt)
    } else {
        root_deepening(tt, b, 1, max_depth, (3usize, i32::MIN))
    }
}

// ============================================================================
// Game state
// ============================================================================

/// Game state
pub struct Game {
    pub board: Bitboard,
    pub red_turn: bool,
    pub depth: usize,
    pub tt: TranspositionTable,
    pub opening_book: OpeningBook,
}

impl Game {
    pub fn new(depth: usize) -> (r: Self)
        ensures
            r.board == empty_board(),
            r.red_turn,
            r.depth == depth,
            r.tt.view() == Map::<u64, TTEntry>::empty(),
            r.tt.consistent(),
            r.opening_book.view() == book_entries(),
    {
        Game {
            board: Bitboard::new(),
            red_turn: true,
            depth,
            tt: TranspositionTable::new(),
            opening_book: OpeningBook::new(),
        }
    }

    pub fn play(&mut self, col: usize)
        requires
            col <= 9,
            old(self).board.mask + (1u64 << (7 * col) as u64) <= u64::MAX,
            old(self).board.moves < u32::MAX,
        ensures
            final(self).board.current == old(self).board.current ^ old(self).board.mask,
            final(self).board.mask == old(self).board.mask | ((old(self).board.mask + (1u64 << (7
                * col) as u64)) as u64),
            final(self).board.moves == old(self).board.moves + 1,
            old(self).board.wf() && old(self).board.playable(col as int) ==> final(self).board
                == old(self).board.spec_play(col as int),
            final(self).red_turn == !old(self).red_turn,
            final(self).depth == old(self).depth,
            final(self).tt == old(self).tt,
            final(self).opening_book == old(self).opening_book,
    {
        self.board = self.board.play(col);
        self.red_turn = !self.red_turn;
    }

    pub fn can_play(&self, col: usize) -> (r: bool)
        requires
            col <= 8,
        ensures
            r == (self.board.mask & (1u64 << (7 * col + 5) as u64) == 0),
            self.board.wf() && col < 7 ==> r == self.board.playable(col as int),
    {
        self.board.can_play(col)
    }

    /// The column a player means by the number `entered`, counting columns
    /// from 1: `None` unless it names a column with room.
    pub fn column_from_input(&self, entered: usize) -> (r: Option<usize>)
        requires
            self.board.wf(),
        ensures
            r == (if 1 <= entered <= 7 && self.board.playable(entered - 1) {
                Some((entered - 1) as usize)
            } else {
                None
            }),
    {
        if 1 <= entered && entered <= COLS && self.can_play(entered - 1) {
            Some(entered - 1)
        } else {
            None
        }
    }

    /// The game is over: the last move made four in a line, or the board is
    /// full.
    pub fn is_game_over(&self) -> (r: bool)
        requires
            self.board.wf(),
        ensures
            r == (has_four(self.board.opponent_bits()) || self.board.spec_is_full()),
    {
        self.board.opponent_wins() || self.board.is_full()
    }

    /// The winner, when the last move made four in a line: red moves on
    /// `red_turn`, so the last move was yellow's then.
    pub fn get_winner(&self) -> (r: Option<&str>)
        requires
            self.board.wf(),
        ensures
            has_four(self.board.opponent_bits()) ==> r == Some(
                if self.red_turn {
                    "YELLOW"
                } else {
                    "RED"
                },
            ),
            !has_four(self.board.opponent_bits()) ==> r.is_none(),
    {
        if self.board.opponent_wins() {
            // The opponent of current player won (the one who just played)
            Some(if self.red_turn { "YELLOW" } else { "RED" })
        } else {
            None // Draw or game not over
        }
    }
}

/// The search depth that the command-line game gives each difficulty name, in lower
/// case: `None` for any other name.
pub open spec fn difficulty_table(name: Seq<u8>) -> Option<usize> {
    if name == seq![101u8, 97, 115, 121] {
        // "easy"
        Some(6usize)
    } else if name == seq![109u8, 101, 100, 105, 117, 109] {
        // "medium"
        Some(10usize)
    } else if name == seq![104u8, 97, 114, 100] {
        // "hard"
        Some(14usize)
    } else if name == seq![118u8, 104, 97, 114, 100] {
        // "vhard"
        Some(18usize)
    } else if name == seq![101u8, 120, 112, 101, 114, 116] {
        // "expert"
        Some(24usize)
    } else if name == seq![105u8, 109, 112, 111, 115, 115, 105, 98, 108, 101] {
        // "impossible"
        Some(42usize)
    } else {
        None
    }
}

/// The search depth for a difficulty name, given in lower case.
pub fn difficulty_depth(name: &[u8]) -> (r: Option<usize>)
    ensures
        r == difficulty_table(name@),
{
    if bytes_equal(name, &[101u8, 97, 115, 121]) {
        // "easy"
        Some(6)
    } else if bytes_equal(name, &[109u8, 101, 100, 105, 117, 109]) {
        // "medium"
        Some(10)
    } else if bytes_equal(name, &[104u8, 97, 114, 100]) {
        // "hard"
        Some(14)
    } else if bytes_equal(name, &[118u8, 104, 97, 114, 100]) {
        // "vhard"
        Some(18)
    } else if bytes_equal(name, &[101u8, 120, 112, 101, 114, 116]) {
        // "expert"
        Some(24)
    } else if bytes_equal(name, &[105u8, 109, 112, 111, 115, 115, 105, 98, 108, 101]) {
        // "impossible"
        Some(42)
    } else {
        None
    }
}

} // verus!
