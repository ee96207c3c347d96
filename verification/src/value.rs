//! The exact game-theoretic score that the search computes.
//!
//! Scores count from the mover's side: a win with the mover's next disc is
//! worth `(moves_remaining + 1) / 2`, so a quicker win scores higher; a full
//! board scores 0; otherwise the score is the best negated score of the
//! boards one move later (negamax).

use vstd::prelude::*;
use crate::bits::{bit, subset_bits, group_bits};
use crate::bitboard::{Bitboard, cell_index, completes_four};

verus! {

broadcast use group_bits;

/// Below every score of a non-full board; stands for "no move".
pub open spec fn no_move() -> int {
    -100
}

/// The score of `b` for the player to move, with perfect play by both sides.
pub open spec fn game_value(b: Bitboard) -> int
    decreases 42 - b.moves, 8int,
{
    if !b.wf() || b.spec_is_full() {
        0
    } else if b.can_win_now() {
        (b.spec_moves_remaining() + 1) / 2
    } else {
        best_child(b, 0)
    }
}

/// The score of dropping a disc in `col`, from the mover's side.
pub open spec fn child_value(b: Bitboard, col: int) -> int
    recommends
        b.wf(),
        b.playable(col),
{
    -game_value(b.spec_play(col))
}

/// The best score over the columns `k..7` that have room.
pub open spec fn best_child(b: Bitboard, k: int) -> int
    decreases 42 - b.moves, 7 - k,
{
    if k < 0 || k >= 7 || !b.wf() || b.spec_is_full() {
        no_move()
    } else {
        let here = if b.playable(k) {
            -game_value(b.spec_play(k))
        } else {
            no_move()
        };
        let rest = best_child(b, k + 1);
        if here >= rest {
            here
        } else {
            rest
        }
    }
}

/// `r` is a correct answer of an alpha-beta search with window
/// `(alpha, beta)` for true score `v`: exact inside the window, an upper
/// bound at or below `alpha`, a lower bound at or above `beta`.
pub open spec fn alpha_beta_ok(v: int, alpha: int, beta: int, r: int) -> bool {
    &&& r <= alpha ==> v <= r
    &&& r >= beta ==> v >= r
    &&& alpha < r < beta ==> v == r
}

/// `best_child(b, k)` is at least every playable child from `k` on.
pub proof fn lemma_best_child_ge(b: Bitboard, k: int, col: int)
    requires
        b.wf(),
        !b.spec_is_full(),
        0 <= k <= col < 7,
        b.playable(col),
    ensures
        best_child(b, k) >= child_value(b, col),
    decreases 7 - k,
{
    if k < col {
        lemma_best_child_ge(b, k + 1, col);
    }
}

/// `best_child(b, k)` is attained by a playable child from `k` on, or no
/// column from `k` on has room.
pub proof fn lemma_best_child_attained(b: Bitboard, k: int)
    requires
        b.wf(),
        !b.spec_is_full(),
        0 <= k <= 7,
    ensures
        best_child(b, k) == no_move() || exists|col: int|
            k <= col < 7 && #[trigger] b.playable(col) && best_child(b, k) == child_value(b, col),
        (forall|col: int| k <= col < 7 ==> !#[trigger] b.playable(col)) ==> best_child(b, k)
            == no_move(),
    decreases 7 - k,
{
    if k < 7 {
        lemma_best_child_attained(b, k + 1);
    }
}

/// Bounds on the score: a player to move can at best win at once and at
/// worst lose on the opponent's next move.
pub proof fn lemma_value_bounds(b: Bitboard)
    requires
        b.wf(),
    ensures
        -(b.spec_moves_remaining() / 2) <= game_value(b) <= (b.spec_moves_remaining() + 1) / 2,
        !b.spec_is_full() && !b.can_win_now() ==> game_value(b) <= (b.spec_moves_remaining() - 1)
            / 2,
    decreases 42 - b.moves,
{
    if !b.spec_is_full() && !b.can_win_now() {
        let rem = b.spec_moves_remaining();
        b.lemma_not_full_playable();
        let c0 = choose|col: int| #[trigger] b.playable(col);
        assert forall|col: int| #[trigger] b.playable(col) implies -(rem / 2) <= child_value(b, col)
            <= (rem - 1) / 2 by {
            b.lemma_play_wf(col);
            lemma_value_bounds(b.spec_play(col));
        }
        lemma_best_child_ge(b, 0, c0);
        lemma_best_child_attained(b, 0);
    }
}

/// An alpha-beta answer for a window wider than every score on the board
/// is the exact score.
pub proof fn lemma_wide_window_exact(b: Bitboard, alpha: int, beta: int, r: int)
    requires
        b.wf(),
        alpha < -21,
        beta > 21,
        alpha_beta_ok(game_value(b), alpha, beta, r),
    ensures
        r == game_value(b),
{
    lemma_value_bounds(b);
}

/// A child position where the new mover completes four at once is worth
/// `-(moves_remaining / 2)` to the parent: the least any move is worth.
pub proof fn lemma_losing_child(b: Bitboard, col: int)
    requires
        b.wf(),
        b.playable(col),
        b.spec_play(col).can_win_now(),
    ensures
        child_value(b, col) == -(b.spec_moves_remaining() / 2),
{
    let c = b.spec_play(col);
    b.lemma_play_wf(col);
    let w = choose|x: int| #![trigger c.playable(x)]
        c.playable(x) && completes_four(c.current, x, c.height(x));
    c.lemma_playable_not_full(w);
}

/// The opponent completes four in another column, which stays open after a
/// drop in `col`: the drop loses at once.
pub proof fn lemma_other_threat_loses(b: Bitboard, col: int, other: int)
    requires
        b.wf(),
        b.playable(col),
        other != col,
        b.opponent_threatens(other),
    ensures
        child_value(b, col) == -(b.spec_moves_remaining() / 2),
{
    let c = b.spec_play(col);
    b.lemma_play_wf(col);
    assert(c.playable(other));
    assert(completes_four(c.current, other, c.height(other)));
    lemma_losing_child(b, col);
}

/// A drop in `col` that opens the cell above to the opponent loses at once.
pub proof fn lemma_exposing_move_loses(b: Bitboard, col: int)
    requires
        b.wf(),
        b.playable(col),
        b.exposes(col),
    ensures
        child_value(b, col) == -(b.spec_moves_remaining() / 2),
{
    let c = b.spec_play(col);
    b.lemma_play_wf(col);
    assert(c.playable(col));
    assert(completes_four(c.current, col, c.height(col)));
    lemma_losing_child(b, col);
}

/// Column `col` is one of the moves in `moves`.
pub open spec fn in_moves(b: Bitboard, moves: u64, col: int) -> bool {
    b.playable(col) && bit(moves, cell_index(col, b.height(col)))
}

/// Every column left out of the non-losing moves loses at once.
pub proof fn lemma_pruned_move_loses(b: Bitboard, moves: u64, col: int)
    requires
        b.wf(),
        b.non_losing_model(moves),
        subset_bits(moves, b.landing_cells()),
        b.playable(col),
        !in_moves(b, moves, col),
    ensures
        child_value(b, col) == -(b.spec_moves_remaining() / 2),
{
    b.lemma_wf_cells();
    if b.double_threat() {
        let (c1, c2) = choose|c1: int, c2: int|
            c1 != c2 && #[trigger] b.opponent_threatens(c1) && #[trigger] b.opponent_threatens(c2);
        if c1 != col {
            lemma_other_threat_loses(b, col, c1);
        } else {
            lemma_other_threat_loses(b, col, c2);
        }
    } else if exists|c: int| #[trigger] b.opponent_threatens(c) {
        let c = choose|c: int| #[trigger] b.opponent_threatens(c);
        assert(b.single_threat(c)) by {
            assert forall|c2: int| c2 != c implies !#[trigger] b.opponent_threatens(c2) by {
                if b.opponent_threatens(c2) {
                    assert(b.double_threat());
                }
            }
        }
        if c == col {
            if b.exposes(c) {
                lemma_exposing_move_loses(b, col);
            } else {
                assert(moves == b.landing_bit(c));
                assert(bit(moves, cell_index(col, b.height(col))));
            }
        } else {
            lemma_other_threat_loses(b, col, c);
        }
    } else {
        assert(b.exposes(col));
        lemma_exposing_move_loses(b, col);
    }
}

/// Without an immediate win, the score is the best child; every child is at
/// most `x` exactly when the score is at most `x`.
pub proof fn lemma_value_is_best_child(b: Bitboard)
    requires
        b.wf(),
        !b.spec_is_full(),
        !b.can_win_now(),
    ensures
        game_value(b) == best_child(b, 0),
        forall|col: int| #[trigger] b.playable(col) ==> child_value(b, col) <= game_value(b),
        exists|col: int| #[trigger] b.playable(col) && child_value(b, col) == game_value(b),
{
    b.lemma_not_full_playable();
    lemma_best_child_attained(b, 0);
    let c0 = choose|col: int| #[trigger] b.playable(col);
    lemma_best_child_ge(b, 0, c0);
    b.lemma_play_wf(c0);
    lemma_value_bounds(b.spec_play(c0));
    assert forall|col: int| #[trigger] b.playable(col) implies child_value(b, col) <= game_value(
        b,
    ) by {
        lemma_best_child_ge(b, 0, col);
    }
}

/// A child's answer, read from the parent's side: a child search with
/// window `(-beta, -alpha)` answering `c` is a parent answer `-c` for the
/// window `(alpha, beta)`.
pub proof fn lemma_negate_window(cv: int, alpha: int, beta: int, c: int)
    requires
        alpha_beta_ok(-cv, -beta, -alpha, c),
    ensures
        alpha_beta_ok(cv, alpha, beta, -c),
{
}

/// An answer that is right for a narrower window, narrowed only by what is
/// known of the value, is right for the wider one.
pub proof fn lemma_window_narrowing(v: int, alpha: int, beta: int, lo: int, hi: int, r: int)
    requires
        alpha <= lo < hi <= beta,
        lo > alpha ==> v >= lo,
        hi < beta ==> v <= hi,
        alpha_beta_ok(v, lo, hi, r),
    ensures
        alpha_beta_ok(v, alpha, beta, r),
{
}

/// When no move is left after pruning the losing ones, every move loses at
/// once, and so does the position.
pub proof fn lemma_all_moves_lose(b: Bitboard, moves: u64)
    requires
        b.wf(),
        !b.spec_is_full(),
        !b.can_win_now(),
        moves == 0,
        b.non_losing_model(moves),
        subset_bits(moves, b.landing_cells()),
    ensures
        game_value(b) == -(b.spec_moves_remaining() / 2),
{
    assert forall|col: int| #[trigger] b.playable(col) implies child_value(b, col) == -(
    b.spec_moves_remaining() / 2) by {
        assert(!bit(0u64, cell_index(col, b.height(col))));
        lemma_pruned_move_loses(b, moves, col);
    }
    lemma_value_is_best_child(b);
}

} // verus!
