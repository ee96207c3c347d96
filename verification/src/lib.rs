//! Connect Four engine: bitboard rules, game state and search.
//!
//! - `bitboard`: the 7x6 board packed in 64-bit masks, move generation and
//!   win detection, each stated against a geometric model of the board.
//! - `game`: the opening book and the game state.
//! - `bits`: the bit-level facts the proofs rest on.
//! - `value`: the exact game score that the searches are held to.
//! - `solver`: Zobrist hashing, the transposition table, killer moves, the
//!   exact endgame solver, the depth-limited negamax search and the steps of
//!   the parallel root search.
//! - `engine`: the simpler engine of the command-line game, with a
//!   transposition table keyed by the position key.

pub mod bits;
pub mod bitboard;
pub mod value;
pub mod solver;
pub mod game;
pub mod engine;

use vstd::prelude::*;

verus! {

// Board dimensions
pub const ROWS: usize = 6;

pub const COLS: usize = 7;

pub const TOTAL_CELLS: usize = 42;

// Scores for win/loss detection
pub const WIN_SCORE: i32 = 1_000_000;

pub const DRAW_SCORE: i32 = 0;

// Transposition table size (a power of two, so that masking is a modulo)
pub const TT_SIZE: usize = 16_777_216;

pub const TT_MASK: u64 = 16_777_215;

// Killer move table depth
pub const MAX_KILLER_DEPTH: usize = 64;

pub const KILLERS_PER_PLY: usize = 2;

// Positions with at most this many moves left are solved exactly
pub const ENDGAME_THRESHOLD: i32 = 14;

} // verus!
