//! Bitboard representation for Connect Four
//!
//! A 64-bit integer holds 7 bits per column (6 cells and 1 sentinel), so that
//! win detection is a handful of shifts and masks.
//!
//! Column layout (bit positions):
//!  5 12 19 26 33 40 47
//!  4 11 18 25 32 39 46
//!  3 10 17 24 31 38 45
//!  2  9 16 23 30 37 44
//!  1  8 15 22 29 36 43
//!  0  7 14 21 28 35 42
//!
//! The model: cell `(col, row)` (row 0 at the bottom) is bit `7 * col + row`.
//! A well-formed board (`wf`) has, in every column, the rows `0..height`
//! filled and nothing above; the player to move owns `current`, the other
//! player owns `mask & !current`.

use vstd::prelude::*;
use crate::{COLS, ROWS, TOTAL_CELLS};
use crate::bits::{bit, subset_bits, popcount, group_bits, lemma_bits_ext, lemma_nonzero_has_bit, lemma_zero_iff_no_bits, lemma_two_bits_test, count_ones};

verus! {

broadcast use group_bits;

// ---------------------------------------------------------------------------
// The geometric model
// ---------------------------------------------------------------------------

/// Index of the bit that stands for cell `(col, row)`.
pub open spec fn cell_index(col: int, row: int) -> int {
    7 * col + row
}

/// Cell `(col, row)` lies on the 7x6 board.
pub open spec fn on_board(col: int, row: int) -> bool {
    0 <= col < 7 && 0 <= row < 6
}

/// The pieces in `p` include the on-board cell `(col, row)`.
pub open spec fn has_disc(p: u64, col: int, row: int) -> bool {
    on_board(col, row) && bit(p, cell_index(col, row))
}

/// The cells `(col, row) + t * (dc, dr)` for `t` in `0..4` are all in `p`.
pub open spec fn four_from(p: u64, col: int, row: int, dc: int, dr: int) -> bool {
    &&& has_disc(p, col, row)
    &&& has_disc(p, col + dc, row + dr)
    &&& has_disc(p, col + 2 * dc, row + 2 * dr)
    &&& has_disc(p, col + 3 * dc, row + 3 * dr)
}

/// A line of four in `p` starts at `(col, row)`: going right, going up, or
/// going right along either diagonal.
pub open spec fn four_at(p: u64, col: int, row: int) -> bool {
    ||| four_from(p, col, row, 1, 0)
    ||| four_from(p, col, row, 0, 1)
    ||| four_from(p, col, row, 1, 1)
    ||| four_from(p, col, row, 1, -1)
}

/// `p` holds four in a line: horizontal, vertical or on either diagonal.
pub open spec fn has_four(p: u64) -> bool {
    exists|col: int, row: int| #[trigger] four_at(p, col, row)
}

/// Along direction `(dc, dr)`, the other three cells of some line of four
/// through `(col, row)` are all in `p`.
pub open spec fn line_through(p: u64, col: int, row: int, dc: int, dr: int) -> bool {
    ||| (has_disc(p, col + dc, row + dr) && has_disc(p, col + 2 * dc, row + 2 * dr)
        && has_disc(p, col + 3 * dc, row + 3 * dr))
    ||| (has_disc(p, col - dc, row - dr) && has_disc(p, col + dc, row + dr) && has_disc(
        p,
        col + 2 * dc,
        row + 2 * dr,
    ))
    ||| (has_disc(p, col - 2 * dc, row - 2 * dr) && has_disc(p, col - dc, row - dr) && has_disc(
        p,
        col + dc,
        row + dr,
    ))
    ||| (has_disc(p, col - 3 * dc, row - 3 * dr) && has_disc(p, col - 2 * dc, row - 2 * dr)
        && has_disc(p, col - dc, row - dr))
}

/// A disc of `p` dropped on `(col, row)` would complete four in a line: three
/// discs directly below it, or three others on a horizontal or diagonal line
/// through it.
pub open spec fn completes_four(p: u64, col: int, row: int) -> bool {
    ||| (has_disc(p, col, row - 1) && has_disc(p, col, row - 2) && has_disc(p, col, row - 3))
    ||| line_through(p, col, row, 1, 0)
    ||| line_through(p, col, row, 1, 1)
    ||| line_through(p, col, row, 1, -1)
}

// ---------------------------------------------------------------------------
// Lines of four at the level of bit indices
// ---------------------------------------------------------------------------

/// Bits `i`, `i + d`, `i + 2d` and `i + 3d` of `p` are all set, for some `i`.
pub open spec fn bit_run(p: u64, d: int) -> bool {
    exists|i: int| #[trigger] bit(p, i) && bit(p, i + d) && bit(p, i + 2 * d) && bit(p, i + 3 * d)
}

/// The three other bits of a run of four through bit `i` with stride `d`
/// are set in `p`.
pub open spec fn run_through(p: u64, i: int, d: int) -> bool {
    ||| (bit(p, i - d) && bit(p, i - 2 * d) && bit(p, i - 3 * d))
    ||| (bit(p, i - d) && bit(p, i - 2 * d) && bit(p, i + d))
    ||| (bit(p, i + d) && bit(p, i + 2 * d) && bit(p, i + 3 * d))
    ||| (bit(p, i + d) && bit(p, i + 2 * d) && bit(p, i - d))
}

/// A disc of `p` on bit `i` would complete a run of four: three below it,
/// or three others on a horizontal or diagonal run through it.
pub open spec fn threat_at(p: u64, i: int) -> bool {
    ||| (bit(p, i - 1) && bit(p, i - 2) && bit(p, i - 3))
    ||| run_through(p, i, 7)
    ||| run_through(p, i, 6)
    ||| run_through(p, i, 8)
}

/// The word whose set bits are the empty board cells (those outside `mask`)
/// where a disc of `p` completes a run of four.
pub open spec fn threat_cells(p: u64, mask: u64) -> u64 {
    choose|w: u64| #[trigger] is_threat_cells(w, p, mask)
}

/// The set bits of `w` are the empty board cells (outside `mask`) where a
/// disc of `p` completes a run of four.
pub open spec fn is_threat_cells(w: u64, p: u64, mask: u64) -> bool {
    forall|i: int| #[trigger] bit(w, i) == (bit(board_bits() ^ mask, i) && threat_at(p, i))
}

/// A bit of the board mask names an on-board cell.
pub proof fn lemma_board_index(j: int)
    requires
        bit(board_bits(), j),
    ensures
        0 <= j < 49,
        on_board(j / 7, j % 7),
        j == cell_index(j / 7, j % 7),
{
    lemma_board_bit_index(j);
    lemma_index_cell(j);
}

pub proof fn lemma_subset_bit(p: u64, q: u64, j: int)
    requires
        subset_bits(p, q),
        bit(p, j),
    ensures
        bit(q, j),
{
    assert(!bit(p & !q, j));
}

/// The shift-and-mask test for a run of four with stride `d`.
pub proof fn lemma_run_detect(p: u64, d: u64)
    requires
        1 <= d <= 8,
    ensures
        ((p & (p >> d)) & ((p & (p >> d)) >> (2 * d) as u64) != 0) == bit_run(p, d as int),
{
    let m = p & (p >> d);
    let x = m & (m >> (2 * d) as u64);
    if x != 0 {
        lemma_nonzero_has_bit(x);
        let i = choose|i: int| 0 <= i < 64 && bit(x, i);
        assert(bit(p, i) && bit(p, i + d) && bit(p, i + 2 * d) && bit(p, i + 3 * d));
    }
    if bit_run(p, d as int) {
        let i = choose|i: int| #[trigger]
            bit(p, i) && bit(p, i + d) && bit(p, i + 2 * d) && bit(p, i + 3 * d);
        assert(bit(x, i));
    }
}

proof fn lemma_board_bit_of(p: u64, j: int)
    requires
        subset_bits(p, board_bits()),
        bit(p, j),
    ensures
        0 <= j < 49,
        on_board(j / 7, j % 7),
        j == cell_index(j / 7, j % 7),
{
    lemma_subset_bit(p, board_bits(), j);
    lemma_board_index(j);
}

/// On board-only pieces, a run through bit `i` with stride `7 * dc + dr` is a
/// line of four through the cell of `i` in direction `(dc, dr)`.
#[verifier::rlimit(60)]
proof fn lemma_run_through_is_line(p: u64, col: int, row: int, dc: int, dr: int)
    requires
        subset_bits(p, board_bits()),
        on_board(col, row),
        (dc == 1 && dr == 0) || (dc == 1 && dr == 1) || (dc == 1 && dr == -1),
    ensures
        run_through(p, cell_index(col, row), 7 * dc + dr) == line_through(p, col, row, dc, dr),
{
    let i = cell_index(col, row);
    let d = 7 * dc + dr;
    if bit(p, i + d) {
        lemma_board_bit_of(p, i + d);
    }
    if bit(p, i + 2 * d) {
        lemma_board_bit_of(p, i + 2 * d);
    }
    if bit(p, i + 3 * d) {
        lemma_board_bit_of(p, i + 3 * d);
    }
    if bit(p, i - d) {
        lemma_board_bit_of(p, i - d);
    }
    if bit(p, i - 2 * d) {
        lemma_board_bit_of(p, i - 2 * d);
    }
    if bit(p, i - 3 * d) {
        lemma_board_bit_of(p, i - 3 * d);
    }
}

/// On board-only pieces, `threat_at` is `completes_four` read on bit indices.
pub proof fn lemma_threat_is_completion(p: u64, col: int, row: int)
    requires
        subset_bits(p, board_bits()),
        on_board(col, row),
    ensures
        threat_at(p, cell_index(col, row)) == completes_four(p, col, row),
{
    let i = cell_index(col, row);
    lemma_run_through_is_line(p, col, row, 1, 0);
    lemma_run_through_is_line(p, col, row, 1, 1);
    lemma_run_through_is_line(p, col, row, 1, -1);
    if bit(p, i - 1) {
        lemma_board_bit_of(p, i - 1);
    }
    if bit(p, i - 2) {
        lemma_board_bit_of(p, i - 2);
    }
    if bit(p, i - 3) {
        lemma_board_bit_of(p, i - 3);
    }
}

/// A run of four board bits with stride `d` is a geometric line of four.
proof fn lemma_run_is_line(p: u64, i: int, d: int)
    requires
        subset_bits(p, board_bits()),
        d == 1 || d == 6 || d == 7 || d == 8,
        bit(p, i),
        bit(p, i + d),
        bit(p, i + 2 * d),
        bit(p, i + 3 * d),
    ensures
        d == 7 ==> four_from(p, i / 7, i % 7, 1, 0),
        d == 1 ==> four_from(p, i / 7, i % 7, 0, 1),
        d == 8 ==> four_from(p, i / 7, i % 7, 1, 1),
        d == 6 ==> four_from(p, i / 7, i % 7, 1, -1),
{
    lemma_subset_bit(p, board_bits(), i);
    lemma_subset_bit(p, board_bits(), i + d);
    lemma_subset_bit(p, board_bits(), i + 2 * d);
    lemma_subset_bit(p, board_bits(), i + 3 * d);
    lemma_board_index(i);
    lemma_board_index(i + d);
    lemma_board_index(i + 2 * d);
    lemma_board_index(i + 3 * d);
}

/// On board-only pieces, the four bit runs are exactly the lines of four.
pub proof fn lemma_runs_are_fours(p: u64)
    requires
        subset_bits(p, board_bits()),
    ensures
        (bit_run(p, 7) || bit_run(p, 6) || bit_run(p, 8) || bit_run(p, 1)) == has_four(p),
{
    if has_four(p) {
        let (c, r) = choose|col: int, row: int| #[trigger] four_at(p, col, row);
        let i = cell_index(c, r);
        if four_from(p, c, r, 1, 0) {
            assert(bit(p, i) && bit(p, i + 7) && bit(p, i + 14) && bit(p, i + 21));
            assert(bit_run(p, 7));
        } else if four_from(p, c, r, 0, 1) {
            assert(bit(p, i) && bit(p, i + 1) && bit(p, i + 2) && bit(p, i + 3));
            assert(bit_run(p, 1));
        } else if four_from(p, c, r, 1, 1) {
            assert(bit(p, i) && bit(p, i + 8) && bit(p, i + 16) && bit(p, i + 24));
            assert(bit_run(p, 8));
        } else {
            assert(bit(p, i) && bit(p, i + 6) && bit(p, i + 12) && bit(p, i + 18));
            assert(bit_run(p, 6));
        }
    }
    if bit_run(p, 7) {
        let i = choose|i: int| #[trigger] bit(p, i) && bit(p, i + 7) && bit(p, i + 14) && bit(p, i + 21);
        lemma_run_is_line(p, i, 7);
        assert(four_at(p, i / 7, i % 7));
        assert(has_four(p));
    }
    if bit_run(p, 6) {
        let i = choose|i: int| #[trigger] bit(p, i) && bit(p, i + 6) && bit(p, i + 12) && bit(p, i + 18);
        lemma_run_is_line(p, i, 6);
        assert(four_at(p, i / 7, i % 7));
        assert(has_four(p));
    }
    if bit_run(p, 8) {
        let i = choose|i: int| #[trigger] bit(p, i) && bit(p, i + 8) && bit(p, i + 16) && bit(p, i + 24);
        lemma_run_is_line(p, i, 8);
        assert(four_at(p, i / 7, i % 7));
        assert(has_four(p));
    }
    if bit_run(p, 1) {
        let i = choose|i: int| #[trigger] bit(p, i) && bit(p, i + 1) && bit(p, i + 2) && bit(p, i + 3);
        lemma_run_is_line(p, i, 1);
        assert(four_at(p, i / 7, i % 7));
        assert(has_four(p));
    }
}

// ---------------------------------------------------------------------------
// Columns as 7-bit fields
// ---------------------------------------------------------------------------

/// The 7 bits of column `col` of `x`, the bottom cell in the lowest bit.
pub open spec fn col_field(x: u64, col: int) -> u64 {
    (x >> ((7 * col) as u64)) & 0x7fu64
}

/// The height of a column whose field is filled from the bottom; 7 for a
/// field that is not of that shape.
pub open spec fn field_height(f: u64) -> int {
    if f == 0 {
        0
    } else if f == 1 {
        1
    } else if f == 3 {
        2
    } else if f == 7 {
        3
    } else if f == 15 {
        4
    } else if f == 31 {
        5
    } else if f == 63 {
        6
    } else {
        7
    }
}

/// All cells of the board: rows 0..6 of each of the 7 columns.
pub open spec fn board_bits() -> u64 {
    0xfdfbf7efdfbfu64
}

/// The bottom cell of every column.
pub open spec fn bottom_bits() -> u64 {
    0x40810204081u64
}

pub proof fn lemma_field_bit(x: u64, col: int, row: int)
    requires
        0 <= col < 7,
        0 <= row < 7,
    ensures
        bit(x, cell_index(col, row)) == bit(col_field(x, col), row),
{
    let s = (7 * col) as u64;
    let r = row as u64;
    let i = (7 * col + row) as u64;
    assert(s <= 42 && r < 7 && i == s + r ==> (((x >> i) & 1u64 == 1u64) == (((((x >> s)
        & 0x7fu64) >> r) & 1u64) == 1u64))) by (bit_vector);
}

pub proof fn lemma_low_mask_bit(h: u64, r: int)
    requires
        h <= 7,
    ensures
        bit(((1u64 << h) - 1) as u64, r) == (0 <= r < h),
{
    if 0 <= r < 64 {
        let j = r as u64;
        assert(h <= 7 && j < 64 ==> (((((1u64 << h) - 1) as u64) >> j) & 1u64 == 1u64 <==> j
            < h)) by (bit_vector);
    }
}

/// The masks of the `h` lowest bits, for `h <= 6`.
proof fn lemma_low_mask_values()
    ensures
        ((1u64 << 0u64) - 1) as u64 == 0,
        ((1u64 << 1u64) - 1) as u64 == 1,
        ((1u64 << 2u64) - 1) as u64 == 3,
        ((1u64 << 3u64) - 1) as u64 == 7,
        ((1u64 << 4u64) - 1) as u64 == 15,
        ((1u64 << 5u64) - 1) as u64 == 31,
        ((1u64 << 6u64) - 1) as u64 == 63,
{
    assert(((1u64 << 0u64) - 1) as u64 == 0 && ((1u64 << 1u64) - 1) as u64 == 1 && ((1u64
        << 2u64) - 1) as u64 == 3 && ((1u64 << 3u64) - 1) as u64 == 7 && ((1u64 << 4u64) - 1)
        as u64 == 15 && ((1u64 << 5u64) - 1) as u64 == 31 && ((1u64 << 6u64) - 1) as u64 == 63)
        by (bit_vector);
}

/// A field of height `h <= 6` is the mask of its `h` lowest bits.
pub proof fn lemma_field_shape(f: u64)
    requires
        field_height(f) <= 6,
    ensures
        f == ((1u64 << (field_height(f) as u64)) - 1) as u64,
        forall|r: int| #![trigger bit(f, r)] bit(f, r) == (0 <= r < field_height(f)),
{
    lemma_low_mask_values();
    assert forall|r: int| #![trigger bit(f, r)] bit(f, r) == (0 <= r < field_height(f)) by {
        lemma_low_mask_bit(field_height(f) as u64, r);
    }
}

/// Bits from 49 upward are clear in a word that is zero above bit 48.
pub proof fn lemma_high_bits_clear(x: u64, i: int)
    requires
        x >> 49u64 == 0,
        49 <= i < 64,
    ensures
        !bit(x, i),
{
    let j = i as u64;
    assert(x >> 49u64 == 0 && 49 <= j < 64 ==> (x >> j) & 1u64 == 0) by (bit_vector);
}

/// The on-board cells are exactly the bits of `board_bits()`.
pub proof fn lemma_board_bits(col: int, row: int)
    requires
        0 <= col < 7,
        0 <= row < 7,
    ensures
        bit(board_bits(), cell_index(col, row)) == (row < 6),
{
    let s = (7 * col) as u64;
    assert(s == 0 || s == 7 || s == 14 || s == 21 || s == 28 || s == 35 || s == 42 ==> (
    0xfdfbf7efdfbfu64 >> s) & 0x7fu64 == 63) by (bit_vector);
    assert(field_height(63) == 6);
    lemma_field_shape(63);
    lemma_field_bit(board_bits(), col, row);
}

/// Every bit index below 49 names a cell `(i / 7, i % 7)`.
pub proof fn lemma_index_cell(i: int)
    requires
        0 <= i < 49,
    ensures
        0 <= i / 7 < 7,
        0 <= i % 7 < 7,
        i == cell_index(i / 7, i % 7),
{
}

/// Bit `i` of the board mask is set exactly for on-board cells.
pub proof fn lemma_board_bit_index(i: int)
    ensures
        bit(board_bits(), i) == (0 <= i < 49 && i % 7 != 6),
{
    if 0 <= i < 49 {
        lemma_index_cell(i);
        lemma_board_bits(i / 7, i % 7);
    } else if 49 <= i < 64 {
        assert(board_bits() >> 49u64 == 0) by (bit_vector);
        lemma_high_bits_clear(board_bits(), i);
    }
}


// ---------------------------------------------------------------------------
// Field arithmetic
// ---------------------------------------------------------------------------

/// Bit `i` of the mask of column `col` is set exactly for its six rows.
pub proof fn lemma_column_mask_bit(col: int, i: int)
    requires
        0 <= col < 7,
    ensures
        bit(63u64 << (7 * col) as u64, i) == (7 * col <= i < 7 * col + 6),
{
    lemma_shift_of_col(col);
    if 0 <= i < 64 {
        let s = (7 * col) as u64;
        let j = i as u64;
        assert(valid_shift(s) && j < 64 ==> (((63u64 << s) >> j) & 1u64 == 1u64 <==> (s <= j && j
            < s + 6))) by (bit_vector);
    }
}

/// The lowest `k` cells of column `col`.
pub open spec fn column_run(col: int, k: int) -> u64
    decreases k,
{
    if k <= 0 {
        0
    } else {
        column_run(col, k - 1) | (1u64 << ((7 * col + k - 1) as u64))
    }
}

/// The lowest `k` cells of a column, bit by bit, and their count.
pub proof fn lemma_column_run(col: int, k: int)
    requires
        0 <= col < 7,
        0 <= k <= 6,
    ensures
        forall|i: int| #[trigger] bit(column_run(col, k), i) == (7 * col <= i < 7 * col + k),
        popcount(column_run(col, k)) == k,
    decreases k,
{
    broadcast use group_bits;

    if k > 0 {
        lemma_column_run(col, k - 1);
        let t = (7 * col + k - 1) as u64;
        assert(!bit(column_run(col, k - 1), t as int));
        crate::bits::lemma_popcount_set_bit(column_run(col, k - 1), t);
        assert forall|i: int| #[trigger] bit(column_run(col, k), i) == (7 * col <= i < 7 * col + k) by {
            assert(bit(column_run(col, k), i) == (bit(column_run(col, k - 1), i) || bit(1u64 << t, i)));
        }
    }
}

/// The sentinel bit (row 6) of every column.
pub open spec fn sentinel_bits() -> u64 {
    0x1020408102040u64
}

pub open spec fn valid_shift(s: u64) -> bool {
    s == 0 || s == 7 || s == 14 || s == 21 || s == 28 || s == 35 || s == 42
}

proof fn lemma_shift_of_col(col: int)
    requires
        0 <= col < 7,
    ensures
        valid_shift((7 * col) as u64),
{
}

/// With every sentinel clear, adding one at the bottom of each column adds
/// one to every column field, with no carry between columns.
proof fn lemma_add_bottoms(x: u64, col: int)
    requires
        0 <= col < 7,
        x >> 49u64 == 0,
        x & sentinel_bits() == 0,
    ensures
        x + bottom_bits() <= u64::MAX,
        col_field((x + bottom_bits()) as u64, col) == col_field(x, col) + 1,
        ((x + bottom_bits()) as u64) >> 49u64 == 0,
{
    let s = (7 * col) as u64;
    lemma_shift_of_col(col);
    assert(x >> 49u64 == 0 && x & 0x1020408102040u64 == 0 && valid_shift(s) ==> x
        + 0x40810204081u64 <= 0xffff_ffff_ffff_ffffu64 && (((x + 0x40810204081u64) as u64)
        >> s) & 0x7fu64 == ((x >> s) & 0x7fu64) + 1 && ((x + 0x40810204081u64) as u64) >> 49u64
        == 0) by (bit_vector);
}

/// Adding one at the bottom of a column whose lowest `h` cells are filled
/// fills cell `h` of that column and changes nothing else.
proof fn lemma_add_bottom(x: u64, col: int, h: u64)
    requires
        0 <= col < 7,
        h <= 6,
        x >> 49u64 == 0,
        col_field(x, col) == ((1u64 << h) - 1) as u64,
    ensures
        x + (1u64 << ((7 * col) as u64)) <= u64::MAX,
        x | ((x + (1u64 << ((7 * col) as u64))) as u64) == x | (1u64 << ((7 * col) as u64 + h)),
{
    let s = (7 * col) as u64;
    lemma_shift_of_col(col);
    assert(x >> 49u64 == 0 && valid_shift(s) && h <= 6 && (x >> s) & 0x7fu64 == ((1u64 << h)
        - 1) as u64 ==> x + (1u64 << s) <= 0xffff_ffff_ffff_ffffu64 && (x | ((x + (1u64 << s))
        as u64)) == x | (1u64 << (s + h))) by (bit_vector);
}

/// Setting bit `h` of column `col` changes that column's field only.
proof fn lemma_set_field_bit(x: u64, col: int, h: u64, other: int)
    requires
        0 <= col < 7,
        0 <= other < 7,
        h < 7,
    ensures
        col_field(x | (1u64 << ((7 * col) as u64 + h)), other) == if other == col {
            col_field(x, col) | (1u64 << h)
        } else {
            col_field(x, other)
        },
{
    let s = (7 * col) as u64;
    let t = (7 * other) as u64;
    lemma_shift_of_col(col);
    lemma_shift_of_col(other);
    assert(valid_shift(s) && valid_shift(t) && h < 7 ==> ((((x | (1u64 << (s + h))) >> t)
        & 0x7fu64) == if s == t {
        ((x >> s) & 0x7fu64) | (1u64 << h)
    } else {
        (x >> t) & 0x7fu64
    })) by (bit_vector);
}

/// The field that fills the `h` lowest cells has height `h`.
proof fn lemma_low_mask_height(h: u64)
    requires
        h <= 6,
    ensures
        field_height(((1u64 << h) - 1) as u64) == h,
{
    lemma_low_mask_values();
}

/// Filling cell `h <= 5` of a column keeps bits 49 and up clear.
proof fn lemma_wf_cells_mask_high(x: u64, col: int, h: int)
    requires
        0 <= col < 7,
        0 <= h <= 5,
        x >> 49u64 == 0,
    ensures
        (x | (1u64 << ((7 * col + h) as u64))) >> 49u64 == 0,
{
    let s = (7 * col + h) as u64;
    assert(x >> 49u64 == 0 && s <= 47 ==> (x | (1u64 << s)) >> 49u64 == 0) by (bit_vector);
}

/// With sentinels and high bits clear, a sum adds column by column.
proof fn lemma_add_fields(x: u64, y: u64, col: int)
    requires
        0 <= col < 7,
        x >> 49u64 == 0,
        y >> 49u64 == 0,
        x & sentinel_bits() == 0,
        y & sentinel_bits() == 0,
    ensures
        x + y <= u64::MAX,
        col_field((x + y) as u64, col) == col_field(x, col) + col_field(y, col),
{
    let s = (7 * col) as u64;
    lemma_shift_of_col(col);
    assert(x >> 49u64 == 0 && y >> 49u64 == 0 && x & 0x1020408102040u64 == 0 && y
        & 0x1020408102040u64 == 0 && valid_shift(s) ==> x + y <= 0xffff_ffff_ffff_ffffu64 && (((x
        + y) as u64 >> s) & 0x7fu64) == ((x >> s) & 0x7fu64) + ((y >> s) & 0x7fu64))
        by (bit_vector);
}

/// Two words clear above bit 48 with the same seven column fields are equal.
proof fn lemma_fields_ext(x: u64, y: u64)
    requires
        x >> 49u64 == 0,
        y >> 49u64 == 0,
        forall|col: int| 0 <= col < 7 ==> #[trigger] col_field(x, col) == col_field(y, col),
    ensures
        x == y,
{
    assert(col_field(x, 0) == col_field(y, 0));
    assert(col_field(x, 1) == col_field(y, 1));
    assert(col_field(x, 2) == col_field(y, 2));
    assert(col_field(x, 3) == col_field(y, 3));
    assert(col_field(x, 4) == col_field(y, 4));
    assert(col_field(x, 5) == col_field(y, 5));
    assert(col_field(x, 6) == col_field(y, 6));
    assert(x >> 49u64 == 0 && y >> 49u64 == 0 && (x >> 0u64) & 0x7fu64 == (y >> 0u64) & 0x7fu64
        && (x >> 7u64) & 0x7fu64 == (y >> 7u64) & 0x7fu64 && (x >> 14u64) & 0x7fu64 == (y
        >> 14u64) & 0x7fu64 && (x >> 21u64) & 0x7fu64 == (y >> 21u64) & 0x7fu64 && (x >> 28u64)
        & 0x7fu64 == (y >> 28u64) & 0x7fu64 && (x >> 35u64) & 0x7fu64 == (y >> 35u64) & 0x7fu64
        && (x >> 42u64) & 0x7fu64 == (y >> 42u64) & 0x7fu64 ==> x == y) by (bit_vector);
}

proof fn lemma_fields_no_sentinel(x: u64)
    requires
        col_field(x, 0) < 64,
        col_field(x, 1) < 64,
        col_field(x, 2) < 64,
        col_field(x, 3) < 64,
        col_field(x, 4) < 64,
        col_field(x, 5) < 64,
        col_field(x, 6) < 64,
    ensures
        x & sentinel_bits() == 0,
{
    assert((x >> 0u64) & 0x7fu64 < 64 && (x >> 7u64) & 0x7fu64 < 64 && (x >> 14u64) & 0x7fu64
        < 64 && (x >> 21u64) & 0x7fu64 < 64 && (x >> 28u64) & 0x7fu64 < 64 && (x >> 35u64)
        & 0x7fu64 < 64 && (x >> 42u64) & 0x7fu64 < 64 ==> x & 0x1020408102040u64 == 0)
        by (bit_vector);
}


// ---------------------------------------------------------------------------
// The bitboard
// ---------------------------------------------------------------------------

/// Bitboard representation of the game state
#[derive(Clone, Copy, Debug, PartialEq, Eq, Hash, Structural)]
pub struct Bitboard {
    /// Current player's pieces (the player about to move)
    pub current: u64,
    /// Mask of all pieces (both players)
    pub mask: u64,
    /// Number of moves played
    pub moves: u32,
}

impl Bitboard {
    pub const HEIGHT: u32 = 6;

    /// The bottom cell of each column: bits 0, 7, 14, 21, 28, 35 and 42.
    pub const BOTTOM: u64 = 0x0000_0408_1020_4081;

    /// `BOTTOM * ((1 << HEIGHT) - 1)`: the six playable rows of every column.
    pub const BOARD_MASK: u64 = 0x0000_fdfb_f7ef_dfbf;

    /// Number of filled cells in column `col` (7 for a column that is not
    /// filled from the bottom up).
    pub open spec fn height(self, col: int) -> int {
        field_height(col_field(self.mask, col))
    }

    pub open spec fn total_height(self) -> int {
        self.height(0) + self.height(1) + self.height(2) + self.height(3) + self.height(4)
            + self.height(5) + self.height(6)
    }

    /// A board reachable by play: columns filled from the bottom, nothing
    /// off the board, the mover's pieces among the placed ones, and `moves`
    /// counting the placed pieces.
    pub open spec fn wf(self) -> bool {
        &&& forall|col: int| 0 <= col < 7 ==> #[trigger] self.height(col) <= 6
        &&& self.mask >> 49u64 == 0
        &&& subset_bits(self.current, self.mask)
        &&& self.moves == self.total_height()
    }

    /// The pieces of the player who moved last.
    pub open spec fn opponent_bits(self) -> u64 {
        self.mask & !self.current
    }

    /// Cell `(col, height(col))`, where the next disc in `col` lands.
    pub open spec fn landing_bit(self, col: int) -> u64 {
        1u64 << ((7 * col + self.height(col)) as u64)
    }

    /// The board after the player to move drops a disc in `col`.
    pub open spec fn spec_play(self, col: int) -> Bitboard {
        Bitboard {
            current: self.current ^ self.mask,
            mask: self.mask | self.landing_bit(col),
            moves: (self.moves + 1) as u32,
        }
    }

    /// The board is full.
    pub open spec fn spec_is_full(self) -> bool {
        self.moves >= 42
    }

    /// The position key: the mover's pieces plus all pieces.
    pub open spec fn spec_key(self) -> u64 {
        (self.current + self.mask) as u64
    }

    /// Moves left before the board is full.
    pub open spec fn spec_moves_remaining(self) -> int {
        42 - self.moves
    }

    /// Column `col` has room for another disc.
    pub open spec fn playable(self, col: int) -> bool {
        0 <= col < 7 && self.height(col) < 6
    }

    /// The player to move can complete four in a line with their next disc.
    pub open spec fn can_win_now(self) -> bool {
        exists|col: int|
            #![trigger self.playable(col)]
            self.playable(col) && completes_four(self.current, col, self.height(col))
    }

    /// The cells of a well-formed board, read off its heights.
    pub proof fn lemma_wf_cells(self)
        requires
            self.wf(),
        ensures
            forall|col: int, row: int|
                0 <= col < 7 && 0 <= row < 7 ==> #[trigger] bit(self.mask, cell_index(col, row))
                    == (row < self.height(col)),
            forall|i: int| 49 <= i < 64 ==> !#[trigger] bit(self.mask, i),
            forall|i: int| 49 <= i < 64 ==> !#[trigger] bit(self.current, i),
            forall|i: int| #[trigger] bit(self.current, i) ==> bit(self.mask, i),
            forall|col: int| 0 <= col < 7 ==> 0 <= #[trigger] self.height(col) <= 6,
            subset_bits(self.mask, board_bits()),
            subset_bits(self.current, board_bits()),
            self.mask & sentinel_bits() == 0,
    {
        assert forall|col: int, row: int|
            0 <= col < 7 && 0 <= row < 7 implies #[trigger] bit(self.mask, cell_index(col, row))
            == (row < self.height(col)) by {
            lemma_field_bit(self.mask, col, row);
            lemma_field_shape(col_field(self.mask, col));
        }
        assert forall|i: int| 49 <= i < 64 implies !#[trigger] bit(self.mask, i) by {
            lemma_high_bits_clear(self.mask, i);
        }
        assert forall|i: int| #[trigger] bit(self.current, i) implies bit(self.mask, i) by {
            assert(!bit(self.current & !self.mask, i));
        }
        assert forall|i: int| 0 <= i < 64 implies !#[trigger] bit(self.mask & !board_bits(), i) by {
            lemma_board_bit_index(i);
            if 0 <= i < 49 {
                lemma_index_cell(i);
                assert(bit(self.mask, cell_index(i / 7, i % 7)) == (i % 7 < self.height(i / 7)));
            }
        }
        lemma_zero_iff_no_bits(self.mask & !board_bits());
        assert forall|i: int| 0 <= i < 64 implies !#[trigger] bit(self.current & !board_bits(), i) by {
            assert(!bit(self.mask & !board_bits(), i));
        }
        lemma_zero_iff_no_bits(self.current & !board_bits());
        lemma_fields_no_sentinel(self.mask);
    }

    /// Playing a column with room meets the preconditions of `play`.
    pub proof fn lemma_play_bounds(self, col: int)
        requires
            self.wf(),
            self.playable(col),
        ensures
            self.mask + (1u64 << (7 * col) as u64) <= u64::MAX,
            self.moves < u32::MAX,
    {
        self.lemma_wf_cells();
        lemma_field_shape(col_field(self.mask, col));
        lemma_add_bottom(self.mask, col, self.height(col) as u64);
    }

    /// The player to move holds half the discs, rounded down, and the player
    /// who moved last the rest.
    pub open spec fn balanced(self) -> bool {
        &&& popcount(self.current) == self.moves / 2
        &&& popcount(self.opponent_bits()) == (self.moves + 1) / 2
    }

    /// Playing a column keeps the discs balanced between the players: the
    /// last mover's count grows by one and the two players swap roles.
    pub proof fn lemma_play_keeps_balance(self, col: int)
        requires
            self.wf(),
            self.playable(col),
            self.balanced(),
        ensures
            self.spec_play(col).balanced(),
    {
        self.lemma_play_wf(col);
        self.lemma_wf_cells();
        let k = (7 * col + self.height(col)) as u64;
        assert(!bit(self.mask, cell_index(col, self.height(col))));
        assert(!bit(self.current, k as int));
        crate::bits::lemma_popcount_set_bit(self.current, k);
    }

    /// Playing a column with room keeps the board well formed.
    /// Playing a column keeps the discs counted: when the mask holds as many
    /// discs as moves were played, it still does after the move, and the
    /// discs stay balanced between the players.
    pub proof fn lemma_play_keeps_counts(self, col: int)
        requires
            self.wf(),
            self.playable(col),
            self.balanced(),
            popcount(self.mask) == self.moves,
        ensures
            self.spec_play(col).wf(),
            self.spec_play(col).balanced(),
            popcount(self.spec_play(col).mask) == self.spec_play(col).moves,
    {
        self.lemma_play_wf(col);
        self.lemma_play_keeps_balance(col);
        self.lemma_wf_cells();
        let k = (7 * col + self.height(col)) as u64;
        assert(!bit(self.mask, cell_index(col, self.height(col))));
        crate::bits::lemma_popcount_set_bit(self.mask, k);
    }

    pub proof fn lemma_play_wf(self, col: int)
        requires
            self.wf(),
            self.playable(col),
        ensures
            self.spec_play(col).wf(),
            forall|c: int|
                0 <= c < 7 ==> #[trigger] self.spec_play(col).height(c) == if c == col {
                    self.height(c) + 1
                } else {
                    self.height(c)
                },
            self.spec_play(col).current == self.opponent_bits(),
            self.spec_play(col).opponent_bits() == self.current | self.landing_bit(col),
            self.spec_play(col).spec_moves_remaining() == self.spec_moves_remaining() - 1,
    {
        let h = self.height(col);
        let next = self.spec_play(col);
        self.lemma_wf_cells();
        lemma_field_shape(col_field(self.mask, col));
        assert forall|c: int| 0 <= c < 7 implies #[trigger] next.height(c) == if c == col {
            self.height(c) + 1
        } else {
            self.height(c)
        } by {
            lemma_set_field_bit(self.mask, col, h as u64, c);
            if c == col {
                let hh = h as u64;
                assert(hh <= 5 ==> (((1u64 << hh) - 1) as u64) | (1u64 << hh) == ((1u64 << (hh
                    + 1)) - 1) as u64) by (bit_vector);
                lemma_low_mask_height((h + 1) as u64);
            }
        }
        lemma_wf_cells_mask_high(self.mask, col, h);
        assert forall|i: int| 0 <= i < 64 implies !#[trigger] bit(next.current & !next.mask, i) by {}
        lemma_zero_iff_no_bits(next.current & !next.mask);
        assert forall|i: int| 0 <= i < 64 implies #[trigger] bit(next.opponent_bits(), i) == bit(
            self.current | self.landing_bit(col),
            i,
        ) by {
            self.lemma_wf_cells();
            if i == 7 * col + h {
                assert(!bit(self.mask, cell_index(col, h)));
            }
        }
        lemma_bits_ext(next.opponent_bits(), self.current | self.landing_bit(col));
        assert forall|i: int| 0 <= i < 64 implies #[trigger] bit(next.current, i) == bit(
            self.opponent_bits(),
            i,
        ) by {}
        lemma_bits_ext(next.current, self.opponent_bits());
    }

    pub fn new() -> (r: Self)
        ensures
            r.current == 0,
            r.mask == 0,
            r.moves == 0,
            r.wf(),
            r.balanced(),
            forall|col: int| 0 <= col < 7 ==> #[trigger] r.height(col) == 0,
    {
        let r = Bitboard { current: 0, mask: 0, moves: 0 };
        proof {
            Self::lemma_empty_board();
        }
        r
    }

    /// The empty board is well formed, balanced, and every column is empty.
    pub proof fn lemma_empty_board()
        ensures
            ({
                let e = Bitboard { current: 0, mask: 0, moves: 0 };
                &&& e.wf()
                &&& e.balanced()
                &&& forall|col: int| 0 <= col < 7 ==> #[trigger] e.height(col) == 0
            }),
    {
        let r = Bitboard { current: 0, mask: 0, moves: 0 };
        crate::bits::lemma_zero_and(!0u64);
        assert(0u64 >> 49u64 == 0 && 0u64 & !0u64 == 0) by (bit_vector);
        assert forall|col: int| 0 <= col < 7 implies #[trigger] r.height(col) == 0 by {
            let sh = (7 * col) as u64;
            assert((0u64 >> sh) & 0x7fu64 == 0) by (bit_vector);
        }
    }

    /// The pieces of the player who moved last.
    pub fn opponent(&self) -> (r: u64)
        ensures
            r == self.current ^ self.mask,
            self.wf() ==> r == self.opponent_bits(),
            self.wf() && self.balanced() ==> popcount(r) == (self.moves + 1) / 2,
    {
        proof {
            if self.wf() {
                assert forall|i: int| 0 <= i < 64 implies #[trigger] bit(self.current ^ self.mask, i)
                    == bit(self.opponent_bits(), i) by {
                    self.lemma_wf_cells();
                }
                lemma_bits_ext(self.current ^ self.mask, self.opponent_bits());
            }
        }
        self.current ^ self.mask
    }

    /// Mask for the top cell of a column
    pub fn top_mask(col: usize) -> (r: u64)
        requires
            col <= 8,
        ensures
            r == 1u64 << (7 * col + 5) as u64,
    {
        1u64 << (5 + col as u64 * 7)
    }

    /// Mask for the bottom cell of a column
    pub fn bottom_mask(col: usize) -> (r: u64)
        requires
            col <= 9,
        ensures
            r == 1u64 << (7 * col) as u64,
    {
        1u64 << (col as u64 * 7)
    }

    /// Mask for an entire column
    pub fn column_mask(col: usize) -> (r: u64)
        requires
            col <= 9,
        ensures
            r == 63u64 << (7 * col) as u64,
            col < 7 ==> forall|c: int, row: int|
                0 <= c < 7 && 0 <= row < 7 ==> #[trigger] bit(r, cell_index(c, row)) == (c == col
                    && row < 6),
            col < 7 ==> forall|i: int| 49 <= i < 64 ==> !#[trigger] bit(r, i),
    {
        proof {
            assert(1u64 << 6u32 == 64u64) by (bit_vector);
        }
        let r = ((1u64 << 6u32) - 1) << (col as u64 * 7);
        proof {
            if col < 7 {
                let s = (7 * col) as u64;
                lemma_shift_of_col(col as int);
                assert forall|c: int, row: int|
                    0 <= c < 7 && 0 <= row < 7 implies #[trigger] bit(r, cell_index(c, row)) == (c
                    == col && row < 6) by {
                    let t = (7 * c) as u64;
                    lemma_shift_of_col(c);
                    assert(valid_shift(s) && valid_shift(t) ==> ((63u64 << s) >> t) & 0x7fu64 == if s
                        == t {
                        63u64
                    } else {
                        0u64
                    }) by (bit_vector);
                    lemma_field_bit(r, c, row);
                    lemma_low_mask_bit(6, row);
                    lemma_low_mask_values();
                    assert(!bit(0u64, row));
                }
                assert forall|i: int| 49 <= i < 64 implies !#[trigger] bit(r, i) by {
                    assert(valid_shift(s) ==> (63u64 << s) >> 49u64 == 0) by (bit_vector);
                    lemma_high_bits_clear(r, i);
                }
            }
        }
        r
    }

    /// Check if a column can accept another piece
    pub fn can_play(&self, col: usize) -> (r: bool)
        requires
            col <= 8,
        ensures
            r == (self.mask & (1u64 << (7 * col + 5) as u64) == 0),
            self.wf() && col < 7 ==> (r == self.playable(col as int)),
    {
        let r = (self.mask & Self::top_mask(col)) == 0;
        proof {
            if self.wf() && col < 7 {
                self.lemma_wf_cells();
                assert(bit(self.mask & (1u64 << (7 * col + 5) as u64), cell_index(col as int, 5))
                    == bit(self.mask, cell_index(col as int, 5)));
                if !r {
                    lemma_nonzero_has_bit(self.mask & (1u64 << (7 * col + 5) as u64));
                }
            }
        }
        r
    }

    /// Play a piece in the given column and return the new board.
    pub fn play(&self, col: usize) -> (r: Bitboard)
        requires
            col <= 9,
            self.mask + (1u64 << (7 * col) as u64) <= u64::MAX,
            self.moves < u32::MAX,
        ensures
            r.current == self.current ^ self.mask,
            r.mask == self.mask | ((self.mask + (1u64 << (7 * col) as u64)) as u64),
            r.moves == self.moves + 1,
            self.wf() && self.playable(col as int) ==> r == self.spec_play(col as int) && r.wf(),
            self.wf() && self.playable(col as int) && self.balanced() ==> r.balanced(),
    {
        proof {
            if self.wf() && self.playable(col as int) && self.balanced() {
                self.lemma_play_keeps_balance(col as int);
            }
        }
        let mut new_board = *self;
        new_board.current = new_board.current ^ new_board.mask;
        new_board.mask = new_board.mask | (new_board.mask + Self::bottom_mask(col));
        new_board.moves = new_board.moves + 1;
        proof {
            if self.wf() && self.playable(col as int) {
                self.lemma_wf_cells();
                let h = self.height(col as int);
                lemma_field_shape(col_field(self.mask, col as int));
                lemma_add_bottom(self.mask, col as int, h as u64);
                self.lemma_play_wf(col as int);
            }
        }
        new_board
    }

    /// Play a move given its single-cell mask.
    pub fn play_move(&self, move_mask: u64) -> (r: Bitboard)
        requires
            self.moves < u32::MAX,
        ensures
            r.current == self.current ^ self.mask,
            r.mask == self.mask | move_mask,
            r.moves == self.moves + 1,
            forall|col: int|
                self.wf() && self.playable(col) && move_mask == self.landing_bit(col) ==> r
                    == self.spec_play(col) && r.wf(),
    {
        let mut new_board = *self;
        new_board.current = new_board.current ^ new_board.mask;
        new_board.mask = new_board.mask | move_mask;
        new_board.moves = new_board.moves + 1;
        proof {
            assert forall|col: int|
                self.wf() && self.playable(col) && move_mask == self.landing_bit(col) implies new_board
                == self.spec_play(col) && new_board.wf() by {
                self.lemma_play_wf(col);
            }
        }
        new_board
    }

    /// The cells where the next disc of each non-full column lands.
    pub open spec fn landing_cells(self) -> u64 {
        ((self.mask + bottom_bits()) as u64) & board_bits()
    }

    /// Adding the bottom row to the mask of a well-formed board does not
    /// overflow.
    pub proof fn lemma_landing_fits(self)
        requires
            self.wf(),
        ensures
            self.mask + bottom_bits() <= u64::MAX,
    {
        self.lemma_landing_cells();
    }

    /// The landing cells, cell by cell.
    pub proof fn lemma_landing_cells(self)
        requires
            self.wf(),
        ensures
            self.mask + bottom_bits() <= u64::MAX,
            forall|col: int, row: int|
                0 <= col < 7 && 0 <= row < 7 ==> #[trigger] bit(
                    self.landing_cells(),
                    cell_index(col, row),
                ) == (row == self.height(col) && row < 6),
            forall|i: int| 49 <= i < 64 ==> !#[trigger] bit(self.landing_cells(), i),
            forall|i: int| #[trigger]
                bit(self.landing_cells(), i) ==> 0 <= i < 49 && self.playable(i / 7) && i % 7
                    == self.height(i / 7),
    {
        self.lemma_wf_cells();
        let sum = (self.mask + bottom_bits()) as u64;
        lemma_add_bottoms(self.mask, 0);
        assert forall|col: int, row: int|
            0 <= col < 7 && 0 <= row < 7 implies #[trigger] bit(
                self.landing_cells(),
                cell_index(col, row),
            ) == (row == self.height(col) && row < 6) by {
            lemma_add_bottoms(self.mask, col);
            let h = self.height(col);
            lemma_field_shape(col_field(self.mask, col));
            let hh = h as u64;
            assert(hh <= 6 ==> ((((1u64 << hh) - 1) as u64) + 1) as u64 == 1u64 << hh)
                by (bit_vector);
            lemma_field_bit(sum, col, row);
            assert(bit(col_field(sum, col), row) == (row == h));
            lemma_board_bits(col, row);
        }
        assert forall|i: int| 49 <= i < 64 implies !#[trigger] bit(self.landing_cells(), i) by {
            lemma_high_bits_clear(sum, i);
        }
        assert forall|i: int| #[trigger]
            bit(self.landing_cells(), i) implies 0 <= i < 49 && self.playable(i / 7) && i % 7
            == self.height(i / 7) by {
            if 0 <= i < 49 {
                lemma_index_cell(i);
                assert(bit(self.landing_cells(), cell_index(i / 7, i % 7)));
            }
        }
    }

    /// Check if a position holds four in a line.
    pub fn is_winning(position: u64) -> (r: bool)
        ensures
            r == (bit_run(position, 7) || bit_run(position, 6) || bit_run(position, 8) || bit_run(
                position,
                1,
            )),
            subset_bits(position, board_bits()) ==> r == has_four(position),
    {
        proof {
            lemma_run_detect(position, 7);
            lemma_run_detect(position, 6);
            lemma_run_detect(position, 8);
            lemma_run_detect(position, 1);
            if subset_bits(position, board_bits()) {
                lemma_runs_are_fours(position);
            }
        }
        // Horizontal
        let mut m = position & (position >> 7u64);
        if m & (m >> 14u64) != 0 {
            return true;
        }
        // Diagonal \
        m = position & (position >> 6u64);
        if m & (m >> 12u64) != 0 {
            return true;
        }
        // Diagonal /
        m = position & (position >> 8u64);
        if m & (m >> 16u64) != 0 {
            return true;
        }
        // Vertical
        m = position & (position >> 1u64);
        m & (m >> 2u64) != 0
    }

    /// The empty cells where a disc of `position` would complete four in a
    /// line (vertical lines counted from below).
    pub fn compute_winning_positions(position: u64, mask: u64) -> (r: u64)
        ensures
            r == threat_cells(position, mask),
            forall|i: int| #[trigger]
                bit(r, i) == (bit(board_bits() ^ mask, i) && threat_at(position, i)),
            subset_bits(position, board_bits()) && subset_bits(mask, board_bits()) ==> {
                &&& forall|col: int, row: int|
                    on_board(col, row) ==> #[trigger] bit(r, cell_index(col, row)) == (!bit(
                        mask,
                        cell_index(col, row),
                    ) && completes_four(position, col, row))
                &&& subset_bits(r, board_bits())
                &&& r & mask == 0
            },
    {
        // Vertical
        let mut r = (position << 1u64) & (position << 2u64) & (position << 3u64);

        // Horizontal
        let mut p = (position << 7u64) & (position << 14u64);
        r = r | (p & (position << 21u64));
        r = r | (p & (position >> 7u64));
        p = (position >> 7u64) & (position >> 14u64);
        r = r | (p & (position >> 21u64));
        r = r | (p & (position << 7u64));

        // Diagonal 1
        p = (position << 6u64) & (position << 12u64);
        r = r | (p & (position << 18u64));
        r = r | (p & (position >> 6u64));
        p = (position >> 6u64) & (position >> 12u64);
        r = r | (p & (position >> 18u64));
        r = r | (p & (position << 6u64));

        // Diagonal 2
        p = (position << 8u64) & (position << 16u64);
        r = r | (p & (position << 24u64));
        r = r | (p & (position >> 8u64));
        p = (position >> 8u64) & (position >> 16u64);
        r = r | (p & (position >> 24u64));
        r = r | (p & (position << 8u64));

        let result = r & (Self::BOARD_MASK ^ mask);
        proof {
            assert forall|i: int| #[trigger]
                bit(result, i) == (bit(board_bits() ^ mask, i) && threat_at(position, i)) by {}
            assert(is_threat_cells(result, position, mask));
            let w = threat_cells(position, mask);
            assert forall|i: int| 0 <= i < 64 implies #[trigger] bit(w, i) == bit(result, i) by {}
            lemma_bits_ext(w, result);
            if subset_bits(position, board_bits()) && subset_bits(mask, board_bits()) {
                assert forall|col: int, row: int| on_board(col, row) implies #[trigger] bit(
                    result,
                    cell_index(col, row),
                ) == (!bit(mask, cell_index(col, row)) && completes_four(position, col, row)) by {
                    lemma_threat_is_completion(position, col, row);
                    lemma_board_bits(col, row);
                }
                assert forall|i: int| 0 <= i < 64 implies !#[trigger] bit(
                    result & !board_bits(),
                    i,
                ) by {
                    if bit(mask, i) {
                        lemma_subset_bit(mask, board_bits(), i);
                    }
                }
                lemma_zero_iff_no_bits(result & !board_bits());
                assert forall|i: int| 0 <= i < 64 implies !#[trigger] bit(result & mask, i) by {
                    if bit(mask, i) {
                        lemma_subset_bit(mask, board_bits(), i);
                    }
                }
                lemma_zero_iff_no_bits(result & mask);
            }
        }
        result
    }

    /// Get positions where the current player can win immediately
    pub fn winning_positions(&self) -> (r: u64)
        ensures
            forall|i: int| #[trigger]
                bit(r, i) == (bit(board_bits() ^ self.mask, i) && threat_at(self.current, i)),
            self.wf() ==> self.winning_cells_model(self.current, r),
    {
        let r = Self::compute_winning_positions(self.current, self.mask);
        proof {
            if self.wf() {
                self.lemma_wf_cells();
                self.lemma_winning_cells_model(self.current, r);
            }
        }
        r
    }

    /// Get positions where the opponent could win
    pub fn opponent_winning_positions(&self) -> (r: u64)
        ensures
            forall|i: int| #[trigger]
                bit(r, i) == (bit(board_bits() ^ self.mask, i) && threat_at(
                    self.current ^ self.mask,
                    i,
                )),
            self.wf() ==> self.winning_cells_model(self.opponent_bits(), r),
    {
        let r = Self::compute_winning_positions(self.opponent(), self.mask);
        proof {
            if self.wf() {
                self.lemma_wf_cells();
                self.lemma_opponent_on_board();
                self.lemma_winning_cells_model(self.opponent_bits(), r);
            }
        }
        r
    }

    /// `w` holds exactly the empty cells of this board where a disc of `p`
    /// completes four in a line.
    pub open spec fn winning_cells_model(self, p: u64, w: u64) -> bool {
        &&& forall|col: int, row: int|
            on_board(col, row) ==> #[trigger] bit(w, cell_index(col, row)) == (row >= self.height(
                col,
            ) && completes_four(p, col, row))
        &&& subset_bits(w, board_bits())
        &&& w & self.mask == 0
    }

    proof fn lemma_winning_cells_model(self, p: u64, w: u64)
        requires
            self.wf(),
            subset_bits(p, board_bits()),
            forall|col: int, row: int|
                on_board(col, row) ==> #[trigger] bit(w, cell_index(col, row)) == (!bit(
                    self.mask,
                    cell_index(col, row),
                ) && completes_four(p, col, row)),
            subset_bits(w, board_bits()),
            w & self.mask == 0,
        ensures
            self.winning_cells_model(p, w),
    {
        self.lemma_wf_cells();
        assert forall|col: int, row: int| on_board(col, row) implies #[trigger] bit(
            w,
            cell_index(col, row),
        ) == (row >= self.height(col) && completes_four(p, col, row)) by {
            assert(bit(self.mask, cell_index(col, row)) == (row < self.height(col)));
        }
    }

    /// The opponent completes four in a line by dropping a disc in `col`.
    pub open spec fn opponent_threatens(self, col: int) -> bool {
        self.playable(col) && completes_four(self.opponent_bits(), col, self.height(col))
    }

    /// Dropping a disc in `col` opens the cell above it to an opponent's
    /// winning move.
    pub open spec fn exposes(self, col: int) -> bool {
        self.height(col) + 1 < 6 && completes_four(self.opponent_bits(), col, self.height(col) + 1)
    }

    /// The opponent threatens to win in two different columns.
    pub open spec fn double_threat(self) -> bool {
        exists|c1: int, c2: int|
            c1 != c2 && #[trigger] self.opponent_threatens(c1) && #[trigger] self.opponent_threatens(
                c2,
            )
    }

    /// The opponent threatens to win in `col` and in no other column.
    pub open spec fn single_threat(self, col: int) -> bool {
        &&& self.opponent_threatens(col)
        &&& forall|c: int| c != col ==> !#[trigger] self.opponent_threatens(c)
    }

    /// `r` is the set of moves that do not hand the opponent an immediate win:
    /// none when the opponent threatens twice, the blocking move when it
    /// threatens once (none when the block opens the cell above it to the
    /// opponent), and otherwise every landing cell that does not open the cell
    /// above it to the opponent.
    pub open spec fn non_losing_model(self, r: u64) -> bool {
        &&& self.double_threat() ==> r == 0
        &&& forall|col: int| #[trigger] self.single_threat(col) ==> r == (if self.exposes(col) {
            0u64
        } else {
            self.landing_bit(col)
        })
        &&& (forall|col: int| !#[trigger] self.opponent_threatens(col)) ==> {
            &&& forall|col: int, row: int|
                0 <= col < 7 && 0 <= row < 7 ==> #[trigger] bit(r, cell_index(col, row)) == (
                self.playable(col) && row == self.height(col) && !self.exposes(col))
            &&& forall|i: int| 49 <= i < 64 ==> !#[trigger] bit(r, i)
        }
    }

    /// The moves that do not hand the opponent an immediate win, as
    /// `possible_non_losing_moves` returns them.
    pub open spec fn non_losing_moves(self) -> u64 {
        choose|r: u64| #[trigger] self.non_losing_model(r) && subset_bits(r, self.landing_cells())
    }

    /// Every move that the non-losing moves keep leaves the opponent without
    /// a winning reply.
    pub proof fn lemma_kept_move_is_safe(self, moves: u64, col: int)
        requires
            self.wf(),
            self.non_losing_model(moves),
            self.playable(col),
            bit(moves, cell_index(col, self.height(col))),
        ensures
            !self.spec_play(col).can_win_now(),
    {
        let next = self.spec_play(col);
        self.lemma_play_wf(col);
        self.lemma_wf_cells();
        assert(!bit(0u64, cell_index(col, self.height(col))));
        if self.double_threat() {
            assert(moves == 0);
        } else if exists|c: int| #[trigger] self.opponent_threatens(c) {
            let t = choose|t: int| #[trigger] self.opponent_threatens(t);
            assert(self.single_threat(t)) by {
                assert forall|c2: int| c2 != t implies !#[trigger] self.opponent_threatens(c2) by {
                    if self.opponent_threatens(c2) {
                        assert(self.double_threat());
                    }
                }
            }
            assert(!self.exposes(t));
            assert(moves == self.landing_bit(t));
            assert(col == t);
        } else {
            assert(!self.exposes(col));
        }
        assert(!self.exposes(col));
        if next.can_win_now() {
            let x = choose|x: int|
                #![trigger next.playable(x)]
                next.playable(x) && completes_four(next.current, x, next.height(x));
            if x != col {
                assert(self.opponent_threatens(x));
            }
        }
    }

    /// Every column with room that the non-losing moves leave out lets the
    /// opponent win with their next disc.
    pub proof fn lemma_dropped_move_loses(self, moves: u64, col: int)
        requires
            self.wf(),
            self.non_losing_model(moves),
            self.playable(col),
            !bit(moves, cell_index(col, self.height(col))),
        ensures
            self.spec_play(col).can_win_now(),
    {
        let next = self.spec_play(col);
        self.lemma_play_wf(col);
        self.lemma_wf_cells();
        if self.double_threat() {
            let (c1, c2) = choose|c1: int, c2: int|
                c1 != c2 && #[trigger] self.opponent_threatens(c1) && #[trigger] self.opponent_threatens(c2);
            let c = if c1 != col { c1 } else { c2 };
            assert(next.playable(c));
            assert(completes_four(next.current, c, next.height(c)));
        } else if exists|c: int| #[trigger] self.opponent_threatens(c) {
            let t = choose|t: int| #[trigger] self.opponent_threatens(t);
            assert(self.single_threat(t)) by {
                assert forall|c2: int| c2 != t implies !#[trigger] self.opponent_threatens(c2) by {
                    if self.opponent_threatens(c2) {
                        assert(self.double_threat());
                    }
                }
            }
            if t == col {
                if !self.exposes(t) {
                    assert(moves == self.landing_bit(t));
                    assert(bit(moves, cell_index(col, self.height(col))));
                }
                assert(next.playable(col));
                assert(completes_four(next.current, col, next.height(col)));
            } else {
                assert(next.playable(t));
                assert(completes_four(next.current, t, next.height(t)));
            }
        } else {
            assert(self.exposes(col));
            assert(next.playable(col));
            assert(completes_four(next.current, col, next.height(col)));
        }
    }

    /// When the opponent threatens a single column, the only move that the
    /// non-losing moves can keep is the block there.
    pub proof fn lemma_single_threat_forces_block(self, moves: u64, threat: int, col: int)
        requires
            self.wf(),
            self.non_losing_model(moves),
            self.single_threat(threat),
            self.playable(col),
            bit(moves, cell_index(col, self.height(col))),
        ensures
            col == threat,
    {
        self.lemma_wf_cells();
        assert(!bit(0u64, cell_index(col, self.height(col))));
        if !self.exposes(threat) {
            assert(moves == self.landing_bit(threat));
        }
    }

    /// `non_losing_model` fixes the word it describes.
    pub proof fn lemma_non_losing_unique(self, r1: u64, r2: u64)
        requires
            self.wf(),
            self.non_losing_model(r1),
            self.non_losing_model(r2),
        ensures
            r1 == r2,
    {
        if self.double_threat() {
        } else if exists|c: int| #[trigger] self.opponent_threatens(c) {
            let c = choose|c: int| #[trigger] self.opponent_threatens(c);
            assert(self.single_threat(c)) by {
                assert forall|c2: int| c2 != c implies !#[trigger] self.opponent_threatens(c2) by {
                    if self.opponent_threatens(c2) {
                        assert(self.double_threat());
                    }
                }
            }
        } else {
            assert forall|i: int| 0 <= i < 64 implies #[trigger] bit(r1, i) == bit(r2, i) by {
                if i < 49 {
                    lemma_index_cell(i);
                    assert(bit(r1, cell_index(i / 7, i % 7)) == bit(r2, cell_index(i / 7, i % 7)));
                }
            }
            lemma_bits_ext(r1, r2);
        }
    }

    /// The landing cell of `col` is the only landing cell in that column.
    pub proof fn lemma_landing_in_column(self, u: u64, col: int)
        requires
            self.wf(),
            0 <= col < 7,
            subset_bits(u, self.landing_cells()),
        ensures
            u & (63u64 << (7 * col) as u64) == if self.playable(col) && bit(
                u,
                cell_index(col, self.height(col)),
            ) {
                self.landing_bit(col)
            } else {
                0
            },
    {
        self.lemma_wf_cells();
        self.lemma_landing_cells();
        let cm = 63u64 << (7 * col) as u64;
        let x = u & cm;
        let expect = if self.playable(col) && bit(u, cell_index(col, self.height(col))) {
            self.landing_bit(col)
        } else {
            0
        };
        lemma_shift_of_col(col);
        assert forall|i: int| 0 <= i < 64 implies #[trigger] bit(x, i) == bit(expect, i) by {
            let s = (7 * col) as u64;
            if bit(u, i) {
                lemma_subset_bit(u, self.landing_cells(), i);
            }
            lemma_column_mask_bit(col, i);
        }
        lemma_bits_ext(x, expect);
    }

    /// The discs of a column, counted from the mask, are its height.
    pub proof fn lemma_column_count(self, col: int)
        requires
            self.wf(),
            0 <= col < 7,
        ensures
            self.height(col) == popcount(self.mask & (63u64 << (7 * col) as u64)),
    {
        broadcast use group_bits;

        self.lemma_wf_cells();
        let h = self.height(col);
        lemma_column_run(col, h);
        let x = self.mask & (63u64 << (7 * col) as u64);
        assert forall|i: int| 0 <= i < 64 implies bit(x, i) == bit(column_run(col, h), i) by {
            lemma_column_mask_bit(col, i);
            if i < 49 {
                lemma_index_cell(i);
            }
        }
        lemma_bits_ext(x, column_run(col, h));
    }

    /// The possible moves of a well-formed board lie on the board, and in
    /// each column they are the cell above the column's discs, counted from
    /// the mask, when the column has room, and nothing otherwise.
    pub proof fn lemma_possible_moves_by_column(self, col: int)
        requires
            self.wf(),
            0 <= col < 7,
        ensures
            self.landing_cells() & !board_bits() == 0,
            self.landing_cells() & (63u64 << (7 * col) as u64) == if self.playable(col) {
                1u64 << ((7 * col + popcount(self.mask & (63u64 << (7 * col) as u64))) as u64)
            } else {
                0
            },
    {
        broadcast use group_bits;

        self.lemma_landing_cells();
        let l = self.landing_cells();
        assert forall|i: int| 0 <= i < 64 implies bit(l & !l, i) == bit(0u64, i) by {}
        lemma_bits_ext(l & !l, 0u64);
        assert forall|i: int| 0 <= i < 64 implies bit(l & !board_bits(), i) == bit(0u64, i) by {
            lemma_board_bit_index(i);
            if bit(l, i) {
                lemma_index_cell(i);
            }
        }
        lemma_bits_ext(l & !board_bits(), 0u64);
        self.lemma_landing_in_column(l, col);
        self.lemma_column_count(col);
    }

    /// The landing cells where the opponent would complete four.
    proof fn lemma_forced_bits(self, forced: u64, ow: u64)
        requires
            self.wf(),
            self.winning_cells_model(self.opponent_bits(), ow),
            forced == self.landing_cells() & ow,
        ensures
            forall|col: int, row: int|
                0 <= col < 7 && 0 <= row < 7 ==> #[trigger] bit(forced, cell_index(col, row)) == (
                row == self.height(col) && self.opponent_threatens(col)),
            forall|i: int| #[trigger]
                bit(forced, i) ==> 0 <= i < 49 && self.opponent_threatens(i / 7) && i % 7
                    == self.height(i / 7),
            forall|col: int| #[trigger]
                self.opponent_threatens(col) ==> bit(forced, cell_index(col, self.height(col))),
    {
        self.lemma_wf_cells();
        self.lemma_landing_cells();
        assert forall|col: int, row: int|
            0 <= col < 7 && 0 <= row < 7 implies #[trigger] bit(forced, cell_index(col, row)) == (
            row == self.height(col) && self.opponent_threatens(col)) by {
            if row < 6 {
                assert(bit(ow, cell_index(col, row)) == (row >= self.height(col) && completes_four(
                    self.opponent_bits(),
                    col,
                    row,
                )));
            }
        }
        assert forall|i: int| #[trigger] bit(forced, i) implies 0 <= i < 49
            && self.opponent_threatens(i / 7) && i % 7 == self.height(i / 7) by {
            lemma_index_cell(i);
            assert(bit(forced, cell_index(i / 7, i % 7)));
        }
    }

    proof fn lemma_forced_double(self, forced: u64)
        requires
            self.wf(),
            forall|i: int| #[trigger]
                bit(forced, i) ==> 0 <= i < 49 && self.opponent_threatens(i / 7) && i % 7
                    == self.height(i / 7),
            exists|i: int, j: int| i != j && #[trigger] bit(forced, i) && #[trigger] bit(forced, j),
        ensures
            self.double_threat(),
    {
        let (i, j) = choose|i: int, j: int|
            i != j && #[trigger] bit(forced, i) && #[trigger] bit(forced, j);
        lemma_index_cell(i);
        lemma_index_cell(j);
        assert(self.opponent_threatens(i / 7) && self.opponent_threatens(j / 7));
        assert(i / 7 != j / 7);
    }

    proof fn lemma_forced_single(self, forced: u64) -> (c: int)
        requires
            self.wf(),
            forced != 0,
            !(exists|i: int, j: int| i != j && #[trigger] bit(forced, i) && #[trigger] bit(forced, j)),
            forall|i: int| #[trigger]
                bit(forced, i) ==> 0 <= i < 49 && self.opponent_threatens(i / 7) && i % 7
                    == self.height(i / 7),
            forall|col: int| #[trigger]
                self.opponent_threatens(col) ==> bit(forced, cell_index(col, self.height(col))),
        ensures
            self.single_threat(c),
            forced == self.landing_bit(c),
    {
        lemma_nonzero_has_bit(forced);
        let i = choose|i: int| 0 <= i < 64 && bit(forced, i);
        let c = i / 7;
        lemma_index_cell(i);
        assert(self.opponent_threatens(c));
        assert forall|c2: int| c2 != c implies !#[trigger] self.opponent_threatens(c2) by {
            if self.opponent_threatens(c2) {
                assert(bit(forced, cell_index(c2, self.height(c2))));
            }
        }
        self.lemma_wf_cells();
        assert forall|j: int| 0 <= j < 64 implies #[trigger] bit(forced, j) == bit(
            self.landing_bit(c),
            j,
        ) by {
            if bit(forced, j) {
                assert(j == i);
            }
        }
        lemma_bits_ext(forced, self.landing_bit(c));
        c
    }

    proof fn lemma_unforced_bits(self, ow: u64, r: u64)
        requires
            self.wf(),
            self.winning_cells_model(self.opponent_bits(), ow),
            r == self.landing_cells() & !(ow >> 1u64),
        ensures
            forall|col: int, row: int|
                0 <= col < 7 && 0 <= row < 7 ==> #[trigger] bit(r, cell_index(col, row)) == (
                self.playable(col) && row == self.height(col) && !self.exposes(col)),
            forall|i: int| 49 <= i < 64 ==> !#[trigger] bit(r, i),
            subset_bits(r, self.landing_cells()),
    {
        self.lemma_wf_cells();
        self.lemma_landing_cells();
        let opp = self.opponent_bits();
        assert forall|col: int, row: int|
            0 <= col < 7 && 0 <= row < 7 implies #[trigger] bit(r, cell_index(col, row)) == (
            self.playable(col) && row == self.height(col) && !self.exposes(col)) by {
            if row + 1 < 6 {
                assert(bit(ow, cell_index(col, row + 1)) == (row + 1 >= self.height(col)
                    && completes_four(opp, col, row + 1)));
            } else if row + 1 == 6 {
                lemma_board_bits(col, 6);
                if bit(ow, cell_index(col, 6)) {
                    lemma_subset_bit(ow, board_bits(), cell_index(col, 6));
                }
            }
        }
        assert forall|i: int| 0 <= i < 64 implies !#[trigger] bit(r & !self.landing_cells(), i) by {}
        lemma_zero_iff_no_bits(r & !self.landing_cells());
    }

    /// Get possible non-losing moves: moves that don't immediately let the
    /// opponent win.
    pub fn possible_non_losing_moves(&self) -> (r: u64)
        requires
            self.wf(),
        ensures
            self.non_losing_model(r),
            subset_bits(r, self.landing_cells()),
            r == self.non_losing_moves(),
    {
        proof {
            self.lemma_wf_cells();
            self.lemma_landing_cells();
        }
        let r = self.non_losing_moves_inner();
        proof {
            let s = self.non_losing_moves();
            assert(self.non_losing_model(r) && subset_bits(r, self.landing_cells()));
            self.lemma_non_losing_unique(r, s);
        }
        r
    }

    fn non_losing_moves_inner(&self) -> (r: u64)
        requires
            self.wf(),
        ensures
            self.non_losing_model(r),
            subset_bits(r, self.landing_cells()),
    {
        proof {
            self.lemma_wf_cells();
            self.lemma_landing_cells();
        }
        let possible = self.possible_moves();
        let opponent_win = self.opponent_winning_positions();
        let forced_moves = possible & opponent_win;
        proof {
            self.lemma_forced_bits(forced_moves, opponent_win);
        }
        if forced_moves != 0 {
            proof {
                lemma_two_bits_test(forced_moves);
            }
            if forced_moves & (forced_moves - 1) != 0 {
                proof {
                    self.lemma_forced_double(forced_moves);
                    self.lemma_threat_cases(0);
                }
                return 0;
            }
            proof {
                self.lemma_forced_single(forced_moves);
            }
            // Only one forced move, and none if blocking opens the cell above
            let r = forced_moves & !(opponent_win >> 1u64);
            proof {
                let c = choose|c: int| #[trigger] self.single_threat(c) && forced_moves
                    == self.landing_bit(c);
                let u = possible & !(opponent_win >> 1u64);
                self.lemma_unforced_bits(opponent_win, u);
                let idx = cell_index(c, self.height(c));
                assert(bit(u, idx) == !self.exposes(c));
                let want = if self.exposes(c) {
                    0u64
                } else {
                    self.landing_bit(c)
                };
                assert(bit(self.landing_bit(c), idx));
                assert forall|i: int| 0 <= i < 64 implies #[trigger] bit(r, i) == bit(want, i) by {
                    assert(bit(self.landing_bit(c), i) == (i == idx));
                    if i == idx {
                        assert(bit(possible, idx));
                    }
                }
                lemma_bits_ext(r, want);
                self.lemma_threat_cases(r);
            }
            return r;
        }
        let r = possible & !(opponent_win >> 1u64);
        proof {
            assert forall|col: int| !#[trigger] self.opponent_threatens(col) by {
                if self.opponent_threatens(col) {
                    assert(bit(forced_moves, cell_index(col, self.height(col))));
                }
            }
            self.lemma_unforced_bits(opponent_win, r);
            assert(!self.double_threat());
            assert forall|col: int| !#[trigger] self.single_threat(col) by {}
        }
        r
    }

    proof fn lemma_threat_cases(self, r: u64)
        requires
            self.wf(),
            (self.double_threat() && r == 0) || (exists|c: int|
                #[trigger] self.single_threat(c) && r == (if self.exposes(c) {
                    0u64
                } else {
                    self.landing_bit(c)
                })),
        ensures
            self.non_losing_model(r),
            subset_bits(r, self.landing_cells()),
    {
        self.lemma_wf_cells();
        self.lemma_landing_cells();
        if self.double_threat() && r == 0 {
            let (c1, c2) = choose|c1: int, c2: int|
                c1 != c2 && #[trigger] self.opponent_threatens(c1) && #[trigger] self.opponent_threatens(
                    c2,
                );
            assert forall|col: int| !#[trigger] self.single_threat(col) by {}
            crate::bits::lemma_zero_and(!self.landing_cells());
        } else {
            let c = choose|c: int| #[trigger] self.single_threat(c) && r == (if self.exposes(c) {
                0u64
            } else {
                self.landing_bit(c)
            });
            assert(!self.double_threat());
            assert forall|col: int| #[trigger] self.single_threat(col) implies r == (if self.exposes(
                col,
            ) {
                0u64
            } else {
                self.landing_bit(col)
            }) by {
                assert(col == c);
            }
            if self.exposes(c) {
                crate::bits::lemma_zero_and(!self.landing_cells());
            } else {
                assert forall|i: int| 0 <= i < 64 implies !#[trigger] bit(
                    r & !self.landing_cells(),
                    i,
                ) by {
                    if i == cell_index(c, self.height(c)) {
                        assert(bit(self.landing_cells(), cell_index(c, self.height(c))));
                    }
                }
                lemma_zero_iff_no_bits(r & !self.landing_cells());
            }
        }
    }

    /// Move-ordering score: the number of cells where the mover would then
    /// complete four, after adding `move_mask` to their pieces.
    pub fn move_score(&self, move_mask: u64) -> (r: i32)
        ensures
            r == popcount(threat_cells(self.current | move_mask, self.mask | move_mask)),
            0 <= r <= 64,
    {
        let new_position = self.current | move_mask;
        count_ones(Self::compute_winning_positions(new_position, self.mask | move_mask)) as i32
    }

    /// Display grid, top row first: 0 for an empty cell, 1 for the first
    /// player (red), 2 for the second (yellow).
    pub open spec fn cell_code(self, col: int, row: int) -> u8 {
        let yellow_to_move = self.moves % 2 == 1;
        if bit(self.current, cell_index(col, row)) {
            if yellow_to_move {
                2
            } else {
                1
            }
        } else if bit(self.current ^ self.mask, cell_index(col, row)) {
            if yellow_to_move {
                1
            } else {
                2
            }
        } else {
            0
        }
    }

    /// Convert to display array for printing
    pub fn to_array(self) -> (r: [[u8; 7]; 6])
        ensures
            forall|row: int, col: int|
                0 <= row < 6 && 0 <= col < 7 ==> #[trigger] r[5 - row][col] == self.cell_code(
                    col,
                    row,
                ),
    {
        let mut array = [[0u8; 7]; 6];
        let opponent = self.opponent();
        let is_yellow_turn = self.moves % 2 == 1;
        let mut col: usize = 0;
        while col < COLS
            invariant
                0 <= col <= 7,
                opponent == self.current ^ self.mask,
                is_yellow_turn == (self.moves % 2 == 1),
                forall|row: int, c: int|
                    0 <= row < 6 && 0 <= c < 7 ==> #[trigger] array[5 - row][c] == if c < col {
                        self.cell_code(c, row)
                    } else {
                        0u8
                    },
            decreases 7 - col,
        {
            let mut row: usize = 0;
            while row < ROWS
                invariant
                    0 <= col < 7,
                    0 <= row <= 6,
                    opponent == self.current ^ self.mask,
                    is_yellow_turn == (self.moves % 2 == 1),
                    forall|rw: int, c: int|
                        0 <= rw < 6 && 0 <= c < 7 ==> #[trigger] array[5 - rw][c] == if c < col || (c
                            == col && rw < row) {
                            self.cell_code(c, rw)
                        } else {
                            0u8
                        },
                decreases 6 - row,
            {
                let b = 1u64 << (col as u64 * 7 + row as u64);
                let ghost idx = cell_index(col as int, row as int);
                proof {
                    assert(bit(self.current & b, idx) == bit(self.current, idx));
                    assert(bit(opponent & b, idx) == bit(opponent, idx));
                    if (self.current & b) == 0 {
                        assert(!bit(0u64, idx));
                    } else {
                        lemma_nonzero_has_bit(self.current & b);
                    }
                    if (opponent & b) == 0 {
                        assert(!bit(0u64, idx));
                    } else {
                        lemma_nonzero_has_bit(opponent & b);
                    }
                }
                let code: u8 = if self.current & b != 0 {
                    if is_yellow_turn {
                        2
                    } else {
                        1
                    }
                } else if opponent & b != 0 {
                    if is_yellow_turn {
                        1
                    } else {
                        2
                    }
                } else {
                    0
                };
                let mut line = array[ROWS - 1 - row];
                line[col] = code;
                array[ROWS - 1 - row] = line;
                row = row + 1;
            }
            col = col + 1;
        }
        array
    }

    /// Some landing cell completes four for the mover exactly when the
    /// mover's winning cells meet the landing cells.
    pub proof fn lemma_can_win_now(self, w: u64)
        requires
            self.wf(),
            self.winning_cells_model(self.current, w),
        ensures
            (w & self.landing_cells() != 0) == self.can_win_now(),
    {
        self.lemma_wf_cells();
        self.lemma_landing_cells();
        let x = w & self.landing_cells();
        if x != 0 {
            lemma_nonzero_has_bit(x);
            let i = choose|i: int| 0 <= i < 64 && bit(x, i);
            lemma_index_cell(i);
            assert(bit(w, cell_index(i / 7, i % 7)));
            assert(self.playable(i / 7));
        }
        if self.can_win_now() {
            let c = choose|c: int| #![trigger self.playable(c)]
                self.playable(c) && completes_four(self.current, c, self.height(c));
            assert(bit(x, cell_index(c, self.height(c))));
        }
    }

    /// A board that is not full has a column with room.
    pub proof fn lemma_not_full_playable(self)
        requires
            self.wf(),
            !self.spec_is_full(),
        ensures
            exists|col: int| #[trigger] self.playable(col),
    {
        self.lemma_wf_cells();
        if !(exists|col: int| #[trigger] self.playable(col)) {
            assert(!self.playable(0) && !self.playable(1) && !self.playable(2) && !self.playable(3)
                && !self.playable(4) && !self.playable(5) && !self.playable(6));
        }
    }

    /// A board with a column that has room is not full.
    pub proof fn lemma_playable_not_full(self, col: int)
        requires
            self.wf(),
            self.playable(col),
        ensures
            !self.spec_is_full(),
    {
        self.lemma_wf_cells();
    }

    /// A well-formed board is full exactly when no column has room.
    pub proof fn lemma_full_iff_no_room(self)
        requires
            self.wf(),
        ensures
            self.spec_is_full() == (forall|col: int| !#[trigger] self.playable(col)),
    {
        if !self.spec_is_full() {
            self.lemma_not_full_playable();
        } else {
            assert forall|col: int| !#[trigger] self.playable(col) by {
                if self.playable(col) {
                    self.lemma_playable_not_full(col);
                }
            }
        }
    }

    /// A well-formed board is full exactly when every cell of the board is
    /// filled (its mask is the board mask), and exactly when no disc can
    /// land anywhere (its landing cells, what `possible_moves` returns, are
    /// none).
    pub proof fn lemma_full_forms(self)
        requires
            self.wf(),
        ensures
            self.spec_is_full() == (self.mask == board_bits()),
            self.spec_is_full() == (self.landing_cells() == 0),
    {
        broadcast use group_bits;

        self.lemma_wf_cells();
        self.lemma_landing_cells();
        self.lemma_full_iff_no_room();
        if self.spec_is_full() {
            assert forall|i: int| 0 <= i < 64 implies bit(self.mask, i) == bit(board_bits(), i) by {
                lemma_board_bit_index(i);
                if i < 49 {
                    lemma_index_cell(i);
                    assert(!self.playable(i / 7));
                }
            }
            lemma_bits_ext(self.mask, board_bits());
            if self.landing_cells() != 0 {
                lemma_nonzero_has_bit(self.landing_cells());
                let i = choose|i: int| 0 <= i < 64 && bit(self.landing_cells(), i);
                assert(self.playable(i / 7));
            }
        } else {
            let c = choose|c: int| #[trigger] self.playable(c);
            let h = self.height(c);
            assert(bit(self.landing_cells(), cell_index(c, h)));
            assert(!bit(self.mask, cell_index(c, h)));
            lemma_board_bits(c, h);
        }
    }

    /// Check if the player who moved last has four in a line.
    pub fn opponent_wins(&self) -> (r: bool)
        ensures
            r == (bit_run(self.current ^ self.mask, 7) || bit_run(self.current ^ self.mask, 6)
                || bit_run(self.current ^ self.mask, 8) || bit_run(self.current ^ self.mask, 1)),
            self.wf() ==> r == has_four(self.opponent_bits()),
    {
        proof {
            if self.wf() {
                self.lemma_wf_cells();
                self.lemma_opponent_on_board();
            }
        }
        Self::is_winning(self.opponent())
    }

    /// The opponent's pieces lie on the board.
    pub proof fn lemma_opponent_on_board(self)
        requires
            self.wf(),
        ensures
            subset_bits(self.opponent_bits(), board_bits()),
            subset_bits(self.opponent_bits(), self.mask),
            self.current ^ self.mask == self.opponent_bits(),
    {
        self.lemma_wf_cells();
        assert forall|i: int| 0 <= i < 64 implies !#[trigger] bit(
            self.opponent_bits() & !board_bits(),
            i,
        ) by {
            if bit(self.mask, i) {
                lemma_subset_bit(self.mask, board_bits(), i);
            }
        }
        lemma_zero_iff_no_bits(self.opponent_bits() & !board_bits());
        assert forall|i: int| 0 <= i < 64 implies !#[trigger] bit(
            self.opponent_bits() & !self.mask,
            i,
        ) by {}
        lemma_zero_iff_no_bits(self.opponent_bits() & !self.mask);
        assert forall|i: int| 0 <= i < 64 implies #[trigger] bit(self.current ^ self.mask, i)
            == bit(self.opponent_bits(), i) by {}
        lemma_bits_ext(self.current ^ self.mask, self.opponent_bits());
    }

    /// The pieces of a well-formed board keep bits 49 and up, and the
    /// sentinels, clear.
    proof fn lemma_current_fields(self)
        requires
            self.wf(),
        ensures
            self.current >> 49u64 == 0,
            self.current & sentinel_bits() == 0,
            forall|col: int|
                0 <= col < 7 ==> #[trigger] col_field(self.current, col) & !col_field(self.mask, col)
                    == 0,
    {
        self.lemma_wf_cells();
        let c = self.current;
        let m = self.mask;
        assert(c & !m == 0 && m >> 49u64 == 0 && m & 0x1020408102040u64 == 0 ==> c >> 49u64 == 0
            && c & 0x1020408102040u64 == 0) by (bit_vector);
        assert forall|col: int| 0 <= col < 7 implies #[trigger] col_field(c, col) & !col_field(m, col)
            == 0 by {
            let s = (7 * col) as u64;
            assert(c & !m == 0 ==> ((c >> s) & 0x7fu64) & !((m >> s) & 0x7fu64) == 0)
                by (bit_vector);
        }
    }

    /// The key of a well-formed board fits in 64 bits.
    pub proof fn lemma_key_fits(self)
        requires
            self.wf(),
        ensures
            self.current + self.mask <= u64::MAX,
    {
        self.lemma_wf_cells();
        self.lemma_current_fields();
        lemma_add_fields(self.current, self.mask, 0);
    }

    /// Two well-formed boards with the same key are the same position: the
    /// key `current + mask` identifies the game state.
    pub proof fn lemma_key_unique(a: Bitboard, b: Bitboard)
        requires
            a.wf(),
            b.wf(),
            a.current + a.mask == b.current + b.mask,
        ensures
            a == b,
    {
        a.lemma_wf_cells();
        b.lemma_wf_cells();
        a.lemma_current_fields();
        b.lemma_current_fields();
        let ka = (a.current + a.mask) as u64;
        assert forall|col: int| 0 <= col < 7 implies #[trigger] col_field(a.mask, col)
            == col_field(b.mask, col) && col_field(a.current, col) == col_field(b.current, col) by {
            lemma_add_fields(a.current, a.mask, col);
            lemma_add_fields(b.current, b.mask, col);
            let xa = col_field(a.current, col);
            let ya = col_field(a.mask, col);
            let xb = col_field(b.current, col);
            let yb = col_field(b.mask, col);
            lemma_field_shape(ya);
            lemma_field_shape(yb);
            let ha = field_height(ya) as u64;
            let hb = field_height(yb) as u64;
            assert(ha <= 6 && hb <= 6 && ya == ((1u64 << ha) - 1) as u64 && yb == ((1u64 << hb)
                - 1) as u64 && xa & !ya == 0 && xb & !yb == 0 && xa + ya == xb + yb ==> ya == yb
                && xa == xb) by (bit_vector);
        }
        lemma_fields_ext(a.mask, b.mask);
        lemma_fields_ext(a.current, b.current);
    }

    /// Get all possible moves as a bitmask
    pub fn possible_moves(&self) -> (r: u64)
        requires
            self.mask + Self::BOTTOM <= u64::MAX,
        ensures
            r == ((self.mask + bottom_bits()) as u64) & board_bits(),
            r == self.landing_cells(),
    {
        (self.mask + Self::BOTTOM) & Self::BOARD_MASK
    }

    /// Check if board is full
    pub fn is_full(&self) -> (r: bool)
        ensures
            r == self.spec_is_full(),
    {
        self.moves >= TOTAL_CELLS as u32
    }

    /// Number of moves remaining before the board is full
    pub fn moves_remaining(&self) -> (r: i32)
        requires
            42 - (self.moves as i32) <= i32::MAX,
        ensures
            r == 42 - (self.moves as i32),
            self.moves <= i32::MAX ==> r == self.spec_moves_remaining(),
    {
        TOTAL_CELLS as i32 - #[verifier::truncate] (self.moves as i32)
    }

    /// Key identifying the position: the sum of the mover's pieces and all
    /// pieces.
    pub fn key(&self) -> (r: u64)
        requires
            self.current + self.mask <= u64::MAX,
        ensures
            r == self.current + self.mask,
            r == self.spec_key(),
    {
        self.current + self.mask
    }
}

impl Default for Bitboard {
    fn default() -> (r: Self)
        ensures
            r.current == 0,
            r.mask == 0,
            r.moves == 0,
    {
        Self::new()
    }
}

/// The discs of `p` plus the disc on `(col, row)`, cell by cell.
proof fn lemma_disc_added(p: u64, col: int, row: int, c: int, r: int)
    requires
        on_board(col, row),
    ensures
        has_disc(p | (1u64 << (cell_index(col, row) as u64)), c, r) == (has_disc(p, c, r) || (c
            == col && r == row)),
{
}

/// A line of four through the new disc, with the other three cells old.
proof fn lemma_line_with_new_disc(p: u64, col: int, row: int, c0: int, r0: int, dc: int, dr: int)
    requires
        on_board(col, row),
        !has_four(p),
        four_from(p | (1u64 << (cell_index(col, row) as u64)), c0, r0, dc, dr),
        (dc == 1 && dr == 0) || (dc == 0 && dr == 1) || (dc == 1 && dr == 1) || (dc == 1 && dr
            == -1),
    ensures
        (col == c0 && row == r0) || (col == c0 + dc && row == r0 + dr) || (col == c0 + 2 * dc
            && row == r0 + 2 * dr) || (col == c0 + 3 * dc && row == r0 + 3 * dr),
{
    let q = p | (1u64 << (cell_index(col, row) as u64));
    lemma_disc_added(p, col, row, c0, r0);
    lemma_disc_added(p, col, row, c0 + dc, r0 + dr);
    lemma_disc_added(p, col, row, c0 + 2 * dc, r0 + 2 * dr);
    lemma_disc_added(p, col, row, c0 + 3 * dc, r0 + 3 * dr);
    if !((col == c0 && row == r0) || (col == c0 + dc && row == r0 + dr) || (col == c0 + 2 * dc
        && row == r0 + 2 * dr) || (col == c0 + 3 * dc && row == r0 + 3 * dr)) {
        assert(four_from(p, c0, r0, dc, dr));
        assert(four_at(p, c0, r0));
    }
}

/// A line through `(col, row)` with three discs of `p` is a line of four in
/// `q` once `q` holds `p` and the cell `(col, row)`.
proof fn lemma_line_gives_four(p: u64, q: u64, col: int, row: int, dc: int, dr: int)
    requires
        has_disc(q, col, row),
        forall|c: int, r: int| #[trigger] has_disc(p, c, r) ==> has_disc(q, c, r),
        (dc == 1 && dr == 0) || (dc == 1 && dr == 1) || (dc == 1 && dr == -1),
        line_through(p, col, row, dc, dr),
    ensures
        has_four(q),
{
    if has_disc(p, col + dc, row + dr) && has_disc(p, col + 2 * dc, row + 2 * dr) && has_disc(
        p,
        col + 3 * dc,
        row + 3 * dr,
    ) {
        assert(four_from(q, col, row, dc, dr));
        assert(four_at(q, col, row));
    } else if has_disc(p, col - dc, row - dr) && has_disc(p, col + dc, row + dr) && has_disc(
        p,
        col + 2 * dc,
        row + 2 * dr,
    ) {
        assert(four_from(q, col - dc, row - dr, dc, dr));
        assert(four_at(q, col - dc, row - dr));
    } else if has_disc(p, col - 2 * dc, row - 2 * dr) && has_disc(p, col - dc, row - dr)
        && has_disc(p, col + dc, row + dr) {
        assert(four_from(q, col - 2 * dc, row - 2 * dr, dc, dr));
        assert(four_at(q, col - 2 * dc, row - 2 * dr));
    } else {
        assert(four_from(q, col - 3 * dc, row - 3 * dr, dc, dr));
        assert(four_at(q, col - 3 * dc, row - 3 * dr));
    }
}

/// Adding the disc `(col, row)` to `p` makes four exactly when it completes
/// four, given that `p` has no four and no disc above `(col, row)`.
proof fn lemma_new_disc_four(p: u64, col: int, row: int)
    requires
        on_board(col, row),
        !has_four(p),
        !has_disc(p, col, row + 1),
    ensures
        has_four(p | (1u64 << (cell_index(col, row) as u64))) == completes_four(p, col, row),
{
    let q = p | (1u64 << (cell_index(col, row) as u64));
    assert forall|c: int, r: int| #[trigger] has_disc(q, c, r) == (has_disc(p, c, r) || (c == col
        && r == row)) by {
        lemma_disc_added(p, col, row, c, r);
    }
    if completes_four(p, col, row) {
        if has_disc(p, col, row - 1) && has_disc(p, col, row - 2) && has_disc(p, col, row - 3) {
            assert(four_from(q, col, row - 3, 0, 1));
            assert(four_at(q, col, row - 3));
        } else if line_through(p, col, row, 1, 0) {
            lemma_line_gives_four(p, q, col, row, 1, 0);
        } else if line_through(p, col, row, 1, 1) {
            lemma_line_gives_four(p, q, col, row, 1, 1);
        } else {
            lemma_line_gives_four(p, q, col, row, 1, -1);
        }
    }
    if has_four(q) {
        let (c0, r0) = choose|c0: int, r0: int| #[trigger] four_at(q, c0, r0);
        if four_from(q, c0, r0, 0, 1) {
            lemma_line_with_new_disc(p, col, row, c0, r0, 0, 1);
        } else if four_from(q, c0, r0, 1, 0) {
            lemma_line_with_new_disc(p, col, row, c0, r0, 1, 0);
        } else if four_from(q, c0, r0, 1, 1) {
            lemma_line_with_new_disc(p, col, row, c0, r0, 1, 1);
        } else {
            lemma_line_with_new_disc(p, col, row, c0, r0, 1, -1);
        }
    }
}

impl Bitboard {
    /// An empty cell is among the opponent's winning cells exactly when an
    /// opponent disc there would give them four in a line.
    pub proof fn lemma_opponent_winning_cell(self, w: u64, col: int, row: int)
        requires
            self.wf(),
            !has_four(self.opponent_bits()),
            self.winning_cells_model(self.opponent_bits(), w),
            on_board(col, row),
            row >= self.height(col),
        ensures
            bit(w, cell_index(col, row)) == has_four(
                self.opponent_bits() | (1u64 << (cell_index(col, row) as u64)),
            ),
    {
        self.lemma_wf_cells();
        if row + 1 < 6 {
            assert(!bit(self.mask, cell_index(col, row + 1)));
        }
        assert(!has_disc(self.opponent_bits(), col, row + 1));
        lemma_new_disc_four(self.opponent_bits(), col, row);
    }

    /// A drop wins exactly when it completes four for the mover: the mover
    /// (who has no four yet) has four in a line after playing `col` if and
    /// only if the landing cell of `col` completes four, which is what
    /// `winning_positions` marks.
    pub proof fn lemma_drop_wins_iff(self, col: int)
        requires
            self.wf(),
            self.playable(col),
            !has_four(self.current),
        ensures
            has_four(self.spec_play(col).opponent_bits()) == completes_four(
                self.current,
                col,
                self.height(col),
            ),
    {
        let h = self.height(col);
        self.lemma_play_wf(col);
        self.lemma_wf_cells();
        assert(self.landing_bit(col) == 1u64 << (cell_index(col, h) as u64));
        if h + 1 < 6 {
            assert(bit(self.mask, cell_index(col, h + 1)) == (h + 1 < self.height(col)));
        }
        assert(!has_disc(self.current, col, h + 1));
        lemma_new_disc_four(self.current, col, h);
    }
}

} // verus!
