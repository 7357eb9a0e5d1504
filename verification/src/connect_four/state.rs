use vstd::prelude::*;
use crate::connect_four::piece::Piece;

verus! {

// ---------------------------------------------------------------------------
// The abstract board.
//
// A position is modelled as a sequence of 42 cells in column-major order:
// cell (col, row) lives at index col * 6 + row, with row 0 at the bottom of
// the board.  Every observable operation of a `State` implementation is
// specified against this one model.
// ---------------------------------------------------------------------------

pub open spec fn cell_index(col: int, row: int) -> int {
    col * 6 + row
}

pub open spec fn cell_at(b: Seq<Piece>, col: int, row: int) -> Piece {
    b[col * 6 + row]
}

pub open spec fn in_board(col: int, row: int) -> bool {
    0 <= col < 7 && 0 <= row < 6
}

pub open spec fn empty_board() -> Seq<Piece> {
    Seq::new(42, |i: int| Piece::EMPTY)
}

pub open spec fn other(p: Piece) -> Piece {
    match p {
        Piece::EMPTY => Piece::EMPTY,
        Piece::FIRST => Piece::SECOND,
        Piece::SECOND => Piece::FIRST,
    }
}

// ---------------------------------------------------------------------------
// Counting occupied cells.
// ---------------------------------------------------------------------------

/// How many of the first `n` cells are occupied.
pub open spec fn filled_below(b: Seq<Piece>, n: int) -> int
    decreases n,
{
    if n <= 0 {
        0
    } else {
        filled_below(b, n - 1) + if b[n - 1] != Piece::EMPTY {
            1int
        } else {
            0int
        }
    }
}

pub open spec fn num_filled(b: Seq<Piece>) -> int {
    filled_below(b, 42)
}

/// How many of the first `n` cells hold piece `p`.
pub open spec fn count_below(b: Seq<Piece>, p: Piece, n: int) -> int
    decreases n,
{
    if n <= 0 {
        0
    } else {
        count_below(b, p, n - 1) + if b[n - 1] == p {
            1int
        } else {
            0int
        }
    }
}

pub open spec fn count_piece(b: Seq<Piece>, p: Piece) -> int {
    count_below(b, p, 42)
}

/// The piece counts a position reachable by alternating play must show:
/// the first player has placed either exactly as many pieces as the second,
/// or one more.
pub open spec fn balanced(b: Seq<Piece>) -> bool {
    count_piece(b, Piece::FIRST) == count_piece(b, Piece::SECOND) || count_piece(b, Piece::FIRST)
        == count_piece(b, Piece::SECOND) + 1
}

pub proof fn lemma_filled_below_bounds(b: Seq<Piece>, n: int)
    requires
        0 <= n,
    ensures
        0 <= filled_below(b, n) <= n,
    decreases n,
{
    if n > 0 {
        lemma_filled_below_bounds(b, n - 1);
    }
}

pub proof fn lemma_filled_below_update(b: Seq<Piece>, i: int, p: Piece, n: int)
    requires
        0 <= i < b.len(),
        0 <= n <= b.len(),
        b[i] == Piece::EMPTY,
        p != Piece::EMPTY,
    ensures
        filled_below(b.update(i, p), n) == filled_below(b, n) + if i < n {
            1int
        } else {
            0int
        },
    decreases n,
{
    if n > 0 {
        lemma_filled_below_update(b, i, p, n - 1);
    }
}

pub proof fn lemma_count_below_update(b: Seq<Piece>, q: Piece, i: int, p: Piece, n: int)
    requires
        0 <= i < b.len(),
        0 <= n <= b.len(),
        b[i] == Piece::EMPTY,
        p != Piece::EMPTY,
    ensures
        q != Piece::EMPTY && q != p ==> count_below(b.update(i, p), q, n) == count_below(b, q, n),
        q == p ==> count_below(b.update(i, p), q, n) == count_below(b, q, n) + if i < n {
            1int
        } else {
            0int
        },
    decreases n,
{
    if n > 0 {
        lemma_count_below_update(b, q, i, p, n - 1);
    }
}

/// Every cell is empty, first or second, so the two per-player counts add up
/// to the number of occupied cells.
pub proof fn lemma_counts_sum(b: Seq<Piece>, n: int)
    requires
        0 <= n,
    ensures
        filled_below(b, n) == count_below(b, Piece::FIRST, n) + count_below(b, Piece::SECOND, n),
        0 <= count_below(b, Piece::FIRST, n),
        0 <= count_below(b, Piece::SECOND, n),
    decreases n,
{
    if n > 0 {
        lemma_counts_sum(b, n - 1);
    }
}

/// A board with fewer than `n` occupied cells among its first `n` has an
/// empty cell there.
pub proof fn lemma_partial_has_empty(b: Seq<Piece>, n: int)
    requires
        0 <= n,
        filled_below(b, n) < n,
    ensures
        exists|i: int| 0 <= i < n && b[i] == Piece::EMPTY,
    decreases n,
{
    if n > 0 {
        if b[n - 1] == Piece::EMPTY {
        } else {
            lemma_filled_below_bounds(b, n - 1);
            lemma_partial_has_empty(b, n - 1);
        }
    }
}

/// If `p` occupies four distinct cells then at least four cells hold `p`.
pub proof fn lemma_count_of_four(b: Seq<Piece>, p: Piece, i1: int, i2: int, i3: int, i4: int)
    requires
        b.len() == 42,
        0 <= i1 < i2 < i3 < i4 < 42,
        b[i1] == p,
        b[i2] == p,
        b[i3] == p,
        b[i4] == p,
    ensures
        count_piece(b, p) >= 4,
{
    lemma_count_step(b, p, i1, i2);
    lemma_count_step(b, p, i2, i3);
    lemma_count_step(b, p, i3, i4);
    assert(count_below(b, p, i1 + 1) >= 1) by {
        lemma_counts_sum_nonneg(b, p, i1);
    }
    assert(count_below(b, p, 42) >= count_below(b, p, i4 + 1)) by {
        lemma_count_mono(b, p, i4 + 1, 42);
    }
}

proof fn lemma_counts_sum_nonneg(b: Seq<Piece>, p: Piece, n: int)
    requires
        0 <= n,
    ensures
        count_below(b, p, n) >= 0,
    decreases n,
{
    if n > 0 {
        lemma_counts_sum_nonneg(b, p, n - 1);
    }
}

proof fn lemma_count_mono(b: Seq<Piece>, p: Piece, m: int, n: int)
    requires
        0 <= m <= n,
    ensures
        count_below(b, p, m) <= count_below(b, p, n),
    decreases n,
{
    if n > m {
        lemma_count_mono(b, p, m, n - 1);
    }
}

/// Between two cells holding `p` the count grows by at least one.
proof fn lemma_count_step(b: Seq<Piece>, p: Piece, i: int, j: int)
    requires
        0 <= i < j,
        b[i] == p,
        b[j] == p,
    ensures
        count_below(b, p, j + 1) >= count_below(b, p, i + 1) + 1,
{
    lemma_count_mono(b, p, i + 1, j);
}

// ---------------------------------------------------------------------------
// Dropping a piece into a column.
// ---------------------------------------------------------------------------

/// The first row at or above `row` in `col` whose cell is empty; 6 if none.
pub open spec fn low_row(b: Seq<Piece>, col: int, row: int) -> int
    decreases 6 - row,
{
    if row >= 6 {
        6
    } else if cell_at(b, col, row) == Piece::EMPTY {
        row
    } else {
        low_row(b, col, row + 1)
    }
}

pub open spec fn col_drop_row(b: Seq<Piece>, col: int) -> int {
    low_row(b, col, 0)
}

pub open spec fn col_playable(b: Seq<Piece>, col: int) -> bool {
    col_drop_row(b, col) < 6
}

pub open spec fn player_to_move(b: Seq<Piece>) -> Piece {
    if num_filled(b) % 2 == 0 {
        Piece::FIRST
    } else {
        Piece::SECOND
    }
}

pub open spec fn drop_index(b: Seq<Piece>, col: int) -> int {
    cell_index(col, col_drop_row(b, col))
}

/// The board after the player to move drops a piece into `col`.
pub open spec fn spec_drop(b: Seq<Piece>, col: int) -> Seq<Piece> {
    b.update(drop_index(b, col), player_to_move(b))
}

pub proof fn lemma_low_row(b: Seq<Piece>, col: int, row: int)
    requires
        0 <= row <= 6,
    ensures
        row <= low_row(b, col, row) <= 6,
        forall|r: int| row <= r < low_row(b, col, row) ==> cell_at(b, col, r) != Piece::EMPTY,
        low_row(b, col, row) < 6 ==> cell_at(b, col, low_row(b, col, row)) == Piece::EMPTY,
    decreases 6 - row,
{
    if row < 6 && cell_at(b, col, row) != Piece::EMPTY {
        lemma_low_row(b, col, row + 1);
    }
}

/// Any empty cell in a column bounds the drop row from above.
pub proof fn lemma_low_row_le(b: Seq<Piece>, col: int, row: int, r: int)
    requires
        0 <= row <= r < 6,
        cell_at(b, col, r) == Piece::EMPTY,
    ensures
        low_row(b, col, row) <= r,
    decreases 6 - row,
{
    if cell_at(b, col, row) != Piece::EMPTY {
        lemma_low_row_le(b, col, row + 1, r);
    }
}

/// A board that is not full has a playable column.
pub proof fn lemma_not_full_playable(b: Seq<Piece>)
    requires
        b.len() == 42,
        num_filled(b) < 42,
    ensures
        exists|c: int| 0 <= c < 7 && #[trigger] col_playable(b, c),
{
    lemma_partial_has_empty(b, 42);
    let i = choose|i: int| 0 <= i < 42 && b[i] == Piece::EMPTY;
    let c = i / 6;
    let r = i % 6;
    assert(i == c * 6 + r && 0 <= c < 7 && 0 <= r < 6) by (nonlinear_arith)
        requires
            0 <= i < 42,
            c == i / 6,
            r == i % 6,
    ;
    assert(cell_at(b, c, r) == Piece::EMPTY);
    lemma_low_row_le(b, c, 0, r);
    assert(col_playable(b, c));
}

pub proof fn lemma_drop_effect(b: Seq<Piece>, col: int)
    requires
        b.len() == 42,
        0 <= col < 7,
        col_playable(b, col),
    ensures
        spec_drop(b, col).len() == 42,
        0 <= drop_index(b, col) < 42,
        b[drop_index(b, col)] == Piece::EMPTY,
        num_filled(spec_drop(b, col)) == num_filled(b) + 1,
        player_to_move(spec_drop(b, col)) == other(player_to_move(b)),
        spec_drop(b, col)[drop_index(b, col)] == player_to_move(b),
        forall|i: int| 0 <= i < 42 && i != drop_index(b, col) ==> spec_drop(b, col)[i] == b[i],
        balanced(b) ==> balanced(spec_drop(b, col)),
{
    let r = col_drop_row(b, col);
    lemma_low_row(b, col, 0);
    assert(0 <= col * 6 + r < 42) by (nonlinear_arith)
        requires
            0 <= col < 7,
            0 <= r < 6,
    ;
    let i = drop_index(b, col);
    let p = player_to_move(b);
    lemma_filled_below_bounds(b, 42);
    lemma_filled_below_update(b, i, p, 42);
    lemma_counts_sum(b, 42);
    lemma_counts_sum(spec_drop(b, col), 42);
    lemma_count_below_update(b, Piece::FIRST, i, p, 42);
    lemma_count_below_update(b, Piece::SECOND, i, p, 42);
    assert(num_filled(spec_drop(b, col)) == num_filled(b) + 1);
    assert((num_filled(b) + 1) % 2 != num_filled(b) % 2) by {
        let m = num_filled(b);
        assert(m >= 0);
        assert((m + 1) % 2 != m % 2) by (nonlinear_arith)
            requires
                m >= 0,
        ;
    }
}

/// Dropping a piece keeps the column stacks gravity-closed.
pub open spec fn gravity(b: Seq<Piece>) -> bool {
    forall|c: int, r: int|
        0 <= c < 7 && 0 < r < 6 && #[trigger] cell_at(b, c, r) != Piece::EMPTY ==> cell_at(
            b,
            c,
            r - 1,
        ) != Piece::EMPTY
}

// ---------------------------------------------------------------------------
// Four in a row.
// ---------------------------------------------------------------------------

/// The four axis directions, oriented so that the column step is never
/// negative: up, right, down-right diagonal, up-right diagonal.
pub open spec fn dir_ok(dc: int, dr: int) -> bool {
    (dc == 0 && dr == 1) || (dc == 1 && dr == 0) || (dc == 1 && dr == -1) || (dc == 1 && dr == 1)
}

/// Four consecutive cells holding `p`, starting at (col, row) and stepping by
/// (dc, dr).
pub open spec fn run_of_four(b: Seq<Piece>, p: Piece, col: int, row: int, dc: int, dr: int) -> bool {
    &&& in_board(col, row) && cell_at(b, col, row) == p
    &&& in_board(col + dc, row + dr) && cell_at(b, col + dc, row + dr) == p
    &&& in_board(col + 2 * dc, row + 2 * dr) && cell_at(b, col + 2 * dc, row + 2 * dr) == p
    &&& in_board(col + 3 * dc, row + 3 * dr) && cell_at(b, col + 3 * dc, row + 3 * dr) == p
}

pub open spec fn has_four(b: Seq<Piece>, p: Piece) -> bool {
    exists|col: int, row: int, dc: int, dr: int|
        dir_ok(dc, dr) && #[trigger] run_of_four(b, p, col, row, dc, dr)
}

/// Some run of four of `p` passes through the cell at index `idx`.
pub open spec fn four_through(b: Seq<Piece>, p: Piece, idx: int) -> bool {
    exists|col: int, row: int, dc: int, dr: int|
        dir_ok(dc, dr) && #[trigger] run_of_four(b, p, col, row, dc, dr) && (cell_index(col, row)
            == idx || cell_index(col + dc, row + dr) == idx || cell_index(
            col + 2 * dc,
            row + 2 * dr,
        ) == idx || cell_index(col + 3 * dc, row + 3 * dr) == idx)
}

/// A run of four pieces means at least four cells hold that piece; together
/// with balance this bounds how early a side can have won.
pub proof fn lemma_has_four_filled(b: Seq<Piece>, p: Piece)
    requires
        b.len() == 42,
        p != Piece::EMPTY,
        balanced(b),
        has_four(b, p),
    ensures
        num_filled(b) >= 7,
{
    let (col, row, dc, dr) = choose|col: int, row: int, dc: int, dr: int|
        dir_ok(dc, dr) && #[trigger] run_of_four(b, p, col, row, dc, dr);
    let step = dc * 6 + dr;
    assert(1 <= step <= 7);
    let i1 = cell_index(col, row);
    assert((col + dc) * 6 + (row + dr) == i1 + step && (col + 2 * dc) * 6 + (row + 2 * dr) == i1 + 2
        * step && (col + 3 * dc) * 6 + (row + 3 * dr) == i1 + 3 * step) by (nonlinear_arith)
        requires
            step == dc * 6 + dr,
            i1 == col * 6 + row,
    ;
    assert(0 <= i1 && i1 + 3 * step < 42) by (nonlinear_arith)
        requires
            in_board(col, row),
            in_board(col + 3 * dc, row + 3 * dr),
            step == dc * 6 + dr,
            dir_ok(dc, dr),
            i1 == cell_index(col, row),
    ;
    lemma_count_of_four(b, p, i1, i1 + step, i1 + 2 * step, i1 + 3 * step);
    lemma_counts_sum(b, 42);
}

// ---------------------------------------------------------------------------
// Move generation order.
// ---------------------------------------------------------------------------

/// Columns are tried centre-out; this ordering is part of the interface
/// because it fixes which states a pruning search visits.
pub open spec fn move_order() -> Seq<int> {
    seq![3int, 2int, 4int, 1int, 5int, 0int, 6int]
}

/// The playable columns among the first `k` entries of the move order, in
/// that order.
pub open spec fn cols_upto(b: Seq<Piece>, k: int) -> Seq<int>
    decreases k,
{
    if k <= 0 {
        Seq::empty()
    } else {
        cols_upto(b, k - 1) + if col_playable(b, move_order()[k - 1]) {
            seq![move_order()[k - 1]]
        } else {
            Seq::empty()
        }
    }
}

/// All playable columns, in the order the engines try them.
pub open spec fn playable_cols(b: Seq<Piece>) -> Seq<int> {
    cols_upto(b, 7)
}

pub proof fn lemma_cols_upto(b: Seq<Piece>, k: int)
    requires
        0 <= k <= 7,
    ensures
        cols_upto(b, k).len() <= k,
        forall|i: int|
            0 <= i < cols_upto(b, k).len() ==> 0 <= #[trigger] cols_upto(b, k)[i] < 7
                && col_playable(b, cols_upto(b, k)[i]),
        forall|j: int|
            0 <= j < k && col_playable(b, #[trigger] move_order()[j]) ==> cols_upto(b, k).contains(
                move_order()[j],
            ),
    decreases k,
{
    if k > 0 {
        lemma_cols_upto(b, k - 1);
        assert forall|j: int|
            0 <= j < k && col_playable(b, #[trigger] move_order()[j]) implies cols_upto(
            b,
            k,
        ).contains(move_order()[j]) by {
            if j < k - 1 {
                let i = choose|i: int|
                    0 <= i < cols_upto(b, k - 1).len() && #[trigger] cols_upto(b, k - 1)[i]
                        == move_order()[j];
                assert(cols_upto(b, k)[i] == move_order()[j]);
            } else {
                assert(cols_upto(b, k)[cols_upto(b, k - 1).len() as int] == move_order()[j]);
            }
        }
    }
}

pub proof fn lemma_playable_cols(b: Seq<Piece>)
    ensures
        playable_cols(b).len() <= 7,
        forall|i: int|
            0 <= i < playable_cols(b).len() ==> 0 <= #[trigger] playable_cols(b)[i] < 7
                && col_playable(b, playable_cols(b)[i]),
        forall|c: int|
            0 <= c < 7 && #[trigger] col_playable(b, c) ==> playable_cols(b).contains(c),
{
    lemma_cols_upto(b, 7);
    assert forall|c: int| 0 <= c < 7 && #[trigger] col_playable(b, c) implies playable_cols(
        b,
    ).contains(c) by {
        let j: int = if c == 3 {
            0
        } else if c == 2 {
            1
        } else if c == 4 {
            2
        } else if c == 1 {
            3
        } else if c == 5 {
            4
        } else if c == 0 {
            5
        } else {
            6
        };
        assert(move_order()[j] == c);
    }
}

// ---------------------------------------------------------------------------
// Textual form.
// ---------------------------------------------------------------------------

pub open spec fn piece_char(p: Piece) -> char {
    match p {
        Piece::EMPTY => ' ',
        Piece::FIRST => 'X',
        Piece::SECOND => 'O',
    }
}

pub open spec fn char_piece(ch: char) -> Piece {
    if ch == 'X' {
        Piece::FIRST
    } else if ch == 'O' {
        Piece::SECOND
    } else {
        Piece::EMPTY
    }
}

/// Visual row `vr` (0 = top of the board) rendered as 7 characters.
pub open spec fn decode_row(b: Seq<Piece>, vr: int) -> Seq<char> {
    Seq::new(7, |c: int| piece_char(cell_at(b, c, 5 - vr)))
}

/// The first `k` visual rows rendered top-down, each ended by a newline.
pub open spec fn decode_upto(b: Seq<Piece>, k: int) -> Seq<char>
    decreases k,
{
    if k <= 0 {
        Seq::empty()
    } else {
        decode_upto(b, k - 1) + decode_row(b, k - 1) + seq!['\n']
    }
}

/// The whole board as text: six newline-terminated rows, top row first.
pub open spec fn spec_decode(b: Seq<Piece>) -> Seq<char> {
    decode_upto(b, 6)
}

// ---------------------------------------------------------------------------
// A number that identifies a board.
// ---------------------------------------------------------------------------

pub open spec fn piece_digit(p: Piece) -> int {
    match p {
        Piece::EMPTY => 0,
        Piece::FIRST => 1,
        Piece::SECOND => 2,
    }
}

/// The first `n` cells of the board read as base-3 digits.
pub open spec fn key_below(b: Seq<Piece>, n: int) -> int
    decreases n,
{
    if n <= 0 {
        0
    } else {
        key_below(b, n - 1) * 3 + piece_digit(b[n - 1])
    }
}

/// An injective encoding of the whole board as an integer below 3^42.
pub open spec fn board_key(b: Seq<Piece>) -> int {
    key_below(b, 42)
}

pub open spec fn pow3(n: int) -> int
    decreases n,
{
    if n <= 0 {
        1
    } else {
        3 * pow3(n - 1)
    }
}

pub proof fn lemma_key_below_bounds(b: Seq<Piece>, n: int)
    requires
        0 <= n,
    ensures
        0 <= key_below(b, n) < pow3(n),
    decreases n,
{
    if n > 0 {
        lemma_key_below_bounds(b, n - 1);
        assert(piece_digit(b[n - 1]) <= 2);
    }
}

proof fn lemma_key_below_injective(b1: Seq<Piece>, b2: Seq<Piece>, n: int)
    requires
        0 <= n,
        key_below(b1, n) == key_below(b2, n),
    ensures
        forall|i: int| 0 <= i < n ==> b1[i] == b2[i],
    decreases n,
{
    if n > 0 {
        let x1 = key_below(b1, n - 1);
        let x2 = key_below(b2, n - 1);
        let d1 = piece_digit(b1[n - 1]);
        let d2 = piece_digit(b2[n - 1]);
        lemma_key_below_bounds(b1, n - 1);
        lemma_key_below_bounds(b2, n - 1);
        assert(x1 * 3 + d1 == x2 * 3 + d2);
        assert(x1 == x2 && d1 == d2) by (nonlinear_arith)
            requires
                x1 * 3 + d1 == x2 * 3 + d2,
                0 <= d1 < 3,
                0 <= d2 < 3,
                x1 >= 0,
                x2 >= 0,
        ;
        lemma_key_below_injective(b1, b2, n - 1);
    }
}

pub proof fn lemma_pow3_pos(n: int)
    ensures
        pow3(n) >= 1,
    decreases n,
{
    if n > 0 {
        lemma_pow3_pos(n - 1);
    }
}

pub proof fn lemma_pow3_mono(m: int, n: int)
    requires
        0 <= m <= n,
    ensures
        pow3(m) <= pow3(n),
        pow3(m) >= 1,
    decreases n - m,
{
    lemma_pow3_pos(m);
    if m < n {
        lemma_pow3_mono(m, n - 1);
        lemma_pow3_pos(n - 1);
    }
}

pub proof fn lemma_pow3_le_pow2(n: int)
    requires
        0 <= n,
    ensures
        pow3(n) <= vstd::arithmetic::power2::pow2((2 * n) as nat),
    decreases n,
{
    vstd::arithmetic::power2::lemma2_to64();
    if n == 0 {
    } else {
        lemma_pow3_le_pow2(n - 1);
        vstd::arithmetic::power2::lemma_pow2_adds((2 * n - 2) as nat, 2);
        vstd::arithmetic::power2::lemma_pow2_pos((2 * n - 2) as nat);
        let q = vstd::arithmetic::power2::pow2((2 * n - 2) as nat) as int;
        assert(vstd::arithmetic::power2::pow2(2) == 4);
        assert(pow3(n) == 3 * pow3(n - 1));
        assert(3 * pow3(n - 1) <= 3 * q) by (nonlinear_arith)
            requires
                pow3(n - 1) <= q,
        ;
        assert(vstd::arithmetic::power2::pow2((2 * n) as nat) == 4 * q);
    }
}

pub proof fn lemma_pow3_bound()
    ensures
        pow3(42) < 0x100000000000000000000000000000000,
{
    lemma_pow3_le_pow2(42);
    vstd::arithmetic::power2::lemma2_to64();
    vstd::arithmetic::power2::lemma_pow2_adds(64, 20);
    assert(vstd::arithmetic::power2::pow2(84) == 0x10000000000000000 * 0x100000);
}

// ---------------------------------------------------------------------------
// Agreement between encodings.
// ---------------------------------------------------------------------------

/// Neither player has connected four yet; every position reached by play
/// that stops at the first win looks like this.
pub open spec fn no_connection(b: Seq<Piece>) -> bool {
    !has_four(b, Piece::FIRST) && !has_four(b, Piece::SECOND)
}

/// On a board without a four, a four after one drop must pass through the
/// dropped cell.
proof fn lemma_new_four_through(b: Seq<Piece>, col: int)
    requires
        b.len() == 42,
        0 <= col < 7,
        col_playable(b, col),
        !has_four(b, player_to_move(b)),
        has_four(spec_drop(b, col), player_to_move(b)),
    ensures
        four_through(spec_drop(b, col), player_to_move(b), drop_index(b, col)),
{
    let b2 = spec_drop(b, col);
    let p = player_to_move(b);
    let idx = drop_index(b, col);
    lemma_drop_effect(b, col);
    let (c, r, dc, dr) = choose|c: int, r: int, dc: int, dr: int|
        dir_ok(dc, dr) && #[trigger] run_of_four(b2, p, c, r, dc, dr);
    if cell_index(c, r) != idx && cell_index(c + dc, r + dr) != idx && cell_index(
        c + 2 * dc,
        r + 2 * dr,
    ) != idx && cell_index(c + 3 * dc, r + 3 * dr) != idx {
        assert(forall|cc: int, rr: int|
            in_board(cc, rr) && cc * 6 + rr != idx ==> 0 <= cc * 6 + rr < 42) by (nonlinear_arith);
        assert(cell_at(b, c, r) == p && cell_at(b, c + dc, r + dr) == p && cell_at(
            b,
            c + 2 * dc,
            r + 2 * dr,
        ) == p && cell_at(b, c + 3 * dc, r + 3 * dr) == p);
        assert(run_of_four(b, p, c, r, dc, dr));
    }
}

/// A drop that the win rule does not flag keeps the board free of fours.
proof fn lemma_drop_stays_clean<S: State>(b: Seq<Piece>, col: int)
    requires
        b.len() == 42,
        0 <= col < 7,
        col_playable(b, col),
        no_connection(b),
        !S::move_wins(b, col),
    ensures
        no_connection(spec_drop(b, col)),
{
    let b2 = spec_drop(b, col);
    let p = player_to_move(b);
    let q = other(p);
    let idx = drop_index(b, col);
    lemma_drop_effect(b, col);
    if has_four(b2, p) {
        lemma_new_four_through(b, col);
        S::lemma_move_wins(b, col);
    }
    if has_four(b2, q) {
        // the dropped cell holds the mover's piece, so an opponent four in
        // the new board already stood in the old one
        let (c, r, dc, dr) = choose|c: int, r: int, dc: int, dr: int|
            dir_ok(dc, dr) && #[trigger] run_of_four(b2, q, c, r, dc, dr);
        assert(forall|cc: int, rr: int|
            in_board(cc, rr) && cc * 6 + rr != idx ==> 0 <= cc * 6 + rr < 42) by (nonlinear_arith);
        assert(cell_at(b2, c, r) == q && b2[idx] == p && p != q);
        assert(cell_index(c, r) != idx && cell_index(c + dc, r + dr) != idx && cell_index(
            c + 2 * dc,
            r + 2 * dr,
        ) != idx && cell_index(c + 3 * dc, r + 3 * dr) != idx);
        assert(run_of_four(b, q, c, r, dc, dr));
    }
}

/// Cross-encoding agreement: any two encodings give every position that no
/// one has won yet the same game value, because their win rules coincide on
/// such positions.  Both engines' evaluations therefore agree no matter
/// which encoding backs them.
pub proof fn lemma_game_value_encoding_independent<S1: State, S2: State>(b: Seq<Piece>)
    requires
        b.len() == 42,
        no_connection(b),
    ensures
        game_value::<S1>(b) == game_value::<S2>(b),
    decreases 42 - num_filled(b), 1int, 0int,
{
    lemma_filled_below_bounds(b, 42);
    lemma_playable_cols(b);
    let cols = playable_cols(b);
    assert forall|i: int|
        0 <= i < cols.len() implies (S1::move_wins(b, #[trigger] cols[i]) == S2::move_wins(
        b,
        cols[i],
    )) by {
        let c = cols[i];
        S1::lemma_move_wins(b, c);
        S2::lemma_move_wins(b, c);
        if S1::move_wins(b, c) {
            lemma_new_four_through(b, c);
        }
        if S2::move_wins(b, c) {
            lemma_new_four_through(b, c);
        }
    }
    assert(wins_now::<S1>(b) == wins_now::<S2>(b));
    if num_filled(b) >= 42 {
    } else if wins_now::<S1>(b) {
    } else {
        lemma_best_encoding_independent::<S1, S2>(b, cols);
    }
}

proof fn lemma_best_encoding_independent<S1: State, S2: State>(b: Seq<Piece>, cols: Seq<int>)
    requires
        b.len() == 42,
        no_connection(b),
        num_filled(b) < 42,
        forall|i: int|
            0 <= i < cols.len() ==> 0 <= #[trigger] cols[i] < 7 && col_playable(b, cols[i]),
        forall|i: int| 0 <= i < cols.len() ==> !S1::move_wins(b, #[trigger] cols[i]),
    ensures
        best_child_value::<S1>(b, cols) == best_child_value::<S2>(b, cols),
    decreases 42 - num_filled(b), 0int, cols.len(),
{
    lemma_filled_below_bounds(b, 42);
    if cols.len() > 0 {
        lemma_drop_effect(b, cols[0]);
        lemma_drop_stays_clean::<S1>(b, cols[0]);
        lemma_game_value_encoding_independent::<S1, S2>(spec_drop(b, cols[0]));
        lemma_best_encoding_independent::<S1, S2>(b, cols.drop_first());
    }
}

/// Faster wins score higher: as moves accumulate, the best attainable
/// score never increases.
pub proof fn lemma_max_eval_monotonic(b1: Seq<Piece>, b2: Seq<Piece>)
    requires
        num_filled(b1) <= num_filled(b2),
    ensures
        spec_max_eval(b1) >= spec_max_eval(b2),
{
    vstd::arithmetic::div_mod::lemma_div_is_ordered(
        43 - num_filled(b2),
        43 - num_filled(b1),
        2,
    );
}

/// The key fits a u128, so comparing keys as u128 compares them as numbers.
pub proof fn lemma_board_key_u128_injective(b1: Seq<Piece>, b2: Seq<Piece>)
    requires
        b1.len() == 42,
        b2.len() == 42,
        (board_key(b1) as u128) == (board_key(b2) as u128),
    ensures
        b1 == b2,
{
    lemma_key_below_bounds(b1, 42);
    lemma_key_below_bounds(b2, 42);
    lemma_pow3_bound();
    lemma_board_key_injective(b1, b2);
}

/// Two boards with the same key are the same board.
pub proof fn lemma_board_key_injective(b1: Seq<Piece>, b2: Seq<Piece>)
    requires
        b1.len() == 42,
        b2.len() == 42,
        board_key(b1) == board_key(b2),
    ensures
        b1 == b2,
{
    lemma_key_below_injective(b1, b2, 42);
    assert(b1 =~= b2);
}

// ---------------------------------------------------------------------------
// The state interface.
// ---------------------------------------------------------------------------

/// Best score still attainable by the side to move: an immediate win after
/// `m` moves is worth `(43 - m) >> 1`, so faster wins score higher.
pub open spec fn spec_max_eval(b: Seq<Piece>) -> int {
    (43 - num_filled(b)) / 2
}

/// A legal game position.  Implementations fix a concrete encoding; every
/// executable operation is specified against the abstract board `board()`,
/// so two implementations agree wherever their boards and win rules agree.
pub trait State: Sized + Clone + Copy + Send + Sync + 'static {
    /// The 42 cells of the position, column-major, row 0 at the bottom.
    spec fn board(&self) -> Seq<Piece>;

    /// The encoding's internal invariant.
    spec fn wf(&self) -> bool;

    /// What `is_win` reports for this state.
    spec fn winner(&self) -> bool;

    /// Whether the encoding reports the move `col` on board `b` as an
    /// immediate win for the player making it.
    spec fn move_wins(b: Seq<Piece>, col: int) -> bool;

    /// How the encoding reads a textual board; the implementations differ
    /// only on malformed rows.
    spec fn spec_encode(rows: Seq<Seq<char>>) -> Seq<Piece>;

    proof fn lemma_wf_board(&self)
        requires
            self.wf(),
        ensures
            self.board().len() == 42,
    ;

    /// The win report is sound for the grid (a reported win really places
    /// four in a row somewhere) and complete for runs through the cell the
    /// move fills.
    proof fn lemma_move_wins(b: Seq<Piece>, col: int)
        requires
            b.len() == 42,
            0 <= col < 7,
            col_playable(b, col),
        ensures
            Self::move_wins(b, col) ==> has_four(spec_drop(b, col), player_to_move(b)),
            four_through(spec_drop(b, col), player_to_move(b), drop_index(b, col))
                ==> Self::move_wins(b, col),
    ;

    /// Reading a board back from its own rendering reproduces it, provided
    /// the board's columns are gravity-closed, as every reachable board's
    /// are.
    proof fn lemma_round_trip(b: Seq<Piece>)
        requires
            b.len() == 42,
            gravity(b),
        ensures
            Self::spec_encode(seq![
                decode_row(b, 0),
                decode_row(b, 1),
                decode_row(b, 2),
                decode_row(b, 3),
                decode_row(b, 4),
                decode_row(b, 5),
            ]) == b,
    ;

    fn start_state() -> (s: Self)
        ensures
            s.wf(),
            s.board() == empty_board(),
            !s.winner(),
    ;

    fn is_win(&self) -> (r: bool)
        requires
            self.wf(),
        ensures
            r == self.winner(),
    ;

    fn board_full(&self) -> (r: bool)
        requires
            self.wf(),
        ensures
            r == (num_filled(self.board()) == 42),
    ;

    fn moves_made(&self) -> (r: usize)
        requires
            self.wf(),
        ensures
            r == num_filled(self.board()),
    ;

    fn max_eval(&self) -> (r: i32)
        requires
            self.wf(),
        ensures
            r == spec_max_eval(self.board()),
    ;

    /// Some state if the column still has an open cell, nothing otherwise.
    fn play_move(&self, col: usize) -> (r: Option<Self>)
        requires
            self.wf(),
            col < 7,
        ensures
            r.is_some() == col_playable(self.board(), col as int),
            r.is_some() ==> (r.unwrap().wf() && r.unwrap().board() == spec_drop(
                self.board(),
                col as int,
            ) && r.unwrap().winner() == Self::move_wins(self.board(), col as int)),
    ;

    /// All legal successors, trying columns centre-out.
    fn next_states(&self) -> (r: Vec<Self>)
        requires
            self.wf(),
        ensures
            r@.len() == playable_cols(self.board()).len(),
            forall|i: int|
                0 <= i < r@.len() ==> ((#[trigger] r@[i]).wf() && r@[i].board() == spec_drop(
                    self.board(),
                    playable_cols(self.board())[i],
                ) && r@[i].winner() == Self::move_wins(
                    self.board(),
                    playable_cols(self.board())[i],
                )),
    ;

    fn encode(rows: &Vec<String>) -> (s: Self)
        requires
            rows@.len() == 6,
        ensures
            s.wf(),
            s.board() == Self::spec_encode(rows@.map_values(|r: String| r@)),
    ;

    fn decode(&self) -> (r: String)
        requires
            self.wf(),
        ensures
            r@ == spec_decode(self.board()),
    ;

    /// A number identifying the board, used to key bound caches.
    fn state_key(&self) -> (k: u128)
        requires
            self.wf(),
        ensures
            k == board_key(self.board()),
    ;
}

// ---------------------------------------------------------------------------
// The game-theoretic value.
// ---------------------------------------------------------------------------

/// The side to move can win immediately.
pub open spec fn wins_now<S: State>(b: Seq<Piece>) -> bool {
    exists|i: int|
        0 <= i < playable_cols(b).len() && S::move_wins(b, #[trigger] playable_cols(b)[i])
}

/// The value of the position under optimal play, from the viewpoint of the
/// player to move: 0 for a full board, the immediate-win score when a winning
/// move exists, and otherwise the best negated value among the successors.
pub open spec fn game_value<S: State>(b: Seq<Piece>) -> int
    decreases 42 - num_filled(b), 1int, 0int,
        when b.len() == 42 && 0 <= num_filled(b) <= 42
{
    if num_filled(b) >= 42 {
        0
    } else if wins_now::<S>(b) {
        spec_max_eval(b)
    } else {
        best_child_value::<S>(b, playable_cols(b))
    }
}

/// The largest negated game value among the children reached from `b`
/// through the columns of `cols`.
pub open spec fn best_child_value<S: State>(b: Seq<Piece>, cols: Seq<int>) -> int
    decreases 42 - num_filled(b), 0int, cols.len(),
        when b.len() == 42 && 0 <= num_filled(b) < 42 && (forall|i: int|
            0 <= i < cols.len() ==> 0 <= #[trigger] cols[i] < 7 && col_playable(b, cols[i]))
        via best_child_value_decreases::<S>
{
    if cols.len() == 0 {
        -100
    } else {
        let v = -game_value::<S>(spec_drop(b, cols[0]));
        let rest = best_child_value::<S>(b, cols.drop_first());
        if v >= rest {
            v
        } else {
            rest
        }
    }
}

#[via_fn]
proof fn best_child_value_decreases<S: State>(b: Seq<Piece>, cols: Seq<int>) {
    if cols.len() > 0 {
        lemma_drop_effect(b, cols[0]);
    }
}

/// The best child value dominates every child's negated value, and is either
/// one of them or the sentinel of an empty column list.
pub proof fn lemma_best_props<S: State>(b: Seq<Piece>, cols: Seq<int>)
    requires
        b.len() == 42,
        num_filled(b) < 42,
        forall|i: int|
            0 <= i < cols.len() ==> 0 <= #[trigger] cols[i] < 7 && col_playable(b, cols[i]),
    ensures
        forall|j: int|
            0 <= j < cols.len() ==> best_child_value::<S>(b, cols) >= -game_value::<S>(
                spec_drop(b, #[trigger] cols[j]),
            ),
        best_child_value::<S>(b, cols) == -100 || exists|j: int|
            0 <= j < cols.len() && best_child_value::<S>(b, cols) == -game_value::<S>(
                spec_drop(b, #[trigger] cols[j]),
            ),
    decreases cols.len(),
{
    lemma_filled_below_bounds(b, 42);
    assert(0 <= num_filled(b) < 42);
    if cols.len() > 0 {
        let rest = cols.drop_first();
        assert(forall|j: int| 0 <= j < rest.len() ==> rest[j] == cols[j + 1]);
        lemma_best_props::<S>(b, rest);
        lemma_drop_effect(b, cols[0]);
        let v0 = -game_value::<S>(spec_drop(b, cols[0]));
        let rb = best_child_value::<S>(b, rest);
        let best = best_child_value::<S>(b, cols);
        assert(best == if v0 >= rb {
            v0
        } else {
            rb
        });
        assert forall|j: int| 0 <= j < cols.len() implies best >= -game_value::<S>(
            spec_drop(b, #[trigger] cols[j]),
        ) by {
            if j > 0 {
                assert(rest[j - 1] == cols[j]);
                assert(rb >= -game_value::<S>(spec_drop(b, rest[j - 1])));
            }
        }
        if best != -100 {
            if best == v0 {
                assert(best == -game_value::<S>(spec_drop(b, cols[0])));
            } else {
                assert(best == rb);
                let j = choose|j: int|
                    0 <= j < rest.len() && rb == -game_value::<S>(
                        spec_drop(b, #[trigger] rest[j]),
                    );
                assert(rest[j] == cols[j + 1]);
                assert(best == -game_value::<S>(spec_drop(b, cols[j + 1])));
            }
        }
    }
}

/// On balanced boards the game value stays within the eval range: a win
/// needs seven pieces on the board, so the immediate-win score never
/// exceeds 18.
pub proof fn lemma_game_value_balanced<S: State>(b: Seq<Piece>)
    requires
        b.len() == 42,
        balanced(b),
    ensures
        -18 <= game_value::<S>(b) <= 18,
    decreases 42 - num_filled(b), 1int, 0int,
{
    lemma_filled_below_bounds(b, 42);
    let m = num_filled(b);
    if m >= 42 {
    } else if wins_now::<S>(b) {
        let i = choose|i: int|
            0 <= i < playable_cols(b).len() && S::move_wins(b, #[trigger] playable_cols(b)[i]);
        lemma_playable_cols(b);
        let c = playable_cols(b)[i];
        S::lemma_move_wins(b, c);
        lemma_drop_effect(b, c);
        lemma_has_four_filled(spec_drop(b, c), player_to_move(b));
        assert(m >= 6);
        assert(0 <= (43 - m) / 2 <= 18) by (nonlinear_arith)
            requires
                6 <= m <= 42,
        ;
    } else {
        lemma_not_full_playable(b);
        lemma_playable_cols(b);
        let c = choose|c: int| 0 <= c < 7 && #[trigger] col_playable(b, c);
        assert(playable_cols(b).contains(c));
        assert(playable_cols(b).len() > 0);
        lemma_best_balanced::<S>(b, playable_cols(b));
    }
}

proof fn lemma_best_balanced<S: State>(b: Seq<Piece>, cols: Seq<int>)
    requires
        b.len() == 42,
        balanced(b),
        num_filled(b) < 42,
        forall|i: int|
            0 <= i < cols.len() ==> 0 <= #[trigger] cols[i] < 7 && col_playable(b, cols[i]),
    ensures
        best_child_value::<S>(b, cols) <= 18,
        cols.len() > 0 ==> best_child_value::<S>(b, cols) >= -18,
    decreases 42 - num_filled(b), 0int, cols.len(),
{
    lemma_filled_below_bounds(b, 42);
    if cols.len() > 0 {
        lemma_drop_effect(b, cols[0]);
        lemma_game_value_balanced::<S>(spec_drop(b, cols[0]));
        lemma_best_balanced::<S>(b, cols.drop_first());
        assert(forall|j: int|
            0 <= j < cols.drop_first().len() ==> cols.drop_first()[j] == cols[j + 1]);
    }
}

pub proof fn lemma_drop_gravity(b: Seq<Piece>, col: int)
    requires
        b.len() == 42,
        0 <= col < 7,
        col_playable(b, col),
        gravity(b),
    ensures
        gravity(spec_drop(b, col)),
{
    let b2 = spec_drop(b, col);
    let dr = col_drop_row(b, col);
    lemma_low_row(b, col, 0);
    assert forall|c: int, r: int|
        0 <= c < 7 && 0 < r < 6 && #[trigger] cell_at(b2, c, r) != Piece::EMPTY implies cell_at(
        b2,
        c,
        r - 1,
    ) != Piece::EMPTY by {
        assert(0 <= c * 6 + r < 42 && 0 <= c * 6 + r - 1 < 42 && cell_index(col, dr) < 42 && (c
            * 6 + r == cell_index(col, dr) <==> (c == col && r == dr))) by (nonlinear_arith)
            requires
                0 <= c < 7,
                0 < r < 6,
                0 <= col < 7,
                0 <= dr < 6,
        ;
        if c == col && r == dr {
            if dr > 0 {
                assert(cell_at(b, col, dr - 1) != Piece::EMPTY);
            }
        } else {
            assert(cell_at(b2, c, r) == cell_at(b, c, r));
        }
    }
}

} // verus!
