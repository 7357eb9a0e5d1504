use vstd::prelude::*;
use crate::connect_four::piece::Piece;
use crate::connect_four::state::{
    State, cell_index, cell_at, in_board, empty_board, other, num_filled,
    lemma_filled_below_bounds, lemma_filled_below_update, low_row, col_drop_row, col_playable,
    player_to_move, drop_index, spec_drop, lemma_low_row, lemma_low_row_le, lemma_drop_effect,
    dir_ok, run_of_four, has_four, four_through, move_order, cols_upto, lemma_cols_upto,
    piece_char, char_piece, decode_row, decode_upto, piece_digit, key_below,
    lemma_key_below_bounds, gravity, lemma_pow3_mono, lemma_pow3_bound, lemma_drop_gravity,
};
use crate::connect_four::state_array::lemma_filled_all_empty;

verus! {

broadcast use vstd::array::group_array_axioms;

pub const BOARD_BITS: usize = 49;
pub const COL_BITS: usize = 7;
pub const COL_MASK: u64 = 0x7F;
pub const IS_LEGAL: u64 = 0b0111111011111101111110111111011111101111110111111;
pub const BOTTOM_ROW: u64 = (1u64 << 0) | (1u64 << 7) | (1u64 << 14) | (1u64 << 21) | (1u64 << 28)
    | (1u64 << 35) | (1u64 << 42);

// ---------------------------------------------------------------------------
// Bits and the board they encode.
//
// Cell (col, row) of the grid lives at bit col * 7 + row; bit col * 7 + 6 of
// each column lane is a sentinel that no piece ever occupies, which is what
// lets a shifted AND detect four in a row without wrapping across columns.
// ---------------------------------------------------------------------------

pub open spec fn bit(m: u64, i: int) -> bool {
    0 <= i < 64 && (m >> (i as u64)) & 1u64 == 1u64
}

pub open spec fn mover_piece(moves: int) -> Piece {
    if moves % 2 == 0 {
        Piece::FIRST
    } else {
        Piece::SECOND
    }
}

/// The grid a mask pair encodes: `curr` holds the pieces of the player to
/// move after `moves` moves, `opp` those of the player who just moved.
pub open spec fn bb_board(curr: u64, opp: u64, moves: int) -> Seq<Piece> {
    Seq::new(
        42,
        |i: int|
            {
                let j = (i / 6) * 7 + (i % 6);
                if bit(curr, j) {
                    mover_piece(moves)
                } else if bit(opp, j) {
                    other(mover_piece(moves))
                } else {
                    Piece::EMPTY
                }
            },
    )
}

/// Piece bits stay inside the playable region: below the sentinel row and
/// within the seven column lanes.
pub open spec fn mask_legal(m: u64) -> bool {
    forall|j: int| #[trigger] bit(m, j) ==> 0 <= j < 49 && j % 7 != 6
}

pub open spec fn masks_disjoint(x: u64, y: u64) -> bool {
    forall|j: int| #[trigger] bit(x, j) ==> !bit(y, j)
}

/// Each column lane carries exactly one height bit, sitting just above that
/// column's stack.
pub open spec fn height_wf(h: u64, b: Seq<Piece>) -> bool {
    &&& h < (1u64 << 49)
    &&& forall|j: int|
        0 <= j < 49 ==> (#[trigger] bit(h, j) <==> j % 7 == col_drop_row(b, j / 7))
}

proof fn lemma_bb_cell(curr: u64, opp: u64, moves: int, c: int, r: int)
    requires
        in_board(c, r),
    ensures
        cell_at(bb_board(curr, opp, moves), c, r) == (if bit(curr, c * 7 + r) {
            mover_piece(moves)
        } else if bit(opp, c * 7 + r) {
            other(mover_piece(moves))
        } else {
            Piece::EMPTY
        }),
{
    let i = c * 6 + r;
    assert(0 <= i < 42 && i / 6 == c && i % 6 == r) by (nonlinear_arith)
        requires
            0 <= c < 7,
            0 <= r < 6,
            i == c * 6 + r,
    ;
}

// ---------------------------------------------------------------------------
// Bit-level facts, each discharged by the bit-vector solver.
// ---------------------------------------------------------------------------

proof fn lemma_bit_or(x: u64, y: u64)
    ensures
        forall|i: int| #[trigger] bit(x | y, i) <==> bit(x, i) || bit(y, i),
{
    assert forall|i: int| #[trigger] bit(x | y, i) <==> bit(x, i) || bit(y, i) by {
        if 0 <= i < 64 {
            let j = i as u64;
            assert((((x | y) >> j) & 1u64 == 1u64) == (((x >> j) & 1u64 == 1u64) || ((y >> j)
                & 1u64 == 1u64))) by (bit_vector);
        }
    }
}

proof fn lemma_bit_single(k: u64)
    requires
        k < 64,
    ensures
        forall|i: int| #[trigger] bit(1u64 << k, i) <==> i == k,
{
    assert forall|i: int| #[trigger] bit(1u64 << k, i) <==> i == k by {
        if 0 <= i < 64 {
            let j = i as u64;
            assert((((1u64 << k) >> j) & 1u64 == 1u64) == (j == k)) by (bit_vector)
                requires
                    k < 64,
                    j < 64,
            ;
        }
    }
}

proof fn lemma_bit_zero()
    ensures
        forall|i: int| !(#[trigger] bit(0u64, i)),
{
    assert forall|i: int| !(#[trigger] bit(0u64, i)) by {
        if 0 <= i < 64 {
            let j = i as u64;
            assert((0u64 >> j) & 1u64 == 0u64) by (bit_vector);
        }
    }
}

proof fn lemma_bit_bound(x: u64, n: u64)
    requires
        n < 64,
        x < (1u64 << n),
    ensures
        forall|i: int| #[trigger] bit(x, i) ==> i < n,
{
    assert forall|i: int| #[trigger] bit(x, i) implies i < n by {
        if n <= i < 64 {
            let j = i as u64;
            assert((x >> j) & 1u64 == 0u64) by (bit_vector)
                requires
                    n < 64,
                    x < (1u64 << n),
                    n <= j < 64,
            ;
        }
    }
}

proof fn lemma_legal_bits()
    ensures
        forall|i: int| #[trigger] bit(IS_LEGAL, i) <==> (0 <= i < 49 && i % 7 != 6),
{
    assert forall|i: int| #[trigger] bit(IS_LEGAL, i) <==> (0 <= i < 49 && i % 7 != 6) by {
        if 0 <= i < 64 {
            let j = i as u64;
            assert((((0b0111111011111101111110111111011111101111110111111u64) >> j) & 1u64
                == 1u64) <==> (j < 49 && j % 7 != 6)) by (bit_vector)
                requires
                    j < 64,
            ;
            assert(j % 7 == i % 7) by (nonlinear_arith)
                requires
                    0 <= i < 64,
                    j == i,
            ;
        }
    }
}

proof fn lemma_bottom_bits()
    ensures
        forall|i: int| #[trigger] bit(BOTTOM_ROW, i) <==> (0 <= i < 49 && i % 7 == 0),
{
    assert forall|i: int| #[trigger] bit(BOTTOM_ROW, i) <==> (0 <= i < 49 && i % 7 == 0) by {
        if 0 <= i < 64 {
            let j = i as u64;
            assert(((((1u64 << 0) | (1u64 << 7) | (1u64 << 14) | (1u64 << 21) | (1u64 << 28) | (
            1u64 << 35) | (1u64 << 42)) >> j) & 1u64 == 1u64) <==> (j < 49 && j % 7 == 0))
                by (bit_vector)
                requires
                    j < 64,
            ;
            assert(j % 7 == i % 7) by (nonlinear_arith)
                requires
                    0 <= i < 64,
                    j == i,
            ;
        }
    }
}

proof fn lemma_bit_and_mask(x: u64, y: u64)
    ensures
        forall|i: int| #[trigger] bit(x & y, i) <==> bit(x, i) && bit(y, i),
{
    assert forall|i: int| #[trigger] bit(x & y, i) <==> bit(x, i) && bit(y, i) by {
        if 0 <= i < 64 {
            let j = i as u64;
            assert((((x & y) >> j) & 1u64 == 1u64) == (((x >> j) & 1u64 == 1u64) && ((y >> j)
                & 1u64 == 1u64))) by (bit_vector);
        }
    }
}

proof fn lemma_lane_mask(h: u64, c: u64)
    requires
        c < 7,
    ensures
        forall|i: int|
            #[trigger] bit(h & (COL_MASK << (c * 7)), i) <==> (bit(h, i) && c * 7 <= i < c * 7
                + 7),
{
    assert forall|i: int|
        #[trigger] bit(h & (COL_MASK << (c * 7)), i) <==> (bit(h, i) && c * 7 <= i < c * 7
            + 7) by {
        if 0 <= i < 64 {
            let j = i as u64;
            assert((((h & (0x7Fu64 << (c * 7))) >> j) & 1u64 == 1u64) <==> ((h >> j) & 1u64
                == 1u64 && c * 7 <= j < c * 7 + 7)) by (bit_vector)
                requires
                    c < 7,
                    j < 64,
            ;
        }
    }
}

/// Adding a set bit with a clear bit above it moves that bit one place up
/// and changes nothing else.
proof fn lemma_bit_add(m: u64, sum: u64, k: u64)
    requires
        k < 48,
        bit(m, k as int),
        !bit(m, k as int + 1),
        sum == m + (1u64 << k),
    ensures
        forall|i: int|
            #[trigger] bit(sum, i) <==> (if i == k {
                false
            } else if i == k + 1 {
                true
            } else {
                bit(m, i)
            }),
{
    assert((m >> ((k + 1) as u64)) & 1u64 == 0u64) by (bit_vector)
        requires
            (m >> ((k + 1) as u64)) & 1u64 != 1u64,
    ;
    assert forall|i: int|
        #[trigger] bit(sum, i) <==> (if i == k {
            false
        } else if i == k + 1 {
            true
        } else {
            bit(m, i)
        }) by {
        if 0 <= i < 64 {
            let j = i as u64;
            assert((sum >> j) & 1u64 == (if j == k {
                0u64
            } else if j == ((k + 1) as u64) {
                1u64
            } else {
                (m >> j) & 1u64
            })) by (bit_vector)
                requires
                    k < 48,
                    j < 64,
                    (m >> k) & 1u64 == 1u64,
                    (m >> ((k + 1) as u64)) & 1u64 == 0u64,
                    sum == m + (1u64 << k),
            ;
        }
    }
}

proof fn lemma_add_no_overflow(m: u64, k: u64)
    requires
        k < 48,
        !bit(m, k as int + 1),
    ensures
        m <= 0xFFFFFFFFFFFFFFFFu64 - (1u64 << k),
{
    assert((m >> ((k + 1) as u64)) & 1u64 == 0u64) by (bit_vector)
        requires
            (m >> ((k + 1) as u64)) & 1u64 != 1u64,
    ;
    assert(m <= 0xFFFFFFFFFFFFFFFFu64 - (1u64 << k)) by (bit_vector)
        requires
            k < 48,
            (m >> ((k + 1) as u64)) & 1u64 == 0u64,
    ;
}

/// The three shifted ANDs collapse to the canonical four-way intersection.
proof fn lemma_fold_shape(m: u64, s: u64)
    requires
        1 <= s <= 8,
    ensures
        ((m & (m >> s)) & ((m & (m >> s)) >> s)) & (((m & (m >> s)) & ((m & (m >> s)) >> s)) >> s)
            == m & (m >> s) & (m >> (2 * s)) & (m >> (3 * s)),
{
    assert(((m & (m >> s)) & ((m & (m >> s)) >> s)) & (((m & (m >> s)) & ((m & (m >> s)) >> s))
        >> s) == m & (m >> s) & (m >> (2 * s)) & (m >> (3 * s))) by (bit_vector)
        requires
            1 <= s <= 8,
    ;
}

proof fn lemma_composite_bit(m: u64, s: u64, j: u64)
    requires
        s <= 8,
        j < 64,
        j + 3 * s < 64,
        bit(m, j as int),
        bit(m, j as int + s),
        bit(m, j as int + 2 * s),
        bit(m, j as int + 3 * s),
    ensures
        m & (m >> s) & (m >> (2 * s)) & (m >> (3 * s)) != 0,
{
    assert(((m & (m >> s) & (m >> (2 * s)) & (m >> (3 * s))) >> j) & 1u64 == 1u64) by (bit_vector)
        requires
            s <= 8,
            j < 64,
            j + 3 * s < 64,
            (m >> j) & 1u64 == 1u64,
            (m >> ((j + s) as u64)) & 1u64 == 1u64,
            (m >> ((j + 2 * s) as u64)) & 1u64 == 1u64,
            (m >> ((j + 3 * s) as u64)) & 1u64 == 1u64,
    ;
    assert((m & (m >> s) & (m >> (2 * s)) & (m >> (3 * s))) != 0) by (bit_vector)
        requires
            ((m & (m >> s) & (m >> (2 * s)) & (m >> (3 * s))) >> j) & 1u64 == 1u64,
    ;
}

proof fn lemma_decompose_bit(m: u64, s: u64, j: u64)
    requires
        1 <= s <= 8,
        j < 64,
        bit(m & (m >> s) & (m >> (2 * s)) & (m >> (3 * s)), j as int),
    ensures
        j + 3 * s < 64,
        bit(m, j as int),
        bit(m, j as int + s),
        bit(m, j as int + 2 * s),
        bit(m, j as int + 3 * s),
{
    assert(j + 3 * s < 64 && (m >> j) & 1u64 == 1u64 && (m >> ((j + s) as u64)) & 1u64 == 1u64 && (
    m >> ((j + 2 * s) as u64)) & 1u64 == 1u64 && (m >> ((j + 3 * s) as u64)) & 1u64 == 1u64)
        by (bit_vector)
        requires
            1 <= s <= 8,
            j < 64,
            ((m & (m >> s) & (m >> (2 * s)) & (m >> (3 * s))) >> j) & 1u64 == 1u64,
    ;
}

proof fn lemma_nonzero_has_bit(x: u64)
    requires
        x != 0,
    ensures
        exists|j: u64| j < 64 && #[trigger] ((x >> j) & 1u64) == 1u64,
{
    assert(x >> 0u64 == x) by (bit_vector);
    lemma_find_bit(x, 0);
}

proof fn lemma_find_bit(x: u64, j: u64)
    requires
        j < 64,
        (x >> j) != 0,
    ensures
        exists|i: u64| j <= i < 64 && #[trigger] ((x >> i) & 1u64) == 1u64,
    decreases 64 - j,
{
    if (x >> j) & 1u64 == 1u64 {
        assert(j <= j < 64 && (x >> j) & 1u64 == 1u64);
    } else {
        assert(j < 63 && (x >> ((j + 1) as u64)) != 0) by (bit_vector)
            requires
                j < 64,
                (x >> j) != 0,
                (x >> j) & 1u64 != 1u64,
        ;
        lemma_find_bit(x, (j + 1) as u64);
    }
}

// ---------------------------------------------------------------------------
// Geometry: legal mask runs are grid runs and back.
// ---------------------------------------------------------------------------

/// Four legal bits in arithmetic progression with step 1, 6, 7 or 8 form a
/// run of four on the grid.
proof fn lemma_mask_run_geometry(m: u64, s: int, j: int)
    requires
        s == 1 || s == 6 || s == 7 || s == 8,
        mask_legal(m),
        bit(m, j),
        bit(m, j + s),
        bit(m, j + 2 * s),
        bit(m, j + 3 * s),
    ensures
        exists|c: int, r: int, dc: int, dr: int|
            dir_ok(dc, dr) && #[trigger] run_positions(c, r, dc, dr, j, s) && in_board(c, r)
                && in_board(c + 3 * dc, r + 3 * dr) && in_board(c + dc, r + dr) && in_board(
                c + 2 * dc,
                r + 2 * dr,
            ),
{
    let c = j / 7;
    let r = j % 7;
    assert(0 <= j < 49 && j % 7 != 6);
    assert(j == c * 7 + r && 0 <= r <= 5 && 0 <= c < 7) by (nonlinear_arith)
        requires
            0 <= j < 49,
            j % 7 != 6,
            c == j / 7,
            r == j % 7,
    ;
    if s == 1 {
        // vertical: a wrap would set a sentinel bit
        assert(r + 3 <= 5) by {
            if r + 3 > 5 {
                let k0 = 6 - r;
                assert(1 <= k0 <= 3);
                assert(bit(m, j + k0));
                assert(j + k0 == c * 7 + 6);
                assert((c * 7 + 6) % 7 == 6) by (nonlinear_arith)
                    requires
                        0 <= c < 7,
                ;
            }
        }
        assert(run_positions(c, r, 0, 1, j, s)) by (nonlinear_arith)
            requires
                j == c * 7 + r,
                s == 1,
        ;
    } else if s == 7 {
        assert(c + 3 <= 6) by {
            assert(0 <= j + 3 * s < 49 && (j + 3 * s) % 7 != 6);
            assert(j + 21 == (c + 3) * 7 + r) by (nonlinear_arith)
                requires
                    j == c * 7 + r,
            ;
            assert(c + 3 <= 6) by (nonlinear_arith)
                requires
                    (c + 3) * 7 + r < 49,
                    0 <= r,
            ;
        }
        assert(run_positions(c, r, 1, 0, j, s)) by (nonlinear_arith)
            requires
                j == c * 7 + r,
                s == 7,
        ;
    } else if s == 6 {
        // down-right diagonal: crossing the bottom would set a sentinel bit
        assert(r >= 3) by {
            if r < 3 {
                let k0 = r + 1;
                assert(1 <= k0 <= 3);
                assert(bit(m, j + 6 * k0));
                assert(j + 6 * (r + 1) == (c + r) * 7 + 6) by (nonlinear_arith)
                    requires
                        j == c * 7 + r,
                ;
                assert(0 <= j + 6 * k0 < 49 && (j + 6 * k0) % 7 != 6);
                assert(((c + r) * 7 + 6) % 7 == 6) by (nonlinear_arith)
                    requires
                        0 <= c + r,
                        (c + r) * 7 + 6 < 49,
                ;
            }
        }
        assert(c + 3 <= 6) by {
            assert(0 <= j + 3 * s < 49);
            assert(j + 18 == (c + 3) * 7 + (r - 3)) by (nonlinear_arith)
                requires
                    j == c * 7 + r,
            ;
            assert(c + 3 <= 6) by (nonlinear_arith)
                requires
                    (c + 3) * 7 + (r - 3) < 49,
                    r >= 3,
            ;
        }
        assert(run_positions(c, r, 1, -1, j, s)) by (nonlinear_arith)
            requires
                j == c * 7 + r,
                s == 6,
        ;
    } else {
        // up-right diagonal: crossing the top would set a sentinel bit
        assert(r + 3 <= 5) by {
            if r + 3 > 5 {
                let k0 = 6 - r;
                assert(1 <= k0 <= 3);
                assert(bit(m, j + 8 * k0));
                assert(j + 8 * (6 - r) == (c + 6 - r) * 7 + 6) by (nonlinear_arith)
                    requires
                        j == c * 7 + r,
                ;
                assert(0 <= j + 8 * k0 < 49 && (j + 8 * k0) % 7 != 6);
                assert(((c + 6 - r) * 7 + 6) % 7 == 6) by (nonlinear_arith)
                    requires
                        0 <= c + 6 - r,
                        (c + 6 - r) * 7 + 6 < 49,
                ;
            }
        }
        assert(c + 3 <= 6) by {
            assert(0 <= j + 3 * s < 49);
            assert(j + 24 == (c + 3) * 7 + (r + 3)) by (nonlinear_arith)
                requires
                    j == c * 7 + r,
            ;
            assert(c + 3 <= 6) by (nonlinear_arith)
                requires
                    (c + 3) * 7 + (r + 3) < 49,
                    r + 3 >= 0,
            ;
        }
        assert(run_positions(c, r, 1, 1, j, s)) by (nonlinear_arith)
            requires
                j == c * 7 + r,
                s == 8,
        ;
    }
}

/// The four cells (c + k dc, r + k dr) sit at bits j + k s.
pub open spec fn run_positions(c: int, r: int, dc: int, dr: int, j: int, s: int) -> bool {
    &&& c * 7 + r == j
    &&& (c + dc) * 7 + (r + dr) == j + s
    &&& (c + 2 * dc) * 7 + (r + 2 * dr) == j + 2 * s
    &&& (c + 3 * dc) * 7 + (r + 3 * dr) == j + 3 * s
}

/// A nonzero shifted-AND means the moving side's opponent has four in a row
/// on the grid, and conversely.
proof fn lemma_win_mask_sound(curr: u64, opp: u64, moves: int, s: int)
    requires
        s == 1 || s == 6 || s == 7 || s == 8,
        mask_legal(opp),
        masks_disjoint(curr, opp),
        opp & (opp >> (s as u64)) & (opp >> ((2 * s) as u64)) & (opp >> ((3 * s) as u64)) != 0,
    ensures
        has_four(bb_board(curr, opp, moves), other(mover_piece(moves))),
{
    let m3 = opp & (opp >> (s as u64)) & (opp >> ((2 * s) as u64)) & (opp >> ((3 * s) as u64));
    lemma_nonzero_has_bit(m3);
    let j = choose|j: u64| j < 64 && #[trigger] ((m3 >> j) & 1u64) == 1u64;
    assert(bit(m3, j as int));
    assert((2 * s) as u64 == 2 * (s as u64) && (3 * s) as u64 == 3 * (s as u64));
    lemma_decompose_bit(opp, s as u64, j);
    lemma_mask_run_geometry(opp, s, j as int);
    let (c, r, dc, dr) = choose|c: int, r: int, dc: int, dr: int|
        dir_ok(dc, dr) && #[trigger] run_positions(c, r, dc, dr, j as int, s) && in_board(c, r)
            && in_board(c + 3 * dc, r + 3 * dr) && in_board(c + dc, r + dr) && in_board(
            c + 2 * dc,
            r + 2 * dr,
        );
    let b = bb_board(curr, opp, moves);
    let p = other(mover_piece(moves));
    lemma_bb_cell(curr, opp, moves, c, r);
    lemma_bb_cell(curr, opp, moves, c + dc, r + dr);
    lemma_bb_cell(curr, opp, moves, c + 2 * dc, r + 2 * dr);
    lemma_bb_cell(curr, opp, moves, c + 3 * dc, r + 3 * dr);
    assert(cell_at(b, c, r) == p);
    assert(cell_at(b, c + dc, r + dr) == p);
    assert(cell_at(b, c + 2 * dc, r + 2 * dr) == p);
    assert(cell_at(b, c + 3 * dc, r + 3 * dr) == p);
    assert(run_of_four(b, p, c, r, dc, dr));
}

proof fn lemma_win_mask_complete(curr: u64, opp: u64, moves: int)
    requires
        mask_legal(opp),
        mask_legal(curr),
        masks_disjoint(curr, opp),
        has_four(bb_board(curr, opp, moves), other(mover_piece(moves))),
    ensures
        exists|s: int|
            (s == 1 || s == 6 || s == 7 || s == 8) && #[trigger] win_mask(opp, s) != 0,
{
    let b = bb_board(curr, opp, moves);
    let p = other(mover_piece(moves));
    let (c, r, dc, dr) = choose|c: int, r: int, dc: int, dr: int|
        dir_ok(dc, dr) && #[trigger] run_of_four(b, p, c, r, dc, dr);
    let s = dc * 7 + dr;
    assert(s == 1 || s == 6 || s == 7 || s == 8);
    let j = c * 7 + r;
    assert((c + dc) * 7 + (r + dr) == j + s && (c + 2 * dc) * 7 + (r + 2 * dr) == j + 2 * s && (c
        + 3 * dc) * 7 + (r + 3 * dr) == j + 3 * s) by (nonlinear_arith)
        requires
            j == c * 7 + r,
            s == dc * 7 + dr,
    ;
    lemma_bb_cell(curr, opp, moves, c, r);
    lemma_bb_cell(curr, opp, moves, c + dc, r + dr);
    lemma_bb_cell(curr, opp, moves, c + 2 * dc, r + 2 * dr);
    lemma_bb_cell(curr, opp, moves, c + 3 * dc, r + 3 * dr);
    assert(p != mover_piece(moves) && p != Piece::EMPTY);
    assert(bit(opp, j) && bit(opp, j + s) && bit(opp, j + 2 * s) && bit(opp, j + 3 * s));
    assert(in_board(c, r));
    assert(0 <= j < 49) by (nonlinear_arith)
        requires
            j == c * 7 + r,
            0 <= c < 7,
            0 <= r < 6,
    ;
    assert((2 * s) as u64 == 2 * (s as u64) && (3 * s) as u64 == 3 * (s as u64));
    lemma_composite_bit(opp, s as u64, j as u64);
    assert(win_mask(opp, s) != 0);
}

pub open spec fn win_mask(opp: u64, s: int) -> u64 {
    opp & (opp >> (s as u64)) & (opp >> ((2 * s) as u64)) & (opp >> ((3 * s) as u64))
}

// ---------------------------------------------------------------------------
// Reading a textual board into masks.
// ---------------------------------------------------------------------------

pub open spec fn is_marker(ch: char) -> bool {
    ch == 'X' || ch == 'O'
}

/// Column `c` reads markers from the bottom row up through board row `r`.
pub open spec fn bb_read_ok(rows: Seq<Seq<char>>, c: int, r: int) -> bool
    decreases r + 1,
{
    if r < 0 {
        true
    } else {
        c < rows[5 - r].len() && is_marker(rows[5 - r][c]) && bb_read_ok(rows, c, r - 1)
    }
}

pub open spec fn bb_cell(rows: Seq<Seq<char>>, c: int, r: int) -> Piece {
    if bb_read_ok(rows, c, r) {
        char_piece(rows[5 - r][c])
    } else {
        Piece::EMPTY
    }
}

/// How the bitboard reads six rows of text: each column takes the contiguous
/// run of marker characters from the bottom up, and anything above the first
/// blank, short row or stray character stays empty.
pub open spec fn bb_encode(rows: Seq<Seq<char>>) -> Seq<Piece> {
    Seq::new(42, |i: int| bb_cell(rows, i / 6, i % 6))
}

proof fn lemma_bb_read_ok_stops(rows: Seq<Seq<char>>, c: int, r: int, rr: int)
    requires
        0 <= r <= rr,
        !bb_read_ok(rows, c, r),
    ensures
        !bb_read_ok(rows, c, rr),
        bb_cell(rows, c, rr) == Piece::EMPTY,
    decreases rr - r,
{
    if rr > r {
        lemma_bb_read_ok_stops(rows, c, r, rr - 1);
    }
}

// ---------------------------------------------------------------------------
// The bitboard encoding.
// ---------------------------------------------------------------------------

/// A position as two 49-bit occupancy masks, one per side relative to the
/// player to move, plus a per-column height marker and a move counter.
#[derive(Clone, Copy, PartialEq, Eq, Hash)]
pub struct StateBitboard {
    pub curr_pieces: u64,
    pub opp_pieces: u64,
    pub height_map: u64,
    pub moves_made: usize,
}

impl State for StateBitboard {
    open spec fn board(&self) -> Seq<Piece> {
        bb_board(self.curr_pieces, self.opp_pieces, self.moves_made as int)
    }

    open spec fn wf(&self) -> bool {
        &&& mask_legal(self.curr_pieces)
        &&& mask_legal(self.opp_pieces)
        &&& masks_disjoint(self.curr_pieces, self.opp_pieces)
        &&& height_wf(self.height_map, self.board())
        &&& self.moves_made == num_filled(self.board())
        &&& gravity(self.board())
    }

    open spec fn winner(&self) -> bool {
        has_four(self.board(), other(mover_piece(self.moves_made as int)))
    }

    open spec fn move_wins(b: Seq<Piece>, col: int) -> bool {
        has_four(spec_drop(b, col), player_to_move(b))
    }

    open spec fn spec_encode(rows: Seq<Seq<char>>) -> Seq<Piece> {
        bb_encode(rows)
    }

    proof fn lemma_wf_board(&self) {
    }

    proof fn lemma_move_wins(b: Seq<Piece>, col: int) {
        lemma_drop_effect(b, col);
        lemma_low_row(b, col, 0);
        if four_through(spec_drop(b, col), player_to_move(b), drop_index(b, col)) {
            let b2 = spec_drop(b, col);
            let p = player_to_move(b);
            let (c, r, dc, dr) = choose|c: int, r: int, dc: int, dr: int|
                dir_ok(dc, dr) && #[trigger] run_of_four(b2, p, c, r, dc, dr) && (cell_index(c, r)
                    == drop_index(b, col) || cell_index(c + dc, r + dr) == drop_index(b, col)
                    || cell_index(c + 2 * dc, r + 2 * dr) == drop_index(b, col) || cell_index(
                    c + 3 * dc,
                    r + 3 * dr,
                ) == drop_index(b, col));
            assert(has_four(b2, p));
        }
    }

    proof fn lemma_round_trip(b: Seq<Piece>) {
        let rows = seq![
            decode_row(b, 0),
            decode_row(b, 1),
            decode_row(b, 2),
            decode_row(b, 3),
            decode_row(b, 4),
            decode_row(b, 5),
        ];
        assert forall|i: int| 0 <= i < 42 implies bb_encode(rows)[i] == b[i] by {
            lemma_round_cell(b, rows, i);
        }
        assert(bb_encode(rows) =~= b);
    }

    fn start_state() -> (s: Self) {
        let s = StateBitboard {
            curr_pieces: 0,
            opp_pieces: 0,
            height_map: BOTTOM_ROW,
            moves_made: 0,
        };
        proof {
            lemma_bit_zero();
            assert forall|i: int| 0 <= i < 42 implies s.board()[i] == Piece::EMPTY by {
                let c = i / 6;
                let r = i % 6;
                assert(0 <= c < 7 && 0 <= r < 6 && i == c * 6 + r) by (nonlinear_arith)
                    requires
                        0 <= i < 42,
                        c == i / 6,
                        r == i % 6,
                ;
            }
            assert(s.board() =~= empty_board());
            lemma_filled_all_empty(s.board(), 42);
            lemma_bottom_bits();
            assert(BOTTOM_ROW < (1u64 << 49)) by (bit_vector);
            assert forall|j: int| 0 <= j < 49 implies (#[trigger] bit(BOTTOM_ROW, j) <==> j % 7
                == col_drop_row(s.board(), j / 7)) by {
                let c = j / 7;
                assert(0 <= c < 7) by (nonlinear_arith)
                    requires
                        0 <= j < 49,
                        c == j / 7,
                ;
                assert(cell_at(s.board(), c, 0) == Piece::EMPTY);
                assert(col_drop_row(s.board(), c) == 0);
            }
            if has_four(s.board(), other(mover_piece(0))) {
                let (c, r, dc, dr) = choose|c: int, r: int, dc: int, dr: int|
                    dir_ok(dc, dr) && #[trigger] run_of_four(
                        s.board(),
                        other(mover_piece(0)),
                        c,
                        r,
                        dc,
                        dr,
                    );
                assert(cell_at(s.board(), c, r) == Piece::EMPTY);
            }
        }
        s
    }

    #[verifier::rlimit(100)]
    #[verifier::loop_isolation(false)]
    fn is_win(&self) -> (r: bool) {
        let ghost bd = self.board();
        let ghost p = other(mover_piece(self.moves_made as int));
        let directions: [u64; 4] = [1, 6, 7, 8];
        let mut d: usize = 0;
        while d < 4
            invariant
                d <= 4,
                forall|dd: int|
                    0 <= dd < d ==> win_mask(self.opp_pieces, #[trigger] dir_step(dd)) == 0,
            decreases 4 - d,
        {
            let step = directions[d];
            proof {
                assert(step == dir_step(d as int)) by {
                    if d == 0 {
                    } else if d == 1 {
                    } else if d == 2 {
                    } else {
                    }
                }
            }
            let mut connections = self.opp_pieces;
            let mut k: usize = 0;
            while k < 3
                invariant
                    k <= 3,
                    1 <= step <= 8,
                    k == 0 ==> connections == self.opp_pieces,
                    k == 1 ==> connections == self.opp_pieces & (self.opp_pieces >> step),
                    k >= 2 ==> connections == fold_k(self.opp_pieces, step, k as int),
                decreases 3 - k,
            {
                connections = connections & (connections >> step);
                k += 1;
            }
            proof {
                lemma_fold_shape(self.opp_pieces, step);
                assert(connections == win_mask(self.opp_pieces, step as int));
            }
            if connections != 0 {
                proof {
                    lemma_win_mask_sound(
                        self.curr_pieces,
                        self.opp_pieces,
                        self.moves_made as int,
                        step as int,
                    );
                }
                return true;
            }
            d += 1;
        }
        proof {
            if self.winner() {
                lemma_win_mask_complete(
                    self.curr_pieces,
                    self.opp_pieces,
                    self.moves_made as int,
                );
                let s = choose|s: int|
                    (s == 1 || s == 6 || s == 7 || s == 8) && #[trigger] win_mask(
                        self.opp_pieces,
                        s,
                    ) != 0;
                assert(s == dir_step(0) || s == dir_step(1) || s == dir_step(2) || s == dir_step(
                    3,
                ));
            }
        }
        false
    }

    fn board_full(&self) -> (r: bool) {
        self.moves_made == 42
    }

    fn moves_made(&self) -> (r: usize) {
        self.moves_made
    }

    fn max_eval(&self) -> (r: i32) {
        proof {
            lemma_filled_below_bounds(self.board(), 42);
        }
        let d = (42 + 1) - self.moves_made;
        proof {
            vstd::bits::lemma_usize_shr_is_div(d, 1);
            vstd::arithmetic::power2::lemma2_to64();
        }
        (d >> 1usize) as i32
    }

    #[verifier::rlimit(100)]
    #[verifier::spinoff_prover]
    fn play_move(&self, col: usize) -> (r: Option<Self>) {
        let ghost b = self.board();
        let next_move = self.open_row(col);
        let ghost h = col_drop_row(b, col as int);
        proof {
            lemma_open_row_analysis(self.height_map, b, col as int, next_move);
        }
        if (next_move & IS_LEGAL) != 0 {
            proof {
                assert(h < 6);
                assert(col_playable(b, col as int));
                lemma_drop_effect(b, col as int);
                lemma_drop_gravity(b, col as int);
                lemma_filled_below_bounds(b, 42);
            }
            proof {
                let kk = (col * 7 + h) as u64;
                assert(col * 7 + h < 48 && (col * 7 + h) % 7 == h && (col * 7 + h) / 7 == col
                    && (col * 7 + h + 1) % 7 == h + 1 && (col * 7 + h + 1) / 7 == col && col * 7
                    + h + 1 < 49) by (nonlinear_arith)
                    requires
                        col < 7,
                        0 <= h < 6,
                ;
                assert(bit(self.height_map, kk as int));
                assert(!bit(self.height_map, kk as int + 1));
                assert(kk < 48 && next_move == (1u64 << kk));
            }
            let s2 = StateBitboard {
                curr_pieces: self.opp_pieces,
                opp_pieces: self.updated_pieces(next_move),
                height_map: self.update_height_map(next_move),
                moves_made: self.moves_made + 1,
            };
            proof {
                lemma_play_wf(*self, s2, col as int, next_move);
            }
            Some(s2)
        } else {
            proof {
                assert(h == 6);
                assert(!col_playable(b, col as int));
            }
            None
        }
    }

    fn next_states(&self) -> (r: Vec<Self>) {
        let ghost b = self.board();
        let mut next_states: Vec<StateBitboard> = Vec::new();
        let order: [usize; 7] = [3, 2, 4, 1, 5, 0, 6];
        proof {
            lemma_cols_upto(b, 7);
        }
        let mut k: usize = 0;
        while k < 7
            invariant
                self.wf(),
                b == self.board(),
                order@ =~= seq![3usize, 2usize, 4usize, 1usize, 5usize, 0usize, 6usize],
                k <= 7,
                next_states@.len() == cols_upto(b, k as int).len(),
                forall|i: int|
                    0 <= i < next_states@.len() ==> ((#[trigger] next_states@[i]).wf()
                        && next_states@[i].board() == spec_drop(b, cols_upto(b, k as int)[i])
                        && next_states@[i].winner() == Self::move_wins(
                        b,
                        cols_upto(b, k as int)[i],
                    )),
            decreases 7 - k,
        {
            let col = order[k];
            proof {
                assert(col as int == move_order()[k as int]) by {
                    if k == 0 {
                    } else if k == 1 {
                    } else if k == 2 {
                    } else if k == 3 {
                    } else if k == 4 {
                    } else if k == 5 {
                    } else {
                    }
                }
            }
            self.push_child(&mut next_states, col, Ghost(k as int));
            k = k + 1;
        }
        next_states
    }

    #[verifier::rlimit(80)]
    #[verifier::loop_isolation(false)]
    fn encode(rows: &Vec<String>) -> (s: Self) {
        let ghost rws = rows@.map_values(|r: String| r@);
        let mut x_mask: u64 = 0;
        let mut o_mask: u64 = 0;
        let mut height: u64 = 0;
        let mut moves: usize = 0;
        proof {
            lemma_bit_zero();
            lemma_xo_empty(0, 0);
            lemma_filled_all_empty(xo_board(0, 0), 42);
            assert forall|cc: int, rr: int| 0 <= cc < 7 && 0 <= rr < 6 implies #[trigger] cell_at(
                xo_board(0, 0),
                cc,
                rr,
            ) == Piece::EMPTY by {
                assert(0 <= cc * 6 + rr < 42) by (nonlinear_arith)
                    requires
                        0 <= cc < 7,
                        0 <= rr < 6,
                ;
            }
            assert(0u64 < (1u64 << 49)) by (bit_vector);
        }
        let mut c: usize = 0;
        while c < 7
            invariant
                c <= 7,
                moves == num_filled(xo_board(x_mask, o_mask)),
                moves <= 42,
                forall|j: int| #[trigger] bit(x_mask, j) ==> 0 <= j < 49 && j % 7 != 6,
                forall|j: int| #[trigger] bit(o_mask, j) ==> 0 <= j < 49 && j % 7 != 6,
                forall|j: int| #[trigger] bit(x_mask, j) ==> !bit(o_mask, j),
                height < (1u64 << 49),
                forall|cc: int, rr: int|
                    0 <= cc < 7 && 0 <= rr < 6 ==> (#[trigger] cell_at(
                        xo_board(x_mask, o_mask),
                        cc,
                        rr,
                    ) == if cc < c {
                        bb_cell(rws, cc, rr)
                    } else {
                        Piece::EMPTY
                    }),
                forall|j: int|
                    0 <= j < 49 ==> (#[trigger] bit(height, j) <==> (j / 7 < c && j % 7
                        == col_fill(rws, j / 7))),
            decreases 7 - c,
        {
            let mut cell: u64 = 1u64 << ((c as u64) * 7);
            proof {
                lemma_col_fill_le(rws, c as int);
                assert((c as u64) * 7 == ((c * 7 + 0) as u64)) by (nonlinear_arith)
                    requires
                        c < 7,
                ;
            }
            let mut r: usize = 0;
            let mut open_col = true;
            while r < 6
                invariant
                    r <= 6,
                    c < 7,
                    moves == num_filled(xo_board(x_mask, o_mask)),
                    moves <= 42,
                    open_col ==> cell == (1u64 << ((c * 7 + r) as u64)),
                    !open_col ==> cell == (1u64 << ((c * 7 + col_fill(rws, c as int)) as u64)),
                    open_col == bb_read_ok(rws, c as int, r - 1),
                    open_col ==> r <= col_fill(rws, c as int),
                    !open_col ==> col_fill(rws, c as int) < r,
                    forall|j: int| #[trigger] bit(x_mask, j) ==> 0 <= j < 49 && j % 7 != 6,
                    forall|j: int| #[trigger] bit(o_mask, j) ==> 0 <= j < 49 && j % 7 != 6,
                    forall|j: int| #[trigger] bit(x_mask, j) ==> !bit(o_mask, j),
                    forall|cc: int, rr: int|
                        0 <= cc < 7 && 0 <= rr < 6 ==> (#[trigger] cell_at(
                            xo_board(x_mask, o_mask),
                            cc,
                            rr,
                        ) == if cc < c || (cc == c && rr < r) {
                            bb_cell(rws, cc, rr)
                        } else {
                            Piece::EMPTY
                        }),
                decreases 6 - r,
            {
                proof {
                    assert(c * 7 + r < 48 && (c * 7 + r) % 7 == r && (c * 7 + r) / 7 == c)
                        by (nonlinear_arith)
                        requires
                            c < 7,
                            r < 6,
                    ;
                    lemma_bit_single((c * 7 + r) as u64);
                    assert(cell_at(xo_board(x_mask, o_mask), c as int, r as int) == Piece::EMPTY);
                    lemma_xo_cell(x_mask, o_mask, c as int, r as int);
                }
                let ghost x_pre = x_mask;
                let ghost o_pre = o_mask;
                if open_col {
                    let row_s: &String = &rows[5 - r];
                    proof {
                        assert(rws[5 - r as int] == rows@[5 - r as int]@);
                    }
                    let mut piece_read = false;
                    if c < row_s.as_str().unicode_len() {
                        let ch = row_s.as_str().get_char(c);
                        if ch == 'X' {
                            x_mask = x_mask | cell;
                            piece_read = true;
                            proof {
                                assert(is_marker(ch) && bb_read_ok(rws, c as int, r as int));
                                assert(bb_cell(rws, c as int, r as int) == Piece::FIRST);
                                lemma_xo_update(
                                    x_pre,
                                    o_pre,
                                    x_mask,
                                    o_mask,
                                    c as int,
                                    r as int,
                                    Piece::FIRST,
                                );
                            }
                            moves = moves + 1;
                        } else if ch == 'O' {
                            o_mask = o_mask | cell;
                            piece_read = true;
                            proof {
                                assert(is_marker(ch) && bb_read_ok(rws, c as int, r as int));
                                assert(bb_cell(rws, c as int, r as int) == Piece::SECOND);
                                lemma_xo_update(
                                    x_pre,
                                    o_pre,
                                    x_mask,
                                    o_mask,
                                    c as int,
                                    r as int,
                                    Piece::SECOND,
                                );
                            }
                            moves = moves + 1;
                        } else {
                            proof {
                                assert(!is_marker(ch));
                                assert(!bb_read_ok(rws, c as int, r as int));
                            }
                        }
                    } else {
                        proof {
                            assert(!bb_read_ok(rws, c as int, r as int));
                        }
                    }
                    if !piece_read {
                        open_col = false;
                        proof {
                            assert(bb_cell(rws, c as int, r as int) == Piece::EMPTY);
                            lemma_col_fill_at(rws, c as int, r as int);
                        }
                    } else {
                        proof {
                            lemma_col_fill_ge(rws, c as int, r as int);
                        }
                    }
                } else {
                    proof {
                        lemma_bb_read_ok_stops(rws, c as int, r - 1, r as int);
                        assert(bb_cell(rws, c as int, r as int) == Piece::EMPTY);
                    }
                }
                proof {
                    lemma_encode_cells_step(
                        x_pre,
                        o_pre,
                        x_mask,
                        o_mask,
                        rws,
                        c as int,
                        r as int,
                    );
                    lemma_filled_below_bounds(xo_board(x_mask, o_mask), 42);
                }
                if open_col {
                    proof {
                        assert(c * 7 + r + 1 < 64) by (nonlinear_arith)
                            requires
                                c < 7,
                                r < 6,
                        ;
                        assert((1u64 << (((c * 7 + r) + 1) as u64)) == 2 * (1u64 << ((c * 7
                            + r) as u64)) && (1u64 << ((c * 7 + r) as u64)) < (1u64 << 48))
                            by (bit_vector)
                            requires
                                c * 7 + r < 48,
                        ;
                    }
                    cell = cell * 2;
                }
                r = r + 1;
            }
            proof {
                if open_col {
                    assert(col_fill(rws, c as int) == 6) by {
                        lemma_col_fill_le(rws, c as int);
                    }
                }
                assert(cell == (1u64 << ((c * 7 + col_fill(rws, c as int)) as u64)));
                assert(c * 7 + col_fill(rws, c as int) < 49) by (nonlinear_arith)
                    requires
                        c < 7,
                        0 <= col_fill(rws, c as int) <= 6,
                ;
                lemma_bit_or(height, cell);
                lemma_bit_single((c * 7 + col_fill(rws, c as int)) as u64);
            }
            let ghost h_pre = height;
            height = height | cell;
            proof {
                assert forall|j: int|
                    0 <= j < 49 implies (#[trigger] bit(height, j) <==> (j / 7 < c + 1 && j % 7
                    == col_fill(rws, j / 7))) by {
                    let fc = col_fill(rws, c as int);
                    assert(0 <= fc <= 6) by {
                        lemma_col_fill_le(rws, c as int);
                    }
                    assert((c * 7 + fc) / 7 == c && (c * 7 + fc) % 7 == fc) by (nonlinear_arith)
                        requires
                            c < 7,
                            0 <= fc <= 6,
                    ;
                    if bit(height, j) {
                        if bit(h_pre, j) {
                        } else {
                            assert(j == c * 7 + fc);
                        }
                    } else {
                        if j / 7 < c + 1 && j % 7 == col_fill(rws, j / 7) {
                            if j / 7 < c {
                                assert(bit(h_pre, j));
                            } else {
                                assert(j / 7 == c);
                                assert(j == c * 7 + fc) by (nonlinear_arith)
                                    requires
                                        j / 7 == c,
                                        j % 7 == fc,
                                ;
                                assert(bit(height, j));
                            }
                        }
                    }
                }
                assert forall|j: int| #[trigger] bit(height, j) implies j < 49 by {
                    if bit(h_pre, j) {
                        lemma_bit_bound(h_pre, 49);
                    } else {
                        assert(j == c * 7 + col_fill(rws, c as int));
                    }
                }
                assert(height < (1u64 << 49)) by {
                    lemma_bit_bound_conv(height);
                }
            }
            c = c + 1;
        }

        let s = if moves % 2 == 0 {
            StateBitboard {
                curr_pieces: x_mask,
                opp_pieces: o_mask,
                height_map: height,
                moves_made: moves,
            }
        } else {
            StateBitboard {
                curr_pieces: o_mask,
                opp_pieces: x_mask,
                height_map: height,
                moves_made: moves,
            }
        };
        proof {
            assert forall|i: int| 0 <= i < 42 implies s.board()[i] == xo_board(x_mask, o_mask)[i]
                by {
                let cc = i / 6;
                let rr = i % 6;
                assert(0 <= cc < 7 && 0 <= rr < 6 && i == cc * 6 + rr) by (nonlinear_arith)
                    requires
                        0 <= i < 42,
                        cc == i / 6,
                        rr == i % 6,
                ;
            }
            assert(s.board() =~= xo_board(x_mask, o_mask));
            assert forall|i: int| 0 <= i < 42 implies s.board()[i] == bb_encode(rws)[i] by {
                let cc = i / 6;
                let rr = i % 6;
                assert(0 <= cc < 7 && 0 <= rr < 6 && i == cc * 6 + rr) by (nonlinear_arith)
                    requires
                        0 <= i < 42,
                        cc == i / 6,
                        rr == i % 6,
                ;
                assert(cell_at(xo_board(x_mask, o_mask), cc, rr) == bb_cell(rws, cc, rr));
            }
            assert(s.board() =~= bb_encode(rws));
            lemma_encode_wf(rws, s);
        }
        s
    }

    #[verifier::rlimit(100)]
    #[verifier::spinoff_prover]
    fn decode(&self) -> (r: String) {
        let ghost b = self.board();
        let mut board_str = String::new();
        proof {
            reveal_strlit("X");
            reveal_strlit("O");
            reveal_strlit(" ");
            reveal_strlit("\n");
            assert(board_str@ =~= decode_upto(b, 0));
        }
        let mut vr: usize = 0;
        while vr < 6
            invariant
                self.wf(),
                b == self.board(),
                vr <= 6,
                board_str@ == decode_upto(b, vr as int),
            decreases 6 - vr,
        {
            let row = 5 - vr;
            let mut c: usize = 0;
            while c < 7
                invariant
                    self.wf(),
                    b == self.board(),
                    vr < 6,
                    row == 5 - vr,
                    c <= 7,
                    board_str@ == decode_upto(b, vr as int) + decode_row(b, vr as int).subrange(
                        0,
                        c as int,
                    ),
                decreases 7 - c,
            {
                let j = (c as u64) * 7 + (row as u64);
                proof {
                    reveal_strlit("X");
                    reveal_strlit("O");
                    reveal_strlit(" ");
                    assert(c * 7 + row < 48 && (c * 7 + row) % 7 == row && (c * 7 + row) / 7 == c)
                        by (nonlinear_arith)
                        requires
                            c < 7,
                            row < 6,
                    ;
                    lemma_bb_cell(
                        self.curr_pieces,
                        self.opp_pieces,
                        self.moves_made as int,
                        c as int,
                        row as int,
                    );
                }
                let curr_first = self.moves_made % 2 == 0;
                if (self.curr_pieces >> j) & 1 == 1 {
                    if curr_first {
                        board_str.append("X");
                    } else {
                        board_str.append("O");
                    }
                } else if (self.opp_pieces >> j) & 1 == 1 {
                    if curr_first {
                        board_str.append("O");
                    } else {
                        board_str.append("X");
                    }
                } else {
                    board_str.append(" ");
                }
                proof {
                    assert(decode_row(b, vr as int)[c as int] == piece_char(
                        cell_at(b, c as int, 5 - vr as int),
                    ));
                    assert(decode_row(b, vr as int).subrange(0, c as int).push(
                        decode_row(b, vr as int)[c as int],
                    ) =~= decode_row(b, vr as int).subrange(0, c + 1 as int));
                    assert(board_str@ =~= decode_upto(b, vr as int) + decode_row(
                        b,
                        vr as int,
                    ).subrange(0, c + 1 as int));
                }
                c = c + 1;
            }
            board_str.append("\n");
            proof {
                reveal_strlit("\n");
                assert(decode_row(b, vr as int).subrange(0, 7) =~= decode_row(b, vr as int));
                assert(board_str@ =~= decode_upto(b, vr as int + 1));
            }
            vr = vr + 1;
        }
        board_str
    }

    #[verifier::rlimit(80)]
    #[verifier::loop_isolation(false)]
    fn state_key(&self) -> (k: u128) {
        let ghost b = self.board();
        let mut key: u128 = 0;
        let mut i: usize = 0;
        proof {
            lemma_pow3_bound();
        }
        while i < 42
            invariant
                i <= 42,
                key == key_below(b, i as int),
            decreases 42 - i,
        {
            proof {
                lemma_key_below_bounds(b, i as int);
                lemma_pow3_mono(i as int, 41);
            }
            let c = i / 6;
            let r = i % 6;
            let j = (c as u64) * 7 + (r as u64);
            proof {
                assert(0 <= c < 7 && 0 <= r < 6 && i == c * 6 + r && c * 7 + r < 48)
                    by (nonlinear_arith)
                    requires
                        i < 42,
                        c == i / 6,
                        r == i % 6,
                ;
                lemma_bb_cell(
                    self.curr_pieces,
                    self.opp_pieces,
                    self.moves_made as int,
                    c as int,
                    r as int,
                );
            }
            let curr_first = self.moves_made % 2 == 0;
            let d: u128 = if (self.curr_pieces >> j) & 1 == 1 {
                if curr_first {
                    1
                } else {
                    2
                }
            } else if (self.opp_pieces >> j) & 1 == 1 {
                if curr_first {
                    2
                } else {
                    1
                }
            } else {
                0
            };
            proof {
                assert(d == piece_digit(b[i as int]));
            }
            key = key * 3 + d;
            i = i + 1;
        }
        key
    }
}

impl StateBitboard {
    /// Try one column of the move order and append the successor if legal.
    #[verifier::rlimit(100)]
    #[verifier::spinoff_prover]
    fn push_child(&self, next_states: &mut Vec<StateBitboard>, col: usize, Ghost(k): Ghost<int>)
        requires
            self.wf(),
            0 <= k < 7,
            col == move_order()[k],
            old(next_states)@.len() == cols_upto(self.board(), k).len(),
            forall|i: int|
                0 <= i < old(next_states)@.len() ==> ((#[trigger] old(next_states)@[i]).wf()
                    && old(next_states)@[i].board() == spec_drop(
                    self.board(),
                    cols_upto(self.board(), k)[i],
                ) && old(next_states)@[i].winner() == <StateBitboard as State>::move_wins(
                    self.board(),
                    cols_upto(self.board(), k)[i],
                )),
        ensures
            final(next_states)@.len() == cols_upto(self.board(), k + 1).len(),
            forall|i: int|
                0 <= i < final(next_states)@.len() ==> ((#[trigger] final(next_states)@[i]).wf()
                    && final(next_states)@[i].board() == spec_drop(
                    self.board(),
                    cols_upto(self.board(), k + 1)[i],
                ) && final(next_states)@[i].winner() == <StateBitboard as State>::move_wins(
                    self.board(),
                    cols_upto(self.board(), k + 1)[i],
                )),
    {
        let ghost b = self.board();
        proof {
            lemma_cols_upto(b, k);
            lemma_cols_upto(b, k + 1);
            assert(0 <= move_order()[k] < 7);
        }
        let next_move = self.play_move(col);
        match next_move {
            None => {
                proof {
                    assert(cols_upto(b, k + 1) =~= cols_upto(b, k));
                }
            },
            Some(state) => {
                next_states.push(state);
                proof {
                    let cs = cols_upto(b, k + 1);
                    assert(cs =~= cols_upto(b, k) + seq![col as int]);
                    assert(cs[cs.len() - 1] == col as int);
                }
            },
        }
    }

    fn open_row(&self, col: usize) -> (r: u64)
        requires
            col < 7,
        ensures
            r == self.height_map & (COL_MASK << ((col * 7) as u64)),
    {
        self.height_map & (COL_MASK << ((col as u64) * 7))
    }

    fn updated_pieces(&self, next_move: u64) -> (r: u64)
        ensures
            r == self.curr_pieces | next_move,
    {
        self.curr_pieces | next_move
    }

    fn update_height_map(&self, next_move: u64) -> (r: u64)
        requires
            exists|k: u64|
                k < 48 && next_move == (1u64 << k) && #[trigger] bit(self.height_map, k as int)
                    && !bit(self.height_map, k as int + 1),
        ensures
            r == self.height_map + next_move,
    {
        proof {
            let k = choose|k: u64|
                k < 48 && next_move == (1u64 << k) && #[trigger] bit(self.height_map, k as int)
                    && !bit(self.height_map, k as int + 1);
            lemma_add_no_overflow(self.height_map, k);
        }
        self.height_map + next_move
    }
}

// ---------------------------------------------------------------------------
// Helper spec functions and lemmas for encode.
// ---------------------------------------------------------------------------

/// A board read directly off an X-mask and an O-mask.
pub open spec fn xo_board(xm: u64, om: u64) -> Seq<Piece> {
    Seq::new(
        42,
        |i: int|
            {
                let j = (i / 6) * 7 + (i % 6);
                if bit(xm, j) {
                    Piece::FIRST
                } else if bit(om, j) {
                    Piece::SECOND
                } else {
                    Piece::EMPTY
                }
            },
    )
}

proof fn lemma_xo_cell(xm: u64, om: u64, c: int, r: int)
    requires
        in_board(c, r),
    ensures
        cell_at(xo_board(xm, om), c, r) == (if bit(xm, c * 7 + r) {
            Piece::FIRST
        } else if bit(om, c * 7 + r) {
            Piece::SECOND
        } else {
            Piece::EMPTY
        }),
{
    let i = c * 6 + r;
    assert(0 <= i < 42 && i / 6 == c && i % 6 == r) by (nonlinear_arith)
        requires
            0 <= c < 7,
            0 <= r < 6,
            i == c * 6 + r,
    ;
}

proof fn lemma_xo_empty(xm: u64, om: u64)
    requires
        forall|j: int| !(#[trigger] bit(xm, j)),
        forall|j: int| !(#[trigger] bit(om, j)),
    ensures
        forall|i: int| 0 <= i < 42 ==> xo_board(xm, om)[i] == Piece::EMPTY,
{
}

/// Setting one fresh legal bit updates exactly one cell of the mask board.
proof fn lemma_xo_update(
    x_pre: u64,
    o_pre: u64,
    x_post: u64,
    o_post: u64,
    c: int,
    r: int,
    p: Piece,
)
    requires
        in_board(c, r),
        !bit(x_pre, c * 7 + r),
        !bit(o_pre, c * 7 + r),
        p == Piece::FIRST ==> (x_post == x_pre | (1u64 << ((c * 7 + r) as u64)) && o_post
            == o_pre),
        p == Piece::SECOND ==> (o_post == o_pre | (1u64 << ((c * 7 + r) as u64)) && x_post
            == x_pre),
        p == Piece::FIRST || p == Piece::SECOND,
    ensures
        xo_board(x_post, o_post) == xo_board(x_pre, o_pre).update(c * 6 + r, p),
        num_filled(xo_board(x_post, o_post)) == num_filled(xo_board(x_pre, o_pre)) + 1,
        forall|j: int| #[trigger] bit(x_post, j) ==> bit(x_pre, j) || j == c * 7 + r,
        forall|j: int| #[trigger] bit(o_post, j) ==> bit(o_pre, j) || j == c * 7 + r,
{
    let k = c * 7 + r;
    assert(0 <= k < 48) by (nonlinear_arith)
        requires
            k == c * 7 + r,
            0 <= c < 7,
            0 <= r < 6,
    ;
    lemma_bit_single(k as u64);
    if p == Piece::FIRST {
        lemma_bit_or(x_pre, 1u64 << (k as u64));
    } else {
        lemma_bit_or(o_pre, 1u64 << (k as u64));
    }
    let b1 = xo_board(x_pre, o_pre);
    let b2 = xo_board(x_post, o_post);
    assert forall|i: int| 0 <= i < 42 implies b2[i] == b1.update(c * 6 + r, p)[i] by {
        let cc = i / 6;
        let rr = i % 6;
        assert(0 <= cc < 7 && 0 <= rr < 6 && i == cc * 6 + rr) by (nonlinear_arith)
            requires
                0 <= i < 42,
                cc == i / 6,
                rr == i % 6,
        ;
        assert(cc * 7 + rr == k <==> (cc == c && rr == r)) by (nonlinear_arith)
            requires
                0 <= cc < 7,
                0 <= rr < 7,
                0 <= c < 7,
                0 <= r < 6,
                k == c * 7 + r,
        ;
        assert(cc * 6 + rr == c * 6 + r <==> (cc == c && rr == r)) by (nonlinear_arith)
            requires
                0 <= cc < 7,
                0 <= rr < 6,
                0 <= c < 7,
                0 <= r < 6,
        ;
    }
    assert(b2 =~= b1.update(c * 6 + r, p));
    assert(b1[c * 6 + r] == Piece::EMPTY) by {
        lemma_xo_cell(x_pre, o_pre, c, r);
    }
    assert(0 <= c * 6 + r < 42) by (nonlinear_arith)
        requires
            0 <= c < 7,
            0 <= r < 6,
    ;
    lemma_filled_below_update(b1, c * 6 + r, p, 42);
}

/// After handling cell (c, r), the partial-board invariant moves one row up.
proof fn lemma_encode_cells_step(
    x_pre: u64,
    o_pre: u64,
    x_post: u64,
    o_post: u64,
    rws: Seq<Seq<char>>,
    c: int,
    r: int,
)
    requires
        in_board(c, r),
        forall|cc: int, rr: int|
            0 <= cc < 7 && 0 <= rr < 6 ==> (#[trigger] cell_at(xo_board(x_pre, o_pre), cc, rr)
                == if cc < c || (cc == c && rr < r) {
                bb_cell(rws, cc, rr)
            } else {
                Piece::EMPTY
            }),
        xo_board(x_post, o_post) == xo_board(x_pre, o_pre) || xo_board(x_post, o_post) == xo_board(
            x_pre,
            o_pre,
        ).update(c * 6 + r, bb_cell(rws, c, r)),
        xo_board(x_post, o_post) == xo_board(x_pre, o_pre) ==> bb_cell(rws, c, r) == Piece::EMPTY,
    ensures
        forall|cc: int, rr: int|
            0 <= cc < 7 && 0 <= rr < 6 ==> (#[trigger] cell_at(xo_board(x_post, o_post), cc, rr)
                == if cc < c || (cc == c && rr < r + 1) {
                bb_cell(rws, cc, rr)
            } else {
                Piece::EMPTY
            }),
{
    assert forall|cc: int, rr: int| 0 <= cc < 7 && 0 <= rr < 6 implies (#[trigger] cell_at(
        xo_board(x_post, o_post),
        cc,
        rr,
    ) == if cc < c || (cc == c && rr < r + 1) {
        bb_cell(rws, cc, rr)
    } else {
        Piece::EMPTY
    }) by {
        assert(cc * 6 + rr == c * 6 + r <==> (cc == c && rr == r)) by (nonlinear_arith)
            requires
                0 <= cc < 7,
                0 <= rr < 6,
                0 <= c < 7,
                0 <= r < 6,
        ;
        assert(0 <= cc * 6 + rr < 42) by (nonlinear_arith)
            requires
                0 <= cc < 7,
                0 <= rr < 6,
        ;
    }
}

/// The number of cells a column actually reads.
pub open spec fn col_fill_from(rows: Seq<Seq<char>>, c: int, r: int) -> int
    decreases 6 - r,
{
    if r >= 6 {
        6
    } else if !bb_read_ok(rows, c, r) {
        r
    } else {
        col_fill_from(rows, c, r + 1)
    }
}

pub open spec fn col_fill(rows: Seq<Seq<char>>, c: int) -> int {
    col_fill_from(rows, c, 0)
}

proof fn lemma_col_fill_le(rows: Seq<Seq<char>>, c: int)
    ensures
        0 <= col_fill(rows, c) <= 6,
        forall|r: int| 0 <= r < col_fill(rows, c) ==> bb_read_ok(rows, c, r),
{
    lemma_col_fill_le_from(rows, c, 0);
}

proof fn lemma_col_fill_le_from(rows: Seq<Seq<char>>, c: int, r0: int)
    requires
        0 <= r0 <= 6,
    ensures
        r0 <= col_fill_from(rows, c, r0) <= 6,
        forall|r: int| r0 <= r < col_fill_from(rows, c, r0) ==> bb_read_ok(rows, c, r),
    decreases 6 - r0,
{
    if r0 < 6 && bb_read_ok(rows, c, r0) {
        lemma_col_fill_le_from(rows, c, r0 + 1);
    }
}

/// A failed read at row r pins the column fill when all rows below read.
proof fn lemma_col_fill_at(rows: Seq<Seq<char>>, c: int, r: int)
    requires
        0 <= r < 6,
        !bb_read_ok(rows, c, r),
        bb_read_ok(rows, c, r - 1),
    ensures
        col_fill(rows, c) == r,
{
    lemma_col_fill_at_from(rows, c, 0, r);
}

proof fn lemma_col_fill_at_from(rows: Seq<Seq<char>>, c: int, r0: int, r: int)
    requires
        0 <= r0 <= r < 6,
        !bb_read_ok(rows, c, r),
        bb_read_ok(rows, c, r - 1),
    ensures
        col_fill_from(rows, c, r0) == r,
    decreases r - r0,
{
    if r0 < r {
        assert(bb_read_ok(rows, c, r0)) by {
            lemma_read_ok_prefix(rows, c, r0, r - 1);
        }
        lemma_col_fill_at_from(rows, c, r0 + 1, r);
    }
}

proof fn lemma_read_ok_prefix(rows: Seq<Seq<char>>, c: int, r0: int, r: int)
    requires
        r0 <= r,
        bb_read_ok(rows, c, r),
    ensures
        bb_read_ok(rows, c, r0),
    decreases r - r0,
{
    if r0 < r {
        lemma_read_ok_prefix(rows, c, r0, r - 1);
    }
}

proof fn lemma_col_fill_ge(rows: Seq<Seq<char>>, c: int, r: int)
    requires
        0 <= r < 6,
        bb_read_ok(rows, c, r),
    ensures
        col_fill(rows, c) >= r + 1,
{
    lemma_col_fill_ge_from(rows, c, 0, r);
}

proof fn lemma_col_fill_ge_from(rows: Seq<Seq<char>>, c: int, r0: int, r: int)
    requires
        0 <= r0 <= r < 6,
        bb_read_ok(rows, c, r),
    ensures
        col_fill_from(rows, c, r0) >= r + 1,
    decreases r - r0,
{
    assert(bb_read_ok(rows, c, r0)) by {
        lemma_read_ok_prefix(rows, c, r0, r);
    }
    if r0 < r {
        lemma_col_fill_ge_from(rows, c, r0 + 1, r);
    } else {
        lemma_col_fill_le_from(rows, c, r0 + 1);
    }
}

proof fn lemma_bit_bound_conv(x: u64)
    requires
        forall|j: int| #[trigger] bit(x, j) ==> j < 49,
    ensures
        x < (1u64 << 49),
{
    if x >= (1u64 << 49) {
        assert(x >> 49u64 != 0) by (bit_vector)
            requires
                x >= (1u64 << 49),
        ;
        lemma_nonzero_has_bit(x >> 49u64);
        let j = choose|j: u64| j < 64 && #[trigger] (((x >> 49u64) >> j) & 1u64) == 1u64;
        assert(j < 15 && ((x >> ((49 + j) as u64)) & 1u64) == 1u64) by (bit_vector)
            requires
                j < 64,
                ((x >> 49u64) >> j) & 1u64 == 1u64,
        ;
        assert(bit(x, 49 + j as int));
    }
}

proof fn lemma_single_bit_eq(m: u64, k: u64)
    requires
        k < 64,
        bit(m, k as int),
        forall|i: int| #[trigger] bit(m, i) ==> i == k,
    ensures
        m == (1u64 << k),
{
    assert forall|i: int| #[trigger] bit(1u64 << k, i) <==> bit(m, i) by {
        lemma_bit_single(k);
    }
    lemma_bits_eq(m, 1u64 << k);
}

proof fn lemma_bits_eq(x: u64, y: u64)
    requires
        forall|i: int| #[trigger] bit(x, i) <==> bit(y, i),
    ensures
        x == y,
{
    let z = x ^ y;
    if x != y {
        assert(z != 0) by (bit_vector)
            requires
                z == x ^ y,
                x != y,
        ;
        lemma_nonzero_has_bit(z);
        let j = choose|j: u64| j < 64 && #[trigger] ((z >> j) & 1u64) == 1u64;
        assert(((x >> j) & 1u64 == 1u64) != ((y >> j) & 1u64 == 1u64)) by (bit_vector)
            requires
                j < 64,
                z == x ^ y,
                (z >> j) & 1u64 == 1u64,
        ;
        assert(bit(x, j as int) != bit(y, j as int));
    }
}

proof fn lemma_single_nonzero(m: u64, k: u64)
    requires
        k < 64,
        bit(m, k as int),
    ensures
        m != 0,
{
    if m == 0 {
        assert((0u64 >> k) & 1u64 == 0u64) by (bit_vector);
    }
}

proof fn lemma_no_bits_zero(m: u64)
    requires
        forall|i: int| !(#[trigger] bit(m, i)),
    ensures
        m == 0,
{
    lemma_bit_zero();
    lemma_bits_eq(m, 0);
}

pub open spec fn dir_step(d: int) -> int {
    if d == 0 {
        1
    } else if d == 1 {
        6
    } else if d == 2 {
        7
    } else {
        8
    }
}

pub open spec fn fold_k(m: u64, s: u64, k: int) -> u64 {
    if k <= 1 {
        m & (m >> s)
    } else if k == 2 {
        (m & (m >> s)) & ((m & (m >> s)) >> s)
    } else {
        ((m & (m >> s)) & ((m & (m >> s)) >> s)) & (((m & (m >> s)) & ((m & (m >> s)) >> s)) >> s)
    }
}

#[verifier::rlimit(100)]
proof fn lemma_play_board_cell(
    s1: StateBitboard,
    s2: StateBitboard,
    col: int,
    next_move: u64,
    k: int,
    h: int,
    i: int,
)
    requires
        s1.wf(),
        0 <= col < 7,
        col_playable(s1.board(), col),
        h == col_drop_row(s1.board(), col),
        0 <= h < 6,
        k == col * 7 + h,
        0 <= k < 48,
        next_move == (1u64 << (k as u64)),
        s2.curr_pieces == s1.opp_pieces,
        s2.opp_pieces == s1.curr_pieces | next_move,
        s2.moves_made == s1.moves_made + 1,
        !bit(s1.curr_pieces, k),
        !bit(s1.opp_pieces, k),
        0 <= i < 42,
    ensures
        s2.board()[i] == spec_drop(s1.board(), col)[i],
{
    let b = s1.board();
    let b2 = spec_drop(b, col);
    lemma_low_row(b, col, 0);
    lemma_drop_effect(b, col);
    lemma_bit_single(k as u64);
    lemma_bit_or(s1.curr_pieces, next_move);
    let cc = i / 6;
    let rr = i % 6;
    assert(0 <= cc < 7 && 0 <= rr < 6 && i == cc * 6 + rr) by (nonlinear_arith)
        requires
            0 <= i < 42,
            cc == i / 6,
            rr == i % 6,
    ;
    assert(cc * 7 + rr == k <==> (cc == col && rr == h)) by (nonlinear_arith)
        requires
            0 <= cc < 7,
            0 <= rr < 6,
            0 <= col < 7,
            0 <= h < 6,
            k == col * 7 + h,
    ;
    assert(cc * 6 + rr == col * 6 + h <==> (cc == col && rr == h)) by (nonlinear_arith)
        requires
            0 <= cc < 7,
            0 <= rr < 6,
            0 <= col < 7,
            0 <= h < 6,
    ;
    lemma_bb_cell(s2.curr_pieces, s2.opp_pieces, s2.moves_made as int, cc, rr);
    lemma_bb_cell(s1.curr_pieces, s1.opp_pieces, s1.moves_made as int, cc, rr);
    assert((s1.moves_made + 1) % 2 != s1.moves_made as int % 2) by (nonlinear_arith)
        requires
            s1.moves_made >= 0,
    ;
    if cc == col && rr == h {
        assert(b2[i] == player_to_move(b));
        assert(bit(s2.opp_pieces, k));
    }
}

/// The lane the height mask keeps for `col` holds exactly the column's
/// single height bit, and that bit is in the legal region exactly when the
/// column still has room.
#[verifier::rlimit(100)]
proof fn lemma_open_row_analysis(hm: u64, b: Seq<Piece>, col: int, next_move: u64)
    requires
        b.len() == 42,
        height_wf(hm, b),
        0 <= col < 7,
        next_move == hm & (COL_MASK << ((col * 7) as u64)),
    ensures
        next_move == (1u64 << ((col * 7 + col_drop_row(b, col)) as u64)),
        (next_move & IS_LEGAL != 0) <==> col_drop_row(b, col) < 6,
        0 <= col_drop_row(b, col) <= 6,
{
    let h = col_drop_row(b, col);
    lemma_low_row(b, col, 0);
    lemma_lane_mask(hm, col as u64);
    lemma_legal_bits();
    assert(col * 7 + h < 49 && (col * 7 + h) % 7 == h && (col * 7 + h) / 7 == col)
        by (nonlinear_arith)
        requires
            col < 7,
            0 <= h <= 6,
    ;
    assert(bit(hm, col * 7 + h));
    assert forall|i: int| #[trigger] bit(next_move, i) implies i == col * 7 + h by {
        assert(bit(hm, i) && col * 7 <= i < col * 7 + 7);
        let k = i - col * 7;
        assert(i % 7 == k && i / 7 == col) by (nonlinear_arith)
            requires
                col * 7 <= i < col * 7 + 7,
                k == i - col * 7,
                0 <= col < 7,
        ;
        assert(i < 49) by (nonlinear_arith)
            requires
                i < col * 7 + 7,
                col < 7,
        ;
    }
    assert(bit(next_move, col * 7 + h));
    lemma_single_bit_eq(next_move, (col * 7 + h) as u64);
    let legal = next_move & IS_LEGAL;
    lemma_bit_and_mask(next_move, IS_LEGAL);
    if h < 6 {
        assert(bit(legal, col * 7 + h));
        assert(legal != 0) by {
            lemma_single_nonzero(legal, (col * 7 + h) as u64);
        }
    } else {
        assert forall|i: int| !(#[trigger] bit(legal, i)) by {
            if bit(legal, i) {
                assert(i == col * 7 + 6 && i % 7 == 6);
            }
        }
        assert(legal == 0) by {
            lemma_no_bits_zero(legal);
        }
    }
}

/// The whole well-formedness of the state produced by a legal move.
#[verifier::rlimit(100)]
proof fn lemma_play_wf(s1: StateBitboard, s2: StateBitboard, col: int, next_move: u64)
    requires
        s1.wf(),
        0 <= col < 7,
        col_playable(s1.board(), col),
        next_move == (1u64 << ((col * 7 + col_drop_row(s1.board(), col)) as u64)),
        s2.curr_pieces == s1.opp_pieces,
        s2.opp_pieces == s1.curr_pieces | next_move,
        s2.height_map == s1.height_map + next_move,
        s2.moves_made == s1.moves_made + 1,
    ensures
        s2.wf(),
        s2.board() == spec_drop(s1.board(), col),
        s2.winner() == <StateBitboard as State>::move_wins(s1.board(), col),
{
    let b = s1.board();
    let h = col_drop_row(b, col);
    let k = col * 7 + h;
    lemma_low_row(b, col, 0);
    lemma_drop_effect(b, col);
    lemma_drop_gravity(b, col);
    assert(0 <= k < 48 && k % 7 == h && k / 7 == col) by (nonlinear_arith)
        requires
            k == col * 7 + h,
            0 <= col < 7,
            0 <= h < 6,
    ;
    lemma_bit_single(k as u64);
    lemma_bit_or(s1.curr_pieces, next_move);
    // the fresh bit was empty before
    lemma_bb_cell(s1.curr_pieces, s1.opp_pieces, s1.moves_made as int, col, h);
    assert(cell_at(b, col, h) == Piece::EMPTY);
    assert(!bit(s1.curr_pieces, k) && !bit(s1.opp_pieces, k));

    let b2 = spec_drop(b, col);
    // the new masks encode exactly the dropped board
    assert forall|i: int| 0 <= i < 42 implies s2.board()[i] == b2[i] by {
        lemma_play_board_cell(s1, s2, col, next_move, k, h, i);
    }
    assert(s2.board() =~= b2);

    // legality and disjointness of the new masks
    assert(mask_legal(s2.opp_pieces));
    assert(masks_disjoint(s2.curr_pieces, s2.opp_pieces));

    // the height map moves one bit up in this column
    assert(!bit(s1.height_map, k + 1)) by {
        if bit(s1.height_map, k + 1) {
            if k % 7 == 6 {
            } else {
                assert(0 <= k + 1 < 49);
                assert((k + 1) % 7 == h + 1 && (k + 1) / 7 == col) by (nonlinear_arith)
                    requires
                        k == col * 7 + h,
                        0 <= h < 6,
                        0 <= col < 7,
                ;
            }
        }
    }
    assert(bit(s1.height_map, k));
    lemma_bit_add(s1.height_map, s2.height_map, k as u64);
    assert(height_wf(s2.height_map, s2.board())) by {
        assert(s2.height_map < (1u64 << 49)) by {
            assert forall|j: int| #[trigger] bit(s2.height_map, j) implies j < 49 by {
                if j == k + 1 {
                    assert(k + 1 < 49) by (nonlinear_arith)
                        requires
                            k == col * 7 + h,
                            0 <= h < 6,
                            0 <= col < 7,
                    ;
                } else {
                    assert(bit(s1.height_map, j));
                    lemma_bit_bound(s1.height_map, 49);
                }
            }
            lemma_bit_bound_conv(s2.height_map);
        }
        assert forall|j: int| 0 <= j < 49 implies (#[trigger] bit(s2.height_map, j) <==> j % 7
            == col_drop_row(s2.board(), j / 7)) by {
            let jc = j / 7;
            let jr = j % 7;
            assert(0 <= jc < 7 && 0 <= jr <= 6 && j == jc * 7 + jr) by (nonlinear_arith)
                requires
                    0 <= j < 49,
                    jc == j / 7,
                    jr == j % 7,
            ;
            if jc == col {
                assert(col_drop_row(b2, col) == h + 1) by {
                    lemma_low_row(b2, col, 0);
                    lemma_drop_row_up(b, b2, col, h);
                }
                assert(j == k <==> jr == h) by (nonlinear_arith)
                    requires
                        j == jc * 7 + jr,
                        k == col * 7 + h,
                        jc == col,
                ;
                assert(j == k + 1 <==> jr == h + 1) by (nonlinear_arith)
                    requires
                        j == jc * 7 + jr,
                        k == col * 7 + h,
                        jc == col,
                ;
            } else {
                assert(col_drop_row(b2, jc) == col_drop_row(b, jc)) by {
                    lemma_drop_row_other(b, b2, col, jc);
                }
                assert(j != k && j != k + 1) by (nonlinear_arith)
                    requires
                        j == jc * 7 + jr,
                        k == col * 7 + h,
                        jc != col,
                        0 <= jr <= 6,
                        0 <= h < 6,
                ;
            }
        }
    }
    assert(s2.moves_made == num_filled(s2.board()));
    assert(gravity(s2.board()));

    // winner of the new state is exactly the move-wins predicate
    assert(other(mover_piece(s2.moves_made as int)) == player_to_move(b)) by {
        assert((s1.moves_made + 1) % 2 != s1.moves_made as int % 2) by (nonlinear_arith)
            requires
                s1.moves_made >= 0,
        ;
    }
}

#[verifier::rlimit(80)]
proof fn lemma_drop_row_up(b: Seq<Piece>, b2: Seq<Piece>, col: int, h: int)
    requires
        b.len() == 42,
        b2 == spec_drop(b, col),
        0 <= col < 7,
        col_playable(b, col),
        h == col_drop_row(b, col),
        gravity(b),
    ensures
        col_drop_row(b2, col) == h + 1,
{
    lemma_low_row(b, col, 0);
    lemma_drop_effect(b, col);
    assert forall|rr: int| 0 <= rr < h + 1 implies cell_at(b2, col, rr) != Piece::EMPTY by {
        assert(0 <= col * 6 + rr < 42 && (col * 6 + rr == col * 6 + h <==> rr == h))
            by (nonlinear_arith)
            requires
                0 <= col < 7,
                0 <= rr <= h < 6,
        ;
        if rr < h {
            assert(cell_at(b, col, rr) != Piece::EMPTY);
        }
    }
    lemma_low_row(b2, col, 0);
    if h + 1 < 6 {
        assert(col * 6 + (h + 1) != col * 6 + h && 0 <= col * 6 + h + 1 < 42) by (nonlinear_arith)
            requires
                0 <= col < 7,
                0 <= h < 5,
        ;
        assert(cell_at(b2, col, h + 1) == cell_at(b, col, h + 1));
        assert(cell_at(b, col, h + 1) == Piece::EMPTY);
        lemma_low_row_le(b2, col, 0, h + 1);
        assert(col_drop_row(b2, col) <= h + 1);
        if col_drop_row(b2, col) < h + 1 {
            assert(cell_at(b2, col, col_drop_row(b2, col)) == Piece::EMPTY);
        }
    } else {
        assert(col_drop_row(b2, col) >= 6 || cell_at(b2, col, col_drop_row(b2, col))
            == Piece::EMPTY);
        if col_drop_row(b2, col) < 6 {
            assert(cell_at(b2, col, col_drop_row(b2, col)) == Piece::EMPTY);
        }
    }
}

proof fn lemma_drop_row_other(b: Seq<Piece>, b2: Seq<Piece>, col: int, jc: int)
    requires
        b.len() == 42,
        b2 == spec_drop(b, col),
        0 <= col < 7,
        0 <= jc < 7,
        jc != col,
        col_playable(b, col),
    ensures
        col_drop_row(b2, jc) == col_drop_row(b, jc),
{
    lemma_low_row(b, col, 0);
    lemma_drop_effect(b, col);
    assert forall|rr: int| 0 <= rr < 6 implies cell_at(b2, jc, rr) == cell_at(b, jc, rr) by {
        assert(jc * 6 + rr != drop_index(b, col) && 0 <= jc * 6 + rr < 42) by (nonlinear_arith)
            requires
                0 <= jc < 7,
                0 <= rr < 6,
                0 <= col < 7,
                jc != col,
                drop_index(b, col) == col * 6 + col_drop_row(b, col),
                0 <= col_drop_row(b, col) < 6,
        ;
    }
    lemma_low_row_same(b, b2, jc, 0);
}

proof fn lemma_low_row_same(b: Seq<Piece>, b2: Seq<Piece>, c: int, r: int)
    requires
        0 <= r <= 6,
        forall|rr: int| 0 <= rr < 6 ==> cell_at(b2, c, rr) == cell_at(b, c, rr),
    ensures
        low_row(b2, c, r) == low_row(b, c, r),
    decreases 6 - r,
{
    if r < 6 {
        lemma_low_row_same(b, b2, c, r + 1);
    }
}

#[verifier::rlimit(80)]
proof fn lemma_low_row_le_conv(b: Seq<Piece>, c: int, r: int)
    requires
        0 <= r < 6,
        0 <= c < 7,
        gravity(b),
        b.len() == 42,
        col_drop_row(b, c) <= r,
    ensures
        cell_at(b, c, r) == Piece::EMPTY,
    decreases r,
{
    lemma_low_row(b, c, 0);
    if r == col_drop_row(b, c) {
    } else {
        lemma_low_row_le_conv(b, c, r - 1);
        if cell_at(b, c, r) != Piece::EMPTY {
            assert(cell_at(b, c, r - 1) != Piece::EMPTY);
        }
    }
}

/// One cell of a rendered gravity board reads back to itself.
#[verifier::rlimit(100)]
proof fn lemma_round_cell(b: Seq<Piece>, rows: Seq<Seq<char>>, i: int)
    requires
        b.len() == 42,
        gravity(b),
        0 <= i < 42,
        rows.len() == 6,
        forall|vr: int| 0 <= vr < 6 ==> rows[vr] == decode_row(b, vr),
    ensures
        bb_encode(rows)[i] == b[i],
{
    let c = i / 6;
    let r = i % 6;
    assert(0 <= c < 7 && 0 <= r < 6 && i == c * 6 + r) by (nonlinear_arith)
        requires
            0 <= i < 42,
            c == i / 6,
            r == i % 6,
    ;
    lemma_low_row(b, c, 0);
    lemma_rows_read(b, rows, c, r);
    if r < col_drop_row(b, c) {
        assert(bb_read_ok(rows, c, r));
        assert(rows[5 - r][c] == piece_char(cell_at(b, c, r)));
        assert(cell_at(b, c, r) != Piece::EMPTY);
        assert(char_piece(piece_char(b[c * 6 + r])) == b[c * 6 + r]);
    } else {
        assert(!bb_read_ok(rows, c, r)) by {
            let dr0 = col_drop_row(b, c);
            assert(cell_at(b, c, dr0) == Piece::EMPTY);
            assert(rows[5 - dr0][c] == piece_char(cell_at(b, c, dr0)));
            assert(!is_marker(rows[5 - dr0][c]));
            assert(!bb_read_ok(rows, c, dr0));
            if r > dr0 {
                lemma_bb_read_ok_stops(rows, c, dr0, r);
            }
        }
        assert(cell_at(b, c, r) == Piece::EMPTY) by {
            lemma_low_row_le_conv(b, c, r);
        }
    }
}

/// Reading back a rendered gravity board: a column reads markers exactly up
/// to its stack height.
#[verifier::rlimit(80)]
proof fn lemma_rows_read(b: Seq<Piece>, rows: Seq<Seq<char>>, c: int, r: int)
    requires
        b.len() == 42,
        gravity(b),
        0 <= c < 7,
        0 <= r < 6,
        rows.len() == 6,
        forall|vr: int| 0 <= vr < 6 ==> rows[vr] == decode_row(b, vr),
    ensures
        r < col_drop_row(b, c) ==> bb_read_ok(rows, c, r) && rows[5 - r][c] == piece_char(
            cell_at(b, c, r),
        ),
        forall|rr: int| 0 <= rr < 6 ==> rows[5 - rr][c] == piece_char(cell_at(b, c, rr)),
    decreases r,
{
    lemma_low_row(b, c, 0);
    assert forall|rr: int| 0 <= rr < 6 implies rows[5 - rr][c] == piece_char(
        cell_at(b, c, rr),
    ) by {
        assert(rows[5 - rr] == decode_row(b, 5 - rr));
        assert(decode_row(b, 5 - rr)[c] == piece_char(cell_at(b, c, 5 - (5 - rr))));
    }
    if r < col_drop_row(b, c) {
        if r > 0 {
            lemma_rows_read(b, rows, c, r - 1);
        }
        assert(cell_at(b, c, r) != Piece::EMPTY);
        assert(is_marker(piece_char(cell_at(b, c, r))));
    }
}

/// The state built by `encode` satisfies the representation invariant.
#[verifier::rlimit(100)]
proof fn lemma_encode_wf(rws: Seq<Seq<char>>, s: StateBitboard)
    requires
        mask_legal(s.curr_pieces),
        mask_legal(s.opp_pieces),
        masks_disjoint(s.curr_pieces, s.opp_pieces),
        masks_disjoint(s.opp_pieces, s.curr_pieces),
        s.board() == bb_encode(rws),
        s.moves_made == num_filled(s.board()),
        s.height_map < (1u64 << 49),
        forall|j: int|
            0 <= j < 49 ==> (#[trigger] bit(s.height_map, j) <==> j % 7 == col_fill(rws, j / 7)),
    ensures
        height_wf(s.height_map, s.board()),
        gravity(s.board()),
{
    let b = s.board();
    assert forall|c: int, r: int|
        0 <= c < 7 && 0 < r < 6 && #[trigger] cell_at(b, c, r) != Piece::EMPTY implies cell_at(
        b,
        c,
        r - 1,
    ) != Piece::EMPTY by {
        lemma_encode_cell_is(rws, b, c, r);
        lemma_encode_cell_is(rws, b, c, r - 1);
        assert(bb_read_ok(rws, c, r));
        assert(bb_read_ok(rws, c, r - 1));
        assert(is_marker(rws[5 - (r - 1)][c]));
        assert(char_piece(rws[5 - (r - 1)][c]) != Piece::EMPTY);
    }
    assert forall|c: int| 0 <= c < 7 implies col_drop_row(b, c) == #[trigger] col_fill(
        rws,
        c,
    ) by {
        let fc = col_fill(rws, c);
        lemma_col_fill_le(rws, c);
        assert forall|rr: int| 0 <= rr < fc implies cell_at(b, c, rr) != Piece::EMPTY by {
            lemma_encode_cell_is(rws, b, c, rr);
            assert(bb_read_ok(rws, c, rr));
            assert(is_marker(rws[5 - rr][c]));
        }
        lemma_low_row(b, c, 0);
        if fc < 6 {
            assert(cell_at(b, c, fc) == Piece::EMPTY) by {
                lemma_encode_cell_is(rws, b, c, fc);
                assert(!bb_read_ok(rws, c, fc)) by {
                    if bb_read_ok(rws, c, fc) {
                        lemma_col_fill_ge(rws, c, fc);
                    }
                }
            }
            lemma_low_row_le(b, c, 0, fc);
            if col_drop_row(b, c) < fc {
                assert(cell_at(b, c, col_drop_row(b, c)) == Piece::EMPTY);
            }
        } else {
            if col_drop_row(b, c) < 6 {
                assert(cell_at(b, c, col_drop_row(b, c)) == Piece::EMPTY);
            }
        }
    }
    assert forall|j: int| 0 <= j < 49 implies (#[trigger] bit(s.height_map, j) <==> j % 7
        == col_drop_row(b, j / 7)) by {
        let jc = j / 7;
        assert(0 <= jc < 7) by (nonlinear_arith)
            requires
                0 <= j < 49,
                jc == j / 7,
        ;
        assert(col_drop_row(b, jc) == col_fill(rws, jc));
    }
}

proof fn lemma_encode_cell_is(rws: Seq<Seq<char>>, b: Seq<Piece>, c: int, r: int)
    requires
        b == bb_encode(rws),
        0 <= c < 7,
        0 <= r < 6,
    ensures
        cell_at(b, c, r) == bb_cell(rws, c, r),
{
    let i = c * 6 + r;
    assert(0 <= i < 42 && i / 6 == c && i % 6 == r) by (nonlinear_arith)
        requires
            0 <= c < 7,
            0 <= r < 6,
            i == c * 6 + r,
    ;
}

} // verus!
