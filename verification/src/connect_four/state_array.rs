use vstd::prelude::*;
use crate::connect_four::piece::{Piece, HASH_MOD};
use crate::connect_four::state::{
    State, cell_index, cell_at, in_board, empty_board, other, num_filled, filled_below,
    lemma_filled_below_bounds, lemma_filled_below_update, low_row, col_drop_row, col_playable,
    player_to_move, drop_index, spec_drop, lemma_low_row, lemma_low_row_le, lemma_drop_effect,
    dir_ok, run_of_four, has_four, four_through, move_order, cols_upto, lemma_cols_upto,
    piece_char, char_piece, decode_row, decode_upto, piece_digit, key_below,
    lemma_key_below_bounds, lemma_pow3_mono, lemma_pow3_bound,
};

verus! {

broadcast use vstd::array::group_array_axioms;

// ---------------------------------------------------------------------------
// Walking outward from a cell.
// ---------------------------------------------------------------------------

/// How many consecutive cells hold `p` when stepping from (col, row) by
/// (dc, dr), looking at most `fuel` cells and not counting the start cell.
pub open spec fn ray(b: Seq<Piece>, p: Piece, col: int, row: int, dc: int, dr: int, fuel: int) -> int
    decreases fuel,
{
    if fuel <= 0 || !in_board(col + dc, row + dr) || cell_at(b, col + dc, row + dr) != p {
        0
    } else {
        1 + ray(b, p, col + dc, row + dr, dc, dr, fuel - 1)
    }
}

/// The pieces adjacent to (col, row) along a full axis, in both directions.
pub open spec fn axis_count(b: Seq<Piece>, p: Piece, col: int, row: int, dc: int, dr: int) -> int {
    ray(b, p, col, row, dc, dr, 6) + ray(b, p, col, row, -dc, -dr, 6)
}

/// What the array encoding's win check reports: at least three neighbours of
/// the same colour along one of the four axes through the cell.
pub open spec fn wins_through(b: Seq<Piece>, p: Piece, col: int, row: int) -> bool {
    exists|dc: int, dr: int| dir_ok(dc, dr) && #[trigger] axis_count(b, p, col, row, dc, dr) >= 3
}

proof fn lemma_ray_nonneg(b: Seq<Piece>, p: Piece, col: int, row: int, dc: int, dr: int, fuel: int)
    ensures
        0 <= ray(b, p, col, row, dc, dr, fuel) <= fuel || ray(b, p, col, row, dc, dr, fuel) == 0,
        ray(b, p, col, row, dc, dr, fuel) >= 0,
    decreases fuel,
{
    if fuel > 0 && in_board(col + dc, row + dr) && cell_at(b, col + dc, row + dr) == p {
        lemma_ray_nonneg(b, p, col + dc, row + dr, dc, dr, fuel - 1);
    }
}

/// The first three cells a positive ray count promises.
proof fn lemma_ray_first3(b: Seq<Piece>, p: Piece, col: int, row: int, dc: int, dr: int)
    ensures
        ray(b, p, col, row, dc, dr, 6) >= 1 ==> in_board(col + dc, row + dr) && cell_at(
            b,
            col + dc,
            row + dr,
        ) == p,
        ray(b, p, col, row, dc, dr, 6) >= 2 ==> in_board(col + 2 * dc, row + 2 * dr) && cell_at(
            b,
            col + 2 * dc,
            row + 2 * dr,
        ) == p,
        ray(b, p, col, row, dc, dr, 6) >= 3 ==> in_board(col + 3 * dc, row + 3 * dr) && cell_at(
            b,
            col + 3 * dc,
            row + 3 * dr,
        ) == p,
{
    lemma_ray_nonneg(b, p, col, row, dc, dr, 6);
    lemma_ray_nonneg(b, p, col + dc, row + dr, dc, dr, 5);
    lemma_ray_nonneg(b, p, col + 2 * dc, row + 2 * dr, dc, dr, 4);
    lemma_ray_nonneg(b, p, col + 3 * dc, row + 3 * dr, dc, dr, 3);
    assert(col + dc + dc == col + 2 * dc && row + dr + dr == row + 2 * dr);
    assert(col + 2 * dc + dc == col + 3 * dc && row + 2 * dr + dr == row + 3 * dr);
}

/// A ray count of at least `n` follows from the first `n` cells (n <= 3).
proof fn lemma_ray_min(b: Seq<Piece>, p: Piece, col: int, row: int, dc: int, dr: int, n: int)
    requires
        0 <= n <= 3,
        n >= 1 ==> in_board(col + dc, row + dr) && cell_at(b, col + dc, row + dr) == p,
        n >= 2 ==> in_board(col + 2 * dc, row + 2 * dr) && cell_at(b, col + 2 * dc, row + 2 * dr)
            == p,
        n >= 3 ==> in_board(col + 3 * dc, row + 3 * dr) && cell_at(b, col + 3 * dc, row + 3 * dr)
            == p,
    ensures
        ray(b, p, col, row, dc, dr, 6) >= n,
{
    lemma_ray_nonneg(b, p, col, row, dc, dr, 6);
    if n >= 1 {
        assert(col + dc + dc == col + 2 * dc && row + dr + dr == row + 2 * dr);
        assert(col + 2 * dc + dc == col + 3 * dc && row + 2 * dr + dr == row + 3 * dr);
        lemma_ray_nonneg(b, p, col + dc, row + dr, dc, dr, 5);
        lemma_ray_nonneg(b, p, col + 2 * dc, row + 2 * dr, dc, dr, 4);
        lemma_ray_nonneg(b, p, col + 3 * dc, row + 3 * dr, dc, dr, 3);
        assert(ray(b, p, col, row, dc, dr, 6) == 1 + ray(b, p, col + dc, row + dr, dc, dr, 5));
        if n >= 2 {
            assert(ray(b, p, col + dc, row + dr, dc, dr, 5) == 1 + ray(
                b,
                p,
                col + 2 * dc,
                row + 2 * dr,
                dc,
                dr,
                4,
            ));
            if n >= 3 {
                assert(ray(b, p, col + 2 * dc, row + 2 * dr, dc, dr, 4) == 1 + ray(
                    b,
                    p,
                    col + 3 * dc,
                    row + 3 * dr,
                    dc,
                    dr,
                    3,
                ));
            }
        }
    }
}

/// Soundness of the neighbour count: three same-colour neighbours along an
/// axis through an own cell place four in a row on the board.
proof fn lemma_wins_through_sound(b: Seq<Piece>, p: Piece, col: int, row: int)
    requires
        in_board(col, row),
        cell_at(b, col, row) == p,
        wins_through(b, p, col, row),
    ensures
        has_four(b, p),
{
    let (dc, dr) = choose|dc: int, dr: int|
        dir_ok(dc, dr) && #[trigger] axis_count(b, p, col, row, dc, dr) >= 3;
    let a = ray(b, p, col, row, dc, dr, 6);
    let bb = ray(b, p, col, row, -dc, -dr, 6);
    lemma_ray_nonneg(b, p, col, row, dc, dr, 6);
    lemma_ray_nonneg(b, p, col, row, -dc, -dr, 6);
    lemma_ray_first3(b, p, col, row, dc, dr);
    lemma_ray_first3(b, p, col, row, -dc, -dr);
    let s: int = if bb >= 3 {
        3
    } else {
        bb
    };
    assert(3 - s <= a);
    // the run starts s steps on the negative side and extends 3 - s steps on
    // the positive side, with (col, row) in between
    let c0 = col - s * dc;
    let r0 = row - s * dr;
    if s == 0 {
        assert(run_of_four(b, p, col, row, dc, dr));
    } else if s == 1 {
        assert(col + -dc == col - 1 * dc && row + -dr == row - 1 * dr);
        assert(c0 + dc == col && r0 + dr == row);
        assert(c0 + 2 * dc == col + dc && r0 + 2 * dr == row + dr);
        assert(c0 + 3 * dc == col + 2 * dc && r0 + 3 * dr == row + 2 * dr);
        assert(run_of_four(b, p, c0, r0, dc, dr));
    } else if s == 2 {
        assert(col + -dc == col - 1 * dc && row + -dr == row - 1 * dr);
        assert(col + 2 * -dc == col - 2 * dc && row + 2 * -dr == row - 2 * dr);
        assert(c0 + dc == col - 1 * dc && r0 + dr == row - 1 * dr);
        assert(c0 + 2 * dc == col && r0 + 2 * dr == row);
        assert(c0 + 3 * dc == col + dc && r0 + 3 * dr == row + dr);
        assert(run_of_four(b, p, c0, r0, dc, dr));
    } else {
        assert(col + -dc == col - 1 * dc && row + -dr == row - 1 * dr);
        assert(col + 2 * -dc == col - 2 * dc && row + 2 * -dr == row - 2 * dr);
        assert(col + 3 * -dc == col - 3 * dc && row + 3 * -dr == row - 3 * dr);
        assert(c0 + dc == col - 2 * dc && r0 + dr == row - 2 * dr);
        assert(c0 + 2 * dc == col - 1 * dc && r0 + 2 * dr == row - 1 * dr);
        assert(c0 + 3 * dc == col && r0 + 3 * dr == row);
        assert(run_of_four(b, p, c0, r0, dc, dr));
    }
}

/// Completeness of the neighbour count: a run of four through (col, row)
/// yields three neighbours along that run's axis.
proof fn lemma_wins_through_complete(b: Seq<Piece>, p: Piece, col: int, row: int, idx: int)
    requires
        in_board(col, row),
        idx == cell_index(col, row),
        four_through(b, p, idx),
    ensures
        wins_through(b, p, col, row),
{
    let (c0, r0, dc, dr) = choose|c0: int, r0: int, dc: int, dr: int|
        dir_ok(dc, dr) && #[trigger] run_of_four(b, p, c0, r0, dc, dr) && (cell_index(c0, r0)
            == idx || cell_index(c0 + dc, r0 + dr) == idx || cell_index(c0 + 2 * dc, r0 + 2 * dr)
            == idx || cell_index(c0 + 3 * dc, r0 + 3 * dr) == idx);
    // which of the four run cells is (col, row)
    let k: int = if cell_index(c0, r0) == idx {
        0
    } else if cell_index(c0 + dc, r0 + dr) == idx {
        1
    } else if cell_index(c0 + 2 * dc, r0 + 2 * dr) == idx {
        2
    } else {
        3
    };
    let ck = c0 + k * dc;
    let rk = r0 + k * dr;
    assert(in_board(ck, rk) && cell_index(ck, rk) == idx) by {
        if k == 0 {
        } else if k == 1 {
            assert(c0 + 1 * dc == c0 + dc && r0 + 1 * dr == r0 + dr);
        } else if k == 2 {
        } else {
        }
    }
    assert(ck == col && rk == row) by (nonlinear_arith)
        requires
            in_board(ck, rk),
            in_board(col, row),
            ck * 6 + rk == col * 6 + row,
    ;
    // neighbours on the positive side of (col, row): the later run cells
    if k == 0 {
        assert(col + dc == c0 + dc && row + dr == r0 + dr);
        assert(col + 2 * dc == c0 + 2 * dc && row + 2 * dr == r0 + 2 * dr);
        assert(col + 3 * dc == c0 + 3 * dc && row + 3 * dr == r0 + 3 * dr);
        lemma_ray_min(b, p, col, row, dc, dr, 3);
        lemma_ray_nonneg(b, p, col, row, -dc, -dr, 6);
        assert(axis_count(b, p, col, row, dc, dr) >= 3);
    } else if k == 1 {
        assert(col + dc == c0 + 2 * dc && row + dr == r0 + 2 * dr);
        assert(col + 2 * dc == c0 + 3 * dc && row + 2 * dr == r0 + 3 * dr);
        assert(col + -dc == c0 && row + -dr == r0);
        lemma_ray_min(b, p, col, row, dc, dr, 2);
        lemma_ray_min(b, p, col, row, -dc, -dr, 1);
        assert(axis_count(b, p, col, row, dc, dr) >= 3);
    } else if k == 2 {
        assert(col + dc == c0 + 3 * dc && row + dr == r0 + 3 * dr);
        assert(col + -dc == c0 + 1 * dc && row + -dr == r0 + 1 * dr);
        assert(col + 2 * -dc == c0 && row + 2 * -dr == r0);
        lemma_ray_min(b, p, col, row, dc, dr, 1);
        lemma_ray_min(b, p, col, row, -dc, -dr, 2);
        assert(axis_count(b, p, col, row, dc, dr) >= 3);
    } else {
        assert(col + -dc == c0 + 2 * dc && row + -dr == r0 + 2 * dr);
        assert(col + 2 * -dc == c0 + 1 * dc && row + 2 * -dr == r0 + 1 * dr);
        assert(col + 3 * -dc == c0 && row + 3 * -dr == r0);
        lemma_ray_min(b, p, col, row, -dc, -dr, 3);
        lemma_ray_nonneg(b, p, col, row, dc, dr, 6);
        assert(axis_count(b, p, col, row, dc, dr) >= 3);
    }
}

// ---------------------------------------------------------------------------
// Reading a textual board, column by column from the bottom.
// ---------------------------------------------------------------------------

/// Column `c` is readable from the bottom row up to board row `r`: no row on
/// the way is too short.
pub open spec fn arr_read_ok(rows: Seq<Seq<char>>, c: int, r: int) -> bool
    decreases r + 1,
{
    if r < 0 {
        true
    } else {
        c < rows[5 - r].len() && arr_read_ok(rows, c, r - 1)
    }
}

pub open spec fn arr_cell(rows: Seq<Seq<char>>, c: int, r: int) -> Piece {
    if arr_read_ok(rows, c, r) {
        char_piece(rows[5 - r][c])
    } else {
        Piece::EMPTY
    }
}

/// How the array encoding reads six rows of text: each cell is the marker
/// character at its position, empty where a row is too short, and a short
/// row cuts the rest of its columns off.
pub open spec fn arr_encode(rows: Seq<Seq<char>>) -> Seq<Piece> {
    Seq::new(42, |i: int| arr_cell(rows, i / 6, i % 6))
}

// ---------------------------------------------------------------------------
// The dense-array encoding.
// ---------------------------------------------------------------------------

/// A position stored as 42 cells, with the player to move, the cell of the
/// most recent move, a move counter and an incrementally maintained hash.
#[derive(Clone, Copy, PartialEq, Eq, Hash)]
pub struct StateArray {
    board: [Piece; 42],
    current_player: Piece,
    last_move: usize,
    moves_made: usize,
    curr_hash: u64,
}

impl StateArray {
    /// Walk outward from (c0, r0), counting contiguous cells of `p`.
    fn ray_walk(&self, p: Piece, c0: usize, r0: usize, dc: i32, dr: i32) -> (cnt: usize)
        requires
            self.wf(),
            c0 < 7,
            r0 < 6,
            -1 <= dc <= 1,
            -1 <= dr <= 1,
            !(dc == 0 && dr == 0),
        ensures
            cnt == ray(self.board@, p, c0 as int, r0 as int, dc as int, dr as int, 6),
    {
        let ghost b = self.board@;
        let mut cnt: usize = 0;
        let mut c1: i32 = c0 as i32;
        let mut r1: i32 = r0 as i32;
        loop
            invariant
                b == self.board@,
                b.len() == 42,
                c0 < 7,
                r0 < 6,
                -1 <= dc <= 1,
                -1 <= dr <= 1,
                !(dc == 0 && dr == 0),
                cnt <= 6,
                0 <= c1 < 7,
                0 <= r1 < 6,
                c1 as int == c0 + cnt * dc,
                r1 as int == r0 + cnt * dr,
                ray(b, p, c0 as int, r0 as int, dc as int, dr as int, 6) == cnt + ray(
                    b,
                    p,
                    c1 as int,
                    r1 as int,
                    dc as int,
                    dr as int,
                    6 - cnt,
                ),
            ensures
                cnt == ray(b, p, c0 as int, r0 as int, dc as int, dr as int, 6),
            decreases 6 - cnt,
        {
            let c2 = c1 + dc;
            let r2 = r1 + dr;
            if c2 < 0 || c2 >= 7 || r2 < 0 || r2 >= 6 {
                proof {
                    assert(ray(b, p, c1 as int, r1 as int, dc as int, dr as int, 6 - cnt) == 0);
                }
                break ;
            }
            let idx = (c2 as usize) * 6 + (r2 as usize);
            if self.board[idx] != p {
                proof {
                    assert(cell_at(b, c2 as int, r2 as int) != p);
                    assert(ray(b, p, c1 as int, r1 as int, dc as int, dr as int, 6 - cnt) == 0);
                }
                break ;
            }
            proof {
                assert(cnt < 6) by (nonlinear_arith)
                    requires
                        cnt <= 6,
                        c1 as int == c0 + cnt * dc,
                        r1 as int == r0 + cnt * dr,
                        0 <= c1 < 7,
                        0 <= r1 < 6,
                        0 <= c0 < 7,
                        0 <= r0 < 6,
                        0 <= c1 + dc < 7,
                        0 <= r1 + dr < 6,
                        -1 <= dc <= 1,
                        -1 <= dr <= 1,
                        !(dc == 0 && dr == 0),
                ;
                assert(cell_at(b, c2 as int, r2 as int) == p);
                assert(ray(b, p, c1 as int, r1 as int, dc as int, dr as int, 6 - cnt) == 1 + ray(
                    b,
                    p,
                    c2 as int,
                    r2 as int,
                    dc as int,
                    dr as int,
                    6 - (cnt + 1),
                ));
                assert(c2 as int == c0 + (cnt + 1) * dc && r2 as int == r0 + (cnt + 1) * dr)
                    by (nonlinear_arith)
                    requires
                        c1 as int == c0 + cnt * dc,
                        r1 as int == r0 + cnt * dr,
                        c2 == c1 + dc,
                        r2 == r1 + dr,
                ;
            }
            cnt = cnt + 1;
            c1 = c2;
            r1 = r2;
        }
        cnt
    }
}

impl State for StateArray {
    closed spec fn board(&self) -> Seq<Piece> {
        self.board@
    }

    closed spec fn wf(&self) -> bool {
        &&& self.moves_made == num_filled(self.board@)
        &&& self.current_player == player_to_move(self.board@)
        &&& self.last_move < 42
        &&& self.curr_hash < HASH_MOD
    }

    closed spec fn winner(&self) -> bool {
        wins_through(
            self.board@,
            other(self.current_player),
            self.last_move as int / 6,
            self.last_move as int % 6,
        )
    }

    closed spec fn move_wins(b: Seq<Piece>, col: int) -> bool {
        wins_through(spec_drop(b, col), player_to_move(b), col, col_drop_row(b, col))
    }

    closed spec fn spec_encode(rows: Seq<Seq<char>>) -> Seq<Piece> {
        arr_encode(rows)
    }

    proof fn lemma_wf_board(&self) {
    }

    proof fn lemma_move_wins(b: Seq<Piece>, col: int) {
        let b2 = spec_drop(b, col);
        let p = player_to_move(b);
        let row = col_drop_row(b, col);
        lemma_drop_effect(b, col);
        lemma_low_row(b, col, 0);
        assert(cell_at(b2, col, row) == p);
        if Self::move_wins(b, col) {
            lemma_wins_through_sound(b2, p, col, row);
        }
        if four_through(b2, p, drop_index(b, col)) {
            lemma_wins_through_complete(b2, p, col, row, drop_index(b, col));
        }
    }

    proof fn lemma_round_trip(b: Seq<Piece>) {
        let rows = seq![
            decode_row(b, 0),
            decode_row(b, 1),
            decode_row(b, 2),
            decode_row(b, 3),
            decode_row(b, 4),
            decode_row(b, 5),
        ];
        assert forall|c: int, r: int| 0 <= c < 7 && -1 <= r < 6 implies arr_read_ok(
            rows,
            c,
            r,
        ) by {
            lemma_arr_read_ok_full(rows, c, r);
        }
        assert forall|i: int| 0 <= i < 42 implies arr_encode(rows)[i] == b[i] by {
            let c = i / 6;
            let r = i % 6;
            assert(0 <= c < 7 && 0 <= r < 6 && i == c * 6 + r) by (nonlinear_arith)
                requires
                    0 <= i < 42,
                    c == i / 6,
                    r == i % 6,
            ;
            assert(arr_read_ok(rows, c, r));
            assert(rows[5 - r] == decode_row(b, 5 - r));
            assert(rows[5 - r][c] == piece_char(cell_at(b, c, 5 - (5 - r))));
            assert(char_piece(piece_char(b[c * 6 + r])) == b[c * 6 + r]);
        }
        assert(arr_encode(rows) =~= b);
    }

    fn start_state() -> (s: Self) {
        let s = StateArray {
            board: [Piece::EMPTY; 42],
            current_player: Piece::FIRST,
            last_move: 0,
            moves_made: 0,
            curr_hash: 0,
        };
        proof {
            assert(s.board@ =~= empty_board());
            lemma_filled_all_empty(s.board@, 42);
            lemma_ray_nonneg(s.board@, other(Piece::FIRST), 0, 0, 0, 1, 6);
            assert forall|dc: int, dr: int| dir_ok(dc, dr) implies axis_count(
                s.board@,
                other(Piece::FIRST),
                0,
                0,
                dc,
                dr,
            ) < 3 by {
                lemma_ray_empty(s.board@, other(Piece::FIRST), 0, 0, dc, dr, 6);
                lemma_ray_empty(s.board@, other(Piece::FIRST), 0, 0, -dc, -dr, 6);
            }
        }
        s
    }

    fn is_win(&self) -> (r: bool) {
        let ghost b = self.board@;
        let ghost p = other(self.current_player);
        let c = self.last_move / 6;
        let r0 = self.last_move % 6;
        let piece = self.current_player.next_player();
        proof {
            assert(c < 7 && r0 < 6 && c == self.last_move as int / 6 && r0 == self.last_move as int
                % 6) by (nonlinear_arith)
                requires
                    self.last_move < 42,
                    c == self.last_move / 6,
                    r0 == self.last_move % 6,
            ;
            assert(piece == p);
        }

        proof {
            lemma_ray_nonneg(b, p, c as int, r0 as int, 0, 1, 6);
            lemma_ray_nonneg(b, p, c as int, r0 as int, 0, -1, 6);
            lemma_ray_nonneg(b, p, c as int, r0 as int, 1, 0, 6);
            lemma_ray_nonneg(b, p, c as int, r0 as int, -1, 0, 6);
            lemma_ray_nonneg(b, p, c as int, r0 as int, 1, -1, 6);
            lemma_ray_nonneg(b, p, c as int, r0 as int, -1, 1, 6);
            lemma_ray_nonneg(b, p, c as int, r0 as int, 1, 1, 6);
            lemma_ray_nonneg(b, p, c as int, r0 as int, -1, -1, 6);
        }
        let vert = self.ray_walk(piece, c, r0, 0, 1) + self.ray_walk(piece, c, r0, 0, -1);
        if vert >= 3 {
            assert(axis_count(b, p, c as int, r0 as int, 0, 1) >= 3);
            return true;
        }
        let horiz = self.ray_walk(piece, c, r0, 1, 0) + self.ray_walk(piece, c, r0, -1, 0);
        if horiz >= 3 {
            assert(axis_count(b, p, c as int, r0 as int, 1, 0) >= 3);
            return true;
        }
        let diag1 = self.ray_walk(piece, c, r0, -1, 1) + self.ray_walk(piece, c, r0, 1, -1);
        if diag1 >= 3 {
            assert(axis_count(b, p, c as int, r0 as int, 1, -1) >= 3);
            return true;
        }
        let diag2 = self.ray_walk(piece, c, r0, 1, 1) + self.ray_walk(piece, c, r0, -1, -1);
        if diag2 >= 3 {
            assert(axis_count(b, p, c as int, r0 as int, 1, 1) >= 3);
            return true;
        }
        proof {
            assert forall|dc: int, dr: int| dir_ok(dc, dr) implies axis_count(
                b,
                p,
                c as int,
                r0 as int,
                dc,
                dr,
            ) < 3 by {
                if dc == 0 && dr == 1 {
                    assert(axis_count(b, p, c as int, r0 as int, 0, 1) == vert);
                } else if dc == 1 && dr == 0 {
                    assert(axis_count(b, p, c as int, r0 as int, 1, 0) == horiz);
                } else if dc == 1 && dr == -1 {
                    assert(axis_count(b, p, c as int, r0 as int, 1, -1) == diag1);
                } else {
                    assert(axis_count(b, p, c as int, r0 as int, 1, 1) == diag2);
                }
            }
        }
        false
    }

    fn board_full(&self) -> (r: bool) {
        self.moves_made == 42
    }

    fn moves_made(&self) -> (r: usize) {
        self.moves_made
    }

    fn max_eval(&self) -> (r: i32) {
        proof {
            lemma_filled_below_bounds(self.board@, 42);
        }
        let d = (42 + 1) - self.moves_made;
        proof {
            vstd::bits::lemma_usize_shr_is_div(d, 1);
            vstd::arithmetic::power2::lemma2_to64();
        }
        (d >> 1usize) as i32
    }

    fn play_move(&self, col: usize) -> (r: Option<Self>) {
        let ghost b = self.board@;
        let mut next_move = col * 6;
        let mut row: usize = 0;
        proof {
            lemma_low_row(b, col as int, 0);
            assert(col * 6 + 6 <= 42) by (nonlinear_arith)
                requires
                    col < 7,
            ;
        }
        loop
            invariant
                b == self.board@,
                b.len() == 42,
                col < 7,
                row < 6,
                next_move == col * 6 + row,
                forall|rr: int| 0 <= rr < row ==> cell_at(b, col as int, rr) != Piece::EMPTY,
            ensures
                row < 6,
                next_move == col * 6 + row,
                cell_at(b, col as int, row as int) == Piece::EMPTY,
                forall|rr: int| 0 <= rr < row ==> cell_at(b, col as int, rr) != Piece::EMPTY,
            decreases 6 - row,
        {
            proof {
                assert(0 <= col * 6 + row < 42) by (nonlinear_arith)
                    requires
                        col < 7,
                        row < 6,
                ;
            }
            if !self.board[next_move].is_occupied() {
                break ;
            }
            next_move = next_move + 1;
            row = row + 1;
            if row == 6 {
                proof {
                    lemma_low_row(b, col as int, 0);
                    assert(low_row(b, col as int, 0) == 6) by {
                        if low_row(b, col as int, 0) < 6 {
                            assert(cell_at(b, col as int, low_row(b, col as int, 0))
                                != Piece::EMPTY);
                        }
                    }
                }
                return None;
            }
        }
        proof {
            lemma_low_row_le(b, col as int, 0, row as int);
            assert(col_drop_row(b, col as int) == row) by {
                if low_row(b, col as int, 0) < row {
                    assert(cell_at(b, col as int, low_row(b, col as int, 0)) != Piece::EMPTY);
                }
            }
            assert(col_playable(b, col as int));
            lemma_drop_effect(b, col as int);
            lemma_filled_below_bounds(b, 42);
        }
        let mut next_board = self.board;
        next_board[next_move] = self.current_player;

        let s2 = StateArray {
            board: next_board,
            current_player: self.current_player.next_player(),
            last_move: next_move,
            moves_made: self.moves_made + 1,
            curr_hash: (self.curr_hash + self.current_player.hash(next_move)) % HASH_MOD,
        };
        proof {
            assert(s2.board@ == spec_drop(b, col as int));
            assert(s2.wf());
            assert(next_move as int / 6 == col && next_move as int % 6 == row)
                by (nonlinear_arith)
                requires
                    next_move == col * 6 + row,
                    col < 7,
                    row < 6,
            ;
            assert(other(s2.current_player) == player_to_move(b));
            assert(s2.winner() == Self::move_wins(b, col as int));
        }
        Some(s2)
    }

    #[verifier::loop_isolation(false)]
    fn next_states(&self) -> (r: Vec<Self>) {
        let ghost b = self.board@;
        let mut next_states: Vec<StateArray> = Vec::new();
        let order: [usize; 7] = [3, 2, 4, 1, 5, 0, 6];
        proof {
            lemma_cols_upto(b, 7);
        }
        let mut k: usize = 0;
        while k < 7
            invariant
                k <= 7,
                next_states@.len() == cols_upto(b, k as int).len(),
                forall|i: int|
                    0 <= i < next_states@.len() ==> ((#[trigger] next_states@[i]).wf()
                        && next_states@[i].board() == spec_drop(b, cols_upto(b, k as int)[i])
                        && next_states@[i].winner() == Self::move_wins(
                        b,
                        cols_upto(b, k as int)[i],
                    )),
            decreases 7 - k,
        {
            let col = order[k];
            proof {
                assert(col as int == move_order()[k as int]) by {
                    if k == 0 {
                    } else if k == 1 {
                    } else if k == 2 {
                    } else if k == 3 {
                    } else if k == 4 {
                    } else if k == 5 {
                    } else {
                    }
                }
                assert(col < 7);
                lemma_cols_upto(b, k as int + 1);
            }
            let next_move = self.play_move(col);
            match next_move {
                None => {
                    proof {
                        assert(cols_upto(b, k as int + 1) =~= cols_upto(b, k as int));
                    }
                },
                Some(state) => {
                    next_states.push(state);
                    proof {
                        let cs = cols_upto(b, k as int + 1);
                        assert(cs =~= cols_upto(b, k as int) + seq![col as int]);
                        assert(cs[cs.len() - 1] == col as int);
                    }
                },
            }
            k = k + 1;
        }
        next_states
    }

    #[verifier::loop_isolation(false)]
    fn encode(rows: &Vec<String>) -> (s: Self) {
        let ghost rws = rows@.map_values(|r: String| r@);
        let mut board: [Piece; 42] = [Piece::EMPTY; 42];
        let mut moves: usize = 0;
        proof {
            lemma_filled_all_empty(board@, 42);
        }
        let mut c: usize = 0;
        while c < 7
            invariant
                c <= 7,
                moves == filled_below(board@, 42),
                forall|cc: int, rr: int|
                    0 <= cc < 7 && 0 <= rr < 6 ==> #[trigger] cell_at(board@, cc, rr) == if cc
                        < c {
                        arr_cell(rws, cc, rr)
                    } else {
                        Piece::EMPTY
                    },
            decreases 7 - c,
        {
            let mut r: usize = 0;
            let mut open_col = true;
            while r < 6
                invariant
                    r <= 6,
                    c < 7,
                    moves == filled_below(board@, 42),
                    open_col == arr_read_ok(rws, c as int, r - 1),
                    forall|cc: int, rr: int|
                        0 <= cc < 7 && 0 <= rr < 6 ==> #[trigger] cell_at(board@, cc, rr) == if cc
                            < c || (cc == c && rr < r) {
                            arr_cell(rws, cc, rr)
                        } else {
                            Piece::EMPTY
                        },
                decreases 6 - r,
            {
                proof {
                    assert(0 <= c * 6 + r < 42 && cell_index(c as int, r as int) == c * 6 + r)
                        by (nonlinear_arith)
                        requires
                            c < 7,
                            r < 6,
                    ;
                    assert(cell_at(board@, c as int, r as int) == Piece::EMPTY);
                    lemma_filled_below_bounds(board@, 42);
                }
                let cell = c * 6 + r;
                let ghost board_pre = board@;
                if open_col {
                    let row_s: &String = &rows[5 - r];
                    proof {
                        assert(rws[5 - r as int] == rows@[5 - r as int]@);
                    }
                    if c >= row_s.as_str().unicode_len() {
                        open_col = false;
                        proof {
                            assert(!arr_read_ok(rws, c as int, r as int));
                            assert(arr_cell(rws, c as int, r as int) == Piece::EMPTY);
                        }
                    } else {
                        let ch = row_s.as_str().get_char(c);
                        proof {
                            assert(arr_read_ok(rws, c as int, r as int));
                            assert(arr_cell(rws, c as int, r as int) == char_piece(ch));
                        }
                        if ch == 'X' {
                            proof {
                                lemma_filled_below_update(board@, cell as int, Piece::FIRST, 42);
                            }
                            board[cell] = Piece::FIRST;
                            moves = moves + 1;
                        } else if ch == 'O' {
                            proof {
                                lemma_filled_below_update(board@, cell as int, Piece::SECOND, 42);
                            }
                            board[cell] = Piece::SECOND;
                            moves = moves + 1;
                        } else {
                            proof {
                                assert(char_piece(ch) == Piece::EMPTY);
                            }
                        }
                    }
                } else {
                    proof {
                        lemma_arr_read_ok_stops(rws, c as int, r - 1, r as int);
                        assert(arr_cell(rws, c as int, r as int) == Piece::EMPTY);
                    }
                }
                proof {
                    assert forall|cc: int, rr: int| 0 <= cc < 7 && 0 <= rr < 6 implies #[trigger]
                    cell_at(board@, cc, rr) == if cc < c || (cc == c && rr < r + 1) {
                        arr_cell(rws, cc, rr)
                    } else {
                        Piece::EMPTY
                    } by {
                        assert(cc * 6 + rr == c * 6 + r <==> (cc == c && rr == r))
                            by (nonlinear_arith)
                            requires
                                0 <= cc < 7,
                                0 <= rr < 6,
                                c < 7,
                                r < 6,
                        ;
                        if !(cc == c && rr == r) {
                            assert(cell_at(board@, cc, rr) == cell_at(board_pre, cc, rr));
                        }
                    }
                }
                r = r + 1;
            }
            c = c + 1;
        }

        let current_player = if moves % 2 == 0 {
            Piece::FIRST
        } else {
            Piece::SECOND
        };
        let s = StateArray { board, current_player, last_move: 0, moves_made: moves, curr_hash: 0 };
        proof {
            assert forall|i: int| 0 <= i < 42 implies board@[i] == arr_encode(rws)[i] by {
                let cc = i / 6;
                let rr = i % 6;
                assert(0 <= cc < 7 && 0 <= rr < 6 && i == cc * 6 + rr) by (nonlinear_arith)
                    requires
                        0 <= i < 42,
                        cc == i / 6,
                        rr == i % 6,
                ;
                assert(cell_at(board@, cc, rr) == arr_cell(rws, cc, rr));
            }
            assert(board@ =~= arr_encode(rws));
        }
        s
    }

    #[verifier::loop_isolation(false)]
    fn decode(&self) -> (r: String) {
        let ghost b = self.board@;
        let mut board_str = String::new();
        proof {
            reveal_strlit("X");
            reveal_strlit("O");
            reveal_strlit(" ");
            reveal_strlit("\n");
            assert(board_str@ =~= decode_upto(b, 0));
        }
        let mut vr: usize = 0;
        while vr < 6
            invariant
                vr <= 6,
                board_str@ == decode_upto(b, vr as int),
            decreases 6 - vr,
        {
            let mut c: usize = 0;
            while c < 7
                invariant
                    vr < 6,
                    c <= 7,
                    board_str@ == decode_upto(b, vr as int) + decode_row(b, vr as int).subrange(
                        0,
                        c as int,
                    ),
                decreases 7 - c,
            {
                let row = 5 - vr;
                let idx = c * 6 + row;
                proof {
                    assert(0 <= c * 6 + row < 42) by (nonlinear_arith)
                        requires
                            c < 7,
                            row < 6,
                    ;
                }
                match self.board[idx] {
                    Piece::EMPTY => board_str.append(" "),
                    Piece::FIRST => board_str.append("X"),
                    Piece::SECOND => board_str.append("O"),
                }
                proof {
                    assert(decode_row(b, vr as int)[c as int] == piece_char(
                        cell_at(b, c as int, 5 - vr as int),
                    ));
                    assert(decode_row(b, vr as int).subrange(0, c as int).push(
                        decode_row(b, vr as int)[c as int],
                    ) =~= decode_row(b, vr as int).subrange(0, c + 1 as int));
                    assert(board_str@ =~= decode_upto(b, vr as int) + decode_row(
                        b,
                        vr as int,
                    ).subrange(0, c + 1 as int));
                }
                c = c + 1;
            }
            board_str.append("\n");
            proof {
                assert(decode_row(b, vr as int).subrange(0, 7) =~= decode_row(b, vr as int));
                assert(board_str@ =~= decode_upto(b, vr as int + 1));
            }
            vr = vr + 1;
        }
        board_str
    }

    #[verifier::loop_isolation(false)]
    fn state_key(&self) -> (k: u128) {
        let ghost b = self.board@;
        let mut key: u128 = 0;
        let mut i: usize = 0;
        proof {
            lemma_pow3_bound();
        }
        while i < 42
            invariant
                i <= 42,
                key == key_below(b, i as int),
            decreases 42 - i,
        {
            proof {
                lemma_key_below_bounds(b, i as int);
                lemma_pow3_mono(i as int, 41);
            }
            let d: u128 = match self.board[i] {
                Piece::EMPTY => 0,
                Piece::FIRST => 1,
                Piece::SECOND => 2,
            };
            proof {
                assert(d == piece_digit(b[i as int]));
            }
            key = key * 3 + d;
            i = i + 1;
        }
        key
    }
}

pub proof fn lemma_filled_all_empty(b: Seq<Piece>, n: int)
    requires
        0 <= n,
        forall|i: int| 0 <= i < n ==> b[i] == Piece::EMPTY,
    ensures
        filled_below(b, n) == 0,
    decreases n,
{
    if n > 0 {
        lemma_filled_all_empty(b, n - 1);
    }
}

proof fn lemma_ray_empty(b: Seq<Piece>, p: Piece, col: int, row: int, dc: int, dr: int, fuel: int)
    requires
        b.len() == 42,
        forall|i: int| 0 <= i < 42 ==> b[i] != p,
    ensures
        ray(b, p, col, row, dc, dr, fuel) == 0,
{
    if fuel > 0 && in_board(col + dc, row + dr) {
        assert(0 <= (col + dc) * 6 + (row + dr) < 42) by (nonlinear_arith)
            requires
                in_board(col + dc, row + dr),
        ;
        assert(cell_at(b, col + dc, row + dr) != p);
    }
}

proof fn lemma_arr_read_ok_full(rows: Seq<Seq<char>>, c: int, r: int)
    requires
        0 <= c < 7,
        r < 6,
        forall|j: int| 0 <= j < 6 ==> (#[trigger] rows[j]).len() == 7,
        rows.len() == 6,
    ensures
        arr_read_ok(rows, c, r),
    decreases r + 2,
{
    if r >= 0 {
        lemma_arr_read_ok_full(rows, c, r - 1);
    }
}

/// Once a column hits a short row, every cell above it reads as empty.
proof fn lemma_arr_read_ok_stops(rows: Seq<Seq<char>>, c: int, r: int, rr: int)
    requires
        0 <= r <= rr,
        !arr_read_ok(rows, c, r),
    ensures
        !arr_read_ok(rows, c, rr),
        arr_cell(rows, c, rr) == Piece::EMPTY,
    decreases rr - r,
{
    if rr > r {
        lemma_arr_read_ok_stops(rows, c, r, rr - 1);
    }
}


} // verus!
