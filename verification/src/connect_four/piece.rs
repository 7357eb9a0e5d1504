use vstd::prelude::*;
use vstd::arithmetic::div_mod::{lemma_mul_mod_noop_general, lemma_small_mod};
use vstd::arithmetic::mul::lemma_mul_is_associative;

verus! {

pub const HASH_MOD: u64 = 1000000007;

/// `base ^ e` reduced modulo `m`.
pub open spec fn pow_mod(base: int, e: int, m: int) -> int
    decreases e,
{
    if e <= 0 {
        1int % m
    } else {
        (base * pow_mod(base, e - 1, m)) % m
    }
}

proof fn lemma_mul_in_range(a: u64, b: u64)
    requires
        a < 1000000007,
        b < 1000000007,
    ensures
        (a as int) * (b as int) < 0x8000000000000000,
{
    assert((a as int) * (b as int) < 0x8000000000000000) by (nonlinear_arith)
        requires
            a < 1000000007,
            b < 1000000007,
    ;
}

proof fn lemma_pow_mod_bounds(base: int, e: int, m: int)
    requires
        m > 1,
        e >= 0,
    ensures
        0 <= pow_mod(base, e, m) < m,
    decreases e,
{
    if e > 0 {
        lemma_pow_mod_bounds(base, e - 1, m);
    }
}

/// One step of square-and-multiply: halving the exponent against a squared
/// base preserves the power, with one extra factor when the exponent is odd.
proof fn lemma_pow_mod_halve(c: int, e: int, m: int)
    requires
        m > 1,
        0 <= c < m,
        e >= 0,
    ensures
        e % 2 == 1 ==> pow_mod(c, e, m) == (pow_mod((c * c) % m, e / 2, m) * c) % m,
        e % 2 == 0 ==> pow_mod(c, e, m) == pow_mod((c * c) % m, e / 2, m),
    decreases e,
{
    let c2 = (c * c) % m;
    lemma_pow_mod_bounds(c, e, m);
    lemma_pow_mod_bounds(c2, e, m);
    if e == 0 {
        lemma_small_mod(1nat, m as nat);
        assert(pow_mod(c, 0, m) == 1int % m);
        assert(pow_mod(c2, 0, m) == 1int % m);
        assert(pow_mod(c, e, m) == pow_mod(c2, e / 2, m));
    } else if e == 1 {
        lemma_small_mod(1nat, m as nat);
        lemma_small_mod(c as nat, m as nat);
        assert(pow_mod(c, 0, m) == 1int % m);
        assert(pow_mod(c2, 0, m) == 1int % m);
        assert(pow_mod(c, 1, m) == (c * (1int % m)) % m);
        assert(1int % m == 1int);
        assert(pow_mod(c2, 0, m) == 1int);
        assert(c * 1int == c) by (nonlinear_arith);
        assert(pow_mod(c, 1, m) == c % m);
        assert(pow_mod(c, 1, m) == c);
        assert(1int * c == c) by (nonlinear_arith);
        assert((pow_mod(c2, 0, m) * c) % m == c);
        assert(e / 2 == 0);
        assert(pow_mod(c2, e / 2, m) == 1int);
        assert(pow_mod(c, e, m) == (pow_mod(c2, e / 2, m) * c) % m);
    } else {
        lemma_pow_mod_halve(c, e - 2, m);
        let q = (e - 2) / 2;
        let t: int = if (e - 2) % 2 == 1 {
            c
        } else {
            1
        };
        lemma_pow_mod_bounds(c2, q + 1, m);
        vstd::arithmetic::div_mod::lemma_fundamental_div_mod(e, 2);
        vstd::arithmetic::div_mod::lemma_fundamental_div_mod(e - 2, 2);
        assert(e / 2 == q + 1 && (e % 2 == 1) == ((e - 2) % 2 == 1)) by (nonlinear_arith)
            requires
                e >= 2,
                e == 2 * (e / 2) + e % 2,
                e - 2 == 2 * q + (e - 2) % 2,
                0 <= e % 2 < 2,
                0 <= (e - 2) % 2 < 2,
        ;
        // pow_mod(c, e) = (c * (c * pow_mod(c, e-2) % m)) % m = (c2 * pow_mod(c, e-2)) % m
        let p2 = pow_mod(c, e - 2, m);
        lemma_pow_mod_bounds(c, e - 2, m);
        assert(pow_mod(c, e - 1, m) == (c * p2) % m);
        assert(pow_mod(c, e, m) == (c * ((c * p2) % m)) % m);
        lemma_mul_mod_noop_general(c, c * p2, m);
        lemma_mul_is_associative(c, c, p2);
        assert(pow_mod(c, e, m) == ((c * c) * p2) % m);
        lemma_mul_mod_noop_general(c * c, p2, m);
        assert(pow_mod(c, e, m) == (c2 * p2) % m);
        // substitute the induction hypothesis for pow_mod(c, e-2)
        let pq = pow_mod(c2, q, m);
        lemma_pow_mod_bounds(c2, q, m);
        assert(p2 == (pq * t) % m) by {
            if (e - 2) % 2 == 0 {
                lemma_small_mod(pq as nat, m as nat);
            }
        }
        lemma_mul_mod_noop_general(c2, pq * t, m);
        assert(pow_mod(c, e, m) == (c2 * (pq * t)) % m);
        lemma_mul_is_associative(c2, pq, t);
        assert(pow_mod(c, e, m) == ((c2 * pq) * t) % m);
        lemma_mul_mod_noop_general(c2 * pq, t, m);
        assert(pow_mod(c, e, m) == (((c2 * pq) % m) * t) % m);
        assert((c2 * pq) % m == pow_mod(c2, q + 1, m)) by {
            lemma_mul_mod_noop_general(c2, pq, m);
        }
        if e % 2 == 0 {
            lemma_small_mod(pow_mod(c2, q + 1, m) as nat, m as nat);
            assert(pow_mod(c, e, m) == (pow_mod(c2, q + 1, m) * 1int) % m);
            assert(pow_mod(c, e, m) == pow_mod(c2, e / 2, m));
        } else {
            assert(t == c);
            assert(pow_mod(c, e, m) == (pow_mod(c2, q + 1, m) * c) % m);
            assert(pow_mod(c, e, m) == (pow_mod(c2, e / 2, m) * c) % m);
        }
    }
}

/// The hash contribution of piece `p` sitting in cell `cell`.
pub open spec fn spec_cell_hash(p: Piece, cell: int) -> int {
    match p {
        Piece::EMPTY => 0,
        Piece::FIRST => (1 * pow_mod(cell, cell, HASH_MOD as int)) % (HASH_MOD as int),
        Piece::SECOND => (2 * pow_mod(cell, cell, HASH_MOD as int)) % (HASH_MOD as int),
    }
}

/// A cell marker: empty, or one of the two players.
#[allow(non_camel_case_types)]
#[derive(Clone, Copy, Debug, PartialEq, Eq, Structural, Hash)]
pub enum Piece {
    EMPTY,
    FIRST,
    SECOND,
}

impl Piece {
    /// The player who moves after this one; empty stays empty.
    pub fn next_player(&self) -> (r: Self)
        ensures
            *self == Piece::EMPTY ==> r == Piece::EMPTY,
            *self == Piece::FIRST ==> r == Piece::SECOND,
            *self == Piece::SECOND ==> r == Piece::FIRST,
    {
        match self {
            Piece::EMPTY => Piece::EMPTY,
            Piece::FIRST => Piece::SECOND,
            Piece::SECOND => Piece::FIRST,
        }
    }

    pub fn is_occupied(&self) -> (r: bool)
        ensures
            r == (*self != Piece::EMPTY),
    {
        *self != Piece::EMPTY
    }

    /// The position hash contribution of this piece in cell `cell`, computed
    /// as `val * cell^cell mod HASH_MOD` by square-and-multiply.
    #[verifier::loop_isolation(false)]
    pub fn hash(&self, cell: usize) -> (r: u64)
        requires
            cell < HASH_MOD,
        ensures
            r == spec_cell_hash(*self, cell as int),
    {
        let val: u64 = match self {
            Piece::EMPTY => {
                return 0;
            },
            Piece::FIRST => 1,
            Piece::SECOND => 2,
        };
        let ghost m: int = HASH_MOD as int;
        let mut hash_pow: u64 = 1;
        let mut curr_pow: u64 = cell as u64;
        let mut e: u64 = cell as u64;

        proof {
            lemma_small_mod(1nat, HASH_MOD as nat);
        }
        while e != 0
            invariant
                hash_pow < HASH_MOD,
                curr_pow < HASH_MOD,
                (hash_pow * pow_mod(curr_pow as int, e as int, m)) % m == pow_mod(
                    cell as int,
                    cell as int,
                    m,
                ),
            decreases e,
        {
            proof {
                lemma_pow_mod_halve(curr_pow as int, e as int, m);
                lemma_pow_mod_bounds(curr_pow as int, e as int, m);
                lemma_pow_mod_bounds((curr_pow as int * curr_pow as int) % m, (e / 2) as int, m);
                assert((e & 1) == e % 2 && (e >> 1u64) == e / 2) by (bit_vector);
            }
            let ghost p_new = pow_mod((curr_pow as int * curr_pow as int) % m, (e / 2) as int, m);
            let ghost p_old = pow_mod(curr_pow as int, e as int, m);

            if (e & 1) == 1 {
                proof {
                    // fold the odd factor into the accumulator
                    lemma_mul_mod_noop_general(hash_pow as int, p_old, m);
                    assert(p_old == (p_new * (curr_pow as int)) % m);
                    lemma_mul_mod_noop_general(hash_pow as int, p_new * (curr_pow as int), m);
                    lemma_mul_is_associative(hash_pow as int, p_new, curr_pow as int);
                    lemma_mul_is_associative(hash_pow as int, curr_pow as int, p_new);
                    assert((hash_pow as int * (p_new * (curr_pow as int))) == ((hash_pow as int
                        * (curr_pow as int)) * p_new)) by (nonlinear_arith);
                    lemma_mul_mod_noop_general(hash_pow as int * (curr_pow as int), p_new, m);
                    lemma_mul_mod_noop_general(
                        (hash_pow as int * curr_pow as int) % m,
                        p_new,
                        m,
                    );
                }
                proof {
                    lemma_mul_in_range(hash_pow, curr_pow);
                }
                hash_pow = (hash_pow * curr_pow) % HASH_MOD;
            } else {
                proof {
                    assert(p_old == p_new);
                }
            }
            proof {
                lemma_mul_in_range(curr_pow, curr_pow);
            }
            curr_pow = (curr_pow * curr_pow) % HASH_MOD;
            e = e >> 1u64;
        }
        proof {
            lemma_small_mod(1nat, HASH_MOD as nat);
            lemma_small_mod(hash_pow as nat, HASH_MOD as nat);
            assert(pow_mod(curr_pow as int, 0, m) == 1int % m);
            assert(pow_mod(curr_pow as int, 0, m) == 1int);
            assert(hash_pow as int * 1int == hash_pow as int) by (nonlinear_arith);
            assert(hash_pow == pow_mod(cell as int, cell as int, m));
            if val == 1 {
                assert(1int * (hash_pow as int) == hash_pow as int) by (nonlinear_arith);
            } else {
                assert(2int * (hash_pow as int) == hash_pow as int + hash_pow as int)
                    by (nonlinear_arith);
            }
        }
        (val * hash_pow) % HASH_MOD
    }
}

} // verus!
