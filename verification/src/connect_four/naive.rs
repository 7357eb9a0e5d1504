use vstd::prelude::*;
use crate::connect_four::solver_util::{EvaluatePositionReturn, DRAW, WORST_EVAL, BEST_EVAL};
use crate::connect_four::state::{
    State, game_value, best_child_value, playable_cols, spec_drop, num_filled, wins_now, balanced,
    lemma_filled_below_bounds, lemma_playable_cols, lemma_drop_effect, lemma_best_props,
    lemma_game_value_balanced,
};

verus! {

// Fail-soft negamax with alpha-beta pruning.  The result `r` relates to the
// true game value `v` of the searched state as alpha-beta theory promises:
// `r` is exact whenever it lands strictly inside the requested window, an
// upper bound on `v` when it fails low, and a lower bound when it fails high.

/// Evaluate `state` within the window `(alpha, beta)`, counting every visited
/// state into `positions_evaluated` (the count saturates rather than wraps).
#[verifier::loop_isolation(false)]
pub fn evaluate_position_rec<S: State>(
    state: S,
    alpha: i32,
    beta: i32,
    positions_evaluated: &mut usize,
) -> (r: i32)
    requires
        state.wf(),
        -21 <= alpha < beta <= 21,
    ensures
        -21 <= r <= 21,
        r <= alpha ==> game_value::<S>(state.board()) <= r,
        alpha < r < beta ==> r == game_value::<S>(state.board()),
        beta <= r ==> game_value::<S>(state.board()) >= r,
        num_filled(state.board()) == 42 ==> r == 0,
        *final(positions_evaluated) >= *old(positions_evaluated),
    decreases 42 - num_filled(state.board()),
{
    proof {
        state.lemma_wf_board();
        lemma_filled_below_bounds(state.board(), 42);
    }
    let ghost b = state.board();
    let ghost n0: usize = *positions_evaluated;

    *positions_evaluated = positions_evaluated.saturating_add(1);

    if state.board_full() {
        return DRAW;
    }
    proof {
        lemma_playable_cols(b);
    }
    let ghost cols = playable_cols(b);

    let next_states = state.next_states();

    let mut i: usize = 0;
    while i < next_states.len()
        invariant
            i <= next_states.len(),
            forall|j: int| 0 <= j < i ==> !S::move_wins(b, cols[j]),
        decreases next_states.len() - i,
    {
        if next_states[i].is_win() {
            assert(wins_now::<S>(b));
            return state.max_eval();
        }
        i += 1;
    }
    assert(!wins_now::<S>(b));
    assert(game_value::<S>(b) == best_child_value::<S>(b, cols));
    proof {
        lemma_best_props::<S>(b, cols);
    }

    let mut alpha = alpha;
    let ghost alpha0 = alpha;
    let mut i: usize = 0;
    while i < next_states.len()
        invariant
            i <= next_states.len(),
            alpha0 <= alpha < beta,
            *positions_evaluated >= n0,
            forall|j: int|
                0 <= j < i ==> -game_value::<S>(spec_drop(b, #[trigger] cols[j])) <= alpha,
            alpha == alpha0 || exists|j: int|
                0 <= j < i && alpha == -game_value::<S>(spec_drop(b, #[trigger] cols[j])),
        decreases next_states.len() - i,
    {
        proof {
            lemma_drop_effect(b, cols[i as int]);
        }
        let child = next_states[i];
        let ghost a_pre = alpha;
        let child_r = evaluate_position_rec(child, -beta, -alpha, positions_evaluated);
        let eval = -child_r;
        let ghost gvc = game_value::<S>(spec_drop(b, cols[i as int]));

        if eval > alpha {
            alpha = eval;
        }
        if alpha >= beta {
            // Only a child that failed low can push alpha to the window's
            // top; its negated result then bounds the true value of this
            // state from below, which makes the fail-high return sound.
            assert(child_r <= -beta && gvc <= child_r);
            assert(game_value::<S>(b) >= -gvc >= alpha);
            return alpha;
        }
        proof {
            if child_r <= -beta {
                assert(false);
            } else if child_r >= -a_pre {
                assert(gvc >= child_r);
                assert(-gvc <= a_pre && alpha == a_pre);
            } else {
                assert(child_r == gvc);
                assert(-gvc <= alpha);
                assert(alpha == a_pre || alpha == -gvc);
            }
        }
        i += 1;
    }
    proof {
        if alpha <= alpha0 {
            assert(game_value::<S>(b) <= alpha);
        } else {
            assert(game_value::<S>(b) == alpha);
        }
    }
    alpha
}

/// Evaluate `state` with the full window.  On any board reachable by
/// alternating play (a balanced board) the returned `eval` is exactly the
/// game value of the position.
pub fn evaluate_position<S: State>(state: S) -> (r: EvaluatePositionReturn)
    requires
        state.wf(),
    ensures
        -21 <= r.eval <= 21,
        r.eval <= WORST_EVAL ==> game_value::<S>(state.board()) <= r.eval,
        WORST_EVAL < r.eval < BEST_EVAL ==> r.eval == game_value::<S>(state.board()),
        BEST_EVAL <= r.eval ==> game_value::<S>(state.board()) >= r.eval,
        balanced(state.board()) ==> r.eval == game_value::<S>(state.board()),
{
    let mut states_evaluated: usize = 0;
    let eval = evaluate_position_rec(state, WORST_EVAL, BEST_EVAL, &mut states_evaluated);
    proof {
        state.lemma_wf_board();
        if balanced(state.board()) {
            lemma_game_value_balanced::<S>(state.board());
        }
    }
    EvaluatePositionReturn::new(eval, states_evaluated)
}

} // verus!
