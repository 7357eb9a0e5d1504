use vstd::prelude::*;
use std::collections::HashMap;
use crate::connect_four::piece::Piece;
use crate::connect_four::solver_util::{EvaluatePositionReturn, DRAW, WORST_EVAL, BEST_EVAL};
use crate::connect_four::state::{
    State, game_value, best_child_value, playable_cols, spec_drop, num_filled, wins_now, balanced,
    board_key, lemma_board_key_u128_injective, lemma_filled_below_bounds, lemma_playable_cols,
    lemma_drop_effect, lemma_best_props, lemma_game_value_balanced,
};
use crate::connect_four::naive;

verus! {

broadcast use vstd::std_specs::hash::group_hash_axioms;

const MAX_CACHED_DEPTH: usize = 42;

// The bound cache.  Entries are keyed by the board's identifying number, and
// the well-formedness below is the whole point: every stored alpha entry is a
// true lower bound on the keyed position's game value, every beta entry a
// true upper bound, so a lookup can only ever tighten a search window toward
// the true value, never past it.

struct StateCache {
    alpha_cache: HashMap<u128, i32>,
    beta_cache: HashMap<u128, i32>,
}

spec fn cache_wf<S: State>(c: StateCache) -> bool {
    &&& forall|b: Seq<Piece>|
        b.len() == 42 && c.alpha_cache@.contains_key(#[trigger] board_key(b) as u128) ==> (-21
            <= c.alpha_cache@[board_key(b) as u128] <= 21 && c.alpha_cache@[board_key(b) as u128]
            <= game_value::<S>(b))
    &&& forall|b: Seq<Piece>|
        b.len() == 42 && c.beta_cache@.contains_key(#[trigger] board_key(b) as u128) ==> (-21
            <= c.beta_cache@[board_key(b) as u128] <= 21 && game_value::<S>(b)
            <= c.beta_cache@[board_key(b) as u128])
}

impl StateCache {
    fn new<S: State>() -> (r: Self)
        ensures
            cache_wf::<S>(r),
    {
        Self { alpha_cache: HashMap::new(), beta_cache: HashMap::new() }
    }

    /// Record a proven lower bound for `state`.
    fn insert_alpha_bound<S: State>(&mut self, state: S, bound: i32)
        requires
            state.wf(),
            cache_wf::<S>(*old(self)),
            -21 <= bound <= 21,
            bound <= game_value::<S>(state.board()),
        ensures
            cache_wf::<S>(*final(self)),
    {
        proof {
            state.lemma_wf_board();
        }
        let key = state.state_key();
        self.alpha_cache.insert(key, bound);
        proof {
            assert forall|b: Seq<Piece>|
                b.len() == 42 && self.alpha_cache@.contains_key(
                    #[trigger] board_key(b) as u128,
                ) implies self.alpha_cache@[board_key(b) as u128] <= game_value::<S>(b) by {
                if board_key(b) as u128 == key {
                    lemma_board_key_u128_injective(b, state.board());
                }
            }
        }
    }

    /// Record a proven upper bound for `state`.
    fn insert_beta_bound<S: State>(&mut self, state: S, bound: i32)
        requires
            state.wf(),
            cache_wf::<S>(*old(self)),
            -21 <= bound <= 21,
            game_value::<S>(state.board()) <= bound,
        ensures
            cache_wf::<S>(*final(self)),
    {
        proof {
            state.lemma_wf_board();
        }
        let key = state.state_key();
        self.beta_cache.insert(key, bound);
        proof {
            assert forall|b: Seq<Piece>|
                b.len() == 42 && self.beta_cache@.contains_key(
                    #[trigger] board_key(b) as u128,
                ) implies game_value::<S>(b) <= self.beta_cache@[board_key(b) as u128] by {
                if board_key(b) as u128 == key {
                    lemma_board_key_u128_injective(b, state.board());
                }
            }
        }
    }

    /// A stored lower bound for `state`, or the worst eval when none exists.
    fn fetch_alpha_bound<S: State>(&mut self, state: &S) -> (r: i32)
        requires
            state.wf(),
            cache_wf::<S>(*old(self)),
        ensures
            *final(self) == *old(self),
            r == WORST_EVAL || (-21 <= r <= 21 && r <= game_value::<S>(state.board())),
    {
        proof {
            state.lemma_wf_board();
        }
        let key = state.state_key();
        match self.alpha_cache.get(&key) {
            Some(v) => *v,
            None => WORST_EVAL,
        }
    }

    /// A stored upper bound for `state`, or the best eval when none exists.
    fn fetch_beta_bound<S: State>(&mut self, state: &S) -> (r: i32)
        requires
            state.wf(),
            cache_wf::<S>(*old(self)),
        ensures
            *final(self) == *old(self),
            r == BEST_EVAL || (-21 <= r <= 21 && game_value::<S>(state.board()) <= r),
    {
        proof {
            state.lemma_wf_board();
        }
        let key = state.state_key();
        match self.beta_cache.get(&key) {
            Some(v) => *v,
            None => BEST_EVAL,
        }
    }
}

struct GlobalState {
    cache: StateCache,
    positions_evaluated: usize,
}

impl GlobalState {
    fn new<S: State>() -> (r: Self)
        ensures
            cache_wf::<S>(r.cache),
    {
        Self { cache: StateCache::new::<S>(), positions_evaluated: 0 }
    }
}

// Cached fail-soft negamax.  The contract is the same as the naive engine's:
// the cache can change which states are visited, never the returned value.

#[verifier::loop_isolation(false)]
fn evaluate_position_rec<S: State>(
    state: S,
    alpha: i32,
    beta: i32,
    global_state: &mut GlobalState,
) -> (r: i32)
    requires
        state.wf(),
        cache_wf::<S>(old(global_state).cache),
        -18 <= alpha < beta <= 18,
    ensures
        cache_wf::<S>(final(global_state).cache),
        -21 <= r <= 21,
        r <= alpha ==> game_value::<S>(state.board()) <= r,
        alpha < r < beta ==> r == game_value::<S>(state.board()),
        beta <= r ==> game_value::<S>(state.board()) >= r,
        final(global_state).positions_evaluated >= old(global_state).positions_evaluated,
    decreases 42 - num_filled(state.board()),
{
    proof {
        state.lemma_wf_board();
        lemma_filled_below_bounds(state.board(), 42);
    }
    let ghost b = state.board();
    let ghost gv = game_value::<S>(b);
    let ghost alpha0 = alpha;
    let ghost beta0 = beta;

    if state.moves_made() > MAX_CACHED_DEPTH {
        let mut count = global_state.positions_evaluated;
        let res = naive::evaluate_position_rec(state, alpha, beta, &mut count);
        global_state.positions_evaluated = count;
        return res;
    }

    global_state.positions_evaluated = global_state.positions_evaluated.saturating_add(1);

    if state.board_full() {
        return DRAW;
    }

    let mut alpha = alpha;
    let mut beta = beta;
    let ca = global_state.cache.fetch_alpha_bound(&state);
    if ca > alpha {
        alpha = ca;
    }
    let cb = global_state.cache.fetch_beta_bound(&state);
    if cb < beta {
        beta = cb;
    }
    if alpha >= beta {
        // Both cached bounds close over the incoming window: the cache has
        // already decided this position as far as this window cares.
        proof {
            if beta < beta0 {
                assert(cb != BEST_EVAL && gv <= cb && beta == cb);
            }
            if alpha > alpha0 {
                assert(ca != WORST_EVAL && ca <= gv && alpha == ca);
            }
        }
        return alpha;
    }
    let ghost betat = beta;

    proof {
        lemma_playable_cols(b);
    }
    let ghost cols = playable_cols(b);

    let next_states = state.next_states();

    let ghost n0 = global_state.positions_evaluated;
    let ghost alpha_t = alpha;
    let mut i: usize = 0;
    while i < next_states.len()
        invariant
            i <= next_states.len(),
            alpha_t <= alpha,
            -21 <= alpha <= 21,
            alpha == alpha_t || exists|j: int|
                0 <= j < i && alpha <= -game_value::<S>(spec_drop(b, #[trigger] cols[j])),
            cache_wf::<S>(global_state.cache),
            global_state.positions_evaluated >= n0,
            forall|j: int| 0 <= j < i ==> !S::move_wins(b, cols[j]),
        decreases next_states.len() - i,
    {
        if next_states[i].is_win() {
            assert(wins_now::<S>(b));
            return state.max_eval();
        }
        let peek = global_state.cache.fetch_beta_bound(&next_states[i]);
        proof {
            lemma_drop_effect(b, cols[i as int]);
        }
        let neg = -peek;
        if neg > alpha {
            // a child already known to be bounded above gives a free lower
            // bound for this state
            proof {
                assert(peek != BEST_EVAL);
                assert(game_value::<S>(spec_drop(b, cols[i as int])) <= peek);
            }
            alpha = neg;
        }
        i += 1;
    }
    assert(!wins_now::<S>(b));
    assert(gv == best_child_value::<S>(b, cols));
    proof {
        lemma_best_props::<S>(b, cols);
        if alpha != alpha_t {
            let j = choose|j: int|
                0 <= j < next_states@.len() && alpha <= -game_value::<S>(
                    spec_drop(b, #[trigger] cols[j]),
                );
            assert(-game_value::<S>(spec_drop(b, cols[j])) <= gv);
            assert(alpha <= gv);
        } else {
            if alpha > alpha0 {
                assert(alpha == ca && ca != WORST_EVAL);
                assert(alpha <= gv);
            }
        }
        assert(alpha == alpha0 || alpha <= gv);
    }
    if alpha >= beta {
        // the cached child bounds alone already close the window
        proof {
            assert(alpha > alpha0);
        }
        global_state.cache.insert_alpha_bound(state, alpha);
        return alpha;
    }

    let ghost alpha1 = alpha;
    let mut i: usize = 0;
    while i < next_states.len()
        invariant
            i <= next_states.len(),
            alpha1 <= alpha < betat,
            beta == betat,
            alpha == alpha0 || alpha <= gv,
            cache_wf::<S>(global_state.cache),
            global_state.positions_evaluated >= n0,
            forall|j: int|
                0 <= j < i ==> -game_value::<S>(spec_drop(b, #[trigger] cols[j])) <= alpha,
        decreases next_states.len() - i,
    {
        proof {
            lemma_drop_effect(b, cols[i as int]);
        }
        let child = next_states[i];
        let ghost a_pre = alpha;
        let child_r = evaluate_position_rec(child, -beta, -alpha, global_state);
        let eval = -child_r;
        let ghost gvc = game_value::<S>(spec_drop(b, cols[i as int]));

        if eval > alpha {
            alpha = eval;
        }
        if alpha >= beta {
            assert(child_r <= -beta && gvc <= child_r);
            assert(gv >= -gvc >= alpha);
            global_state.cache.insert_alpha_bound(state, alpha);
            return alpha;
        }
        proof {
            if child_r <= -beta {
                assert(false);
            } else if child_r >= -a_pre {
                assert(gvc >= child_r);
                assert(-gvc <= a_pre && alpha == a_pre);
            } else {
                assert(child_r == gvc);
                assert(-gvc <= alpha);
                assert(alpha == a_pre || alpha == -gvc);
                assert(-gvc <= gv);
            }
        }
        i += 1;
    }
    proof {
        if alpha <= alpha0 {
            assert(gv <= alpha);
        } else {
            assert(gv == alpha);
        }
    }
    global_state.cache.insert_beta_bound(state, alpha);
    alpha
}

/// Evaluate `state` with the full window and a fresh bound cache.  On any
/// balanced board the returned `eval` equals the game value, the same value
/// the naive engine returns; only `states_evaluated` differs.
pub fn evaluate_position<S: State>(state: S) -> (r: EvaluatePositionReturn)
    requires
        state.wf(),
    ensures
        -21 <= r.eval <= 21,
        r.eval <= WORST_EVAL ==> game_value::<S>(state.board()) <= r.eval,
        WORST_EVAL < r.eval < BEST_EVAL ==> r.eval == game_value::<S>(state.board()),
        BEST_EVAL <= r.eval ==> game_value::<S>(state.board()) >= r.eval,
        balanced(state.board()) ==> r.eval == game_value::<S>(state.board()),
{
    let mut global_state = GlobalState::new::<S>();
    let eval = evaluate_position_rec(state, WORST_EVAL, BEST_EVAL, &mut global_state);
    proof {
        state.lemma_wf_board();
        if balanced(state.board()) {
            lemma_game_value_balanced::<S>(state.board());
        }
    }
    EvaluatePositionReturn::new(eval, global_state.positions_evaluated)
}

/// The successor whose cached-search score was highest, or the state itself
/// when no successor scored above the worst eval.
pub fn optimal_next_state<S: State>(state: S) -> (r: S)
    requires
        state.wf(),
    ensures
        r.wf(),
        r.board() == state.board() || exists|i: int|
            0 <= i < playable_cols(state.board()).len() && r.board() == spec_drop(
                state.board(),
                #[trigger] playable_cols(state.board())[i],
            ),
{
    proof {
        state.lemma_wf_board();
        lemma_playable_cols(state.board());
    }
    let mut global_state = GlobalState::new::<S>();
    let mut max_eval = WORST_EVAL;
    let mut optimal_state = state;

    let next_states = state.next_states();
    let mut i: usize = 0;
    #[verifier::loop_isolation(false)]
    while i < next_states.len()
        invariant
            i <= next_states.len(),
            WORST_EVAL <= max_eval <= 21,
            cache_wf::<S>(global_state.cache),
            optimal_state.wf(),
            optimal_state.board() == state.board() || exists|j: int|
                0 <= j < playable_cols(state.board()).len() && optimal_state.board() == spec_drop(
                    state.board(),
                    #[trigger] playable_cols(state.board())[j],
                ),
        decreases next_states.len() - i,
    {
        if max_eval >= BEST_EVAL {
            break ;
        }
        let next_state = next_states[i];
        let eval = evaluate_position_rec(next_state, max_eval, BEST_EVAL, &mut global_state);

        if eval > max_eval {
            max_eval = eval;
            optimal_state = next_state;
        }
        i += 1;
    }
    optimal_state
}

} // verus!
