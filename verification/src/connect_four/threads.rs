use vstd::prelude::*;
use std::sync::Arc;
use std::sync::atomic::{AtomicBool, Ordering};
use std::collections::hash_map::RandomState;
use crate::connect_four::solver_util::{EvaluatePositionReturn, DRAW, WORST_EVAL, BEST_EVAL};
use crate::connect_four::state::{
    State, num_filled, lemma_filled_below_bounds, lemma_playable_cols, playable_cols,
};
use crate::connect_four::naive;

verus! {

const MAX_CACHED_DEPTH: usize = 35;

// The cache shared between search threads.  Its entries race: any thread may
// overwrite a bound at any time, so nothing is assumed about what a lookup
// returns.  A fetched value is clamped into the eval range and then used only
// to tighten the local search window -- the cache is a hint, never truth.

#[verifier::external_type_specification]
#[verifier::external_body]
#[verifier::reject_recursive_types(K)]
#[verifier::reject_recursive_types(V)]
#[verifier::reject_recursive_types(S)]
pub struct ExDashMap<K, V, S>(dashmap::DashMap<K, V, S>);

pub struct SharedStateCache {
    alpha_cache: dashmap::DashMap<u128, i32, RandomState>,
    beta_cache: dashmap::DashMap<u128, i32, RandomState>,
}

/// Relies on dashmap::DashMap::new to make an empty concurrent map; no use
/// of this cache assumes anything about its contents.
#[verifier::external_body]
fn new_bound_map() -> dashmap::DashMap<u128, i32, RandomState> {
    dashmap::DashMap::new()
}

/// Relies on dashmap::DashMap::insert to store `bound` under `key`.
#[verifier::external_body]
fn bound_map_insert(map: &dashmap::DashMap<u128, i32, RandomState>, key: u128, bound: i32) {
    map.insert(key, bound);
}

/// Relies on dashmap::DashMap::get; returns whatever bound some thread last
/// stored under `key`, if any.
#[verifier::external_body]
fn bound_map_fetch(map: &dashmap::DashMap<u128, i32, RandomState>, key: u128) -> Option<i32> {
    map.get(&key).map(|v| *v)
}

impl SharedStateCache {
    pub fn new() -> Self {
        SharedStateCache { alpha_cache: new_bound_map(), beta_cache: new_bound_map() }
    }

    fn insert_alpha_bound<S: State>(&self, state: S, bound: i32)
        requires
            state.wf(),
    {
        bound_map_insert(&self.alpha_cache, state.state_key(), bound);
    }

    fn insert_beta_bound<S: State>(&self, state: S, bound: i32)
        requires
            state.wf(),
    {
        bound_map_insert(&self.beta_cache, state.state_key(), bound);
    }

    /// A lower-bound hint for `state`, clamped into the eval range.
    fn fetch_alpha_bound<S: State>(&self, state: &S) -> (r: i32)
        requires
            state.wf(),
        ensures
            -21 <= r <= 21,
    {
        let fetched = match bound_map_fetch(&self.alpha_cache, state.state_key()) {
            Some(v) => v,
            None => WORST_EVAL,
        };
        if fetched < -21 {
            -21
        } else if fetched > 21 {
            21
        } else {
            fetched
        }
    }

    /// An upper-bound hint for `state`, clamped into the eval range.
    fn fetch_beta_bound<S: State>(&self, state: &S) -> (r: i32)
        requires
            state.wf(),
        ensures
            -21 <= r <= 21,
    {
        let fetched = match bound_map_fetch(&self.beta_cache, state.state_key()) {
            Some(v) => v,
            None => BEST_EVAL,
        };
        if fetched < -21 {
            -21
        } else if fetched > 21 {
            21
        } else {
            fetched
        }
    }
}

/// What one search thread carries: its private visit counter, its
/// cancellation flag, and a handle to the cache shared by all threads.
pub struct ThreadContext {
    pub states_evaluated: usize,
    pub terminate_signal: Arc<AtomicBool>,
    pub cache: Arc<SharedStateCache>,
}

impl ThreadContext {
    pub fn new(terminate_signal: Arc<AtomicBool>, cache: Arc<SharedStateCache>) -> (r: Self)
        ensures
            r.states_evaluated == 0,
    {
        ThreadContext { states_evaluated: 0, terminate_signal, cache }
    }

    fn is_terminated(&self) -> bool {
        self.terminate_signal.load(Ordering::Relaxed)
    }
}

// Cancellable cached negamax over a racily shared cache.  Because another
// thread may overwrite cache entries between any two steps, the returned
// value carries no exactness promise; the authoritative search of a position
// is the sequential cached engine's, which this search only accelerates by
// seeding shared bounds.  A set cancellation flag unwinds the recursion with
// no value.

#[verifier::loop_isolation(false)]
pub fn evaluate_position_rec<S: State>(
    state: S,
    alpha: i32,
    beta: i32,
    ctx: &mut ThreadContext,
) -> (r: Option<i32>)
    requires
        state.wf(),
        -21 <= alpha < beta <= 21,
    ensures
        r matches Some(v) ==> -21 <= v <= 21,
        num_filled(state.board()) == 42 && r.is_some() ==> r == Some(0i32),
        final(ctx).states_evaluated >= old(ctx).states_evaluated,
        final(ctx).terminate_signal == old(ctx).terminate_signal,
        final(ctx).cache == old(ctx).cache,
    decreases 42 - num_filled(state.board()),
{
    proof {
        state.lemma_wf_board();
        lemma_filled_below_bounds(state.board(), 42);
    }
    let ghost b = state.board();

    if ctx.is_terminated() {
        return None;
    }

    if state.moves_made() > MAX_CACHED_DEPTH {
        let mut count = ctx.states_evaluated;
        let res = naive::evaluate_position_rec(state, alpha, beta, &mut count);
        ctx.states_evaluated = count;
        return Some(res);
    }

    ctx.states_evaluated = ctx.states_evaluated.saturating_add(1);

    if state.board_full() {
        return Some(DRAW);
    }

    let mut alpha = alpha;
    let mut beta = beta;
    let ca = ctx.cache.fetch_alpha_bound(&state);
    if ca > alpha {
        alpha = ca;
    }
    let cb = ctx.cache.fetch_beta_bound(&state);
    if cb < beta {
        beta = cb;
    }
    if alpha >= beta {
        // the shared hints close the window; stop here rather than search a
        // degenerate window
        return Some(alpha);
    }

    let next_states = state.next_states();
    proof {
        lemma_playable_cols(b);
    }
    let ghost cols = playable_cols(b);

    let n0 = ctx.states_evaluated;
    let mut i: usize = 0;
    while i < next_states.len()
        invariant
            i <= next_states.len(),
            -21 <= alpha < beta <= 21,
        decreases next_states.len() - i,
    {
        if next_states[i].is_win() {
            return Some(state.max_eval());
        }
        let peek = ctx.cache.fetch_beta_bound(&next_states[i]);
        let neg = -peek;
        if neg > alpha {
            alpha = neg;
            if alpha >= beta {
                ctx.cache.insert_alpha_bound(state, alpha);
                return Some(alpha);
            }
        }
        i += 1;
    }

    let mut i: usize = 0;
    while i < next_states.len()
        invariant
            i <= next_states.len(),
            -21 <= alpha < beta <= 21,
            ctx.states_evaluated >= n0,
            ctx.terminate_signal == old(ctx).terminate_signal,
            ctx.cache == old(ctx).cache,
        decreases next_states.len() - i,
    {
        proof {
            crate::connect_four::state::lemma_drop_effect(b, cols[i as int]);
        }
        let child = next_states[i];
        let child_r = match evaluate_position_rec(child, -beta, -alpha, ctx) {
            None => {
                return None;
            },
            Some(v) => v,
        };
        let eval = -child_r;

        if eval > alpha {
            alpha = eval;
        }
        if alpha >= beta {
            ctx.cache.insert_alpha_bound(state, alpha);
            return Some(alpha);
        }
        i += 1;
    }
    ctx.cache.insert_beta_bound(state, alpha);
    Some(alpha)
}

/// One worker's whole job: probe its root child with the narrow
/// win/draw/loss window, seeding the shared cache, and report how many
/// states it visited.  The worker's value is discarded by the caller.
pub fn probe_position<S: State>(state: S, ctx: &mut ThreadContext) -> (r: usize)
    requires
        state.wf(),
    ensures
        r >= old(ctx).states_evaluated,
{
    let helper_thread_beta: i32 = 1;  // this narrow window significantly affects performance
    evaluate_position_rec(state, -helper_thread_beta, helper_thread_beta, ctx);
    ctx.states_evaluated
}

/// The authoritative full-window search the calling thread runs while the
/// workers probe.
pub fn master_position<S: State>(state: S, ctx: &mut ThreadContext) -> (r: Option<
    EvaluatePositionReturn,
>)
    requires
        state.wf(),
    ensures
        r matches Some(v) ==> -21 <= v.eval <= 21 && v.states_evaluated >= old(
            ctx,
        ).states_evaluated,
{
    let eval = match evaluate_position_rec(state, WORST_EVAL, BEST_EVAL, ctx) {
        None => {
            return None;
        },
        Some(v) => v,
    };
    Some(EvaluatePositionReturn::new(eval, ctx.states_evaluated))
}

} // verus!
