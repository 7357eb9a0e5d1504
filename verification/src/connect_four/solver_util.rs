use vstd::prelude::*;

verus! {

pub const WORST_EVAL: i32 = -18;
pub const DRAW: i32 = 0;
pub const BEST_EVAL: i32 = 18;
pub const ROWS: usize = 6;
pub const COLS: usize = 7;
pub const BOARD_SIZE: usize = 42;
pub const FIRST_PLAYER: char = 'X';
pub const SECOND_PLAYER: char = 'O';
pub const EMPTY_CELL: char = ' ';

/// Outcome of a top-level search: the evaluation of the queried position and
/// how many states the search visited.
pub struct EvaluatePositionReturn {
    pub eval: i32,
    pub states_evaluated: usize,
}

impl EvaluatePositionReturn {
    pub fn new(eval: i32, states_evaluated: usize) -> (r: EvaluatePositionReturn)
        ensures
            r.eval == eval,
            r.states_evaluated == states_evaluated,
    {
        EvaluatePositionReturn { eval, states_evaluated }
    }
}

} // verus!
