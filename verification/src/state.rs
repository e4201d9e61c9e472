//! A state of the lattice.
use vstd::prelude::*;

use crate::params::MAX_COST;

verus! {

/// One `(x, y, heading)` state with its value and its policy.
#[derive(Clone, Copy, Debug, PartialEq, Eq, Structural)]
pub struct State {
    /// Expected cost to the goal, in steps of `PROB_BASE`.
    pub total_cost: u64,
    /// Cost of standing in this state.
    pub penalty: u64,
    /// Additional cost from what the robot observes around itself.
    pub local_penalty: u64,
    pub ix: i32,
    pub iy: i32,
    pub it: i32,
    /// Whether the robot may stand here at all.
    pub free: bool,
    /// Whether this state is a goal.
    pub final_state: bool,
    /// Index of the best action, once there is one.
    pub optimal_action: Option<usize>,
}

/// A state that value iteration updates: free, and not a goal.
pub open spec fn updatable(s: State) -> bool {
    s.free && !s.final_state
}

/// `s` with a new value and policy.
pub open spec fn with_value(s: State, cost: u64, action: Option<usize>) -> State {
    State { total_cost: cost, optimal_action: action, ..s }
}

impl State {
    /// A state with no known value, in the cell `(ix, iy)` with heading `it`.
    pub fn new(ix: i32, iy: i32, it: i32, free: bool, penalty: u64) -> (r: State)
        ensures
            r == (State {
                total_cost: MAX_COST,
                penalty,
                local_penalty: 0,
                ix,
                iy,
                it,
                free,
                final_state: false,
                optimal_action: None,
            }),
    {
        State {
            total_cost: MAX_COST,
            penalty,
            local_penalty: 0,
            ix,
            iy,
            it,
            free,
            final_state: false,
            optimal_action: None,
        }
    }
}

} // verus!
