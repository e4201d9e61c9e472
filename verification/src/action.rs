//! Actions and their stochastic outcomes.
use vstd::prelude::*;

verus! {

/// One possible outcome of an action: a cell offset, the heading bin that the
/// robot ends in, and how many of `PROB_BASE` samples end there.
#[derive(Clone, Copy, Debug, PartialEq, Eq, Structural)]
pub struct StateTransition {
    pub dix: i32,
    pub diy: i32,
    /// The heading bin after the move (not an offset).
    pub dit: i32,
    pub prob: i32,
}

impl StateTransition {
    /// The outcome `(dix, diy, dit)` of `prob` samples.
    pub fn new(dix: i32, diy: i32, dit: i32, prob: i32) -> (r: StateTransition)
        ensures
            r == (StateTransition { dix, diy, dit, prob }),
    {
        StateTransition { dix, diy, dit, prob }
    }

    /// Adds one more sample to this outcome.
    pub fn count_up(&mut self)
        requires
            old(self).prob < i32::MAX,
        ensures
            *final(self) == (StateTransition { prob: (old(self).prob + 1) as i32, ..*old(self) }),
    {
        self.prob = self.prob + 1;
    }
}

/// An action of the robot: drive `delta_fw` and turn by `delta_rot`.
///
/// Lengths are in nanometres and angles in millionths of a degree, so that every
/// number of the model is exact.
#[derive(Clone, Debug)]
pub struct Action {
    pub name: String,
    pub delta_fw: i64,
    pub delta_rot: i64,
    /// Position of this action among the robot's actions.
    pub id: i32,
    /// For each heading bin, the outcomes of this action from there.
    pub state_transitions: Vec<Vec<StateTransition>>,
}

impl Action {
    /// An action whose outcomes are still to be found.
    pub fn new(name: &str, fw: i64, rot: i64, id: i32) -> (r: Action)
        ensures
            r.name@ == name@,
            r.delta_fw == fw,
            r.delta_rot == rot,
            r.id == id,
            r.state_transitions@.len() == 0,
    {
        Action {
            name: name.to_string(),
            delta_fw: fw,
            delta_rot: rot,
            id,
            state_transitions: Vec::new(),
        }
    }

    /// The outcomes of this action from heading bin `it`.
    pub open spec fn outcomes(self, it: int) -> Seq<StateTransition> {
        self.state_transitions@[it]@
    }
}

} // verus!
