//! The value iterator: the lattice of states, the actions, and the update of a
//! single state.
use vstd::prelude::*;

use crate::action::{Action, StateTransition};
use crate::grid::to_index_raw;
use crate::grid::{lemma_index_bound, on_grid};
use crate::model::{
    law_best_is_least, lemma_succ_bound, lemma_upd_keeps, step_cost, word, Grid, Model,
};
use crate::params::{MAX_COST, PROB_BASE_BIT};
use crate::state::{updatable, State};

verus! {

/// A planning problem and its current value function.
pub struct ValueIterator {
    pub states: Vec<State>,
    pub actions: Vec<Action>,
    pub cell_num_x: i32,
    pub cell_num_y: i32,
    pub cell_num_t: i32,
}

/// The lattice of the given size.
pub open spec fn grid_of(nx: i32, ny: i32, nt: i32) -> Grid {
    Grid { nx: nx as int, ny: ny as int, nt: nt as int }
}

/// The model with the given actions on the lattice of the given size.
pub open spec fn model_of(actions: Seq<Action>, nx: i32, ny: i32, nt: i32) -> Model {
    Model { grid: grid_of(nx, ny, nt), actions }
}

impl ValueIterator {
    /// The unchanging part of the problem.
    pub open spec fn model(self) -> Model {
        model_of(self.actions@, self.cell_num_x, self.cell_num_y, self.cell_num_t)
    }

    /// The lattice of the problem.
    pub open spec fn grid(self) -> Grid {
        self.model().grid
    }

    /// The model is usable, the states lie where they belong, and the policy
    /// names existing actions.
    pub open spec fn wf(self) -> bool {
        &&& self.model().wf()
        &&& self.grid().located(self.states@)
        &&& self.model().policy_ok(self.states@)
    }

    /// `self` with the states `s` in place of its own.
    pub open spec fn has_states(self, base: ValueIterator, s: Seq<State>) -> bool {
        &&& self.states@ == s
        &&& self.actions == base.actions
        &&& self.cell_num_x == base.cell_num_x
        &&& self.cell_num_y == base.cell_num_y
        &&& self.cell_num_t == base.cell_num_t
    }

    /// Index of the state `(ix, iy, it)`.
    pub fn to_index(&self, ix: i32, iy: i32, it: i32) -> (r: i32)
        requires
            self.grid().wf(),
            on_grid(
                ix as int,
                iy as int,
                it as int,
                self.cell_num_x as int,
                self.cell_num_y as int,
                self.cell_num_t as int,
            ),
        ensures
            r == self.grid().at(ix as int, iy as int, it as int),
            0 <= r < self.grid().len(),
    {
        proof {
            let g = self.grid();
            lemma_index_bound(ix as int, iy as int, it as int, g.nx, g.ny, g.nt);
            assert(g.nx * (iy + 1) * g.nt <= g.nx * g.ny * g.nt) by (nonlinear_arith)
                requires
                    0 <= g.nx,
                    0 <= g.nt,
                    iy + 1 <= g.ny,
            ;
        }
        to_index_raw(ix, iy, it, self.cell_num_x, self.cell_num_t)
    }
}

proof fn lemma_wrap_step(a: int, t: int, p: int)
    ensures
        (a % word() + ((t % word()) * p) % word()) % word() == (a + t * p) % word(),
{
    vstd::arithmetic::div_mod::lemma_mul_mod_noop_left(t, p, word());
    vstd::arithmetic::div_mod::lemma_add_mod_noop(a, t * p, word());
}

/// What a step into `after` costs, kept in a machine word.
fn wrapped_step_cost(after: &State) -> (r: u64)
    ensures
        r == step_cost(*after) % word(),
{
    after.total_cost.wrapping_add(after.penalty).wrapping_add(after.local_penalty)
}

/// Heading bin that an outcome ends in.
pub fn wrap_heading(dit: i32, nt: i32) -> (r: i32)
    requires
        0 < nt,
        -nt <= dit <= i32::MAX - nt,
    ensures
        r == (dit + nt) % (nt as int),
        0 <= r < nt,
{
    (dit + nt) % nt
}

/// Expected cost of taking action `a` in the state `s`.
pub fn action_cost_raw(
    states: &Vec<State>,
    a: &Action,
    s: &State,
    nx: i32,
    ny: i32,
    nt: i32,
) -> (r: u64)
    requires
        grid_of(nx, ny, nt).wf(),
        grid_of(nx, ny, nt).located(states@),
        grid_of(nx, ny, nt).action_ok(*a),
        on_grid(s.ix as int, s.iy as int, s.it as int, nx as int, ny as int, nt as int),
    ensures
        r == grid_of(nx, ny, nt).cost(states@, *s, *a),
{
    let ghost g = grid_of(nx, ny, nt);
    let trs: &Vec<StateTransition> = &a.state_transitions[s.it as usize];
    let mut cost: u64 = 0;
    let mut k: usize = 0;
    assert(trs@ == a.outcomes(s.it as int));
    while k < trs.len()
        invariant
            g == grid_of(nx, ny, nt),
            g.wf(),
            g.located(states@),
            0 < nt,
            trs@ == a.outcomes(s.it as int),
            on_grid(s.ix as int, s.iy as int, s.it as int, nx as int, ny as int, nt as int),
            g.action_ok(*a),
            k <= trs.len(),
            forall|j: int| 0 <= j < k ==> g.lands(states@, *s, #[trigger] trs@[j]),
            cost == g.weighted(states@, *s, trs@, k as int) % word(),
        decreases trs.len() - k,
    {
        let tr: StateTransition = trs[k];
        assert(g.outcome_ok(a.outcomes(s.it as int)[k as int]));
        let ix: i32 = s.ix + tr.dix;
        if ix < 0 || ix >= nx {
            assert(!g.lands(states@, *s, trs@[k as int]));
            return MAX_COST;
        }
        let iy: i32 = s.iy + tr.diy;
        if iy < 0 || iy >= ny {
            assert(!g.lands(states@, *s, trs@[k as int]));
            return MAX_COST;
        }
        let it: i32 = wrap_heading(tr.dit, nt);
        proof {
            lemma_succ_bound(g, *s, tr);
            assert(g.nx * (iy + 1) * g.nt <= g.nx * g.ny * g.nt) by (nonlinear_arith)
                requires
                    0 <= g.nx,
                    0 <= g.nt,
                    iy + 1 <= g.ny,
            ;
        }
        let idx: usize = to_index_raw(ix, iy, it, nx, nt) as usize;
        let after: &State = &states[idx];
        if !after.free {
            assert(!g.lands(states@, *s, trs@[k as int]));
            return MAX_COST;
        }
        let term: u64 = wrapped_step_cost(after);
        proof {
            let w = g.weighted(states@, *s, trs@, k as int);
            lemma_wrap_step(w, step_cost(*after), tr.prob as int);
            assert(step_cost(*after) % word() * tr.prob >= 0) by (nonlinear_arith)
                requires
                    step_cost(*after) % word() >= 0,
                    tr.prob >= 0,
            ;
        }
        cost = cost.wrapping_add(term.wrapping_mul(tr.prob as u64));
        k += 1;
    }
    proof {
        assert(cost >> 18u32 == cost / 262144u64) by (bit_vector);
        assert(g.all_land(states@, *s, a.outcomes(s.it as int)));
    }
    cost >> PROB_BASE_BIT
}

/// The Bellman value of state `idx` and its action; nothing for a state that is
/// not updated.
pub fn min_action_cost(
    states: &Vec<State>,
    actions: &Vec<Action>,
    idx: usize,
    nx: i32,
    ny: i32,
    nt: i32,
) -> (r: Option<(u64, Option<usize>)>)
    requires
        model_of(actions@, nx, ny, nt).wf(),
        grid_of(nx, ny, nt).located(states@),
        idx < states.len(),
    ensures
        r is Some <==> updatable(states@[idx as int]),
        r matches Some(b) ==> {
            &&& b.0 == model_of(actions@, nx, ny, nt).bellman(states@, idx as int).0
            &&& b.1 == model_of(actions@, nx, ny, nt).bellman(states@, idx as int).1
        },
{
    let ghost m = model_of(actions@, nx, ny, nt);
    let s: State = states[idx];
    if !s.free || s.final_state {
        return None;
    }
    assert(m.grid.located_at(states@[idx as int], idx as int));
    let mut min_cost: u64 = MAX_COST;
    let mut min_action: Option<usize> = None;
    let mut k: usize = 0;
    while k < actions.len()
        invariant
            m == model_of(actions@, nx, ny, nt),
            m.wf(),
            m.grid.located(states@),
            on_grid(s.ix as int, s.iy as int, s.it as int, nx as int, ny as int, nt as int),
            k <= actions.len(),
            min_cost == m.best(states@, s, k as int).0,
            min_action == m.best(states@, s, k as int).1,
        decreases actions.len() - k,
    {
        assert(m.grid.action_ok(m.actions[k as int]));
        let c: u64 = action_cost_raw(states, &actions[k], &s, nx, ny, nt);
        if c < min_cost {
            min_cost = c;
            min_action = Some(k);
        }
        k += 1;
    }
    Some((min_cost, min_action))
}

/// Updates state `idx` in place and returns how far its value moved.
pub fn value_iteration_raw(
    states: &mut Vec<State>,
    actions: &Vec<Action>,
    idx: usize,
    nx: i32,
    ny: i32,
    nt: i32,
) -> (r: u64)
    requires
        model_of(actions@, nx, ny, nt).wf(),
        grid_of(nx, ny, nt).located(old(states)@),
        idx < old(states)@.len(),
    ensures
        final(states)@ == model_of(actions@, nx, ny, nt).upd(old(states)@, idx as int),
        r == model_of(actions@, nx, ny, nt).delta(old(states)@, idx as int),
        grid_of(nx, ny, nt).located(final(states)@),
        model_of(actions@, nx, ny, nt).policy_ok(old(states)@) ==> model_of(
            actions@,
            nx,
            ny,
            nt,
        ).policy_ok(final(states)@),
{
    let ghost m = model_of(actions@, nx, ny, nt);
    let ghost s0 = states@;
    proof {
        lemma_upd_keeps(m, s0, idx as int);
        law_best_is_least(m, s0, s0[idx as int], m.actions.len() as int);
    }
    match min_action_cost(states, actions, idx, nx, ny, nt) {
        None => {
            assert(states@ =~= m.upd(s0, idx as int));
            0
        },
        Some((cost, action)) => {
            let mut s: State = states[idx];
            let before: u64 = s.total_cost;
            s.total_cost = cost;
            s.optimal_action = action;
            states.set(idx, s);
            assert(states@ =~= m.upd(s0, idx as int));
            if cost >= before {
                cost - before
            } else {
                before - cost
            }
        },
    }
}

} // verus!
