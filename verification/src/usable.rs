//! Tests whether a problem that came from elsewhere is one that the solvers take.
use vstd::prelude::*;

use crate::action::Action;
use crate::grid::{lemma_index_bound, to_index_raw};
use crate::state::State;
use crate::value_iterator::{grid_of, ValueIterator};

verus! {

/// Whether an action lists usable outcomes for every heading of the lattice.
fn action_usable(a: &Action, nx: i32, ny: i32, nt: i32) -> (r: bool)
    requires
        grid_of(nx, ny, nt).wf(),
    ensures
        r == grid_of(nx, ny, nt).action_ok(*a),
{
    let ghost g = grid_of(nx, ny, nt);
    if a.state_transitions.len() != nt as usize {
        return false;
    }
    let mut it: usize = 0;
    while it < a.state_transitions.len()
        invariant
            g == grid_of(nx, ny, nt),
            g.wf(),
            a.state_transitions@.len() == nt,
            it <= a.state_transitions@.len(),
            forall|h: int, k: int|
                0 <= h < it && 0 <= k < a.outcomes(h).len() ==> g.outcome_ok(
                    #[trigger] a.outcomes(h)[k],
                ),
        decreases a.state_transitions@.len() - it,
    {
        let row = &a.state_transitions[it];
        let mut j: usize = 0;
        while j < row.len()
            invariant
                g == grid_of(nx, ny, nt),
                g.wf(),
                a.state_transitions@.len() == nt,
                it < a.state_transitions@.len(),
                row@ == a.outcomes(it as int),
                j <= row@.len(),
                forall|k: int| 0 <= k < j ==> g.outcome_ok(#[trigger] row@[k]),
            decreases row@.len() - j,
        {
            let tr = &row[j];
            let fits: bool = -i32::MAX <= tr.dix && tr.dix <= i32::MAX - nx && -i32::MAX <= tr.diy
                && tr.diy <= i32::MAX - ny && -nt <= tr.dit && tr.dit <= i32::MAX - nt && 0
                <= tr.prob;
            if !fits {
                assert(!g.outcome_ok(a.outcomes(it as int)[j as int]));
                return false;
            }
            j += 1;
        }
        it += 1;
    }
    true
}

/// Whether a state lies where index `i` of the lattice does.
fn state_usable(st: &State, i: usize, nx: i32, ny: i32, nt: i32) -> (r: bool)
    requires
        grid_of(nx, ny, nt).wf(),
        i < grid_of(nx, ny, nt).len(),
    ensures
        r == grid_of(nx, ny, nt).located_at(*st, i as int),
{
    if st.ix < 0 || st.ix >= nx || st.iy < 0 || st.iy >= ny || st.it < 0 || st.it >= nt {
        return false;
    }
    proof {
        lemma_index_bound(
            st.ix as int,
            st.iy as int,
            st.it as int,
            nx as int,
            ny as int,
            nt as int,
        );
        assert(nx * (st.iy + 1) * nt <= nx * ny * nt) by (nonlinear_arith)
            requires
                0 <= nx,
                0 <= nt,
                0 <= st.iy < ny,
        ;
    }
    to_index_raw(st.ix, st.iy, st.it, nx, nt) as usize == i
}

impl ValueIterator {
    /// Whether the model is usable, the states lie where they belong, and the policy
    /// names existing actions.
    pub fn is_usable(&self) -> (r: bool)
        ensures
            r == self.wf(),
    {
        let (nx, ny, nt) = (self.cell_num_x, self.cell_num_y, self.cell_num_t);
        let ghost g = self.grid();
        if nx < 0 || ny < 0 || nt < 0 {
            return false;
        }
        assert(0 <= nx * ny <= 0x7fff_ffff * 0x7fff_ffff) by (nonlinear_arith)
            requires
                0 <= nx <= 0x7fff_ffff,
                0 <= ny <= 0x7fff_ffff,
        ;
        let plane: i64 = nx as i64 * ny as i64;
        if plane > i32::MAX as i64 {
            return false;
        }
        assert(0 <= plane * nt <= 0x7fff_ffff * 0x7fff_ffff) by (nonlinear_arith)
            requires
                0 <= plane <= 0x7fff_ffff,
                0 <= nt <= 0x7fff_ffff,
        ;
        let n: i64 = plane * nt as i64;
        if n > i32::MAX as i64 || self.states.len() != n as usize {
            return false;
        }
        let mut a: usize = 0;
        while a < self.actions.len()
            invariant
                g == self.grid(),
                g == grid_of(nx, ny, nt),
                g.wf(),
                a <= self.actions@.len(),
                forall|b: int| 0 <= b < a ==> g.action_ok(#[trigger] self.actions@[b]),
            decreases self.actions@.len() - a,
        {
            if !action_usable(&self.actions[a], nx, ny, nt) {
                assert(!g.action_ok(self.model().actions[a as int]));
                return false;
            }
            a += 1;
        }
        let mut i: usize = 0;
        while i < self.states.len()
            invariant
                g == self.grid(),
                g == grid_of(nx, ny, nt),
                g.wf(),
                self.states@.len() == g.len(),
                i <= self.states@.len(),
                forall|j: int| 0 <= j < i ==> g.located_at(#[trigger] self.states@[j], j),
                forall|j: int|
                    0 <= j < i ==> ((#[trigger] self.states@[j]).optimal_action matches Some(b) ==> b
                        < self.actions@.len()),
            decreases self.states@.len() - i,
        {
            let st = &self.states[i];
            if !state_usable(st, i, nx, ny, nt) {
                assert(!g.located_at(self.states@[i as int], i as int));
                return false;
            }
            if let Some(b) = st.optimal_action {
                if b >= self.actions.len() {
                    assert(!self.model().policy_ok(self.states@)) by {
                        assert(self.states@[i as int].optimal_action == Some(b));
                    }
                    return false;
                }
            }
            i += 1;
        }
        true
    }
}

} // verus!
