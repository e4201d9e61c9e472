//! Handing a goal to the kernels and reading their result back.
use vstd::prelude::*;

use crate::params::MAX_COST;
use crate::solvers::gpu::layout::{lemma_padded, GpuLayout};
use crate::state::{with_value, State};
use crate::value_iterator::ValueIterator;

verus! {

/// Where a solve starts.
pub struct GoalMarks {
    /// Goal states.
    pub fins: Vec<u8>,
    /// Cells that hold a goal state, as flags and as a list.
    pub chg_flag: Vec<u32>,
    pub chg0: Vec<u32>,
}

/// Position of the state `st` in the planes.
pub open spec fn spot(l: GpuLayout, st: State) -> int {
    l.at(st.ix as int, st.iy as int, st.it as int)
}

/// Position of the cell of `st` in a plane.
pub open spec fn cell_spot(l: GpuLayout, st: State) -> int {
    l.column(st.ix as int, st.iy as int)
}

/// One of the first `n` states is a goal and stands at position `j`.
pub open spec fn goal_at(l: GpuLayout, s: Seq<State>, n: int, j: int) -> bool {
    exists|i: int| 0 <= i < n && (#[trigger] s[i]).final_state && spot(l, s[i]) == j
}

/// One of the first `n` states is a goal and stands in the cell at position `c`.
pub open spec fn goal_in(l: GpuLayout, s: Seq<State>, n: int, c: int) -> bool {
    exists|i: int| 0 <= i < n && (#[trigger] s[i]).final_state && cell_spot(l, s[i]) == c
}

impl GoalMarks {
    /// The marks for the first `n` of the states `s`.
    pub open spec fn marks(self, l: GpuLayout, s: Seq<State>, n: int) -> bool {
        &&& self.fins@.len() == l.len()
        &&& self.chg_flag@.len() == l.plane()
        &&& forall|j: int|
            0 <= j < l.len() ==> #[trigger] self.fins@[j] == if goal_at(l, s, n, j) {
                1u8
            } else {
                0u8
            }
        &&& forall|c: int|
            0 <= c < l.plane() ==> #[trigger] self.chg_flag@[c] == if goal_in(l, s, n, c) {
                1u32
            } else {
                0u32
            }
        &&& self.chg0@.no_duplicates()
        &&& forall|c: u32|
            #[trigger] self.chg0@.contains(c) <==> c < l.plane() && self.chg_flag@[c as int] == 1
    }

    /// The marks for the goal states of a map.
    pub fn new(vi: &ValueIterator, l: &GpuLayout) -> (r: GoalMarks)
        requires
            vi.wf(),
            l.wf(),
            l.lays_out(*vi),
        ensures
            r.marks(*l, vi.states@, vi.states@.len() as int),
    {
        let ghost s = vi.states@;
        let ghost ll = *l;
        let n_cols: usize = l.n_cols();
        let n_pad: usize = l.n_pad();
        let mut m = GoalMarks {
            fins: vec![0; n_pad],
            chg_flag: vec![0; n_cols],
            chg0: Vec::new(),
        };
        let mut i: usize = 0;
        while i < vi.states.len()
            invariant
                vi.wf(),
                l.wf(),
                l.lays_out(*vi),
                s == vi.states@,
                ll == *l,
                n_cols == l.plane(),
                i <= s.len(),
                m.marks(ll, s, i as int),
            decreases vi.states.len() - i,
        {
            let st: State = vi.states[i];
            let ghost m0 = m;
            assert(vi.grid().located_at(s[i as int], i as int));
            if st.final_state {
                let j: usize = l.idx(st.ix, st.iy, st.it);
                m.fins.set(j, 1);
                let c: usize = j % n_cols;
                if m.chg_flag[c] == 0 {
                    m.chg_flag.set(c, 1);
                    m.chg0.push(c as u32);
                }
                proof {
                    lemma_mark(ll, s, i as int, m0, m);
                }
            } else {
                proof {
                    lemma_skip(ll, s, i as int, m0);
                }
            }
            i += 1;
        }
        m
    }
}

proof fn lemma_goal_step(l: GpuLayout, s: Seq<State>, i: int)
    requires
        0 <= i < s.len(),
    ensures
        forall|j: int|
            #[trigger] goal_at(l, s, i + 1, j) <==> goal_at(l, s, i, j) || s[i].final_state
                && spot(l, s[i]) == j,
        forall|c: int|
            #[trigger] goal_in(l, s, i + 1, c) <==> goal_in(l, s, i, c) || s[i].final_state
                && cell_spot(l, s[i]) == c,
{
    assert forall|j: int|
        #[trigger] goal_at(l, s, i + 1, j) <==> goal_at(l, s, i, j) || s[i].final_state && spot(
            l,
            s[i],
        ) == j by {
        if goal_at(l, s, i + 1, j) {
            let k = choose|k: int|
                0 <= k < i + 1 && (#[trigger] s[k]).final_state && spot(l, s[k]) == j;
            if k < i {
                assert(goal_at(l, s, i, j));
            }
        }
        if goal_at(l, s, i, j) {
            let k = choose|k: int|
                0 <= k < i && (#[trigger] s[k]).final_state && spot(l, s[k]) == j;
            assert(s[k].final_state);
        }
    }
    assert forall|c: int|
        #[trigger] goal_in(l, s, i + 1, c) <==> goal_in(l, s, i, c) || s[i].final_state
            && cell_spot(l, s[i]) == c by {
        if goal_in(l, s, i + 1, c) {
            let k = choose|k: int|
                0 <= k < i + 1 && (#[trigger] s[k]).final_state && cell_spot(l, s[k]) == c;
            if k < i {
                assert(goal_in(l, s, i, c));
            }
        }
        if goal_in(l, s, i, c) {
            let k = choose|k: int|
                0 <= k < i && (#[trigger] s[k]).final_state && cell_spot(l, s[k]) == c;
            assert(s[k].final_state);
        }
    }
}

proof fn lemma_skip(l: GpuLayout, s: Seq<State>, i: int, m: GoalMarks)
    requires
        0 <= i < s.len(),
        !s[i].final_state,
        m.marks(l, s, i),
    ensures
        m.marks(l, s, i + 1),
{
    lemma_goal_step(l, s, i);
}

proof fn lemma_mark(l: GpuLayout, s: Seq<State>, i: int, m0: GoalMarks, m: GoalMarks)
    requires
        l.wf(),
        0 <= i < s.len(),
        s[i].final_state,
        m0.marks(l, s, i),
        0 <= spot(l, s[i]) < l.len(),
        0 <= cell_spot(l, s[i]) < l.plane(),
        m.fins@ == m0.fins@.update(spot(l, s[i]), 1),
        ({
            let c = cell_spot(l, s[i]);
            if m0.chg_flag@[c] == 0 {
                m.chg_flag@ == m0.chg_flag@.update(c, 1) && m.chg0@ == m0.chg0@.push(c as u32)
            } else {
                m.chg_flag@ == m0.chg_flag@ && m.chg0@ == m0.chg0@
            }
        }),
    ensures
        m.marks(l, s, i + 1),
{
    lemma_goal_step(l, s, i);
    let c = cell_spot(l, s[i]);
    assert(m0.chg_flag@[c] == 0 || m0.chg_flag@[c] == 1);
    if m0.chg_flag@[c] == 0 {
        assert(!m0.chg0@.contains(c as u32));
        assert forall|d: u32| #[trigger] m.chg0@.contains(d) <==> d < l.plane()
            && m.chg_flag@[d as int] == 1 by {
            if m.chg0@.contains(d) {
                let k = choose|k: int| 0 <= k < m.chg0@.len() && m.chg0@[k] == d;
                if k < m0.chg0@.len() {
                    assert(m0.chg0@[k] == d);
                    assert(m0.chg0@.contains(d));
                }
            }
            if d < l.plane() && m.chg_flag@[d as int] == 1 {
                if d == c {
                    assert(m.chg0@[m0.chg0@.len() as int] == d);
                } else {
                    assert(m0.chg0@.contains(d));
                    let k = choose|k: int| 0 <= k < m0.chg0@.len() && m0.chg0@[k] == d;
                    assert(m.chg0@[k] == d);
                }
            }
        }
        assert(m.chg0@.no_duplicates()) by {
            assert forall|a: int, b: int|
                0 <= a < b < m.chg0@.len() implies m.chg0@[a] != m.chg0@[b] by {
                if b == m0.chg0@.len() {
                    assert(m0.chg0@[a] == m.chg0@[a]);
                    assert(m0.chg0@.contains(m0.chg0@[a]));
                } else {
                    assert(m0.chg0@[a] != m0.chg0@[b]);
                }
            }
        }
    }
}

/// The policy that a kernel's choice stands for: none for a goal or an unreached
/// state, and none where the kernel found no action.
pub open spec fn chosen(final_state: bool, value: u64, opt: i8) -> Option<usize> {
    if final_state || value >= MAX_COST || opt < 0 {
        None
    } else {
        Some(opt as usize)
    }
}

/// The state `st` with the value and policy that the kernels left.
pub open spec fn read_back(l: GpuLayout, st: State, vals: Seq<u64>, opt: Seq<i8>) -> State {
    let j = spot(l, st);
    with_value(st, vals[j], chosen(st.final_state, vals[j], opt[j]))
}

/// No entry of `opt` names an action beyond the first `n`.
pub open spec fn names_actions(opt: Seq<i8>, n: int) -> bool {
    forall|j: int| 0 <= j < opt.len() ==> #[trigger] opt[j] < n
}

/// Takes the values and the policy over from the kernels.
pub fn write_back(vi: &mut ValueIterator, l: &GpuLayout, vals: &Vec<u64>, opt: &Vec<i8>)
    requires
        old(vi).wf(),
        l.wf(),
        l.lays_out(*old(vi)),
        vals@.len() == l.len(),
        opt@.len() == l.len(),
    ensures
        final(vi).has_states(*old(vi), final(vi).states@),
        final(vi).states@.len() == old(vi).states@.len(),
        forall|i: int|
            0 <= i < old(vi).states@.len() ==> #[trigger] final(vi).states@[i] == read_back(
                *l,
                old(vi).states@[i],
                vals@,
                opt@,
            ),
        names_actions(opt@, old(vi).actions@.len() as int) ==> final(vi).wf(),
{
    let ghost v0 = *vi;
    let mut i: usize = 0;
    while i < vi.states.len()
        invariant
            v0.wf(),
            l.wf(),
            l.lays_out(v0),
            vals@.len() == l.len(),
            opt@.len() == l.len(),
            vi.has_states(v0, vi.states@),
            vi.states@.len() == v0.states@.len(),
            i <= vi.states@.len(),
            forall|k: int|
                0 <= k < i ==> #[trigger] vi.states@[k] == read_back(
                    *l,
                    v0.states@[k],
                    vals@,
                    opt@,
                ),
            forall|k: int| i <= k < v0.states@.len() ==> #[trigger] vi.states@[k] == v0.states@[k],
        decreases vi.states.len() - i,
    {
        let mut st: State = vi.states[i];
        assert(v0.grid().located_at(v0.states@[i as int], i as int));
        let j: usize = l.idx(st.ix, st.iy, st.it);
        st.total_cost = vals[j];
        st.optimal_action = if st.final_state || vals[j] >= MAX_COST || opt[j] < 0 {
            None
        } else {
            Some(opt[j] as usize)
        };
        vi.states.set(i, st);
        i += 1;
    }
    proof {
        assert forall|k: int| 0 <= k < vi.states@.len() implies v0.grid().located_at(
            #[trigger] vi.states@[k],
            k,
        ) by {
            assert(v0.grid().located_at(v0.states@[k], k));
        }
        if names_actions(opt@, v0.actions@.len() as int) {
            assert forall|k: int| 0 <= k < vi.states@.len() implies (
            #[trigger] vi.states@[k]).optimal_action matches Some(a) ==> a < v0.actions@.len() by {
                let j = spot(*l, v0.states@[k]);
                assert(v0.grid().located_at(v0.states@[k], k));
                let st = v0.states@[k];
                lemma_padded(*l, st.ix + l.mx, st.iy + l.my, st.it as int);
                assert(opt@[j] < v0.actions@.len());
            }
        }
    }
}

/// What is read back of a state is its own value, and an action only where the state is no
/// goal, has a value, and an action is named.
pub proof fn law_read_back_is_its_own(l: GpuLayout, st: State, vals: Seq<u64>, opt: Seq<i8>)
    ensures
        ({
            let j = l.at(st.ix as int, st.iy as int, st.it as int);
            let new = read_back(l, st, vals, opt);
            let acts = !st.final_state && vals[j] < MAX_COST && opt[j] >= 0;
            &&& new.total_cost == vals[j]
            &&& acts ==> new.optimal_action == Some(opt[j] as usize)
            &&& !acts ==> new.optimal_action is None
            &&& new == (State {
                total_cost: new.total_cost,
                optimal_action: new.optimal_action,
                ..st
            })
        }),
{
}

} // verus!
