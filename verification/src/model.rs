//! The mathematical model: lattice, expected costs and the truncated Bellman
//! update that every solver applies in its own order.
use vstd::prelude::*;

use crate::action::{Action, StateTransition};
use crate::grid::{index3, lemma_index_bound, lemma_index_injective, on_axis, on_grid};
use crate::params::{MAX_COST, PROB_BASE};
use crate::state::{updatable, with_value, State};

verus! {

/// The lattice: `nx` by `ny` cells with `nt` headings each.
pub struct Grid {
    pub nx: int,
    pub ny: int,
    pub nt: int,
}

/// The part of the problem that no solver changes.
pub struct Model {
    pub grid: Grid,
    pub actions: Seq<Action>,
}

/// `2^64`: sums of costs are kept modulo this.
pub open spec fn word() -> int {
    0x1_0000_0000_0000_0000
}

impl Grid {
    /// Number of states of the lattice.
    pub open spec fn len(self) -> int {
        self.nx * self.ny * self.nt
    }

    /// The lattice fits an `i32`.
    pub open spec fn wf(self) -> bool {
        &&& 0 <= self.nx <= i32::MAX
        &&& 0 <= self.ny <= i32::MAX
        &&& 0 <= self.nt <= i32::MAX
        &&& self.len() <= i32::MAX
        &&& self.nx * self.ny <= i32::MAX
    }

    /// An outcome whose coordinates can be added to those of a state.
    pub open spec fn outcome_ok(self, tr: StateTransition) -> bool {
        &&& -i32::MAX <= tr.dix <= i32::MAX - self.nx
        &&& -i32::MAX <= tr.diy <= i32::MAX - self.ny
        &&& -self.nt <= tr.dit <= i32::MAX - self.nt
        &&& 0 <= tr.prob
    }

    /// `a` lists usable outcomes for every heading.
    pub open spec fn action_ok(self, a: Action) -> bool {
        &&& a.state_transitions@.len() == self.nt
        &&& forall|it: int, k: int|
            0 <= it < self.nt && 0 <= k < a.outcomes(it).len() ==> self.outcome_ok(
                #[trigger] a.outcomes(it)[k],
            )
    }

    /// `s` lists the states of the lattice, each at its own index.
    pub open spec fn located(self, s: Seq<State>) -> bool {
        &&& s.len() == self.len()
        &&& forall|i: int| 0 <= i < s.len() ==> self.located_at(#[trigger] s[i], i)
    }

    pub open spec fn located_at(self, st: State, i: int) -> bool {
        &&& on_grid(st.ix as int, st.iy as int, st.it as int, self.nx, self.ny, self.nt)
        &&& self.at(st.ix as int, st.iy as int, st.it as int) == i
    }

    /// Index of the state `(ix, iy, it)`.
    pub open spec fn at(self, ix: int, iy: int, it: int) -> int {
        index3(ix, iy, it, self.nx, self.nt)
    }

    /// Heading bin that an outcome ends in.
    pub open spec fn heading(self, tr: StateTransition) -> int {
        (tr.dit + self.nt) % self.nt
    }

    /// The outcome `tr` from `st` stays on the map.
    pub open spec fn stays(self, st: State, tr: StateTransition) -> bool {
        on_axis(st.ix + tr.dix, self.nx) && on_axis(st.iy + tr.diy, self.ny)
    }

    /// Index of the state that the outcome `tr` leads to from `st`.
    pub open spec fn succ(self, st: State, tr: StateTransition) -> int {
        self.at(st.ix + tr.dix, st.iy + tr.diy, self.heading(tr))
    }

    /// The outcome `tr` from `st` ends in a free state of the map.
    pub open spec fn lands(self, s: Seq<State>, st: State, tr: StateTransition) -> bool {
        self.stays(st, tr) && s[self.succ(st, tr)].free
    }

    /// All outcomes of `trs` from `st` end in free states of the map.
    pub open spec fn all_land(
        self,
        s: Seq<State>,
        st: State,
        trs: Seq<StateTransition>,
    ) -> bool {
        forall|k: int| 0 <= k < trs.len() ==> self.lands(s, st, #[trigger] trs[k])
    }

    /// Exact expected cost, times `PROB_BASE`, of the first `k` outcomes.
    pub open spec fn weighted(
        self,
        s: Seq<State>,
        st: State,
        trs: Seq<StateTransition>,
        k: int,
    ) -> int
        decreases k,
    {
        if k <= 0 {
            0
        } else {
            self.weighted(s, st, trs, k - 1) + step_cost(s[self.succ(st, trs[k - 1])]) * trs[k
                - 1].prob
        }
    }

    /// Expected cost of the outcomes `trs`: `MAX_COST` as soon as one of them
    /// leaves the map or ends in an occupied state, otherwise the sum kept in a
    /// machine word and scaled back by `PROB_BASE`.
    pub open spec fn outcomes_cost(
        self,
        s: Seq<State>,
        st: State,
        trs: Seq<StateTransition>,
    ) -> int {
        if self.all_land(s, st, trs) {
            (self.weighted(s, st, trs, trs.len() as int) % word()) / (PROB_BASE as int)
        } else {
            MAX_COST as int
        }
    }

    /// Expected cost of taking action `a` in the state `st`.
    pub open spec fn cost(self, s: Seq<State>, st: State, a: Action) -> int {
        self.outcomes_cost(s, st, a.outcomes(st.it as int))
    }
}

impl Model {
    /// The lattice fits an `i32` and every action has outcomes for every heading.
    pub open spec fn wf(self) -> bool {
        &&& self.grid.wf()
        &&& self.actions.len() <= usize::MAX
        &&& forall|a: int|
            0 <= a < self.actions.len() ==> self.grid.action_ok(#[trigger] self.actions[a])
    }

    /// Every policy entry names an action.
    pub open spec fn policy_ok(self, s: Seq<State>) -> bool {
        forall|i: int|
            0 <= i < s.len() ==> ((#[trigger] s[i]).optimal_action matches Some(a) ==> a
                < self.actions.len())
    }

    /// The least cost among the first `k` actions, and the first action that has
    /// it; `MAX_COST` and none where no action costs less than that.
    pub open spec fn best(self, s: Seq<State>, st: State, k: int) -> (int, Option<usize>)
        decreases k,
    {
        if k <= 0 {
            (MAX_COST as int, None)
        } else {
            let p = self.best(s, st, k - 1);
            let c = self.grid.cost(s, st, self.actions[k - 1]);
            if c < p.0 {
                (c, Some((k - 1) as usize))
            } else {
                p
            }
        }
    }

    /// The Bellman value of state `i` and the action that attains it.
    pub open spec fn bellman(self, s: Seq<State>, i: int) -> (int, Option<usize>) {
        self.best(s, s[i], self.actions.len() as int)
    }

    /// State `i` after its update.
    pub open spec fn updated(self, s: Seq<State>, i: int) -> State {
        if updatable(s[i]) {
            let b = self.bellman(s, i);
            with_value(s[i], b.0 as u64, b.1)
        } else {
            s[i]
        }
    }

    /// The states after the update of state `i`.
    pub open spec fn upd(self, s: Seq<State>, i: int) -> Seq<State> {
        s.update(i, self.updated(s, i))
    }

    /// How far the update of state `i` moves its value.
    pub open spec fn delta(self, s: Seq<State>, i: int) -> int {
        let old_cost = s[i].total_cost as int;
        let new_cost = self.updated(s, i).total_cost as int;
        if new_cost >= old_cost {
            new_cost - old_cost
        } else {
            old_cost - new_cost
        }
    }
}

/// What a step into `after` costs from there on.
pub open spec fn step_cost(after: State) -> int {
    after.total_cost + after.penalty + after.local_penalty
}

/// The heading after an outcome is a heading.
pub proof fn lemma_heading(g: Grid, tr: StateTransition)
    requires
        g.nt > 0,
        g.outcome_ok(tr),
    ensures
        on_axis(g.heading(tr), g.nt),
{
    vstd::arithmetic::div_mod::lemma_mod_bound(tr.dit + g.nt, g.nt);
}

/// Where an outcome stays on the map, its index lies in the lattice.
pub proof fn lemma_succ_bound(g: Grid, st: State, tr: StateTransition)
    requires
        g.wf(),
        g.nt > 0,
        g.outcome_ok(tr),
        g.stays(st, tr),
    ensures
        0 <= g.succ(st, tr) < g.len(),
{
    lemma_heading(g, tr);
    lemma_index_bound(st.ix + tr.dix, st.iy + tr.diy, g.heading(tr), g.nx, g.ny, g.nt);
}

/// The state stored at the index of `(ix, iy, it)` has those coordinates.
pub proof fn lemma_located(g: Grid, s: Seq<State>, ix: int, iy: int, it: int)
    requires
        g.located(s),
        on_grid(ix, iy, it, g.nx, g.ny, g.nt),
    ensures
        0 <= g.at(ix, iy, it) < s.len(),
        s[g.at(ix, iy, it)].ix == ix,
        s[g.at(ix, iy, it)].iy == iy,
        s[g.at(ix, iy, it)].it == it,
{
    lemma_index_bound(ix, iy, it, g.nx, g.ny, g.nt);
    let i = g.at(ix, iy, it);
    assert(g.located_at(s[i], i));
    lemma_index_injective(
        ix,
        iy,
        it,
        s[i].ix as int,
        s[i].iy as int,
        s[i].it as int,
        g.nx,
        g.nt,
    );
}

/// Sums of weighted costs are not negative.
pub proof fn lemma_weighted_nonneg(
    g: Grid,
    s: Seq<State>,
    st: State,
    trs: Seq<StateTransition>,
    k: int,
)
    requires
        forall|j: int| 0 <= j < trs.len() ==> 0 <= (#[trigger] trs[j]).prob,
        k <= trs.len(),
    ensures
        0 <= g.weighted(s, st, trs, k),
    decreases k,
{
    if k > 0 {
        lemma_weighted_nonneg(g, s, st, trs, k - 1);
        let c = step_cost(s[g.succ(st, trs[k - 1])]);
        let p = trs[k - 1].prob;
        assert(0 <= c * p) by (nonlinear_arith)
            requires
                0 <= c,
                0 <= p,
        ;
    }
}

/// A cost is at most `MAX_COST`.
pub proof fn lemma_cost_range(g: Grid, s: Seq<State>, st: State, a: Action)
    ensures
        0 <= g.cost(s, st, a) <= MAX_COST,
{
    let trs = a.outcomes(st.it as int);
    let w = g.weighted(s, st, trs, trs.len() as int);
    assert(0 <= w % word() < word());
}

/// The Bellman value is the least of `MAX_COST` and the costs of the actions, the
/// policy is the first action that attains it, and there is no policy exactly where
/// no action costs less than `MAX_COST`.
pub proof fn law_best_is_least(m: Model, s: Seq<State>, st: State, k: int)
    requires
        0 <= k <= m.actions.len() <= usize::MAX,
    ensures
        0 <= m.best(s, st, k).0 <= MAX_COST,
        forall|a: int|
            0 <= a < k ==> m.best(s, st, k).0 <= m.grid.cost(s, st, #[trigger] m.actions[a]),
        match m.best(s, st, k).1 {
            Some(a) => {
                &&& a < k
                &&& m.best(s, st, k).0 == m.grid.cost(s, st, m.actions[a as int])
                &&& m.best(s, st, k).0 < MAX_COST
                &&& forall|b: int|
                    0 <= b < a ==> m.best(s, st, k).0 < m.grid.cost(s, st, #[trigger] m.actions[b])
            },
            None => m.best(s, st, k).0 == MAX_COST && forall|a: int|
                0 <= a < k ==> MAX_COST <= m.grid.cost(s, st, #[trigger] m.actions[a]),
        },
    decreases k,
{
    if k > 0 {
        law_best_is_least(m, s, st, k - 1);
        lemma_cost_range(m.grid, s, st, m.actions[k - 1]);
    }
}

/// An update moves no state, and keeps every policy entry valid.
pub proof fn lemma_upd_keeps(m: Model, s: Seq<State>, i: int)
    requires
        m.grid.located(s),
        0 <= i < s.len(),
        m.actions.len() <= usize::MAX,
    ensures
        m.grid.located(m.upd(s, i)),
        m.policy_ok(s) ==> m.policy_ok(m.upd(s, i)),
        same_frame(s, m.upd(s, i)),
{
    let t = m.upd(s, i);
    law_best_is_least(m, s, s[i], m.actions.len() as int);
    assert forall|j: int| 0 <= j < t.len() implies m.grid.located_at(#[trigger] t[j], j) by {
        assert(m.grid.located_at(s[j], j));
    }
    assert forall|j: int| 0 <= j < t.len() implies same_place(s[j], #[trigger] t[j]) by {}
    if m.policy_ok(s) {
        assert forall|j: int| 0 <= j < t.len() implies ((#[trigger] t[j]).optimal_action matches Some(
            a,
        ) ==> a < m.actions.len()) by {
            assert(s[j].optimal_action matches Some(a) ==> a < m.actions.len());
        }
    }
}

/// Two states that differ at most in value and policy.
pub open spec fn same_place(a: State, b: State) -> bool {
    b == with_value(a, b.total_cost, b.optimal_action)
}

/// Two lists of states that differ at most in values and policies, and in those
/// only where value iteration writes.
pub open spec fn same_frame(s: Seq<State>, t: Seq<State>) -> bool {
    &&& s.len() == t.len()
    &&& forall|i: int| 0 <= i < s.len() ==> same_place(s[i], #[trigger] t[i])
    &&& forall|i: int| 0 <= i < s.len() && !updatable(s[i]) ==> #[trigger] t[i] == s[i]
}

/// Two states that are the same as far as costs go.
pub open spec fn same_cost(a: State, b: State) -> bool {
    &&& a.free == b.free
    &&& a.total_cost == b.total_cost
    &&& a.penalty == b.penalty
    &&& a.local_penalty == b.local_penalty
}

/// All states that an action leads to from `st` are the same in `s` and `t`, as far
/// as costs go.
pub open spec fn same_ahead(m: Model, s: Seq<State>, t: Seq<State>, st: State) -> bool {
    forall|a: int, k: int|
        #![trigger m.actions[a].outcomes(st.it as int)[k]]
        0 <= a < m.actions.len() && 0 <= k < m.actions[a].outcomes(st.it as int).len()
            && m.grid.stays(st, m.actions[a].outcomes(st.it as int)[k]) ==> same_cost(
            s[m.grid.succ(st, m.actions[a].outcomes(st.it as int)[k])],
            t[m.grid.succ(st, m.actions[a].outcomes(st.it as int)[k])],
        )
}

proof fn lemma_weighted_local(
    g: Grid,
    s: Seq<State>,
    t: Seq<State>,
    st: State,
    trs: Seq<StateTransition>,
    n: int,
)
    requires
        n <= trs.len(),
        forall|k: int| 0 <= k < trs.len() ==> g.stays(st, #[trigger] trs[k]),
        forall|k: int|
            0 <= k < trs.len() ==> same_cost(
                s[g.succ(st, #[trigger] trs[k])],
                t[g.succ(st, trs[k])],
            ),
    ensures
        g.weighted(s, st, trs, n) == g.weighted(t, st, trs, n),
    decreases n,
{
    if n > 0 {
        lemma_weighted_local(g, s, t, st, trs, n - 1);
        assert(g.stays(st, trs[n - 1]));
    }
}

/// The cost of an action depends on the states that it leads to only.
pub proof fn lemma_cost_local(
    g: Grid,
    s: Seq<State>,
    t: Seq<State>,
    st: State,
    trs: Seq<StateTransition>,
)
    requires
        forall|k: int|
            0 <= k < trs.len() && g.stays(st, #[trigger] trs[k]) ==> same_cost(
                s[g.succ(st, trs[k])],
                t[g.succ(st, trs[k])],
            ),
    ensures
        g.outcomes_cost(s, st, trs) == g.outcomes_cost(t, st, trs),
{
    if g.all_land(s, st, trs) {
        assert forall|k: int| 0 <= k < trs.len() implies g.lands(t, st, #[trigger] trs[k]) by {
            assert(g.lands(s, st, trs[k]));
        }
        lemma_weighted_local(g, s, t, st, trs, trs.len() as int);
    } else {
        assert(!g.all_land(t, st, trs)) by {
            let k = choose|k: int| 0 <= k < trs.len() && !g.lands(s, st, #[trigger] trs[k]);
            assert(!g.lands(t, st, trs[k]));
        }
    }
}

/// The best action depends on the states that actions lead to only.
pub proof fn lemma_best_local(m: Model, s: Seq<State>, t: Seq<State>, st: State, k: int)
    requires
        same_ahead(m, s, t, st),
        k <= m.actions.len(),
    ensures
        m.best(s, st, k) == m.best(t, st, k),
    decreases k,
{
    if k > 0 {
        lemma_best_local(m, s, t, st, k - 1);
        let trs = m.actions[k - 1].outcomes(st.it as int);
        assert forall|j: int| 0 <= j < trs.len() && m.grid.stays(st, #[trigger] trs[j]) implies same_cost(
            s[m.grid.succ(st, trs[j])],
            t[m.grid.succ(st, trs[j])],
        ) by {
            assert(m.actions[k - 1].outcomes(st.it as int)[j] == trs[j]);
        }
        lemma_cost_local(m.grid, s, t, st, trs);
    }
}

/// What is free decides which actions land.
pub proof fn lemma_land_same(
    m: Model,
    s: Seq<State>,
    t: Seq<State>,
    a: State,
    b: State,
    act: int,
)
    requires
        m.wf(),
        m.grid.located(s),
        same_frees(s, t),
        0 <= act < m.actions.len(),
        on_grid(a.ix as int, a.iy as int, a.it as int, m.grid.nx, m.grid.ny, m.grid.nt),
        a.ix == b.ix,
        a.iy == b.iy,
        a.it == b.it,
    ensures
        m.grid.all_land(s, a, m.actions[act].outcomes(a.it as int)) == m.grid.all_land(
            t,
            b,
            m.actions[act].outcomes(b.it as int),
        ),
        m.grid.all_land(s, a, m.actions[act].outcomes(a.it as int)) ==> forall|k: int|
            0 <= k < m.actions[act].outcomes(a.it as int).len() ==> 0 <= m.grid.succ(
                a,
                #[trigger] m.actions[act].outcomes(a.it as int)[k],
            ) < s.len(),
{
    let g = m.grid;
    let trs = m.actions[act].outcomes(a.it as int);
    assert(g.action_ok(m.actions[act]));
    assert forall|k: int| 0 <= k < trs.len() implies g.lands(s, a, #[trigger] trs[k]) == g.lands(
        t,
        b,
        trs[k],
    ) && (g.lands(s, a, trs[k]) ==> 0 <= g.succ(a, trs[k]) < s.len()) by {
        assert(g.outcome_ok(m.actions[act].outcomes(a.it as int)[k]));
        if g.stays(a, trs[k]) {
            lemma_succ_bound(g, a, trs[k]);
        }
    }
    if g.all_land(s, a, trs) {
        assert forall|k: int| 0 <= k < trs.len() implies g.lands(t, b, #[trigger] trs[k]) by {
            assert(g.lands(s, a, trs[k]));
        }
        assert forall|k: int| 0 <= k < trs.len() implies 0 <= g.succ(a, #[trigger] trs[k])
            < s.len() by {
            assert(g.lands(s, a, trs[k]));
        }
    }
    if g.all_land(t, b, trs) {
        assert forall|k: int| 0 <= k < trs.len() implies g.lands(s, a, #[trigger] trs[k]) by {
            assert(g.lands(t, b, trs[k]));
        }
    }
}

/// The same states are free.
pub open spec fn same_frees(s: Seq<State>, t: Seq<State>) -> bool {
    &&& s.len() == t.len()
    &&& forall|i: int| 0 <= i < s.len() ==> (#[trigger] s[i]).free == t[i].free
}

/// An action that costs the same everywhere ahead costs the same.
pub proof fn lemma_cost_landing(m: Model, s: Seq<State>, t: Seq<State>, st: State, a: int)
    requires
        m.wf(),
        m.grid.located(s),
        same_frees(s, t),
        on_grid(st.ix as int, st.iy as int, st.it as int, m.grid.nx, m.grid.ny, m.grid.nt),
        0 <= a < m.actions.len(),
        m.grid.all_land(s, st, m.actions[a].outcomes(st.it as int)) ==> forall|k: int|
            0 <= k < m.actions[a].outcomes(st.it as int).len() ==> same_cost(
                s[m.grid.succ(st, #[trigger] m.actions[a].outcomes(st.it as int)[k])],
                t[m.grid.succ(st, m.actions[a].outcomes(st.it as int)[k])],
            ),
    ensures
        m.grid.cost(s, st, m.actions[a]) == m.grid.cost(t, st, m.actions[a]),
{
    lemma_land_same(m, s, t, st, st, a);
    let trs = m.actions[a].outcomes(st.it as int);
    if m.grid.all_land(s, st, trs) {
        assert forall|j: int| 0 <= j < trs.len() implies same_cost(
            s[m.grid.succ(st, #[trigger] trs[j])],
            t[m.grid.succ(st, trs[j])],
        ) by {
            assert(m.actions[a].outcomes(st.it as int)[j] == trs[j]);
        }
        lemma_cost_local(m.grid, s, t, st, trs);
    }
}

/// If every action costs the same in both fields, or more than `cap` in both, then so does
/// the best, and where it costs no more than that it is the same action.
pub proof fn lemma_best_within(
    m: Model,
    s: Seq<State>,
    t: Seq<State>,
    st: State,
    k: int,
    cap: int,
)
    requires
        0 <= k <= m.actions.len(),
        forall|a: int|
            0 <= a < m.actions.len() ==> {
                let (x, y) = (
                    m.grid.cost(s, st, #[trigger] m.actions[a]),
                    m.grid.cost(t, st, m.actions[a]),
                );
                x == y || (cap < x && cap < y)
            },
    ensures
        m.best(s, st, k) == m.best(t, st, k) || (cap < m.best(s, st, k).0 && cap < m.best(
            t,
            st,
            k,
        ).0),
    decreases k,
{
    if k > 0 {
        lemma_best_within(m, s, t, st, k - 1, cap);
        let a = m.actions[k - 1];
        assert(m.grid.cost(s, st, a) == m.grid.cost(t, st, a) || (cap < m.grid.cost(s, st, a)
            && cap < m.grid.cost(t, st, a)));
    }
}

/// Best actions are looked up by place: value and policy of the state itself do not
/// matter.
pub proof fn lemma_best_place(m: Model, s: Seq<State>, a: State, b: State, k: int)
    requires
        a.ix == b.ix,
        a.iy == b.iy,
        a.it == b.it,
        k <= m.actions.len(),
    ensures
        m.best(s, a, k) == m.best(s, b, k),
    decreases k,
{
    if k > 0 {
        lemma_best_place(m, s, a, b, k - 1);
        let trs = m.actions[k - 1].outcomes(a.it as int);
        lemma_weighted_place(m.grid, s, a, b, trs, trs.len() as int);
        assert(m.grid.all_land(s, a, trs) == m.grid.all_land(s, b, trs)) by {
            assert forall|j: int| 0 <= j < trs.len() implies m.grid.lands(s, a, #[trigger] trs[j])
                == m.grid.lands(s, b, trs[j]) by {}
            if m.grid.all_land(s, a, trs) {
                assert forall|j: int| 0 <= j < trs.len() implies m.grid.lands(
                    s,
                    b,
                    #[trigger] trs[j],
                ) by {
                    assert(m.grid.lands(s, a, trs[j]));
                }
            }
            if m.grid.all_land(s, b, trs) {
                assert forall|j: int| 0 <= j < trs.len() implies m.grid.lands(
                    s,
                    a,
                    #[trigger] trs[j],
                ) by {
                    assert(m.grid.lands(s, b, trs[j]));
                }
            }
        }
    }
}

pub proof fn lemma_weighted_place(
    g: Grid,
    s: Seq<State>,
    a: State,
    b: State,
    trs: Seq<StateTransition>,
    n: int,
)
    requires
        a.ix == b.ix,
        a.iy == b.iy,
    ensures
        g.weighted(s, a, trs, n) == g.weighted(s, b, trs, n),
    decreases n,
{
    if n > 0 {
        lemma_weighted_place(g, s, a, b, trs, n - 1);
    }
}

/// State `i` has its Bellman value.
pub open spec fn consistent(m: Model, s: Seq<State>, i: int) -> bool {
    updatable(s[i]) ==> s[i].total_cost == m.bellman(s, i).0
}

/// State `i` has its Bellman value and the action that attains it: an update changes
/// nothing.
pub open spec fn at_rest(m: Model, s: Seq<State>, i: int) -> bool {
    updatable(s[i]) ==> s[i] == m.updated(s, i)
}

/// A state at rest has its Bellman value.
pub proof fn lemma_rest_is_consistent(m: Model, s: Seq<State>, i: int)
    requires
        m.wf(),
        at_rest(m, s, i),
    ensures
        consistent(m, s, i),
{
    law_best_is_least(m, s, s[i], m.actions.len() as int);
}

/// Being the same up to values and policies carries over.
pub proof fn lemma_frame_trans(a: Seq<State>, b: Seq<State>, c: Seq<State>)
    requires
        same_frame(a, b),
        same_frame(b, c),
    ensures
        same_frame(a, c),
{
    assert forall|i: int| 0 <= i < a.len() implies same_place(a[i], #[trigger] c[i]) by {
        assert(same_place(a[i], b[i]));
        assert(same_place(b[i], c[i]));
    }
    assert forall|i: int| 0 <= i < a.len() && !updatable(a[i]) implies #[trigger] c[i] == a[i] by {
        assert(b[i] == a[i]);
        assert(c[i] == b[i]);
    }
}

} // verus!
