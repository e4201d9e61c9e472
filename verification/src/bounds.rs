//! Order and bounds: the Bellman update is monotone, commutes with constants, and
//! keeps a field above every valuation that no action can improve on.
use vstd::prelude::*;

use crate::action::{Action, StateTransition};
use crate::grid::on_grid;
use crate::model::{
    consistent, law_best_is_least, lemma_best_place, lemma_cost_range, lemma_located, lemma_succ_bound,
    lemma_upd_keeps, lemma_weighted_nonneg, same_place, step_cost, word, Grid, Model,
};
use crate::params::{MAX_COST, PROB_BASE};
use crate::state::{updatable, State};

verus! {

/// Number of samples among the first `k` outcomes.
pub open spec fn mass(trs: Seq<StateTransition>, k: int) -> int
    decreases k,
{
    if k <= 0 {
        0
    } else {
        mass(trs, k - 1) + trs[k - 1].prob
    }
}

/// The samples of every action add up to `PROB_BASE`.
pub open spec fn full_mass(m: Model) -> bool {
    forall|a: int, it: int|
        #![trigger m.actions[a].outcomes(it)]
        0 <= a < m.actions.len() && 0 <= it < m.grid.nt ==> mass(
            m.actions[a].outcomes(it),
            m.actions[a].outcomes(it).len() as int,
        ) == PROB_BASE
}

/// No sum of costs of an action from `st` leaves a machine word.
pub open spec fn exact_from(m: Model, s: Seq<State>, st: State) -> bool {
    forall|a: int|
        0 <= a < m.actions.len() && m.grid.all_land(
            s,
            st,
            (#[trigger] m.actions[a]).outcomes(st.it as int),
        ) ==> m.grid.weighted(
            s,
            st,
            m.actions[a].outcomes(st.it as int),
            m.actions[a].outcomes(st.it as int).len() as int,
        ) < word()
}

/// All outcomes of action `a` from `st` end in `r`.
pub open spec fn stays_in(m: Model, st: State, a: int, r: Set<int>) -> bool {
    forall|k: int|
        0 <= k < m.actions[a].outcomes(st.it as int).len() ==> r.contains(
            m.grid.succ(st, #[trigger] m.actions[a].outcomes(st.it as int)[k]),
        )
}

/// Every action from `st` that lands stays in `r`, without its sum of costs leaving a
/// machine word, or comes out at no less than `cap`.
pub open spec fn safe_from(m: Model, s: Seq<State>, st: State, cap: int, r: Set<int>) -> bool {
    forall|a: int|
        0 <= a < m.actions.len() && m.grid.all_land(
            s,
            st,
            (#[trigger] m.actions[a]).outcomes(st.it as int),
        ) ==> (stays_in(m, st, a, r) && m.grid.weighted(
            s,
            st,
            m.actions[a].outcomes(st.it as int),
            m.actions[a].outcomes(st.it as int).len() as int,
        ) < word()) || cap <= m.grid.cost(s, st, m.actions[a])
}

/// `t` is the field `s` with no value lowered.
pub open spec fn raised(s: Seq<State>, t: Seq<State>) -> bool {
    &&& s.len() == t.len()
    &&& forall|i: int|
        0 <= i < s.len() ==> {
            &&& same_place(s[i], #[trigger] t[i])
            &&& s[i].total_cost <= t[i].total_cost
        }
}

proof fn lemma_weighted_raised(
    g: Grid,
    s: Seq<State>,
    t: Seq<State>,
    st: State,
    trs: Seq<StateTransition>,
    k: int,
)
    requires
        raised(s, t),
        0 <= k <= trs.len(),
        forall|j: int| 0 <= j < trs.len() ==> 0 <= (#[trigger] trs[j]).prob,
        forall|j: int| 0 <= j < trs.len() ==> 0 <= g.succ(st, #[trigger] trs[j]) < s.len(),
    ensures
        g.weighted(s, st, trs, k) <= g.weighted(t, st, trs, k),
    decreases k,
{
    if k > 0 {
        lemma_weighted_raised(g, s, t, st, trs, k - 1);
        let j = g.succ(st, trs[k - 1]);
        assert(same_place(s[j], t[j]));
        let (a, b, p) = (step_cost(s[j]), step_cost(t[j]), trs[k - 1].prob as int);
        assert(a * p <= b * p) by (nonlinear_arith)
            requires
                a <= b,
                0 <= p,
        ;
    }
}

/// Raising a field raises the costs of all actions, as long as no sum overflows.
pub proof fn law_cost_is_monotone(m: Model, s: Seq<State>, t: Seq<State>, st: State, a: int)
    requires
        m.wf(),
        m.grid.located(s),
        raised(s, t),
        on_grid(st.ix as int, st.iy as int, st.it as int, m.grid.nx, m.grid.ny, m.grid.nt),
        0 <= a < m.actions.len(),
        exact_from(m, t, st),
    ensures
        m.grid.cost(s, st, m.actions[a]) <= m.grid.cost(t, st, m.actions[a]),
{
    let g = m.grid;
    let trs = m.actions[a].outcomes(st.it as int);
    let n = trs.len() as int;
    assert(g.action_ok(m.actions[a]));
    assert forall|k: int| 0 <= k < trs.len() implies g.outcome_ok(#[trigger] trs[k]) by {
        assert(g.outcome_ok(m.actions[a].outcomes(st.it as int)[k]));
    }
    assert forall|k: int| 0 <= k < trs.len() implies g.lands(s, st, #[trigger] trs[k]) == g.lands(
        t,
        st,
        trs[k],
    ) by {
        if g.stays(st, trs[k]) {
            lemma_succ_bound(g, st, trs[k]);
            assert(same_place(s[g.succ(st, trs[k])], t[g.succ(st, trs[k])]));
        }
    }
    lemma_cost_range(g, s, st, m.actions[a]);
    if g.all_land(t, st, trs) {
        assert(g.all_land(s, st, trs)) by {
            assert forall|k: int| 0 <= k < trs.len() implies g.lands(s, st, #[trigger] trs[k]) by {
                assert(g.lands(t, st, trs[k]));
            }
        }
        assert forall|j: int| 0 <= j < trs.len() implies 0 <= g.succ(st, #[trigger] trs[j])
            < s.len() by {
            assert(g.lands(t, st, trs[j]));
            lemma_succ_bound(g, st, trs[j]);
        }
        lemma_weighted_raised(g, s, t, st, trs, n);
        lemma_weighted_nonneg(g, s, st, trs, n);
        let (x, y) = (g.weighted(s, st, trs, n), g.weighted(t, st, trs, n));
        vstd::arithmetic::div_mod::lemma_small_mod(x as nat, word() as nat);
        vstd::arithmetic::div_mod::lemma_small_mod(y as nat, word() as nat);
        vstd::arithmetic::div_mod::lemma_div_is_ordered(x, y, PROB_BASE as int);
    }
}

proof fn lemma_best_monotone(m: Model, s: Seq<State>, t: Seq<State>, st: State, k: int)
    requires
        m.wf(),
        m.grid.located(s),
        raised(s, t),
        on_grid(st.ix as int, st.iy as int, st.it as int, m.grid.nx, m.grid.ny, m.grid.nt),
        0 <= k <= m.actions.len(),
        exact_from(m, t, st),
    ensures
        m.best(s, st, k).0 <= m.best(t, st, k).0,
    decreases k,
{
    if k > 0 {
        lemma_best_monotone(m, s, t, st, k - 1);
        law_cost_is_monotone(m, s, t, st, k - 1);
    }
}

/// Raising a field raises its Bellman values, as long as no sum overflows.
pub proof fn law_bellman_is_monotone(m: Model, s: Seq<State>, t: Seq<State>, i: int)
    requires
        m.wf(),
        m.grid.located(s),
        raised(s, t),
        0 <= i < s.len(),
        exact_from(m, t, t[i]),
    ensures
        m.bellman(s, i).0 <= m.bellman(t, i).0,
{
    assert(m.grid.located_at(s[i], i));
    assert(same_place(s[i], t[i]));
    lemma_best_monotone(m, s, t, t[i], m.actions.len() as int);
    lemma_best_place(m, s, s[i], t[i], m.actions.len() as int);
}

proof fn lemma_weighted_shift(
    g: Grid,
    s: Seq<State>,
    t: Seq<State>,
    st: State,
    trs: Seq<StateTransition>,
    k: int,
    d: int,
)
    requires
        0 <= k <= trs.len(),
        forall|j: int|
            0 <= j < trs.len() ==> step_cost(t[g.succ(st, #[trigger] trs[j])]) == step_cost(
                s[g.succ(st, trs[j])],
            ) + d,
    ensures
        g.weighted(t, st, trs, k) == g.weighted(s, st, trs, k) + d * mass(trs, k),
    decreases k,
{
    if k > 0 {
        lemma_weighted_shift(g, s, t, st, trs, k - 1, d);
        let j = g.succ(st, trs[k - 1]);
        let (a, p, w) = (step_cost(s[j]), trs[k - 1].prob as int, mass(trs, k - 1));
        assert(step_cost(t[j]) == a + d);
        assert((a + d) * p == a * p + d * p) by (nonlinear_arith);
        assert(d * (w + p) == d * w + d * p) by (nonlinear_arith);
    } else {
        assert(d * mass(trs, 0) == 0);
    }
}

/// Raising all values by a constant raises the cost of an action that stays clear
/// by exactly that constant: rounding down commutes with it, because the samples add
/// up to `PROB_BASE`.
pub proof fn law_cost_shifts(
    m: Model,
    s: Seq<State>,
    t: Seq<State>,
    st: State,
    a: int,
    d: int,
)
    requires
        m.wf(),
        m.grid.located(s),
        full_mass(m),
        on_grid(st.ix as int, st.iy as int, st.it as int, m.grid.nx, m.grid.ny, m.grid.nt),
        0 <= a < m.actions.len(),
        0 <= d,
        s.len() == t.len(),
        forall|i: int|
            0 <= i < s.len() ==> same_place(s[i], #[trigger] t[i]) && t[i].total_cost
                == s[i].total_cost + d,
        m.grid.all_land(s, st, m.actions[a].outcomes(st.it as int)),
        exact_from(m, t, st),
    ensures
        m.grid.cost(t, st, m.actions[a]) == m.grid.cost(s, st, m.actions[a]) + d,
{
    let g = m.grid;
    let trs = m.actions[a].outcomes(st.it as int);
    let n = trs.len() as int;
    assert(g.action_ok(m.actions[a]));
    assert forall|k: int| 0 <= k < trs.len() implies g.outcome_ok(#[trigger] trs[k]) by {
        assert(g.outcome_ok(m.actions[a].outcomes(st.it as int)[k]));
    }
    assert forall|k: int| 0 <= k < trs.len() implies g.lands(t, st, #[trigger] trs[k]) by {
        assert(g.lands(s, st, trs[k]));
        lemma_succ_bound(g, st, trs[k]);
        assert(same_place(s[g.succ(st, trs[k])], t[g.succ(st, trs[k])]));
    }
    assert forall|j: int| 0 <= j < trs.len() implies step_cost(t[g.succ(st, #[trigger] trs[j])])
        == step_cost(s[g.succ(st, trs[j])]) + d by {
        assert(g.lands(s, st, trs[j]));
        lemma_succ_bound(g, st, trs[j]);
        assert(same_place(s[g.succ(st, trs[j])], t[g.succ(st, trs[j])]));
    }
    lemma_weighted_shift(g, s, t, st, trs, n, d);
    lemma_weighted_nonneg(g, s, st, trs, n);
    assert(mass(trs, n) == PROB_BASE);
    let (x, y) = (g.weighted(s, st, trs, n), g.weighted(t, st, trs, n));
    let b = PROB_BASE as int;
    assert(y == x + d * b);
    assert(0 <= d * b) by (nonlinear_arith)
        requires
            0 <= d,
            0 <= b,
    ;
    vstd::arithmetic::div_mod::lemma_small_mod(x as nat, word() as nat);
    vstd::arithmetic::div_mod::lemma_small_mod(y as nat, word() as nat);
    vstd::arithmetic::div_mod::lemma_fundamental_div_mod(x, b);
    vstd::arithmetic::div_mod::lemma_mod_bound(x, b);
    assert(y == b * (x / b + d) + x % b) by (nonlinear_arith)
        requires
            y == x + d * b,
            x == b * (x / b) + x % b,
    ;
    vstd::arithmetic::div_mod::lemma_fundamental_div_mod_converse(y, b, x / b + d, x % b);
}

/// Exact expected cost, times `PROB_BASE`, of the first `k` outcomes when states are
/// worth `nu`.
pub open spec fn weigh(
    g: Grid,
    nu: Seq<int>,
    s: Seq<State>,
    st: State,
    trs: Seq<StateTransition>,
    k: int,
) -> int
    decreases k,
{
    if k <= 0 {
        0
    } else {
        let j = g.succ(st, trs[k - 1]);
        weigh(g, nu, s, st, trs, k - 1) + (nu[j] + s[j].penalty + s[j].local_penalty) * trs[k
            - 1].prob
    }
}

/// Action `a` does not make state `i` worth less than `nu` says.
pub open spec fn not_below(m: Model, s: Seq<State>, nu: Seq<int>, i: int, a: int) -> bool {
    let trs = m.actions[a].outcomes(s[i].it as int);
    m.grid.all_land(s, s[i], trs) ==> nu[i] * PROB_BASE <= weigh(
        m.grid,
        nu,
        s,
        s[i],
        trs,
        trs.len() as int,
    )
}

/// `nu` is a lower solution on `r`: no action that stays in `r` costs less, from any free
/// state of `r`, than what `nu` says of the state.
pub open spec fn lower_solution(m: Model, s: Seq<State>, nu: Seq<int>, r: Set<int>) -> bool {
    &&& nu.len() == s.len()
    &&& forall|i: int, a: int|
        0 <= i < s.len() && 0 <= a < m.actions.len() && s[i].free && r.contains(i) && stays_in(
            m,
            s[i],
            a,
            r,
        ) ==> #[trigger] not_below(m, s, nu, i, a)
}

/// No free state of `s` is worth less than `nu` says.
pub open spec fn above(s: Seq<State>, nu: Seq<int>) -> bool {
    &&& nu.len() == s.len()
    &&& forall|i: int| 0 <= i < s.len() && s[i].free ==> nu[i] <= (#[trigger] s[i]).total_cost
}

pub proof fn lemma_weigh_below(
    g: Grid,
    nu: Seq<int>,
    s: Seq<State>,
    st: State,
    trs: Seq<StateTransition>,
    k: int,
)
    requires
        0 <= k <= trs.len(),
        forall|j: int| 0 <= j < trs.len() ==> 0 <= (#[trigger] trs[j]).prob,
        forall|j: int|
            0 <= j < trs.len() ==> nu[g.succ(st, #[trigger] trs[j])] <= s[g.succ(
                st,
                trs[j],
            )].total_cost,
    ensures
        weigh(g, nu, s, st, trs, k) <= g.weighted(s, st, trs, k),
    decreases k,
{
    if k > 0 {
        lemma_weigh_below(g, nu, s, st, trs, k - 1);
        let j = g.succ(st, trs[k - 1]);
        let (a, b, p) = (
            nu[j] + s[j].penalty + s[j].local_penalty,
            step_cost(s[j]),
            trs[k - 1].prob as int,
        );
        assert(a * p <= b * p) by (nonlinear_arith)
            requires
                a <= b,
                0 <= p,
        ;
    }
}

proof fn lemma_cost_above(m: Model, s: Seq<State>, nu: Seq<int>, i: int, a: int, cap: int, r: Set<int>)
    requires
        m.wf(),
        m.grid.located(s),
        lower_solution(m, s, nu, r),
        above(s, nu),
        0 <= i < s.len(),
        s[i].free,
        0 <= a < m.actions.len(),
        r.contains(i),
        safe_from(m, s, s[i], cap, r),
        nu[i] <= cap <= MAX_COST,
    ensures
        nu[i] <= m.grid.cost(s, s[i], m.actions[a]),
{
    let g = m.grid;
    let st = s[i];
    let trs = m.actions[a].outcomes(st.it as int);
    let n = trs.len() as int;
    assert(g.located_at(s[i], i));
    assert(g.action_ok(m.actions[a]));
    if g.all_land(s, st, trs) && stays_in(m, st, a, r) && g.weighted(s, st, trs, n) < word() {
        assert forall|k: int| 0 <= k < trs.len() implies g.outcome_ok(#[trigger] trs[k]) by {
            assert(g.outcome_ok(m.actions[a].outcomes(st.it as int)[k]));
        }
        assert forall|j: int| 0 <= j < trs.len() implies nu[g.succ(st, #[trigger] trs[j])]
            <= s[g.succ(st, trs[j])].total_cost by {
            assert(g.lands(s, st, trs[j]));
            lemma_succ_bound(g, st, trs[j]);
        }
        lemma_weigh_below(g, nu, s, st, trs, n);
        lemma_weighted_nonneg(g, s, st, trs, n);
        assert(not_below(m, s, nu, i, a));
        let w = g.weighted(s, st, trs, n);
        vstd::arithmetic::div_mod::lemma_small_mod(w as nat, word() as nat);
        let b = PROB_BASE as int;
        vstd::arithmetic::div_mod::lemma_fundamental_div_mod(w, b);
        vstd::arithmetic::div_mod::lemma_mod_bound(w, b);
        assert(nu[i] <= w / b) by (nonlinear_arith)
            requires
                nu[i] * b <= w,
                w == b * (w / b) + w % b,
                w % b < b,
                0 < b,
        ;
    }
}

proof fn lemma_best_above(m: Model, s: Seq<State>, nu: Seq<int>, i: int, k: int, cap: int, r: Set<int>)
    requires
        m.wf(),
        m.grid.located(s),
        lower_solution(m, s, nu, r),
        above(s, nu),
        0 <= i < s.len(),
        s[i].free,
        0 <= k <= m.actions.len(),
        r.contains(i),
        safe_from(m, s, s[i], cap, r),
        nu[i] <= cap <= MAX_COST,
    ensures
        nu[i] <= m.best(s, s[i], k).0,
    decreases k,
{
    if k > 0 {
        lemma_best_above(m, s, nu, i, k - 1, cap, r);
        lemma_cost_above(m, s, nu, i, k - 1, cap, r);
    }
}

/// A Bellman value is never below a lower solution on `r` that the field is above of, as
/// long as no sum that overflows or leads out of `r` comes out below `cap`. Where the lower
/// solution gives the state nothing, sums do not matter.
pub proof fn law_bellman_stays_above(m: Model, s: Seq<State>, nu: Seq<int>, i: int, cap: int, r: Set<int>)
    requires
        m.wf(),
        m.grid.located(s),
        lower_solution(m, s, nu, r),
        above(s, nu),
        0 <= i < s.len(),
        s[i].free,
        0 < nu[i] ==> r.contains(i) && safe_from(m, s, s[i], cap, r),
        nu[i] <= cap <= MAX_COST,
    ensures
        nu[i] <= m.bellman(s, i).0,
{
    if 0 < nu[i] {
        lemma_best_above(m, s, nu, i, m.actions.len() as int, cap, r);
    } else {
        law_best_is_least(m, s, s[i], m.actions.len() as int);
    }
}

/// An update keeps a field above a lower solution.
pub proof fn law_update_stays_above(m: Model, s: Seq<State>, nu: Seq<int>, i: int, cap: int, r: Set<int>)
    requires
        m.wf(),
        m.grid.located(s),
        lower_solution(m, s, nu, r),
        above(s, nu),
        0 <= i < s.len(),
        updatable(s[i]) && 0 < nu[i] ==> r.contains(i) && safe_from(m, s, s[i], cap, r),
        nu[i] <= cap <= MAX_COST,
    ensures
        above(m.upd(s, i), nu),
        lower_solution(m, m.upd(s, i), nu, r),
        m.grid.located(m.upd(s, i)),
{
    lemma_upd_keeps(m, s, i);
    let t = m.upd(s, i);
    law_best_is_least(m, s, s[i], m.actions.len() as int);
    if updatable(s[i]) {
        law_bellman_stays_above(m, s, nu, i, cap, r);
    }
    assert forall|j: int| 0 <= j < t.len() && t[j].free implies nu[j] <= (
    #[trigger] t[j]).total_cost by {
        assert(same_place(s[j], t[j]));
        assert(nu[j] <= s[j].total_cost);
    }
    lemma_lower_frame(m, s, t, nu, r);
}

/// Where an action leads goes by place.
pub proof fn lemma_stays_place(m: Model, x: State, y: State, a: int, r: Set<int>)
    requires
        x.ix == y.ix,
        x.iy == y.iy,
        x.it == y.it,
        stays_in(m, x, a, r),
    ensures
        stays_in(m, y, a, r),
{
    assert forall|k: int| 0 <= k < m.actions[a].outcomes(y.it as int).len() implies r.contains(
        m.grid.succ(y, #[trigger] m.actions[a].outcomes(y.it as int)[k]),
    ) by {
        assert(r.contains(m.grid.succ(x, m.actions[a].outcomes(x.it as int)[k])));
    }
}

/// Values do not matter for being a lower solution.
pub proof fn lemma_lower_frame(m: Model, s: Seq<State>, t: Seq<State>, nu: Seq<int>, r: Set<int>)
    requires
        m.wf(),
        m.grid.located(s),
        lower_solution(m, s, nu, r),
        same_costs(s, t),
    ensures
        lower_solution(m, t, nu, r),
{
    assert forall|i: int, a: int|
        0 <= i < t.len() && 0 <= a < m.actions.len() && t[i].free && r.contains(i) && stays_in(
            m,
            t[i],
            a,
            r,
        ) implies #[trigger] not_below(m, t, nu, i, a) by {
        assert(same_terms(s[i], t[i]));
        lemma_stays_place(m, t[i], s[i], a, r);
        assert(not_below(m, s, nu, i, a));
        assert(m.grid.located_at(s[i], i));
        let trs = m.actions[a].outcomes(t[i].it as int);
        if m.grid.all_land(t, t[i], trs) {
            assert(m.grid.action_ok(m.actions[a]));
            assert forall|k: int| 0 <= k < trs.len() implies m.grid.lands(
                s,
                s[i],
                #[trigger] trs[k],
            ) && 0 <= m.grid.succ(s[i], trs[k]) < s.len() by {
                assert(m.grid.lands(t, t[i], trs[k]));
                assert(m.grid.outcome_ok(m.actions[a].outcomes(t[i].it as int)[k]));
                lemma_succ_bound(m.grid, s[i], trs[k]);
                assert(same_terms(s[m.grid.succ(s[i], trs[k])], t[m.grid.succ(s[i], trs[k])]));
            }
            lemma_weigh_frame(m.grid, nu, s, t, s[i], t[i], trs, trs.len() as int);
        }
    }
}

/// The two states differ in value, goal and policy at most.
pub open spec fn same_terms(a: State, b: State) -> bool {
    &&& a.free == b.free
    &&& a.penalty == b.penalty
    &&& a.local_penalty == b.local_penalty
    &&& a.ix == b.ix
    &&& a.iy == b.iy
    &&& a.it == b.it
}

/// The two fields differ in values, goals and policies at most.
pub open spec fn same_costs(s: Seq<State>, t: Seq<State>) -> bool {
    &&& s.len() == t.len()
    &&& forall|i: int| 0 <= i < s.len() ==> same_terms(s[i], #[trigger] t[i])
}

proof fn lemma_weigh_frame(
    g: Grid,
    nu: Seq<int>,
    s: Seq<State>,
    t: Seq<State>,
    a: State,
    b: State,
    trs: Seq<StateTransition>,
    k: int,
)
    requires
        same_costs(s, t),
        same_terms(a, b),
        0 <= k <= trs.len(),
        forall|j: int| 0 <= j < trs.len() ==> 0 <= g.succ(a, #[trigger] trs[j]) < s.len(),
    ensures
        weigh(g, nu, s, a, trs, k) == weigh(g, nu, t, b, trs, k),
    decreases k,
{
    if k > 0 {
        lemma_weigh_frame(g, nu, s, t, a, b, trs, k - 1);
        let j = g.succ(a, trs[k - 1]);
        assert(same_terms(s[j], t[j]));
    }
}

/// `nu` lowered by `d` everywhere.
pub open spec fn lowered_by(nu: Seq<int>, d: int) -> Seq<int> {
    nu.map_values(|v: int| v - d)
}

proof fn lemma_weigh_shift(
    g: Grid,
    nu: Seq<int>,
    s: Seq<State>,
    st: State,
    trs: Seq<StateTransition>,
    k: int,
    d: int,
)
    requires
        0 <= k <= trs.len(),
        forall|j: int| 0 <= j < trs.len() ==> 0 <= g.succ(st, #[trigger] trs[j]) < nu.len(),
    ensures
        weigh(g, lowered_by(nu, d), s, st, trs, k) == weigh(g, nu, s, st, trs, k) - d * mass(
            trs,
            k,
        ),
    decreases k,
{
    if k > 0 {
        lemma_weigh_shift(g, nu, s, st, trs, k - 1, d);
        let j = g.succ(st, trs[k - 1]);
        let (a, p, w) = (
            nu[j] + s[j].penalty + s[j].local_penalty,
            trs[k - 1].prob as int,
            mass(trs, k - 1),
        );
        assert(lowered_by(nu, d)[j] == nu[j] - d);
        assert((a - d) * p == a * p - d * p) by (nonlinear_arith);
        assert(d * (w + p) == d * w + d * p) by (nonlinear_arith);
    } else {
        assert(d * mass(trs, 0) == 0);
    }
}

/// A lower solution stays one when it is lowered by a constant.
pub proof fn law_lower_solution_shifts(m: Model, s: Seq<State>, nu: Seq<int>, d: int, r: Set<int>)
    requires
        m.wf(),
        m.grid.located(s),
        full_mass(m),
        lower_solution(m, s, nu, r),
    ensures
        lower_solution(m, s, lowered_by(nu, d), r),
{
    let g = m.grid;
    let mu = lowered_by(nu, d);
    assert forall|i: int, a: int|
        0 <= i < s.len() && 0 <= a < m.actions.len() && s[i].free && r.contains(i) && stays_in(
            m,
            s[i],
            a,
            r,
        ) implies #[trigger] not_below(m, s, mu, i, a) by {
        let trs = m.actions[a].outcomes(s[i].it as int);
        let n = trs.len() as int;
        assert(g.located_at(s[i], i));
        assert(not_below(m, s, nu, i, a));
        if g.all_land(s, s[i], trs) {
            assert(g.action_ok(m.actions[a]));
            assert forall|j: int| 0 <= j < trs.len() implies 0 <= g.succ(s[i], #[trigger] trs[j])
                < nu.len() by {
                assert(g.lands(s, s[i], trs[j]));
                assert(g.outcome_ok(m.actions[a].outcomes(s[i].it as int)[j]));
                lemma_succ_bound(g, s[i], trs[j]);
            }
            lemma_weigh_shift(g, nu, s, s[i], trs, n, d);
            assert(mass(trs, n) == PROB_BASE);
            let b = PROB_BASE as int;
            assert((nu[i] - d) * b == nu[i] * b - d * b) by (nonlinear_arith);
        }
    }
}

/// The field after updates of the listed states in turn.
pub open spec fn updates(m: Model, s: Seq<State>, order: Seq<int>, k: int) -> Seq<State>
    decreases k,
{
    if k <= 0 {
        s
    } else {
        m.upd(updates(m, s, order, k - 1), order[k - 1])
    }
}

/// No sum of a state in `r` that overflows or leads out of `r` comes out below `cap` while
/// the listed states are updated in turn.
pub open spec fn safe_updates(
    m: Model,
    s: Seq<State>,
    order: Seq<int>,
    n: int,
    cap: int,
    r: Set<int>,
) -> bool {
    forall|k: int|
        0 <= k < n ==> {
            let t = #[trigger] updates(m, s, order, k);
            r.contains(order[k]) && updatable(t[order[k]]) ==> safe_from(m, t, t[order[k]], cap, r)
        }
}

/// Updates in any order keep a field above a lower solution.
pub proof fn law_any_order_stays_above(
    m: Model,
    s: Seq<State>,
    nu: Seq<int>,
    order: Seq<int>,
    n: int,
    cap: int,
    r: Set<int>,
)
    requires
        m.wf(),
        m.grid.located(s),
        lower_solution(m, s, nu, r),
        above(s, nu),
        forall|i: int| 0 <= i < nu.len() ==> #[trigger] nu[i] <= cap,
        forall|i: int| 0 <= i < nu.len() && !r.contains(i) ==> #[trigger] nu[i] <= 0,
        cap <= MAX_COST,
        0 <= n <= order.len(),
        forall|k: int| 0 <= k < order.len() ==> 0 <= #[trigger] order[k] < s.len(),
        safe_updates(m, s, order, n, cap, r),
    ensures
        above(updates(m, s, order, n), nu),
        lower_solution(m, updates(m, s, order, n), nu, r),
        m.grid.located(updates(m, s, order, n)),
    decreases n,
{
    if n > 0 {
        law_any_order_stays_above(m, s, nu, order, n - 1, cap, r);
        let t = updates(m, s, order, n - 1);
        let i = order[n - 1];
        assert(r.contains(i) && updatable(t[i]) ==> safe_from(m, t, t[i], cap, r));
        law_update_stays_above(m, t, nu, i, cap, r);
    }
}

/// The values of a field.
pub open spec fn values(s: Seq<State>) -> Seq<int> {
    s.map_values(|st: State| st.total_cost as int)
}

proof fn lemma_weigh_values(
    g: Grid,
    s: Seq<State>,
    st: State,
    trs: Seq<StateTransition>,
    k: int,
)
    requires
        0 <= k <= trs.len(),
        forall|j: int| 0 <= j < trs.len() ==> 0 <= g.succ(st, #[trigger] trs[j]) < s.len(),
    ensures
        weigh(g, values(s), s, st, trs, k) == g.weighted(s, st, trs, k),
    decreases k,
{
    if k > 0 {
        lemma_weigh_values(g, s, st, trs, k - 1);
        let j = g.succ(st, trs[k - 1]);
        assert(values(s)[j] == s[j].total_cost);
    }
}

/// The values of a fixed point whose goals cost nothing form a lower solution, as
/// long as no sum overflows.
pub proof fn law_fixed_point_is_lower_solution(m: Model, s: Seq<State>)
    requires
        m.wf(),
        m.grid.located(s),
        forall|i: int| 0 <= i < s.len() ==> #[trigger] consistent(m, s, i),
        forall|i: int| 0 <= i < s.len() && (#[trigger] s[i]).final_state ==> s[i].total_cost == 0,
        forall|i: int| 0 <= i < s.len() && s[i].free ==> exact_from(m, s, #[trigger] s[i]),
    ensures
        lower_solution(m, s, values(s), Set::full()),
        above(s, values(s)),
{
    let g = m.grid;
    let nu = values(s);
    assert forall|i: int, a: int|
        0 <= i < s.len() && 0 <= a < m.actions.len() && s[i].free implies #[trigger] not_below(
        m,
        s,
        nu,
        i,
        a,
    ) by {
        let st = s[i];
        let trs = m.actions[a].outcomes(st.it as int);
        let n = trs.len() as int;
        assert(g.located_at(s[i], i));
        if g.all_land(s, st, trs) {
            assert(g.action_ok(m.actions[a]));
            assert forall|j: int| 0 <= j < trs.len() implies 0 <= g.succ(st, #[trigger] trs[j])
                < s.len() && 0 <= trs[j].prob by {
                assert(g.lands(s, st, trs[j]));
                assert(g.outcome_ok(m.actions[a].outcomes(st.it as int)[j]));
                lemma_succ_bound(g, st, trs[j]);
            }
            lemma_weigh_values(g, s, st, trs, n);
            lemma_weighted_nonneg(g, s, st, trs, n);
            let w = g.weighted(s, st, trs, n);
            let b = PROB_BASE as int;
            assert(exact_from(m, s, s[i]));
            if updatable(st) {
                assert(consistent(m, s, i));
                law_best_is_least(m, s, st, m.actions.len() as int);
                assert(m.bellman(s, i).0 <= m.grid.cost(s, st, m.actions[a]));
                vstd::arithmetic::div_mod::lemma_small_mod(w as nat, word() as nat);
                vstd::arithmetic::div_mod::lemma_fundamental_div_mod(w, b);
                vstd::arithmetic::div_mod::lemma_mod_bound(w, b);
                assert(nu[i] * b <= w) by (nonlinear_arith)
                    requires
                        nu[i] <= w / b,
                        w == b * (w / b) + w % b,
                        0 <= w % b,
                        0 < b,
                ;
            } else {
                assert(nu[i] == 0);
                assert(0 * b == 0);
            }
        }
    }
}

/// An outcome leads as many columns and rows on as it says, to the heading that it says, up
/// to full turns.
pub proof fn law_outcome_leads_there(g: Grid, s: Seq<State>, st: State, tr: StateTransition)
    requires
        g.wf(),
        0 < g.nt,
        g.located(s),
        g.outcome_ok(tr),
        g.stays(st, tr),
    ensures
        ({
            let i = g.succ(st, tr);
            &&& 0 <= i < s.len()
            &&& s[i].ix == st.ix + tr.dix
            &&& s[i].iy == st.iy + tr.diy
            &&& 0 <= s[i].it < g.nt
            &&& 0 <= tr.dit < g.nt ==> s[i].it == tr.dit
            &&& tr.dit < 0 ==> s[i].it == (tr.dit + g.nt) % g.nt
            &&& tr.dit >= -g.nt && tr.dit < 0 ==> s[i].it == tr.dit + g.nt
            &&& (s[i].it - tr.dit) % g.nt == 0
        }),
{
    let nt = g.nt;
    let h = g.heading(tr);
    let d = tr.dit as int;
    vstd::arithmetic::div_mod::lemma_mod_bound(d + nt, nt);
    vstd::arithmetic::div_mod::lemma_fundamental_div_mod(d + nt, nt);
    lemma_located(g, s, st.ix + tr.dix, st.iy + tr.diy, h);
    if 0 <= d < nt {
        vstd::arithmetic::div_mod::lemma_fundamental_div_mod_converse(d + nt, nt, 1, d);
    }
    if d < 0 {
        vstd::arithmetic::div_mod::lemma_small_mod((d + nt) as nat, nt as nat);
    }
    let q = (d + nt) / nt;
    assert(h - d == (1 - q) * nt + 0) by (nonlinear_arith)
        requires
            d + nt == nt * q + h,
    ;
    vstd::arithmetic::div_mod::lemma_fundamental_div_mod_converse(h - d, nt, 1 - q, 0);
}

/// Where every outcome of an action leads to a free state that costs `c` to step on, value,
/// penalty and observed penalty together, the action costs `c`.
pub proof fn law_even_outcomes_cost_alike(
    g: Grid,
    s: Seq<State>,
    st: State,
    trs: Seq<StateTransition>,
    c: int,
)
    requires
        mass(trs, trs.len() as int) == PROB_BASE,
        0 <= c,
        c * PROB_BASE < word(),
        forall|k: int| 0 <= k < trs.len() ==> g.lands(s, st, #[trigger] trs[k]),
        forall|k: int|
            0 <= k < trs.len() ==> {
                let to = s[g.succ(st, #[trigger] trs[k])];
                to.total_cost + to.penalty + to.local_penalty == c
            },
    ensures
        g.outcomes_cost(s, st, trs) == c,
{
    lemma_even(g, s, st, trs, c, trs.len() as int);
    let p = PROB_BASE as int;
    let t = c * p;
    vstd::arithmetic::div_mod::lemma_small_mod(t as nat, word() as nat);
    vstd::arithmetic::div_mod::lemma_fundamental_div_mod_converse(t, p, c, 0);
}

proof fn lemma_even(
    g: Grid,
    s: Seq<State>,
    st: State,
    trs: Seq<StateTransition>,
    c: int,
    k: int,
)
    requires
        0 <= k <= trs.len(),
        forall|k: int|
            0 <= k < trs.len() ==> {
                let to = s[g.succ(st, #[trigger] trs[k])];
                to.total_cost + to.penalty + to.local_penalty == c
            },
    ensures
        g.weighted(s, st, trs, k) == c * mass(trs, k),
    decreases k,
{
    if k > 0 {
        lemma_even(g, s, st, trs, c, k - 1);
        let tr = trs[k - 1];
        assert(step_cost(s[g.succ(st, tr)]) == c);
        assert(c * mass(trs, k - 1) + c * tr.prob == c * (mass(trs, k - 1) + tr.prob))
            by (nonlinear_arith);
    }
}

/// An action with an outcome that leaves the map or ends in a state that is not free costs
/// the most.
pub proof fn law_blocked_action_costs_most(g: Grid, s: Seq<State>, st: State, a: Action, k: int)
    requires
        0 <= k < a.outcomes(st.it as int).len(),
        ({
            let tr = a.outcomes(st.it as int)[k];
            let (x, y) = (st.ix + tr.dix, st.iy + tr.diy);
            x < 0 || g.nx <= x || y < 0 || g.ny <= y || !s[g.succ(st, tr)].free
        }),
    ensures
        g.cost(s, st, a) == MAX_COST,
{
    let tr = a.outcomes(st.it as int)[k];
    assert(!g.lands(s, st, tr));
}

/// An update touches only the value and the action of a free state that is no goal. It gives
/// the least cost of any action and the first action that has it, none if all cost the most.
pub proof fn law_update_takes_the_best(m: Model, s: Seq<State>, i: int, a: int)
    requires
        m.wf(),
        0 <= i < s.len(),
        0 <= a < m.actions.len(),
    ensures
        ({
            let old = s[i];
            let new = m.upd(s, i)[i];
            let c = m.grid.cost(s, old, m.actions[a]);
            &&& m.upd(s, i).len() == s.len()
            &&& forall|j: int| 0 <= j < s.len() && j != i ==> #[trigger] m.upd(s, i)[j] == s[j]
            &&& !old.free || old.final_state ==> new == old
            &&& new == (State {
                total_cost: new.total_cost,
                optimal_action: new.optimal_action,
                ..old
            })
            &&& old.free && !old.final_state ==> {
                &&& new.total_cost <= c
                &&& new.optimal_action is None <==> new.total_cost == MAX_COST
                &&& new.optimal_action is None ==> c >= MAX_COST
                &&& new.optimal_action == Some(a as usize) ==> c == new.total_cost
                &&& (new.optimal_action matches Some(b) ==> b < m.actions.len() && (a < b ==> c
                    > new.total_cost))
            }
        }),
{
    law_best_is_least(m, s, s[i], m.actions.len() as int);
    let c = m.grid.cost(s, s[i], m.actions[a]);
}

/// The change that an update reports is the difference of the values, never negative, and
/// zero exactly where the value stays.
pub proof fn law_change_is_the_difference(m: Model, s: Seq<State>, i: int)
    requires
        0 <= i < s.len(),
    ensures
        ({
            let (old, new) = (s[i].total_cost as int, m.upd(s, i)[i].total_cost as int);
            let d = m.delta(s, i);
            &&& d >= new - old && d >= old - new
            &&& d == new - old || d == old - new
            &&& d == 0 <==> new == old
        }),
{
}

} // verus!
