//! Solvers agree: two fields that were solved for the same goals have the same values and
//! policies wherever the goals are reached, whatever order they were solved in and whatever
//! field of upper bounds they started from. What is said holds on every set of states whose
//! values stay below a cap, and that actions lead out of only at the cap or more. Where else
//! the goals are not reached does not matter.
use vstd::prelude::*;

use crate::action::StateTransition;
use crate::bounds::{
    above, law_any_order_stays_above, lemma_lower_frame, lemma_stays_place, lower_solution,
    not_below, safe_from, safe_updates, same_terms, stays_in, updates, weigh,
};
use crate::grid::{lemma_cell_bound, on_axis};
use crate::model::{
    at_rest, law_best_is_least, lemma_best_place, lemma_best_within, lemma_cost_landing,
    lemma_frame_trans, lemma_land_same, lemma_rest_is_consistent, lemma_succ_bound,
    lemma_upd_keeps, lemma_weighted_nonneg, lemma_weighted_place, same_cost, same_frame,
    same_frees, same_place, word, Grid, Model,
};
use crate::params::{MAX_COST, PROB_BASE, REACH_THRESH};
use crate::solvers::bitboard::{near_cell, within};
use crate::solvers::descent::{
    clean_from, lattice_clean, law_cold_values_never_rise, rounds3_clean, sure,
};
use crate::solvers::displacement::{lemma_reach_nonneg, reach, Axis};
use crate::solvers::fixed_point::{cell_of, law_empty_frontier_is_fixed_point, lemma_rounds_frame};
use crate::solvers::fixed_point3::{
    dear_out, law_empty_frontier3_is_fixed_point, lemma_rounds3_frame, reached_ahead,
};
use crate::solvers::frontier2d::{candidates, rounds, seeded, valued_cells, Wave};
use crate::solvers::frontier3d::{candidates3, lattice_pass, rounds3, seeded3};
use crate::solvers::landing::{
    dominated, lattice_safe, law_ordered_sweep_stays_above, law_rounds3_stay_above,
    law_rounds_stay_above, rounds3_safe, rounds_safe, sweep_safe,
};
use crate::solvers::ordered::{is_rev, sweep, swept, OrderedOutcome, Way};
use crate::state::{updatable, State};

verus! {

/// Nothing has been solved yet: goals cost nothing, and no other state has a value.
pub open spec fn cold(s: Seq<State>) -> bool {
    forall|i: int|
        0 <= i < s.len() ==> (#[trigger] s[i]).total_cost == if s[i].final_state {
            0
        } else {
            MAX_COST
        }
}

/// The two fields differ in values and policies at most, and not in goals.
pub open spec fn same_goals(s: Seq<State>, t: Seq<State>) -> bool {
    &&& s.len() == t.len()
    &&& forall|i: int| 0 <= i < s.len() ==> same_place(s[i], #[trigger] t[i])
    &&& forall|i: int| 0 <= i < s.len() && s[i].final_state ==> #[trigger] t[i] == s[i]
}

/// Every free state of `r` has a value below `cap`, and unless it is a goal, no sum of its
/// actions that overflows or leads out of `r` comes out below that.
pub open spec fn reached(m: Model, t: Seq<State>, r: Set<int>, cap: int) -> bool {
    forall|i: int|
        0 <= i < t.len() && #[trigger] r.contains(i) && t[i].free ==> t[i].total_cost < cap
            && (updatable(t[i]) ==> safe_from(m, t, t[i], cap, r))
}

/// `f` is a field of upper bounds for the goals of `s`: it is above every lower solution on
/// `r` that `s` is above of, that gives goals nothing, and that gives something to states of
/// `r` at most, and none of them more than `cap`.
pub open spec fn upper_field(m: Model, s: Seq<State>, f: Seq<State>, r: Set<int>, cap: int) -> bool {
    &&& same_goals(s, f)
    &&& forall|nu: Seq<int>|
        #[trigger] dominated(m, s, nu, cap, r) && gives_goals_nothing(s, nu)
            ==> above(f, nu)
}

/// `t` is solved on `r` for the goals of `s`: it is a field of upper bounds in which every
/// state of `r` has been reached and has its Bellman value and the action that attains it.
pub open spec fn solution(m: Model, s: Seq<State>, t: Seq<State>, r: Set<int>, cap: int) -> bool {
    &&& upper_field(m, s, t, r, cap)
    &&& reached(m, t, r, cap)
    &&& forall|i: int| 0 <= i < t.len() && #[trigger] r.contains(i) ==> at_rest(m, t, i)
}

/// Goals are worth nothing.
pub open spec fn gives_goals_nothing(s: Seq<State>, nu: Seq<int>) -> bool {
    forall|i: int| 0 <= i < s.len() && (#[trigger] s[i]).final_state ==> nu[i] <= 0
}

/// The values of free states of `r`; others are worth nothing.
pub open spec fn values_on(t: Seq<State>, r: Set<int>) -> Seq<int> {
    Seq::new(
        t.len(),
        |i: int|
            if r.contains(i) && t[i].free {
                t[i].total_cost as int
            } else {
                0
            },
    )
}

proof fn lemma_weigh_values_on(
    g: Grid,
    t: Seq<State>,
    st: State,
    trs: Seq<StateTransition>,
    r: Set<int>,
    k: int,
)
    requires
        0 <= k <= trs.len(),
        forall|j: int|
            0 <= j < trs.len() ==> 0 <= g.succ(st, #[trigger] trs[j]) < t.len() && r.contains(
                g.succ(st, trs[j]),
            ) && t[g.succ(st, trs[j])].free,
    ensures
        weigh(g, values_on(t, r), t, st, trs, k) == g.weighted(t, st, trs, k),
    decreases k,
{
    if k > 0 {
        lemma_weigh_values_on(g, t, st, trs, r, k - 1);
        assert(0 <= g.succ(st, trs[k - 1]) < t.len());
    }
}

proof fn lemma_weigh_nonneg(
    g: Grid,
    nu: Seq<int>,
    s: Seq<State>,
    st: State,
    trs: Seq<StateTransition>,
    k: int,
)
    requires
        0 <= k <= trs.len(),
        nu.len() == s.len(),
        forall|i: int| 0 <= i < nu.len() ==> 0 <= #[trigger] nu[i],
        forall|j: int|
            0 <= j < trs.len() ==> 0 <= g.succ(st, #[trigger] trs[j]) < s.len() && 0
                <= trs[j].prob,
    ensures
        0 <= weigh(g, nu, s, st, trs, k),
    decreases k,
{
    if k > 0 {
        lemma_weigh_nonneg(g, nu, s, st, trs, k - 1);
        let j = g.succ(st, trs[k - 1]);
        assert(0 <= g.succ(st, trs[k - 1]) < s.len() && 0 <= trs[k - 1].prob);
        assert(0 <= nu[j]);
        let (c, p) = (nu[j] + s[j].penalty + s[j].local_penalty, trs[k - 1].prob as int);
        assert(0 <= c * p) by (nonlinear_arith)
            requires
                0 <= c,
                0 <= p,
        ;
    }
}

proof fn lemma_goals_frees(s: Seq<State>, t: Seq<State>)
    requires
        same_goals(s, t),
    ensures
        same_frees(s, t),
{
    assert forall|j: int| 0 <= j < s.len() implies (#[trigger] s[j]).free == t[j].free by {
        assert(same_place(s[j], t[j]));
    }
}

/// The values of a solution on `r`, with nothing elsewhere, are a lower solution on `r` that
/// gives goals nothing and that the cold field is above of.
pub proof fn law_solution_dominates(m: Model, s: Seq<State>, t: Seq<State>, r: Set<int>, cap: int)
    requires
        m.wf(),
        m.grid.located(s),
        cold(s),
        0 <= cap <= REACH_THRESH,
        solution(m, s, t, r, cap),
    ensures
        dominated(m, s, values_on(t, r), cap, r),
        gives_goals_nothing(s, values_on(t, r)),
{
    let g = m.grid;
    let nu = values_on(t, r);
    lemma_goals_located(g, s, t);
    assert forall|i: int, a: int|
        0 <= i < t.len() && 0 <= a < m.actions.len() && t[i].free && r.contains(i) && stays_in(
            m,
            t[i],
            a,
            r,
        ) implies #[trigger] not_below(m, t, nu, i, a) by {
        let trs = m.actions[a].outcomes(t[i].it as int);
        let n = trs.len() as int;
        assert(g.located_at(t[i], i));
        if g.all_land(t, t[i], trs) {
            lemma_land_same(m, t, t, t[i], t[i], a);
            assert(g.action_ok(m.actions[a]));
            assert forall|j: int| 0 <= j < n implies 0 <= g.succ(t[i], #[trigger] trs[j])
                < t.len() && 0 <= trs[j].prob && t[g.succ(t[i], trs[j])].free && r.contains(
                g.succ(t[i], trs[j]),
            ) by {
                assert(g.lands(t, t[i], trs[j]));
                assert(g.outcome_ok(m.actions[a].outcomes(t[i].it as int)[j]));
                assert(0 <= g.succ(t[i], m.actions[a].outcomes(t[i].it as int)[j]) < t.len());
                assert(r.contains(g.succ(t[i], m.actions[a].outcomes(t[i].it as int)[j])));
            }
            lemma_weigh_values_on(g, t, t[i], trs, r, n);
            lemma_weighted_nonneg(g, t, t[i], trs, n);
            let w = g.weighted(t, t[i], trs, n);
            let b = PROB_BASE as int;
            assert(t[i].total_cost < cap);
            if !updatable(t[i]) {
                assert(same_place(s[i], t[i]));
                assert(t[i] == s[i]);
                assert(0 * b == 0);
            } else if w < word() {
                lemma_rest_is_consistent(m, t, i);
                law_best_is_least(m, t, t[i], m.actions.len() as int);
                assert(m.bellman(t, i).0 <= g.cost(t, t[i], m.actions[a]));
                vstd::arithmetic::div_mod::lemma_small_mod(w as nat, word() as nat);
                vstd::arithmetic::div_mod::lemma_fundamental_div_mod(w, b);
                vstd::arithmetic::div_mod::lemma_mod_bound(w, b);
                assert(nu[i] * b <= w) by (nonlinear_arith)
                    requires
                        nu[i] <= w / b,
                        w == b * (w / b) + w % b,
                        0 <= w % b,
                        0 < b,
                ;
            } else {
                assert(nu[i] * b <= REACH_THRESH * b) by (nonlinear_arith)
                    requires
                        nu[i] <= REACH_THRESH,
                        0 < b,
                ;
            }
        }
    }
    assert(lower_solution(m, t, nu, r));
    assert forall|j: int| 0 <= j < s.len() implies same_terms(t[j], #[trigger] s[j]) by {
        assert(same_place(s[j], t[j]));
    }
    lemma_lower_frame(m, t, s, nu, r);
    assert forall|i: int| 0 <= i < s.len() && s[i].free implies nu[i] <= (
    #[trigger] s[i]).total_cost by {
        assert(same_place(s[i], t[i]));
        assert(r.contains(i) && t[i].free ==> t[i].total_cost < cap);
        if s[i].final_state {
            assert(t[i] == s[i]);
        }
    }
    assert forall|i: int| 0 <= i < s.len() && (#[trigger] s[i]).final_state implies nu[i] <= 0 by {
        assert(t[i] == s[i]);
    }
    assert forall|i: int| 0 <= i < nu.len() implies #[trigger] nu[i] <= cap by {
        assert(r.contains(i) && t[i].free ==> t[i].total_cost < cap);
    }
}

/// A field of upper bounds bounds every solution: no free state of `r` is worth more in a
/// solution than a field of upper bounds says.
pub proof fn law_upper_field_bounds_solution(
    m: Model,
    s: Seq<State>,
    f: Seq<State>,
    t: Seq<State>,
    r: Set<int>,
    cap: int,
    i: int,
)
    requires
        m.wf(),
        m.grid.located(s),
        cold(s),
        0 <= cap <= REACH_THRESH,
        upper_field(m, s, f, r, cap),
        solution(m, s, t, r, cap),
        0 <= i < s.len(),
        r.contains(i),
        s[i].free,
    ensures
        t[i].total_cost <= f[i].total_cost,
{
    law_solution_dominates(m, s, t, r, cap);
    assert(same_place(s[i], t[i]) && same_place(s[i], f[i]));
    assert(above(f, values_on(t, r)));
    assert(values_on(t, r)[i] <= f[i].total_cost);
}

/// Solvers agree: two solutions for the same goals have the same values and the same
/// policy, on every set of states whose values stay below `cap`, and that actions lead out of
/// only at `cap` or more.
pub proof fn law_solutions_agree(
    m: Model,
    s: Seq<State>,
    t: Seq<State>,
    u: Seq<State>,
    r: Set<int>,
    cap: int,
    i: int,
)
    requires
        m.wf(),
        m.grid.located(s),
        cold(s),
        0 <= cap <= REACH_THRESH,
        solution(m, s, t, r, cap),
        solution(m, s, u, r, cap),
        0 <= i < s.len(),
        r.contains(i),
        s[i].free,
    ensures
        t[i].total_cost == u[i].total_cost,
        t[i].optimal_action == u[i].optimal_action,
{
    let g = m.grid;
    let na = m.actions.len() as int;
    law_upper_field_bounds_solution(m, s, t, u, r, cap, i);
    law_upper_field_bounds_solution(m, s, u, t, r, cap, i);
    assert(same_place(s[i], t[i]));
    assert(same_place(s[i], u[i]));
    if updatable(s[i]) {
        assert forall|a: int| 0 <= a < na implies {
            let (x, y) = (
                g.cost(t, t[i], #[trigger] m.actions[a]),
                g.cost(u, t[i], m.actions[a]),
            );
            x == y || (cap - 1 < x && cap - 1 < y)
        } by {
            lemma_same_action(m, s, t, u, r, cap, i, a);
        }
        lemma_best_within(m, t, u, t[i], na, cap - 1);
        lemma_best_place(m, u, t[i], u[i], na);
        assert(at_rest(m, t, i) && at_rest(m, u, i));
        assert(t[i].free && t[i].total_cost < cap);
        law_best_is_least(m, t, t[i], na);
        law_best_is_least(m, u, u[i], na);
    } else {
        assert(s[i].final_state);
        assert(t[i] == s[i] && u[i] == s[i]);
    }
}

/// An action costs the same in two solutions, or too much in both.
proof fn lemma_same_action(
    m: Model,
    s: Seq<State>,
    t: Seq<State>,
    u: Seq<State>,
    r: Set<int>,
    cap: int,
    i: int,
    a: int,
)
    requires
        m.wf(),
        m.grid.located(s),
        cold(s),
        0 <= cap <= REACH_THRESH,
        solution(m, s, t, r, cap),
        solution(m, s, u, r, cap),
        0 <= i < s.len(),
        r.contains(i),
        updatable(s[i]),
        0 <= a < m.actions.len(),
    ensures
        m.grid.cost(t, t[i], m.actions[a]) == m.grid.cost(u, t[i], m.actions[a]) || (cap
            <= m.grid.cost(t, t[i], m.actions[a]) && cap <= m.grid.cost(u, t[i], m.actions[a])),
{
    let g = m.grid;
    let trs = m.actions[a].outcomes(t[i].it as int);
    assert(same_place(s[i], t[i]));
    assert(same_place(s[i], u[i]));
    lemma_goals_located(g, s, t);
    lemma_goals_frees(s, t);
    lemma_goals_frees(s, u);
    assert(same_frees(t, u)) by {
        assert forall|j: int| 0 <= j < t.len() implies (#[trigger] t[j]).free == u[j].free by {
            assert(s[j].free == t[j].free && s[j].free == u[j].free);
        }
    }
    assert(g.located_at(t[i], i));
    lemma_land_same(m, t, u, t[i], u[i], a);
    lemma_land_same(m, t, u, t[i], t[i], a);
    if stays_in(m, t[i], a, r) {
        assert(g.all_land(t, t[i], trs) ==> forall|k: int|
            0 <= k < trs.len() ==> same_cost(
                t[g.succ(t[i], #[trigger] m.actions[a].outcomes(t[i].it as int)[k])],
                u[g.succ(t[i], m.actions[a].outcomes(t[i].it as int)[k])],
            )) by {
            assert forall|k: int| 0 <= k < trs.len() && g.all_land(t, t[i], trs) implies same_cost(
                t[g.succ(t[i], #[trigger] m.actions[a].outcomes(t[i].it as int)[k])],
                u[g.succ(t[i], m.actions[a].outcomes(t[i].it as int)[k])],
            ) by {
                assert(g.lands(t, t[i], trs[k]));
                let j = g.succ(t[i], m.actions[a].outcomes(t[i].it as int)[k]);
                assert(same_place(s[j], t[j]));
                assert(same_place(s[j], u[j]));
                law_upper_field_bounds_solution(m, s, t, u, r, cap, j);
                law_upper_field_bounds_solution(m, s, u, t, r, cap, j);
            }
        }
        lemma_cost_landing(m, t, u, t[i], a);
    } else if g.all_land(t, t[i], trs) {
        assert(t[i].free && u[i].free);
        assert(safe_from(m, t, t[i], cap, r) && safe_from(m, u, u[i], cap, r));
        if stays_in(m, u[i], a, r) {
            lemma_stays_place(m, u[i], t[i], a, r);
        }
        lemma_weighted_place(g, u, t[i], u[i], trs, trs.len() as int);
        assert(g.all_land(u, u[i], m.actions[a].outcomes(u[i].it as int)));
    }
}

/// Goals that stay twice stay.
pub proof fn lemma_goals_trans(s: Seq<State>, t: Seq<State>, u: Seq<State>)
    requires
        same_goals(s, t),
        same_goals(t, u),
    ensures
        same_goals(s, u),
{
    assert forall|i: int| 0 <= i < s.len() implies same_place(s[i], #[trigger] u[i]) by {
        assert(same_place(s[i], t[i]));
        assert(same_place(t[i], u[i]));
    }
    assert forall|i: int| 0 <= i < s.len() && s[i].final_state implies #[trigger] u[i] == s[i] by {
        assert(t[i] == s[i]);
    }
}

/// A sweep leaves goals alone.
proof fn lemma_frame_goals(s: Seq<State>, t: Seq<State>)
    requires
        same_frame(s, t),
    ensures
        same_goals(s, t),
{
    assert forall|i: int| 0 <= i < s.len() && s[i].final_state implies #[trigger] t[i] == s[i] by {
        assert(!updatable(s[i]));
    }
}

/// What bounds the starting field of a solve bounds every field of upper bounds.
proof fn lemma_upper_dominated(
    m: Model,
    s: Seq<State>,
    f: Seq<State>,
    nu: Seq<int>,
    r: Set<int>,
    cap: int,
)
    requires
        m.wf(),
        m.grid.located(s),
        same_goals(s, f),
        dominated(m, s, nu, cap, r),
        above(f, nu),
    ensures
        dominated(m, f, nu, cap, r),
{
    lemma_goals_located(m.grid, s, f);
    assert forall|i: int| 0 <= i < s.len() implies same_terms(s[i], #[trigger] f[i]) by {
        assert(same_place(s[i], f[i]));
    }
    lemma_lower_frame(m, s, f, nu, r);
}

proof fn lemma_goals_located(g: Grid, s: Seq<State>, f: Seq<State>)
    requires
        g.located(s),
        same_goals(s, f),
    ensures
        g.located(f),
{
    assert forall|i: int| 0 <= i < f.len() implies g.located_at(#[trigger] f[i], i) by {
        assert(g.located_at(s[i], i));
        assert(same_place(s[i], f[i]));
    }
}

/// A field that nothing has been solved on is a field of upper bounds for its own goals.
pub proof fn law_start_is_upper_field(m: Model, s: Seq<State>, r: Set<int>, cap: int)
    ensures
        upper_field(m, s, s, r, cap),
{
}

/// Raising values keeps a field of upper bounds one.
pub proof fn law_raised_is_upper_field(
    m: Model,
    s: Seq<State>,
    f: Seq<State>,
    h: Seq<State>,
    r: Set<int>,
    cap: int,
)
    requires
        upper_field(m, s, f, r, cap),
        same_goals(f, h),
        forall|i: int|
            0 <= i < f.len() && f[i].free ==> f[i].total_cost <= (#[trigger] h[i]).total_cost,
    ensures
        upper_field(m, s, h, r, cap),
{
    lemma_goals_trans(s, f, h);
    assert forall|nu: Seq<int>|
        #[trigger] dominated(m, s, nu, cap, r) && gives_goals_nothing(
            s,
            nu,
        ) implies above(h, nu) by {
        assert(above(f, nu));
        assert forall|i: int| 0 <= i < h.len() && h[i].free implies nu[i] <= (
        #[trigger] h[i]).total_cost by {
            assert(same_place(f[i], h[i]));
            assert(nu[i] <= f[i].total_cost);
        }
    }
}

/// A frontier that starts at the cells that have a value leaves every state that is
/// reached at rest, once it is empty.
proof fn lemma_reached_rests(m: Model, w: Wave, n: int, i: int)
    requires
        m.wf(),
        m.grid.located(w.states),
        w.frontier == valued_cells(m.grid, w.states),
        0 <= n,
        rounds(m, w, n).frontier == Set::<int>::empty(),
        0 <= i < w.states.len(),
        rounds(m, w, n).states[i].total_cost < MAX_COST,
    ensures
        at_rest(m, rounds(m, w, n).states, i),
{
    let g = m.grid;
    let st = w.states[i];
    let c = cell_of(g, st);
    law_empty_frontier_is_fixed_point(m, w, n, i);
    assert(g.located_at(w.states[i], i));
    if st.total_cost < MAX_COST {
        lemma_cell_bound(st.ix as int, st.iy as int, g.nx, g.ny);
        assert(w.states[c * g.nt + st.it].total_cost < MAX_COST && on_axis(st.it as int, g.nt));
        assert(w.frontier.contains(c));
        let (dx, dy) = (reach(m, Axis::X), reach(m, Axis::Y));
        assert(rounds(m, w, 0) == w);
        assert(n > 0) by {
            if n == 0 {
                assert(!Set::<int>::empty().contains(c));
            }
        }
        lemma_reach_nonneg(m, Axis::X, m.actions.len() as int);
        lemma_reach_nonneg(m, Axis::Y, m.actions.len() as int);
        assert(within(st.ix as int, st.ix as int, dx) && within(st.iy as int, st.iy as int, dy));
        assert(near_cell(w.frontier, g.nx, g.ny, st.ix as int, st.iy as int, dx, dy));
        assert(candidates(m, rounds(m, w, 0).frontier).contains(c));
    }
}

/// A converged solve by planar frontiers that started from upper bounds is a solution on
/// `r`, where every free state of `r` has a value below `cap` and none of their sums that
/// overflowed or led out of `r` came out below that.
pub proof fn law_frontier_solve_is_solution(
    m: Model,
    s: Seq<State>,
    w: Wave,
    n: int,
    r: Set<int>,
    cap: int,
)
    requires
        0 <= cap <= REACH_THRESH,
        m.wf(),
        m.grid.located(s),
        upper_field(m, s, w.states, r, cap),
        w.frontier == valued_cells(m.grid, w.states),
        0 <= n,
        rounds(m, w, n).frontier == Set::<int>::empty(),
        reached(m, rounds(m, w, n).states, r, cap),
        rounds_safe(m, w, n, cap, r),
    ensures
        solution(m, s, rounds(m, w, n).states, r, cap),
{
    let f = w.states;
    let t = rounds(m, w, n).states;
    lemma_goals_located(m.grid, s, f);
    lemma_rounds_frame(m, w, n);
    lemma_frame_goals(f, t);
    lemma_goals_trans(s, f, t);
    assert forall|i: int| 0 <= i < t.len() && #[trigger] r.contains(i) implies at_rest(m, t, i) by {
        if updatable(t[i]) {
            lemma_reached_rests(m, w, n, i);
        }
    }
    assert forall|nu: Seq<int>|
        #[trigger] dominated(m, s, nu, cap, r) && gives_goals_nothing(
            s,
            nu,
        ) implies above(t, nu) by {
        lemma_upper_dominated(m, s, f, nu, r, cap);
        law_rounds_stay_above(m, w, nu, n, cap, r);
    }
}

proof fn lemma_clean_is_safe(m: Model, w: Wave, n: int, r: Set<int>, cap: int)
    requires
        rounds3_clean(m, w, n, cap - 1, r),
    ensures
        rounds3_safe(m, w, n, cap, r),
{
    assert forall|k: int| 0 <= k < n implies {
        let p = #[trigger] rounds3(m, w, k);
        lattice_safe(m, p, candidates3(m, p.frontier), m.grid.len(), cap, r)
    } by {
        let p = rounds3(m, w, k);
        let cand = candidates3(m, p.frontier);
        assert(lattice_clean(m, p, cand, m.grid.len(), cap - 1, r));
        assert forall|i: int| 0 <= i < m.grid.len() && cand.contains(i) implies {
            let t = (#[trigger] lattice_pass(m, p, cand, i)).states;
            r.contains(i) && updatable(t[i]) ==> safe_from(m, t, t[i], cap, r)
        } by {
            let t = lattice_pass(m, p, cand, i).states;
            if r.contains(i) && updatable(t[i]) {
                assert(clean_from(m, t, t[i], cap - 1, r));
                assert forall|a: int|
                    0 <= a < m.actions.len() && m.grid.all_land(
                        t,
                        t[i],
                        (#[trigger] m.actions[a]).outcomes(t[i].it as int),
                    ) implies (stays_in(m, t[i], a, r) && m.grid.weighted(
                    t,
                    t[i],
                    m.actions[a].outcomes(t[i].it as int),
                    m.actions[a].outcomes(t[i].it as int).len() as int,
                ) < word()) || cap <= m.grid.cost(t, t[i], m.actions[a]) by {
                    assert((stays_in(m, t[i], a, r) && sure(m, t, t[i], a, cap - 1)) || cap - 1
                        < m.grid.cost(t, t[i], m.actions[a]));
                }
            }
        }
    }
}

/// A converged solve by spatial frontiers on a map that nothing has been solved on is a
/// solution on `r`, where every free state of `r` has a value below `cap`, and on the way
/// whatever did not stay in `r` and surely lead to values below `cap` came out at `cap` or
/// more.
pub proof fn law_frontier3_solve_is_solution(
    m: Model,
    s: Seq<State>,
    n: int,
    r: Set<int>,
    cap: int,
)
    requires
        m.wf(),
        m.grid.located(s),
        cold(s),
        0 <= cap <= REACH_THRESH,
        0 <= n,
        rounds3(m, seeded3(s), n).frontier == Set::<int>::empty(),
        reached(m, rounds3(m, seeded3(s), n).states, r, cap),
        rounds3_clean(m, seeded3(s), n, cap - 1, r),
    ensures
        solution(m, s, rounds3(m, seeded3(s), n).states, r, cap),
{
    let g = m.grid;
    let w = seeded3(s);
    let t = rounds3(m, w, n).states;
    lemma_rounds3_frame(m, w, n);
    lemma_frame_goals(s, t);
    lemma_clean_is_safe(m, w, n, r, cap);
    law_cold_values_never_rise(m, w, n, r, cap - 1);
    assert forall|i: int| 0 <= i < t.len() && #[trigger] r.contains(i) implies at_rest(m, t, i) by {
        if updatable(t[i]) {
            assert(same_place(s[i], t[i]));
            assert(g.located_at(t[i], i));
            assert(t[i].total_cost < cap && safe_from(m, t, t[i], cap, r));
            assert(dear_out(m, t, t[i], cap - 1, r)) by {
                assert forall|a: int|
                    0 <= a < m.actions.len() && g.all_land(
                        t,
                        t[i],
                        (#[trigger] m.actions[a]).outcomes(t[i].it as int),
                    ) implies stays_in(m, t[i], a, r) || cap - 1 < g.cost(
                    t,
                    t[i],
                    m.actions[a],
                ) by {}
            }
            assert(reached_ahead(m, t, i, cap - 1, r)) by {
                assert forall|a: int, k: int|
                    #![trigger m.actions[a].outcomes(t[i].it as int)[k]]
                    0 <= a < m.actions.len() && 0 <= k < m.actions[a].outcomes(
                        t[i].it as int,
                    ).len() && g.all_land(
                        t,
                        t[i],
                        m.actions[a].outcomes(t[i].it as int),
                    ) && stays_in(m, t[i], a, r) implies t[g.succ(
                    t[i],
                    m.actions[a].outcomes(t[i].it as int)[k],
                )].total_cost <= cap - 1 by {
                    let trs = m.actions[a].outcomes(t[i].it as int);
                    lemma_land_same(m, t, t, t[i], t[i], a);
                    assert(g.lands(t, t[i], trs[k]));
                    assert(0 <= g.succ(t[i], m.actions[a].outcomes(t[i].it as int)[k]) < t.len());
                    assert(r.contains(g.succ(t[i], m.actions[a].outcomes(t[i].it as int)[k])));
                }
            }
            law_empty_frontier3_is_fixed_point(m, w, n, i, cap - 1, r);
            assert(s[i].total_cost == MAX_COST);
        }
    }
    assert forall|nu: Seq<int>|
        #[trigger] dominated(m, s, nu, cap, r) && gives_goals_nothing(s, nu) implies above(
        t,
        nu,
    ) by {
        law_rounds3_stay_above(m, w, nu, n, cap, r);
    }
}

/// Planar and spatial frontiers agree: on a map that nothing has been solved on, the two
/// converge to the same values and the same policy wherever both have reached.
pub proof fn law_frontiers_agree(
    m: Model,
    s: Seq<State>,
    n2: int,
    n3: int,
    r: Set<int>,
    cap: int,
    i: int,
)
    requires
        m.wf(),
        m.grid.located(s),
        cold(s),
        0 <= cap <= REACH_THRESH,
        0 <= n2,
        0 <= n3,
        rounds(m, seeded(m, s), n2).frontier == Set::<int>::empty(),
        rounds3(m, seeded3(s), n3).frontier == Set::<int>::empty(),
        reached(m, rounds(m, seeded(m, s), n2).states, r, cap),
        reached(m, rounds3(m, seeded3(s), n3).states, r, cap),
        rounds_safe(m, seeded(m, s), n2, cap, r),
        rounds3_clean(m, seeded3(s), n3, cap - 1, r),
        0 <= i < s.len(),
        r.contains(i),
        s[i].free,
    ensures
        ({
            let a = rounds(m, seeded(m, s), n2).states[i];
            let b = rounds3(m, seeded3(s), n3).states[i];
            a.total_cost == b.total_cost && a.optimal_action == b.optimal_action
        }),
{
    law_start_is_upper_field(m, s, r, cap);
    law_frontier_solve_is_solution(m, s, seeded(m, s), n2, r, cap);
    law_frontier3_solve_is_solution(m, s, n3, r, cap);
    law_solutions_agree(
        m,
        s,
        rounds(m, seeded(m, s), n2).states,
        rounds3(m, seeded3(s), n3).states,
        r,
        cap,
        i,
    );
}

/// A converged ordered sweep that started from upper bounds is a solution on `r`, where
/// every free state of `r` has a value below `cap` and none of their sums that overflowed or
/// led out of `r` came out below that.
pub proof fn law_ordered_sweep_is_solution(
    m: Model,
    rev: Seq<Seq<Way>>,
    s: Seq<State>,
    f: Seq<State>,
    max_passes: int,
    out: OrderedOutcome,
    t: Seq<State>,
    r: Set<int>,
    cap: int,
)
    requires
        0 <= cap <= REACH_THRESH,
        m.wf(),
        m.grid.located(s),
        upper_field(m, s, f, r, cap),
        is_rev(m, rev),
        swept(m, rev, f, max_passes, out, t),
        forall|i: int|
            0 <= i < t.len() && updatable(#[trigger] t[i]) ==> t[i] == m.updated(t, i),
        reached(m, t, r, cap),
        sweep_safe(m, rev, f, out.passes as int, cap, r),
    ensures
        solution(m, s, t, r, cap),
{
    let e = sweep(m, rev, f, out.passes as int).work.states;
    let n = out.passes as int;
    lemma_goals_located(m.grid, s, f);
    lemma_zero_dominated(m, f, r, cap);
    law_ordered_sweep_stays_above(
        m,
        rev,
        f,
        Seq::new(f.len(), |i: int| 0int),
        n,
        cap,
        r,
    );
    lemma_frame_goals(f, e);
    lemma_goals_trans(s, f, e);
    assert(same_goals(e, t));
    lemma_goals_trans(s, e, t);
    assert forall|i: int| 0 <= i < t.len() && #[trigger] r.contains(i) implies at_rest(
        m,
        t,
        i,
    ) by {
        assert(updatable(t[i]) ==> t[i] == m.updated(t, i));
    }
    assert forall|nu: Seq<int>|
        #[trigger] dominated(m, s, nu, cap, r) && gives_goals_nothing(
            s,
            nu,
        ) implies above(t, nu) by {
        lemma_upper_dominated(m, s, f, nu, r, cap);
        law_ordered_sweep_stays_above(m, rev, f, nu, n, cap, r);
        assert forall|i: int| 0 <= i < t.len() && t[i].free implies nu[i] <= (
        #[trigger] t[i]).total_cost by {
            assert(nu[i] <= e[i].total_cost);
        }
    }
}

/// Nothing costs less than nothing.
proof fn lemma_zero_dominated(m: Model, s: Seq<State>, r: Set<int>, cap: int)
    requires
        0 <= cap <= REACH_THRESH,
        m.wf(),
        m.grid.located(s),
    ensures
        dominated(m, s, Seq::new(s.len(), |i: int| 0int), cap, r),
{
    let nu = Seq::new(s.len(), |i: int| 0int);
    assert forall|i: int, a: int|
        0 <= i < s.len() && 0 <= a < m.actions.len() && s[i].free && r.contains(i) && stays_in(
            m,
            s[i],
            a,
            r,
        ) implies #[trigger] not_below(m, s, nu, i, a) by {
        let trs = m.actions[a].outcomes(s[i].it as int);
        assert(m.grid.located_at(s[i], i));
        assert(m.grid.action_ok(m.actions[a]));
        if m.grid.all_land(s, s[i], trs) {
            assert forall|j: int| 0 <= j < trs.len() implies 0 <= m.grid.succ(
                s[i],
                #[trigger] trs[j],
            ) < s.len() && 0 <= trs[j].prob by {
                assert(m.grid.lands(s, s[i], trs[j]));
                assert(m.grid.outcome_ok(m.actions[a].outcomes(s[i].it as int)[j]));
                lemma_succ_bound(m.grid, s[i], trs[j]);
            }
            lemma_weigh_nonneg(m.grid, nu, s, s[i], trs, trs.len() as int);
        }
    }
}

proof fn lemma_updates_frame(m: Model, s: Seq<State>, order: Seq<int>, n: int)
    requires
        m.wf(),
        m.grid.located(s),
        0 <= n <= order.len(),
        forall|k: int| 0 <= k < order.len() ==> 0 <= #[trigger] order[k] < s.len(),
    ensures
        m.grid.located(updates(m, s, order, n)),
        same_frame(s, updates(m, s, order, n)),
    decreases n,
{
    if n > 0 {
        lemma_updates_frame(m, s, order, n - 1);
        let p = updates(m, s, order, n - 1);
        assert(0 <= order[n - 1] < s.len());
        lemma_upd_keeps(m, p, order[n - 1]);
        lemma_frame_trans(s, p, updates(m, s, order, n));
    }
}

/// Updates of the listed states in turn, from `f`, leave every state of `r` at rest and with
/// a value below `cap`, and on the way no sum that overflows or leads out of `r` comes out
/// below that.
pub open spec fn settles(
    m: Model,
    f: Seq<State>,
    order: Seq<int>,
    r: Set<int>,
    cap: int,
) -> bool {
    let t = updates(m, f, order, order.len() as int);
    &&& forall|k: int| 0 <= k < order.len() ==> 0 <= #[trigger] order[k] < f.len()
    &&& forall|i: int| 0 <= i < f.len() && #[trigger] r.contains(i) ==> at_rest(m, t, i)
    &&& reached(m, t, r, cap)
    &&& safe_updates(m, f, order, order.len() as int, cap, r)
}

/// Updates in any order whatever, from upper bounds, that settle on `r` are a solution there.
/// Sweeps over the whole map again and again are one such order.
pub proof fn law_any_order_is_solution(
    m: Model,
    s: Seq<State>,
    f: Seq<State>,
    order: Seq<int>,
    r: Set<int>,
    cap: int,
)
    requires
        0 <= cap <= REACH_THRESH,
        m.wf(),
        m.grid.located(s),
        upper_field(m, s, f, r, cap),
        settles(m, f, order, r, cap),
    ensures
        solution(m, s, updates(m, f, order, order.len() as int), r, cap),
{
    let n = order.len() as int;
    let t = updates(m, f, order, n);
    lemma_goals_located(m.grid, s, f);
    lemma_updates_frame(m, f, order, n);
    lemma_frame_goals(f, t);
    lemma_goals_trans(s, f, t);
    assert forall|nu: Seq<int>|
        #[trigger] dominated(m, s, nu, cap, r) && gives_goals_nothing(
            s,
            nu,
        ) implies above(t, nu) by {
        lemma_upper_dominated(m, s, f, nu, r, cap);
        law_any_order_stays_above(m, f, nu, order, n, cap, r);
    }
}

/// Planar frontiers end where sweeps in any order whatever do: on a map that nothing has
/// been solved on, the two come to the same values and the same policy wherever both have
/// reached.
pub proof fn law_frontier_agrees_with_sweeps(
    m: Model,
    s: Seq<State>,
    n: int,
    order: Seq<int>,
    r: Set<int>,
    cap: int,
    i: int,
)
    requires
        m.wf(),
        m.grid.located(s),
        cold(s),
        0 <= cap <= REACH_THRESH,
        0 <= n,
        rounds(m, seeded(m, s), n).frontier == Set::<int>::empty(),
        reached(m, rounds(m, seeded(m, s), n).states, r, cap),
        rounds_safe(m, seeded(m, s), n, cap, r),
        settles(m, s, order, r, cap),
        0 <= i < s.len(),
        r.contains(i),
        s[i].free,
    ensures
        ({
            let a = rounds(m, seeded(m, s), n).states[i];
            let b = updates(m, s, order, order.len() as int)[i];
            a.total_cost == b.total_cost && a.optimal_action == b.optimal_action
        }),
{
    law_start_is_upper_field(m, s, r, cap);
    law_frontier_solve_is_solution(m, s, seeded(m, s), n, r, cap);
    law_any_order_is_solution(m, s, s, order, r, cap);
    law_solutions_agree(
        m,
        s,
        rounds(m, seeded(m, s), n).states,
        updates(m, s, order, order.len() as int),
        r,
        cap,
        i,
    );
}

/// An ordered sweep brings a solved field back whose values have been raised: it ends with
/// the values and the policy that planar frontiers had come to.
pub proof fn law_ordered_sweep_brings_back(
    m: Model,
    rev: Seq<Seq<Way>>,
    s: Seq<State>,
    n: int,
    h: Seq<State>,
    max_passes: int,
    out: OrderedOutcome,
    t: Seq<State>,
    r: Set<int>,
    cap: int,
    i: int,
)
    requires
        m.wf(),
        m.grid.located(s),
        cold(s),
        0 <= cap <= REACH_THRESH,
        0 <= n,
        rounds(m, seeded(m, s), n).frontier == Set::<int>::empty(),
        reached(m, rounds(m, seeded(m, s), n).states, r, cap),
        rounds_safe(m, seeded(m, s), n, cap, r),
        same_goals(rounds(m, seeded(m, s), n).states, h),
        forall|j: int|
            0 <= j < s.len() && s[j].free ==> rounds(m, seeded(m, s), n).states[j].total_cost <= (
            #[trigger] h[j]).total_cost,
        is_rev(m, rev),
        swept(m, rev, h, max_passes, out, t),
        forall|j: int|
            0 <= j < t.len() && updatable(#[trigger] t[j]) ==> t[j] == m.updated(t, j),
        reached(m, t, r, cap),
        sweep_safe(m, rev, h, out.passes as int, cap, r),
        0 <= i < s.len(),
        r.contains(i),
        s[i].free,
    ensures
        ({
            let a = rounds(m, seeded(m, s), n).states[i];
            a.total_cost == t[i].total_cost && a.optimal_action == t[i].optimal_action
        }),
{
    let o = rounds(m, seeded(m, s), n).states;
    law_start_is_upper_field(m, s, r, cap);
    law_frontier_solve_is_solution(m, s, seeded(m, s), n, r, cap);
    assert forall|j: int| 0 <= j < o.len() && o[j].free implies o[j].total_cost <= (
    #[trigger] h[j]).total_cost by {
        assert(same_place(s[j], o[j]));
    }
    law_raised_is_upper_field(m, s, o, h, r, cap);
    law_ordered_sweep_is_solution(m, rev, s, h, max_passes, out, t, r, cap);
    law_solutions_agree(m, s, o, t, r, cap, i);
}

} // verus!
