//! Values that have been reached never rise: on the way from a field that nothing has been
//! solved on, every value at or below a threshold is backed by an action, and stays so.
use vstd::prelude::*;

use crate::action::StateTransition;
use crate::bounds::{lemma_stays_place, stays_in};
use crate::model::{
    law_best_is_least, lemma_land_same, lemma_upd_keeps, lemma_weighted_nonneg,
    lemma_weighted_place, same_frame, same_frees, same_place, step_cost, word, Grid, Model,
};
use crate::params::{MAX_COST, PROB_BASE};
use crate::solvers::fixed_point3::{lemma_lattice_frame, lemma_rounds3_frame, no_rise, rounds_no_rise};
use crate::solvers::frontier2d::Wave;
use crate::solvers::frontier3d::{candidates3, lattice_pass, round3, rounds3};
use crate::state::{updatable, State};

verus! {

/// All outcomes of action `a` from `st` land where the value is at most `cap`, and no sum
/// overflows.
pub open spec fn sure(m: Model, s: Seq<State>, st: State, a: int, cap: int) -> bool {
    let trs = m.actions[a].outcomes(st.it as int);
    &&& m.grid.all_land(s, st, trs)
    &&& forall|k: int|
        0 <= k < trs.len() ==> s[m.grid.succ(st, #[trigger] trs[k])].total_cost <= cap
    &&& m.grid.weighted(s, st, trs, trs.len() as int) < word()
}

/// Every action from `st` whose outcomes land either stays in `r` and surely leads to where
/// the value is at most `cap`, or costs more than `cap`.
pub open spec fn clean_from(m: Model, s: Seq<State>, st: State, cap: int, r: Set<int>) -> bool {
    forall|a: int|
        0 <= a < m.actions.len() && m.grid.all_land(
            s,
            st,
            (#[trigger] m.actions[a]).outcomes(st.it as int),
        ) ==> (stays_in(m, st, a, r) && sure(m, s, st, a, cap)) || cap < m.grid.cost(
            s,
            st,
            m.actions[a],
        )
}

/// Some action that stays in `r` and surely leads to where the value is at most `cap` costs
/// no more than state `i` says.
pub open spec fn backed(m: Model, s: Seq<State>, i: int, cap: int, r: Set<int>) -> bool {
    exists|a: int| #[trigger] backs(m, s, i, a, cap, r)
}

/// Action `a` is one.
pub open spec fn backs(m: Model, s: Seq<State>, i: int, a: int, cap: int, r: Set<int>) -> bool {
    &&& 0 <= a < m.actions.len()
    &&& stays_in(m, s[i], a, r)
    &&& sure(m, s, s[i], a, cap)
    &&& m.grid.cost(s, s[i], m.actions[a]) <= s[i].total_cost
}

/// Every value in `r` at or below `cap` is backed.
pub open spec fn all_backed(m: Model, s: Seq<State>, r: Set<int>, cap: int) -> bool {
    forall|i: int|
        0 <= i < s.len() && #[trigger] r.contains(i) && updatable(s[i]) && s[i].total_cost <= cap
            ==> backed(m, s, i, cap, r)
}

proof fn lemma_weighted_less(
    g: Grid,
    s: Seq<State>,
    t: Seq<State>,
    st: State,
    trs: Seq<StateTransition>,
    k: int,
)
    requires
        0 <= k <= trs.len(),
        forall|j: int|
            0 <= j < trs.len() ==> 0 <= trs[j].prob && step_cost(
                t[g.succ(st, #[trigger] trs[j])],
            ) <= step_cost(s[g.succ(st, trs[j])]),
    ensures
        g.weighted(t, st, trs, k) <= g.weighted(s, st, trs, k),
    decreases k,
{
    if k > 0 {
        lemma_weighted_less(g, s, t, st, trs, k - 1);
        let (a, b, p) = (
            step_cost(t[g.succ(st, trs[k - 1])]),
            step_cost(s[g.succ(st, trs[k - 1])]),
            trs[k - 1].prob as int,
        );
        assert(a * p <= b * p) by (nonlinear_arith)
            requires
                a <= b,
                0 <= p,
        ;
    }
}

/// A sure action stays sure and gets no dearer when values that have been reached do not
/// rise.
proof fn lemma_sure_stays(
    m: Model,
    s: Seq<State>,
    t: Seq<State>,
    i: int,
    a: int,
    cap: int,
)
    requires
        m.wf(),
        m.grid.located(s),
        same_frame(s, t),
        0 <= i < s.len(),
        0 <= a < m.actions.len(),
        sure(m, s, s[i], a, cap),
        forall|k: int|
            0 <= k < m.actions[a].outcomes(s[i].it as int).len() ==> t[m.grid.succ(
                s[i],
                #[trigger] m.actions[a].outcomes(s[i].it as int)[k],
            )].total_cost <= s[m.grid.succ(
                s[i],
                m.actions[a].outcomes(s[i].it as int)[k],
            )].total_cost,
    ensures
        sure(m, t, t[i], a, cap),
        m.grid.cost(t, t[i], m.actions[a]) <= m.grid.cost(s, s[i], m.actions[a]),
{
    let g = m.grid;
    let trs = m.actions[a].outcomes(s[i].it as int);
    let n = trs.len() as int;
    assert(g.located_at(s[i], i));
    assert(same_place(s[i], t[i]));
    assert(same_frees(s, t)) by {
        assert forall|j: int| 0 <= j < s.len() implies (#[trigger] s[j]).free == t[j].free by {
            assert(same_place(s[j], t[j]));
        }
    }
    lemma_land_same(m, s, t, s[i], t[i], a);
    assert(g.action_ok(m.actions[a]));
    assert forall|j: int| 0 <= j < n implies 0 <= trs[j].prob && step_cost(
        t[g.succ(s[i], #[trigger] trs[j])],
    ) <= step_cost(s[g.succ(s[i], trs[j])]) by {
        assert(g.outcome_ok(m.actions[a].outcomes(s[i].it as int)[j]));
        let q = g.succ(s[i], trs[j]);
        assert(same_place(s[q], t[q]));
    }
    lemma_weighted_less(g, s, t, s[i], trs, n);
    lemma_weighted_place(g, t, s[i], t[i], trs, n);
    lemma_weighted_nonneg(g, t, t[i], trs, n);
    assert forall|k: int| 0 <= k < n implies t[g.succ(t[i], #[trigger] trs[k])].total_cost
        <= cap by {
        assert(g.succ(t[i], trs[k]) == g.succ(s[i], trs[k]));
        assert(s[g.succ(s[i], trs[k])].total_cost <= cap);
    }
    let (x, y) = (g.weighted(t, t[i], trs, n), g.weighted(s, s[i], trs, n));
    vstd::arithmetic::div_mod::lemma_small_mod(x as nat, word() as nat);
    vstd::arithmetic::div_mod::lemma_small_mod(y as nat, word() as nat);
    vstd::arithmetic::div_mod::lemma_div_is_ordered(x, y, PROB_BASE as int);
}

/// An update keeps all values backed, and raises none that has been reached.
proof fn lemma_update_backed(m: Model, s: Seq<State>, i: int, r: Set<int>, cap: int)
    requires
        m.wf(),
        m.grid.located(s),
        all_backed(m, s, r, cap),
        0 <= i < s.len(),
        cap < MAX_COST,
        r.contains(i) && updatable(s[i]) ==> clean_from(m, s, s[i], cap, r),
    ensures
        all_backed(m, m.upd(s, i), r, cap),
        r.contains(i) ==> m.updated(s, i).total_cost <= s[i].total_cost || (cap < s[i].total_cost
            && cap < m.updated(s, i).total_cost),
{
    let t = m.upd(s, i);
    let na = m.actions.len() as int;
    lemma_upd_keeps(m, s, i);
    law_best_is_least(m, s, s[i], na);
    let b = m.best(s, s[i], na);
    if r.contains(i) && updatable(s[i]) && s[i].total_cost <= cap {
        assert(backed(m, s, i, cap, r));
        let a = choose|a: int| #[trigger] backs(m, s, i, a, cap, r);
        assert(b.0 <= m.grid.cost(s, s[i], m.actions[a]));
    }
    assert forall|j: int|
        0 <= j < t.len() && #[trigger] r.contains(j) && updatable(t[j]) && t[j].total_cost
            <= cap implies backed(m, t, j, cap, r) by {
        assert(same_place(s[j], t[j]));
        let a = if j == i && updatable(s[i]) {
            let a = b.1->0 as int;
            assert(m.grid.cost(s, s[i], m.actions[a]) == b.0);
            assert(m.grid.all_land(s, s[i], m.actions[a].outcomes(s[i].it as int)));
            assert(sure(m, s, s[i], a, cap) && stays_in(m, s[i], a, r));
            a
        } else {
            assert(t[j] == s[j]);
            assert(backed(m, s, j, cap, r));
            choose|a: int| #[trigger] backs(m, s, j, a, cap, r)
        };
        let trs = m.actions[a].outcomes(s[j].it as int);
        assert(m.grid.located_at(s[j], j));
        lemma_land_same(m, s, s, s[j], s[j], a);
        assert forall|k: int| 0 <= k < trs.len() implies t[m.grid.succ(
            s[j],
            #[trigger] trs[k],
        )].total_cost <= s[m.grid.succ(s[j], trs[k])].total_cost by {
            let q = m.grid.succ(s[j], trs[k]);
            assert(0 <= m.grid.succ(s[j], m.actions[a].outcomes(s[j].it as int)[k]) < s.len());
            assert(s[q].total_cost <= cap);
            assert(r.contains(m.grid.succ(s[j], m.actions[a].outcomes(s[j].it as int)[k])));
            if q == i {
                assert(r.contains(i));
            }
        }
        lemma_sure_stays(m, s, t, j, a, cap);
        lemma_stays_place(m, s[j], t[j], a, r);
        assert(backs(m, t, j, a, cap, r));
    }
}

/// Whatever does not stay in `r` and surely lead to where the value is at most `cap` comes
/// out above `cap`, at each state of `r` that a pass over the first `n` states evaluates.
pub open spec fn lattice_clean(
    m: Model,
    w: Wave,
    cand: Set<int>,
    n: int,
    cap: int,
    r: Set<int>,
) -> bool {
    forall|i: int|
        0 <= i < n && cand.contains(i) && r.contains(i) ==> {
            let t = (#[trigger] lattice_pass(m, w, cand, i)).states;
            updatable(t[i]) ==> clean_from(m, t, t[i], cap, r)
        }
}

/// The same during `n` rounds.
pub open spec fn rounds3_clean(m: Model, w: Wave, n: int, cap: int, r: Set<int>) -> bool {
    forall|k: int|
        0 <= k < n ==> {
            let p = #[trigger] rounds3(m, w, k);
            lattice_clean(m, p, candidates3(m, p.frontier), m.grid.len(), cap, r)
        }
}

proof fn lemma_pass_backed(m: Model, w: Wave, cand: Set<int>, n: int, r: Set<int>, cap: int)
    requires
        m.wf(),
        m.grid.located(w.states),
        all_backed(m, w.states, r, cap),
        cap < MAX_COST,
        0 <= n <= m.grid.len(),
        lattice_clean(m, w, cand, n, cap, r),
    ensures
        all_backed(m, lattice_pass(m, w, cand, n).states, r, cap),
        no_rise(m, w, cand, n, cap, r),
    decreases n,
{
    if n > 0 {
        assert(lattice_clean(m, w, cand, n - 1, cap, r));
        lemma_pass_backed(m, w, cand, n - 1, r, cap);
        lemma_lattice_frame(m, w, cand, n - 1);
        let p = lattice_pass(m, w, cand, n - 1).states;
        if cand.contains(n - 1) {
            lemma_update_backed(m, p, n - 1, r, cap);
        }
        assert forall|i: int| 0 <= i < n && cand.contains(i) && r.contains(i) implies {
            let s = (#[trigger] lattice_pass(m, w, cand, i)).states;
            m.updated(s, i).total_cost <= s[i].total_cost || (cap < s[i].total_cost && cap
                < m.updated(s, i).total_cost)
        } by {
            if i < n - 1 {
                assert(no_rise(m, w, cand, n - 1, cap, r));
            }
        }
    }
}

/// On the way from a field on which no state of `r` but goals has been reached, no value
/// that has been reached is ever raised.
pub proof fn law_cold_values_never_rise(m: Model, w: Wave, n: int, r: Set<int>, cap: int)
    requires
        m.wf(),
        m.grid.located(w.states),
        cap < MAX_COST,
        forall|i: int|
            0 <= i < w.states.len() && #[trigger] r.contains(i) && updatable(w.states[i]) ==> cap
                < w.states[i].total_cost,
        0 <= n,
        rounds3_clean(m, w, n, cap, r),
    ensures
        rounds_no_rise(m, w, n, cap, r),
        all_backed(m, rounds3(m, w, n).states, r, cap),
    decreases n,
{
    if n > 0 {
        assert(rounds3_clean(m, w, n - 1, cap, r));
        law_cold_values_never_rise(m, w, n - 1, r, cap);
        lemma_rounds3_frame(m, w, n - 1);
        let p = rounds3(m, w, n - 1);
        assert(lattice_clean(m, p, candidates3(m, p.frontier), m.grid.len(), cap, r));
        assert(0 <= m.grid.len());
        lemma_pass_backed(m, p, candidates3(m, p.frontier), m.grid.len(), r, cap);
        assert(rounds3(m, w, n) == round3(m, p));
        assert forall|k: int| 0 <= k < n implies {
            let q = #[trigger] rounds3(m, w, k);
            no_rise(m, q, candidates3(m, q.frontier), m.grid.len(), cap, r)
        } by {
            if k < n - 1 {
                assert(rounds_no_rise(m, w, n - 1, cap, r));
            }
        }
    }
}

} // verus!
