//! Where sweeps end up: they stay above every lower solution, and a fixed point above
//! the greatest of these is that one.
use vstd::prelude::*;

use crate::bounds::{
    above, exact_from, safe_from, law_bellman_stays_above, law_fixed_point_is_lower_solution,
    law_update_stays_above, lemma_lower_frame, lower_solution, same_terms, values,
};
use crate::model::{consistent, law_best_is_least, same_frame, same_place, Grid, Model};
use crate::params::MAX_COST;
use crate::solvers::frontier2d::{
    candidates, cell_pass, lemma_cell_states, plane_pass, rounds, Wave,
};
use crate::solvers::frontier3d::{candidates3, lattice_pass, rounds3};
use crate::solvers::ordered::{
    evaluated, is_rev, lemma_pass_order_ok, lemma_sweep_items, marked, pass, pass_order, sweep,
    valued, Way, Work,
};
use crate::state::{updatable, State};

verus! {

/// What is known of a field and a lower solution that it is above of, and that gives
/// something to states in `r` at most.
pub open spec fn dominated(m: Model, s: Seq<State>, nu: Seq<int>, cap: int, r: Set<int>) -> bool {
    &&& m.wf()
    &&& m.grid.located(s)
    &&& lower_solution(m, s, nu, r)
    &&& above(s, nu)
    &&& forall|i: int| 0 <= i < nu.len() ==> #[trigger] nu[i] <= cap
    &&& forall|i: int| 0 <= i < nu.len() && !r.contains(i) ==> #[trigger] nu[i] <= 0
    &&& cap <= MAX_COST
}

/// No sum of a state in `r` that overflows or leads out of `r` comes out below `cap` while
/// the first `k` headings of cell `c` are updated.
pub open spec fn cell_safe(m: Model, s: Seq<State>, c: int, k: int, cap: int, r: Set<int>) -> bool {
    forall|j: int|
        0 <= j < k ==> {
            let t = #[trigger] cell_pass(m, s, c, j);
            let i = c * m.grid.nt + j;
            r.contains(i) && updatable(t[i]) ==> safe_from(m, t, t[i], cap, r)
        }
}

/// No sum of a state in `r` that overflows or leads out of `r` comes out below `cap`
/// during a pass over the first `n` cells.
pub open spec fn plane_safe(
    m: Model,
    w: Wave,
    cand: Set<int>,
    n: int,
    cap: int,
    r: Set<int>,
) -> bool {
    forall|c: int|
        0 <= c < n && cand.contains(c) ==> cell_safe(
            m,
            (#[trigger] plane_pass(m, w, cand, c)).states,
            c,
            m.grid.nt,
            cap,
            r,
        )
}

/// No sum of a state in `r` that overflows or leads out of `r` comes out below `cap`
/// during `n` rounds.
pub open spec fn rounds_safe(m: Model, w: Wave, n: int, cap: int, r: Set<int>) -> bool {
    forall|k: int|
        0 <= k < n ==> {
            let p = #[trigger] rounds(m, w, k);
            plane_safe(m, p, candidates(m, p.frontier), m.grid.nx * m.grid.ny, cap, r)
        }
}

proof fn lemma_cell_above(
    m: Model,
    s: Seq<State>,
    nu: Seq<int>,
    c: int,
    k: int,
    cap: int,
    r: Set<int>,
)
    requires
        dominated(m, s, nu, cap, r),
        0 <= c < m.grid.nx * m.grid.ny,
        0 <= k <= m.grid.nt,
        cell_safe(m, s, c, k, cap, r),
    ensures
        dominated(m, cell_pass(m, s, c, k), nu, cap, r),
    decreases k,
{
    if k > 0 {
        assert forall|j: int| 0 <= j < k - 1 implies {
            let t = #[trigger] cell_pass(m, s, c, j);
            let i = c * m.grid.nt + j;
            r.contains(i) && updatable(t[i]) ==> safe_from(m, t, t[i], cap, r)
        } by {}
        lemma_cell_above(m, s, nu, c, k - 1, cap, r);
        lemma_cell_states(m.grid, c, k - 1);
        let t = cell_pass(m, s, c, k - 1);
        assert(nu[c * m.grid.nt + k - 1] <= cap);
        law_update_stays_above(m, t, nu, c * m.grid.nt + k - 1, cap, r);
    }
}

proof fn lemma_plane_above(
    m: Model,
    w: Wave,
    nu: Seq<int>,
    cand: Set<int>,
    n: int,
    cap: int,
    r: Set<int>,
)
    requires
        dominated(m, w.states, nu, cap, r),
        0 <= n <= m.grid.nx * m.grid.ny,
        plane_safe(m, w, cand, n, cap, r),
    ensures
        dominated(m, plane_pass(m, w, cand, n).states, nu, cap, r),
    decreases n,
{
    if n > 0 {
        assert forall|c: int| 0 <= c < n - 1 && cand.contains(c) implies cell_safe(
            m,
            (#[trigger] plane_pass(m, w, cand, c)).states,
            c,
            m.grid.nt,
            cap,
            r,
        ) by {}
        lemma_plane_above(m, w, nu, cand, n - 1, cap, r);
        if cand.contains(n - 1) {
            lemma_cell_above(m, plane_pass(m, w, cand, n - 1).states, nu, n - 1, m.grid.nt, cap, r);
        }
    }
}

/// Rounds of planar frontiers keep a field above a lower solution.
pub proof fn law_rounds_stay_above(m: Model, w: Wave, nu: Seq<int>, n: int, cap: int, r: Set<int>)
    requires
        dominated(m, w.states, nu, cap, r),
        0 <= n,
        rounds_safe(m, w, n, cap, r),
    ensures
        dominated(m, rounds(m, w, n).states, nu, cap, r),
    decreases n,
{
    if n > 0 {
        assert forall|k: int| 0 <= k < n - 1 implies {
            let p = #[trigger] rounds(m, w, k);
            plane_safe(m, p, candidates(m, p.frontier), m.grid.nx * m.grid.ny, cap, r)
        } by {}
        law_rounds_stay_above(m, w, nu, n - 1, cap, r);
        let p = rounds(m, w, n - 1);
        assert(0 <= m.grid.nx * m.grid.ny) by (nonlinear_arith)
            requires
                0 <= m.grid.nx,
                0 <= m.grid.ny,
        ;
        lemma_plane_above(m, p, nu, candidates(m, p.frontier), m.grid.nx * m.grid.ny, cap, r);
    }
}

/// No sum of a state in `r` that overflows or leads out of `r` comes out below `cap`
/// during a pass over the first `n` states.
pub open spec fn lattice_safe(
    m: Model,
    w: Wave,
    cand: Set<int>,
    n: int,
    cap: int,
    r: Set<int>,
) -> bool {
    forall|i: int|
        0 <= i < n && cand.contains(i) ==> {
            let t = (#[trigger] lattice_pass(m, w, cand, i)).states;
            r.contains(i) && updatable(t[i]) ==> safe_from(m, t, t[i], cap, r)
        }
}

/// No sum of a state in `r` that overflows or leads out of `r` comes out below `cap`
/// during `n` rounds.
pub open spec fn rounds3_safe(m: Model, w: Wave, n: int, cap: int, r: Set<int>) -> bool {
    forall|k: int|
        0 <= k < n ==> {
            let p = #[trigger] rounds3(m, w, k);
            lattice_safe(m, p, candidates3(m, p.frontier), m.grid.len(), cap, r)
        }
}

proof fn lemma_lattice_above(
    m: Model,
    w: Wave,
    nu: Seq<int>,
    cand: Set<int>,
    n: int,
    cap: int,
    r: Set<int>,
)
    requires
        dominated(m, w.states, nu, cap, r),
        0 <= n <= m.grid.len(),
        lattice_safe(m, w, cand, n, cap, r),
    ensures
        dominated(m, lattice_pass(m, w, cand, n).states, nu, cap, r),
    decreases n,
{
    if n > 0 {
        assert forall|i: int| 0 <= i < n - 1 && cand.contains(i) implies {
            let t = (#[trigger] lattice_pass(m, w, cand, i)).states;
            r.contains(i) && updatable(t[i]) ==> safe_from(m, t, t[i], cap, r)
        } by {}
        lemma_lattice_above(m, w, nu, cand, n - 1, cap, r);
        if cand.contains(n - 1) {
            let t = lattice_pass(m, w, cand, n - 1).states;
            assert(nu[n - 1] <= cap);
            law_update_stays_above(m, t, nu, n - 1, cap, r);
        }
    }
}

/// Rounds of spatial frontiers keep a field above a lower solution.
pub proof fn law_rounds3_stay_above(m: Model, w: Wave, nu: Seq<int>, n: int, cap: int, r: Set<int>)
    requires
        dominated(m, w.states, nu, cap, r),
        0 <= n,
        rounds3_safe(m, w, n, cap, r),
    ensures
        dominated(m, rounds3(m, w, n).states, nu, cap, r),
    decreases n,
{
    if n > 0 {
        assert forall|k: int| 0 <= k < n - 1 implies {
            let p = #[trigger] rounds3(m, w, k);
            lattice_safe(m, p, candidates3(m, p.frontier), m.grid.len(), cap, r)
        } by {}
        law_rounds3_stay_above(m, w, nu, n - 1, cap, r);
        let p = rounds3(m, w, n - 1);
        assert(0 <= m.grid.len());
        lemma_lattice_above(m, p, nu, candidates3(m, p.frontier), m.grid.len(), cap, r);
    }
}

/// No sum of a state in `r` that overflows or leads out of `r` comes out below `cap` while
/// the first `n` states of `order` are evaluated in turn.
pub open spec fn order_safe(
    m: Model,
    rev: Seq<Seq<Way>>,
    w: Work,
    order: Seq<int>,
    n: int,
    cap: int,
    r: Set<int>,
) -> bool {
    forall|k: int|
        0 <= k < n ==> {
            let t = (#[trigger] pass(m, rev, w, order, k)).states;
            r.contains(order[k]) && updatable(t[order[k]]) ==> safe_from(m, t, t[order[k]], cap, r)
        }
}

/// The work that pass number `k + 1` of a sweep starts from.
pub open spec fn pass_start(m: Model, rev: Seq<Seq<Way>>, s: Seq<State>, k: int) -> Work {
    Work { next: Seq::empty(), ..sweep(m, rev, s, k).work }
}

/// The order of pass number `k + 1` of a sweep.
pub open spec fn order_of(m: Model, rev: Seq<Seq<Way>>, s: Seq<State>, k: int) -> Seq<int> {
    let w = sweep(m, rev, s, k).work;
    pass_order(w.states, w.next)
}

/// No sum of a state in `r` that overflows or leads out of `r` comes out below `cap`
/// during `n` passes of an ordered sweep.
pub open spec fn sweep_safe(
    m: Model,
    rev: Seq<Seq<Way>>,
    s: Seq<State>,
    n: int,
    cap: int,
    r: Set<int>,
) -> bool {
    forall|k: int|
        0 <= k < n ==> {
            let o = #[trigger] order_of(m, rev, s, k);
            order_safe(m, rev, pass_start(m, rev, s, k), o, o.len() as int, cap, r)
        }
}

proof fn lemma_marked_states(g: Grid, w: Work, st: State, ways: Seq<Way>, n: int)
    ensures
        marked(g, w, st, ways, n).states == w.states,
    decreases n,
{
    if n > 0 {
        lemma_marked_states(g, w, st, ways, n - 1);
    }
}

proof fn lemma_pass_above(
    m: Model,
    rev: Seq<Seq<Way>>,
    w: Work,
    nu: Seq<int>,
    order: Seq<int>,
    n: int,
    cap: int,
    r: Set<int>,
)
    requires
        dominated(m, w.states, nu, cap, r),
        0 <= n <= order.len(),
        order_safe(m, rev, w, order, n, cap, r),
        forall|j: int|
            0 <= j < order.len() ==> 0 <= #[trigger] order[j] < w.states.len() && updatable(
                w.states[order[j]],
            ),
    ensures
        dominated(m, pass(m, rev, w, order, n).states, nu, cap, r),
        same_frame(w.states, pass(m, rev, w, order, n).states),
    decreases n,
{
    if n > 0 {
        assert forall|k: int| 0 <= k < n - 1 implies {
            let t = (#[trigger] pass(m, rev, w, order, k)).states;
            r.contains(order[k]) && updatable(t[order[k]]) ==> safe_from(m, t, t[order[k]], cap, r)
        } by {}
        lemma_pass_above(m, rev, w, nu, order, n - 1, cap, r);
        let p = pass(m, rev, w, order, n - 1);
        let i = order[n - 1];
        assert(0 <= order[n - 1] < w.states.len() && updatable(w.states[order[n - 1]]));
        let s = p.states;
        assert(same_place(w.states[i], s[i]));
        assert(r.contains(i) && updatable(s[i]) ==> safe_from(m, s, s[i], cap, r));
        assert(nu[i] <= cap);
        law_bellman_stays_above(m, s, nu, i, cap, r);
        law_best_is_least(m, s, s[i], m.actions.len() as int);
        let t = valued(m, s, i);
        let ways = rev[s[i].it as int];
        lemma_marked_states(
            m.grid,
            Work { states: t, dirty: p.dirty.remove(i), next: p.next },
            s[i],
            ways,
            ways.len() as int,
        );
        let e = pass(m, rev, w, order, n).states;
        assert forall|j: int| 0 <= j < s.len() implies same_terms(s[j], #[trigger] e[j]) by {}
        lemma_lower_frame(m, s, e, nu, r);
        assert forall|j: int| 0 <= j < e.len() implies m.grid.located_at(#[trigger] e[j], j) by {
            assert(m.grid.located_at(s[j], j));
        }
        assert forall|j: int| 0 <= j < e.len() && e[j].free implies nu[j] <= (
        #[trigger] e[j]).total_cost by {
            assert(nu[j] <= s[j].total_cost);
        }
        assert forall|j: int| 0 <= j < e.len() implies same_place(w.states[j], #[trigger] e[j]) by {
            assert(same_place(w.states[j], s[j]));
        }
        assert forall|j: int| 0 <= j < e.len() && !updatable(w.states[j]) implies #[trigger] e[j]
            == w.states[j] by {
            assert(s[j] == w.states[j]);
        }
    }
}

/// An ordered sweep keeps a field above a lower solution.
pub proof fn law_ordered_sweep_stays_above(
    m: Model,
    rev: Seq<Seq<Way>>,
    s: Seq<State>,
    nu: Seq<int>,
    n: int,
    cap: int,
    r: Set<int>,
)
    requires
        dominated(m, s, nu, cap, r),
        is_rev(m, rev),
        0 <= n,
        sweep_safe(m, rev, s, n, cap, r),
    ensures
        dominated(m, sweep(m, rev, s, n).work.states, nu, cap, r),
        same_frame(s, sweep(m, rev, s, n).work.states),
    decreases n,
{
    if n > 0 {
        assert forall|k: int| 0 <= k < n - 1 implies {
            let o = #[trigger] order_of(m, rev, s, k);
            order_safe(m, rev, pass_start(m, rev, s, k), o, o.len() as int, cap, r)
        } by {}
        law_ordered_sweep_stays_above(m, rev, s, nu, n - 1, cap, r);
        let p = pass_start(m, rev, s, n - 1);
        let o = order_of(m, rev, s, n - 1);
        lemma_sweep_items(m, rev, s, n - 1);
        lemma_pass_order_ok(p.states, sweep(m, rev, s, n - 1).work.next);
        lemma_pass_above(m, rev, p, nu, o, o.len() as int, cap, r);
        let e = pass(m, rev, p, o, o.len() as int).states;
        assert forall|j: int| 0 <= j < e.len() implies same_place(s[j], #[trigger] e[j]) by {
            assert(same_place(s[j], p.states[j]));
            assert(same_place(p.states[j], e[j]));
        }
        assert forall|j: int| 0 <= j < e.len() && !updatable(s[j]) implies #[trigger] e[j]
            == s[j] by {
            assert(p.states[j] == s[j]);
            assert(e[j] == p.states[j]);
        }
    } else {
        assert(same_frame(s, s));
    }
}

/// `nu` is the greatest lower solution of the field `s` among those that give goals
/// nothing and stay within `MAX_COST`.
pub open spec fn is_greatest(m: Model, s: Seq<State>, nu: Seq<int>) -> bool {
    &&& lower_solution(m, s, nu, Set::full())
    &&& forall|mu: Seq<int>, i: int|
        #![trigger lower_solution(m, s, mu, Set::full()), mu[i]]
        lower_solution(m, s, mu, Set::full()) && is_admissible(s, mu) && 0 <= i < s.len() && s[i].free ==> mu[i]
            <= nu[i]
}

/// Goals are worth nothing, and nothing is worth more than `MAX_COST`.
pub open spec fn is_admissible(s: Seq<State>, mu: Seq<int>) -> bool {
    &&& mu.len() == s.len()
    &&& forall|i: int| 0 <= i < s.len() && (#[trigger] s[i]).final_state ==> mu[i] <= 0
    &&& forall|i: int| 0 <= i < s.len() && s[i].free ==> #[trigger] mu[i] <= MAX_COST
}

/// A sweep that ends in a fixed point above the greatest lower solution ends in
/// exactly that one, whatever its order was: its values are those of `nu`.
pub proof fn law_fixed_point_above_greatest_is_it(
    m: Model,
    s: Seq<State>,
    t: Seq<State>,
    nu: Seq<int>,
    i: int,
)
    requires
        m.wf(),
        m.grid.located(s),
        is_greatest(m, s, nu),
        same_frame(s, t),
        above(t, nu),
        forall|j: int| 0 <= j < t.len() ==> #[trigger] consistent(m, t, j),
        forall|j: int| 0 <= j < t.len() && (#[trigger] t[j]).final_state ==> t[j].total_cost == 0,
        forall|j: int| 0 <= j < t.len() && t[j].free ==> exact_from(m, t, #[trigger] t[j]),
        0 <= i < s.len(),
        s[i].free,
    ensures
        t[i].total_cost == nu[i],
{
    assert forall|j: int| 0 <= j < t.len() implies m.grid.located_at(#[trigger] t[j], j) by {
        assert(m.grid.located_at(s[j], j));
        assert(same_place(s[j], t[j]));
    }
    law_fixed_point_is_lower_solution(m, t);
    let mu = values(t);
    assert forall|j: int| 0 <= j < s.len() implies same_terms(t[j], #[trigger] s[j]) by {
        assert(same_place(s[j], t[j]));
    }
    lemma_lower_frame(m, t, s, mu, Set::full());
    assert(is_admissible(s, mu)) by {
        assert forall|j: int| 0 <= j < s.len() && (#[trigger] s[j]).final_state implies mu[j] <= 0 by {
            assert(same_place(s[j], t[j]));
            assert(t[j].final_state);
        }
        assert forall|j: int| 0 <= j < s.len() && s[j].free implies #[trigger] mu[j] <= MAX_COST by {
            assert(same_place(s[j], t[j]));
            assert(consistent(m, t, j));
            law_best_is_least(m, t, t[j], m.actions.len() as int);
            if t[j].final_state {
                assert(t[j].total_cost == 0);
            }
        }
    }
    assert(same_place(s[i], t[i]));
    assert(mu[i] <= nu[i]);
    assert(nu[i] <= t[i].total_cost);
}

} // verus!
