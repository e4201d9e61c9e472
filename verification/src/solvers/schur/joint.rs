//! A tile that is restored from more portals is no worse for it.
use vstd::prelude::*;

use crate::bounds::{
    above, lemma_lower_frame, lower_solution, not_below, same_costs, same_terms, stays_in,
};
use crate::grid::lemma_index_bound;
use crate::model::{lemma_frame_trans, lemma_upd_keeps, same_frame, same_place, Model};
use crate::params::REACH_THRESH;
use crate::solvers::schur::artifact::SchurArtifact;
use crate::solvers::schur::bound::{
    bounded, law_polish_never_raises, law_polish_stays_above, law_tile_solve_stays_above,
    lemma_base_located, lemma_frame_costs, lemma_len_nonneg, lemma_same_costs_located,
    tile_scope, Scope,
};
use crate::solvers::schur::crossing::{base_tile, lemma_run_frame};
use crate::solvers::schur::domain::{domain_x, domain_y, fits, lies_on, tile_grid, tile_model};
use crate::solvers::schur::materialize::{
    any_valued, arts_ok, has_pins, has_valued, keep_goals, lemma_pinned_tile, more_goals,
    pinned_tile, pins_only, same_tiling, solution, with_all_portals, with_portals, Valued,
};
use crate::solvers::schur::merge::{lemma_tile_at, offers, tile_at};
use crate::solvers::schur::query::{goal_on, goals_on, in_domain, with_goals};
use crate::solvers::schur::restore::tile_restored;
use crate::solvers::schur::sweep::{
    gs_solved, lemma_visit, polish_pass, polish_run, polished, visit, TILE_MAX_ITER,
};
use crate::solvers::schur::upper::all_safe;
use crate::state::{updatable, State};
use crate::value_iterator::ValueIterator;

verus! {

/// What the states of `s` are worth, with nothing beyond what values can be, and nothing in
/// walls.
pub open spec fn worth(s: Seq<State>) -> Seq<int> {
    s.map_values(
        |st: State|
            if !st.free {
                0
            } else if st.total_cost >= REACH_THRESH {
                REACH_THRESH as int
            } else {
                st.total_cost as int
            },
    )
}

/// No action would lower a value of `s` any further.
pub open spec fn settled(m: Model, s: Seq<State>) -> bool {
    lower_solution(m, s, worth(s), Set::full())
}

/// A state that is no goal has no value.
spec fn fresh(s: Seq<State>) -> bool {
    forall|i: int|
        0 <= i < s.len() ==> (#[trigger] s[i]).final_state || s[i].total_cost >= REACH_THRESH
}

/// `t` has the goals of `s` and more, but not in walls, and none of its values is higher.
spec fn pinned_lower(s: Seq<State>, t: Seq<State>) -> bool {
    &&& s.len() == t.len()
    &&& forall|i: int|
        0 <= i < s.len() ==> {
            &&& s[i].total_cost < REACH_THRESH ==> (#[trigger] t[i]).total_cost <= s[i].total_cost
            &&& s[i].final_state ==> t[i].final_state
            &&& t[i].free == s[i].free
            &&& !s[i].free ==> t[i].final_state == s[i].final_state
        }
}

proof fn lemma_portals_pin_lower(
    a: SchurArtifact,
    d: Seq<u64>,
    t: int,
    s: Seq<State>,
    n: int,
)
    requires
        fresh(s),
    ensures
        fresh(with_portals(a, d, t, s, n)),
        pinned_lower(s, with_portals(a, d, t, s, n)),
    decreases n,
{
    if n > 0 {
        lemma_portals_pin_lower(a, d, t, s, n - 1);
        let p = with_portals(a, d, t, s, n - 1);
        let q = with_portals(a, d, t, s, n);
        assert forall|i: int| 0 <= i < q.len() implies {
            &&& (#[trigger] q[i]).final_state || q[i].total_cost >= REACH_THRESH
            &&& s[i].total_cost < REACH_THRESH ==> q[i].total_cost <= s[i].total_cost
            &&& s[i].final_state ==> q[i].final_state
            &&& q[i].free == s[i].free
            &&& !s[i].free ==> q[i].final_state == s[i].final_state
        } by {
            assert(p[i].free == s[i].free);
        }
    }
}

proof fn lemma_all_portals_pin_lower(arts: Seq<Valued>, t: int, s: Seq<State>, k: int, n: int)
    requires
        fresh(s),
        0 <= k <= n,
    ensures
        fresh(with_all_portals(arts, t, s, n)),
        pinned_lower(with_all_portals(arts, t, s, k), with_all_portals(arts, t, s, n)),
        pinned_lower(s, with_all_portals(arts, t, s, n)),
    decreases n,
{
    if n > 0 {
        let (a, d) = arts[n - 1];
        let p = with_all_portals(arts, t, s, n - 1);
        let q = with_all_portals(arts, t, s, n);
        if k < n {
            lemma_all_portals_pin_lower(arts, t, s, k, n - 1);
        } else {
            lemma_all_portals_pin_lower(arts, t, s, n - 1, n - 1);
        }
        lemma_portals_pin_lower(*a, d@, t, p, a.tiles@[t].portals@.len() as int);
        let o = with_all_portals(arts, t, s, k);
        assert forall|i: int| 0 <= i < q.len() && k < n implies {
            &&& o[i].total_cost < REACH_THRESH ==> (#[trigger] q[i]).total_cost <= o[i].total_cost
            &&& o[i].final_state ==> q[i].final_state
            &&& q[i].free == o[i].free
            &&& !o[i].free ==> q[i].final_state == o[i].final_state
        } by {
            assert(p[i].free == o[i].free);
        }
        assert forall|i: int| 0 <= i < q.len() implies {
            &&& s[i].total_cost < REACH_THRESH ==> (#[trigger] q[i]).total_cost <= s[i].total_cost
            &&& s[i].final_state ==> q[i].final_state
            &&& q[i].free == s[i].free
            &&& !s[i].free ==> q[i].final_state == s[i].final_state
        } by {
            assert(p[i].free == s[i].free);
        }
    }
}

/// A tile with its goals pinned has no values but theirs.
proof fn lemma_goals_fresh(
    a: SchurArtifact,
    vi: ValueIterator,
    t: int,
    f: Seq<(i32, i32, i32)>,
    n: int,
)
    requires
        lies_on(a, vi),
        goals_on(vi.grid(), f),
        0 <= n <= f.len(),
    ensures
        with_goals(a, t, base_tile(a, vi, t), f, n).len() == tile_grid(a).len(),
        fresh(with_goals(a, t, base_tile(a, vi, t), f, n)),
    decreases n,
{
    lemma_len_nonneg(tile_grid(a));
    if n > 0 {
        lemma_goals_fresh(a, vi, t, f, n - 1);
        assert(goal_on(vi.grid(), f[n - 1]));
        if in_domain(a, t, f[n - 1]) {
            let g = tile_grid(a);
            lemma_index_bound(
                f[n - 1].0 - domain_x(a, t),
                f[n - 1].1 - domain_y(a, t),
                f[n - 1].2 as int,
                g.nx,
                g.ny,
                g.nt,
            );
        }
        let p = with_goals(a, t, base_tile(a, vi, t), f, n - 1);
        let q = with_goals(a, t, base_tile(a, vi, t), f, n);
        assert forall|i: int| 0 <= i < q.len() implies (#[trigger] q[i]).final_state
            || q[i].total_cost >= REACH_THRESH by {
            assert(p[i].final_state || p[i].total_cost >= REACH_THRESH);
        }
    }
}

/// The first artifacts pin the same, whatever comes after them.
proof fn lemma_first_portals(arts: Seq<Valued>, t: int, s: Seq<State>, k: int, n: int)
    requires
        0 <= n <= k <= arts.len(),
    ensures
        with_all_portals(arts.take(k), t, s, n) == with_all_portals(arts, t, s, n),
    decreases n,
{
    if n > 0 {
        lemma_first_portals(arts, t, s, k, n - 1);
        assert(arts.take(k)[n - 1] == arts[n - 1]);
    }
}

proof fn lemma_polish_pass_frame(m: Model, s: Seq<State>, forward: bool, n: int)
    requires
        m.wf(),
        m.grid.located(s),
        0 <= n <= m.grid.len(),
    ensures
        m.grid.located(polish_pass(m, s, forward, n).0),
        same_frame(s, polish_pass(m, s, forward, n).0),
    decreases n,
{
    if n > 0 {
        lemma_polish_pass_frame(m, s, forward, n - 1);
        let p = polish_pass(m, s, forward, n - 1).0;
        let q = polish_pass(m, s, forward, n).0;
        let i = visit(m.grid, forward, n - 1);
        lemma_visit(m.grid, forward, n - 1);
        lemma_upd_keeps(m, p, i);
        let u = m.upd(p, i);
        if updatable(p[i]) && m.bellman(p, i).0 < p[i].total_cost {
            assert(q =~= u);
        } else {
            assert(q =~= p);
        }
        lemma_frame_trans(s, p, q);
    }
}

/// A polish changes nothing but values and policies.
proof fn lemma_polish_frame(m: Model, s: Seq<State>, n: int)
    requires
        m.wf(),
        m.grid.located(s),
    ensures
        m.grid.located(polish_run(m, s, n).states),
        same_frame(s, polish_run(m, s, n).states),
    decreases n,
{
    if n > 0 {
        lemma_polish_frame(m, s, n - 1);
        let r = polish_run(m, s, n - 1);
        if !r.done {
            lemma_len_nonneg(m.grid);
            lemma_polish_pass_frame(m, r.states, (n - 1) % 2 == 0, m.grid.len());
            lemma_frame_trans(
                s,
                r.states,
                polish_pass(m, r.states, (n - 1) % 2 == 0, m.grid.len()).0,
            );
        }
    }
}

/// What is known of a tile `e` that was solved from the pins `s2`, of which `s1` are goals.
proof fn lemma_solved_tile(
    m: Model,
    base: Seq<State>,
    s1: Seq<State>,
    s2: Seq<State>,
    e: Seq<State>,
)
    requires
        e == if more_goals(s1, s2) {
            polished(m, keep_goals(s1, gs_solved(m, None, s2).states)).states
        } else {
            gs_solved(m, None, s2).states
        },
        m.wf(),
        m.grid.located(base),
        pins_only(base, s1),
        pins_only(s1, s2),
        fresh(s2),
        pinned_lower(s1, s2),
    ensures
        ({
            let g = gs_solved(m, None, s2).states;
            &&& same_costs(base, s2)
            &&& m.grid.located(s2)
            &&& same_costs(base, keep_goals(s1, g))
            &&& m.grid.located(keep_goals(s1, g))
            &&& same_costs(base, e)
            &&& m.grid.located(e)
            &&& same_frame(s2, g)
            &&& forall|i: int|
                0 <= i < base.len() ==> {
                    &&& (#[trigger] e[i]).final_state == s1[i].final_state
                    &&& s2[i].final_state ==> e[i].total_cost <= s2[i].total_cost
                    &&& !base[i].free && !s1[i].final_state ==> e[i].total_cost >= REACH_THRESH
                }
        }),
{
    let g = gs_solved(m, None, s2).states;
    assert forall|i: int| 0 <= i < base.len() implies same_terms(base[i], #[trigger] s2[i]) by {
        assert(s1[i].free == base[i].free);
    }
    lemma_same_costs_located(m.grid, base, s2);
    lemma_run_frame(m, None, s2, TILE_MAX_ITER as int);
    lemma_frame_costs(base, s2, g);
    let k = keep_goals(s1, g);
    assert forall|i: int| 0 <= i < base.len() implies same_terms(base[i], #[trigger] k[i]) by {
        assert(same_terms(base[i], g[i]));
    }
    lemma_same_costs_located(m.grid, base, k);
    lemma_polish_frame(m, k, TILE_MAX_ITER as int);
    lemma_frame_costs(base, k, polished(m, k).states);
    assert forall|i: int| 0 <= i < base.len() implies {
        &&& (#[trigger] e[i]).final_state == s1[i].final_state
        &&& s2[i].final_state ==> e[i].total_cost <= s2[i].total_cost
        &&& !base[i].free && !s1[i].final_state ==> e[i].total_cost >= REACH_THRESH
    } by {
        assert(same_place(s2[i], g[i]));
        assert(s1[i].final_state ==> s2[i].final_state);
        assert(same_terms(base[i], s2[i]));
        if s2[i].final_state {
            assert(g[i] == s2[i]);
        }
        if more_goals(s1, s2) {
            assert(same_place(k[i], e[i]));
            law_polish_never_raises(m, k, TILE_MAX_ITER as int, i);
            if !updatable(k[i]) {
                assert(e[i] == k[i]);
            }
        } else {
            assert(!(s2[i].final_state && !s1[i].final_state));
        }
        if !base[i].free {
            assert(s2[i].final_state == s1[i].final_state);
            assert(g[i] == s2[i]);
        }
    }
}

/// All states, and all values that count.
pub open spec fn everywhere() -> Scope {
    Scope { cap: REACH_THRESH as int, r: Set::full() }
}

/// A tile restored from all `arts` is no worse than one restored from the first `k` of
/// them: no state of the map comes out with a higher value. This holds of a tile that more
/// sweeps would not lower, as long as no sum that overflows looks like a reached value.
pub proof fn law_more_portals_are_no_worse(
    vi: ValueIterator,
    arts: Seq<Valued>,
    k: int,
    f: Seq<(i32, i32, i32)>,
    t: int,
    s: Seq<State>,
    i: int,
)
    requires
        vi.wf(),
        arts_ok(arts, vi),
        0 < k <= arts.len(),
        goals_on(vi.grid(), f),
        0 <= t < arts[0].0.tiles@.len(),
        settled(tile_model(*arts[0].0, vi), solution(vi, arts, f, t).states),
        all_safe(vi, arts.take(k), f, t, everywhere()),
        s.len() == vi.states@.len(),
        0 <= i < s.len(),
    ensures
        tile_restored(vi, arts, f, t, s)[i].total_cost <= tile_restored(
            vi,
            arts.take(k),
            f,
            t,
            s,
        )[i].total_cost,
{
    let few = arts.take(k);
    let a = *arts[0].0;
    let m = tile_model(a, vi);
    let base = base_tile(a, vi, t);
    let s1 = with_goals(a, t, base, f, f.len() as int);
    let (p, q) = (pinned_tile(vi, few, f, t), pinned_tile(vi, arts, f, t));
    assert(few[0] == arts[0]);
    assert(arts_ok(few, vi)) by {
        assert forall|j: int| 0 <= j < few.len() implies {
            &&& fits(*(#[trigger] few[j]).0, vi)
            &&& few[j].1@.len() == few[j].0.portals@.len()
            &&& same_tiling(*few[0].0, *few[j].0)
        } by {
            assert(few[j] == arts[j]);
        }
    }
    lemma_base_located(a, vi, t);
    lemma_pinned_tile(vi, few, f, t);
    lemma_pinned_tile(vi, arts, f, t);
    lemma_goals_fresh(a, vi, t, f, f.len() as int);
    lemma_first_portals(arts, t, s1, k, k);
    lemma_all_portals_pin_lower(arts, t, s1, k, k);
    lemma_all_portals_pin_lower(arts, t, s1, k, arts.len() as int);
    let (x, y) = (solution(vi, few, f, t).states, solution(vi, arts, f, t).states);
    lemma_solved_tile(m, base, s1, p, x);
    lemma_solved_tile(m, base, s1, q, y);
    let nu = worth(y);
    let c = tile_scope(a, vi.grid(), everywhere(), t);
    assert(lower_solution(m, y, nu, c.r)) by {
        assert forall|j: int, b: int|
            0 <= j < y.len() && 0 <= b < m.actions.len() && y[j].free && c.r.contains(j)
                && stays_in(m, y[j], b, c.r) implies #[trigger] not_below(m, y, nu, j, b) by {}
    }
    assert forall|j: int| 0 <= j < base.len() implies same_terms(y[j], #[trigger] p[j]) by {
        assert(same_terms(base[j], y[j]));
        assert(same_terms(base[j], p[j]));
    }
    lemma_lower_frame(m, y, p, nu, c.r);
    assert forall|j: int| 0 <= j < p.len() implies nu[j] <= (#[trigger] p[j]).total_cost by {
        assert(y[j].final_state == s1[j].final_state);
        assert(q[j].free == p[j].free);
    }
    assert(bounded(nu, c)) by {
        assert forall|j: int| 0 <= j < nu.len() && !c.r.contains(j) implies #[trigger] nu[j] <= 0 by {
            assert(same_terms(base[j], y[j]));
            assert(!base[j].free);
        }
    }
    law_tile_solve_stays_above(m, None, p, nu, c);
    let g = gs_solved(m, None, p).states;
    let e = keep_goals(s1, g);
    assert forall|j: int| 0 <= j < base.len() implies same_terms(y[j], #[trigger] e[j]) by {
        assert(same_terms(base[j], y[j]));
        assert(same_terms(base[j], e[j]));
    }
    lemma_lower_frame(m, y, e, nu, c.r);
    assert forall|j: int| 0 <= j < e.len() && e[j].free implies nu[j] <= (
    #[trigger] e[j]).total_cost by {
        assert(nu[j] <= g[j].total_cost);
    }
    law_polish_stays_above(m, e, nu, c);
    assert(above(x, nu));
    if has_pins(few, f, t) {
        if any_valued(few, t, k) {
            let j = choose|j: int|
                0 <= j < k && has_valued(
                    *(#[trigger] few[j]).0,
                    few[j].1@,
                    t,
                    few[j].0.tiles@[t].portals@.len() as int,
                );
            assert(arts[j] == few[j]);
        }
        assert(has_pins(arts, f, t));
        if offers(a, t, x, i) {
            lemma_tile_at(a, vi, t, i);
            let j = tile_at(a, t, i);
            assert(x[j].final_state == s1[j].final_state);
            assert(y[j].final_state == s1[j].final_state);
            assert(same_terms(base[j], x[j]));
            assert(nu[j] <= x[j].total_cost);
            assert(offers(a, t, y, i));
        }
    }
}

} // verus!
