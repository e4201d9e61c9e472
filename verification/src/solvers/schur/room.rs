//! Where penalties are not too large, no sum of costs overflows while tiles are solved: a
//! tile starts at values that are far from the end of a machine word, and every update
//! raises the largest of them by one penalty at most.
use vstd::prelude::*;

use crate::action::StateTransition;
use crate::bounds::{
    full_mass, lemma_stays_place, mass, safe_from, same_costs, same_terms, stays_in,
};
use crate::grid::{lemma_decode, lemma_encode, lemma_index_bound, on_axis, t_of, x_of, y_of};
use crate::model::{
    law_best_is_least, lemma_heading, lemma_located, lemma_succ_bound, same_place, step_cost, word,
    Grid, Model,
};
use crate::params::{MAX_COST, PROB_BASE, REACH_THRESH};
use crate::solvers::agreement::{lemma_goals_trans, same_goals};
use crate::solvers::schur::agree::{
    lemma_listed_goals, lemma_portals_goals, lemma_restored_goals,
};
use crate::solvers::schur::artifact::SchurArtifact;
use crate::solvers::schur::bound::{
    crossing_start, crossings_safe, lemma_base_located, lemma_frame_costs, lemma_len_nonneg,
    lemma_same_costs_located, lemma_tile_full_mass, lemma_tile_place, lemma_tile_succ, pass_safe,
    polish_pass_safe, polish_safe, run_safe, tile_scope, Scope,
};
use crate::solvers::schur::crossing::{base_tile, lemma_pass_frame, lemma_run_frame, watch_list};
use crate::solvers::schur::domain::{
    domain_x, domain_y, edges_ok, fits, lemma_map_patch, lies_on, map_patch, portal_on, tile_grid,
    tile_model,
};
use crate::solvers::schur::fix::{fixed_list, fixed_portals, is_real};
use crate::solvers::schur::materialize::{
    arts_ok, keep_goals, lemma_pinned_tile, pinned_tile, with_all_portals, with_portals,
};
use crate::solvers::schur::patch::PATCH_LEN;
use crate::solvers::schur::query::{
    goal_on, goals, goals_on, in_domain, lemma_goals_on, with_goals,
};
use crate::solvers::schur::restore::{one_art, tiles_restored};
use crate::solvers::schur::solve::all_tiles;
use crate::solvers::schur::sweep::{
    gs_pass, gs_run, gs_solved, lemma_visit, lowered, polish_pass, polish_run, visit,
    TILE_MAX_ITER,
};
use crate::solvers::schur::upper::{
    field_safe, fixing_safe, list_safe, real_safe, restoring_safe, seeding_safe,
};
use crate::state::{updatable, State};
use crate::value_iterator::ValueIterator;

verus! {

/// No value of `s` is above `v`, and no penalty above `p`.
pub open spec fn capped(s: Seq<State>, v: int, p: int) -> bool {
    forall|i: int|
        0 <= i < s.len() ==> (#[trigger] s[i]).total_cost <= v && s[i].penalty + s[i].local_penalty
            <= p
}

/// Action `a` stays on free states of the map from state `i`.
pub open spec fn leads_on(m: Model, s: Seq<State>, i: int, a: int) -> bool {
    0 <= a < m.actions.len() && m.grid.all_land(s, s[i], m.actions[a].outcomes(s[i].it as int))
}

/// No action that lands leads out of the scope.
pub open spec fn closed_scope(m: Model, s: Seq<State>, c: Scope) -> bool {
    forall|i: int, a: int|
        0 <= i < s.len() && c.r.contains(i) && #[trigger] leads_on(m, s, i, a) ==> stays_in(
            m,
            s[i],
            a,
            c.r,
        )
}

/// Every free state has an action that leads on, and none that does leads out of the scope.
pub open spec fn no_dead_ends(m: Model, s: Seq<State>, c: Scope) -> bool {
    &&& forall|i: int|
        0 <= i < s.len() && (#[trigger] s[i]).free ==> exists|a: int| #[trigger] leads_on(m, s, i, a)
    &&& closed_scope(m, s, c)
}

/// Values up to `v` and penalties up to `p` leave room in a machine word.
pub open spec fn roomy(v: int, p: int) -> bool {
    (v + p) * PROB_BASE < word()
}

proof fn lemma_leads_on_frame(m: Model, s: Seq<State>, t: Seq<State>, i: int, a: int)
    requires
        m.wf(),
        m.grid.located(s),
        same_costs(s, t),
        0 <= i < s.len(),
        leads_on(m, t, i, a),
    ensures
        leads_on(m, s, i, a),
{
    let g = m.grid;
    assert(same_terms(s[i], t[i]));
    let trs = m.actions[a].outcomes(s[i].it as int);
    assert(g.located_at(s[i], i));
    assert(g.action_ok(m.actions[a]));
    assert forall|k: int| 0 <= k < trs.len() implies g.lands(s, s[i], #[trigger] trs[k]) by {
        assert(g.lands(t, t[i], trs[k]));
        assert(g.outcome_ok(m.actions[a].outcomes(s[i].it as int)[k]));
        lemma_succ_bound(g, s[i], trs[k]);
        assert(same_terms(s[g.succ(s[i], trs[k])], t[g.succ(s[i], trs[k])]));
    }
}

/// What is free decides where actions lead.
proof fn lemma_closed_scope_frame(m: Model, s: Seq<State>, t: Seq<State>, c: Scope)
    requires
        m.wf(),
        m.grid.located(s),
        same_costs(s, t),
        closed_scope(m, s, c),
    ensures
        closed_scope(m, t, c),
{
    assert forall|i: int, a: int|
        0 <= i < t.len() && c.r.contains(i) && #[trigger] leads_on(m, t, i, a) implies stays_in(
        m,
        t[i],
        a,
        c.r,
    ) by {
        lemma_leads_on_frame(m, s, t, i, a);
        assert(same_terms(s[i], t[i]));
        lemma_stays_place(m, s[i], t[i], a, c.r);
    }
}

proof fn lemma_no_dead_ends_frame(m: Model, s: Seq<State>, t: Seq<State>, c: Scope)
    requires
        m.wf(),
        m.grid.located(s),
        same_costs(s, t),
        no_dead_ends(m, s, c),
    ensures
        no_dead_ends(m, t, c),
{
    let g = m.grid;
    assert forall|i: int| 0 <= i < t.len() && (#[trigger] t[i]).free implies exists|a: int| #[trigger]
        leads_on(m, t, i, a) by {
        assert(same_terms(s[i], t[i]));
        assert(s[i].free);
        let a = choose|a: int| #[trigger] leads_on(m, s, i, a);
        let trs = m.actions[a].outcomes(s[i].it as int);
        assert(g.located_at(s[i], i));
        assert(g.action_ok(m.actions[a]));
        assert forall|k: int| 0 <= k < trs.len() implies g.lands(t, t[i], #[trigger] trs[k]) by {
            assert(g.lands(s, s[i], trs[k]));
            assert(g.outcome_ok(m.actions[a].outcomes(s[i].it as int)[k]));
            lemma_succ_bound(g, s[i], trs[k]);
            assert(same_terms(s[g.succ(s[i], trs[k])], t[g.succ(s[i], trs[k])]));
        }
        assert(leads_on(m, t, i, a));
    }
    lemma_closed_scope_frame(m, s, t, c);
}

proof fn lemma_weighted_capped(
    g: Grid,
    s: Seq<State>,
    st: State,
    trs: Seq<StateTransition>,
    k: int,
    v: int,
    p: int,
)
    requires
        capped(s, v, p),
        0 <= k <= trs.len(),
        forall|j: int|
            0 <= j < trs.len() ==> 0 <= (#[trigger] trs[j]).prob && 0 <= g.succ(st, trs[j])
                < s.len(),
    ensures
        g.weighted(s, st, trs, k) <= (v + p) * mass(trs, k),
    decreases k,
{
    if k > 0 {
        lemma_weighted_capped(g, s, st, trs, k - 1, v, p);
        let c = step_cost(s[g.succ(st, trs[k - 1])]);
        let (q, b, w) = (trs[k - 1].prob as int, v + p, mass(trs, k - 1));
        assert(c * q <= b * q) by (nonlinear_arith)
            requires
                c <= b,
                0 <= q,
        ;
        assert(b * (w + q) == b * w + b * q) by (nonlinear_arith);
    } else {
        assert((v + p) * 0 == 0);
    }
}

/// An action that leads on costs at most a penalty more than the largest value, and its
/// sum does not overflow.
proof fn lemma_cost_capped(m: Model, s: Seq<State>, i: int, a: int, v: int, p: int)
    requires
        m.wf(),
        m.grid.located(s),
        full_mass(m),
        capped(s, v, p),
        roomy(v, p),
        0 <= i < s.len(),
        leads_on(m, s, i, a),
    ensures
        m.grid.weighted(
            s,
            s[i],
            m.actions[a].outcomes(s[i].it as int),
            m.actions[a].outcomes(s[i].it as int).len() as int,
        ) < word(),
        m.grid.cost(s, s[i], m.actions[a]) <= v + p,
{
    let g = m.grid;
    let trs = m.actions[a].outcomes(s[i].it as int);
    let n = trs.len() as int;
    assert(g.located_at(s[i], i));
    assert(g.action_ok(m.actions[a]));
    assert forall|j: int| 0 <= j < trs.len() implies 0 <= (#[trigger] trs[j]).prob && 0 <= g.succ(
        s[i],
        trs[j],
    ) < s.len() by {
        assert(g.lands(s, s[i], trs[j]));
        assert(g.outcome_ok(m.actions[a].outcomes(s[i].it as int)[j]));
        lemma_succ_bound(g, s[i], trs[j]);
    }
    lemma_weighted_capped(g, s, s[i], trs, n, v, p);
    crate::model::lemma_weighted_nonneg(g, s, s[i], trs, n);
    let w = g.weighted(s, s[i], trs, n);
    assert(mass(trs, n) == PROB_BASE);
    vstd::arithmetic::div_mod::lemma_small_mod(w as nat, word() as nat);
    assert(w / (PROB_BASE as int) <= v + p) by (nonlinear_arith)
        requires
            w <= (v + p) * PROB_BASE,
            PROB_BASE > 0,
    ;
}

proof fn lemma_update_capped(m: Model, s: Seq<State>, i: int, v: int, p: int, c: Scope)
    requires
        m.wf(),
        m.grid.located(s),
        full_mass(m),
        capped(s, v, p),
        roomy(v, p),
        no_dead_ends(m, s, c),
        0 <= i < s.len(),
        0 <= p,
    ensures
        c.r.contains(i) && updatable(s[i]) ==> safe_from(m, s, s[i], c.cap, c.r),
        capped(m.upd(s, i), v + p, p),
        capped(s.update(i, lowered(m, s, i)), v, p),
{
    assert forall|a: int|
        0 <= a < m.actions.len() && c.r.contains(i) && m.grid.all_land(
            s,
            s[i],
            (#[trigger] m.actions[a]).outcomes(s[i].it as int),
        ) implies stays_in(m, s[i], a, c.r) && m.grid.weighted(
        s,
        s[i],
        m.actions[a].outcomes(s[i].it as int),
        m.actions[a].outcomes(s[i].it as int).len() as int,
    ) < word() by {
        assert(leads_on(m, s, i, a));
        lemma_cost_capped(m, s, i, a, v, p);
    }
    law_best_is_least(m, s, s[i], m.actions.len() as int);
    if updatable(s[i]) {
        let a = choose|a: int| #[trigger] leads_on(m, s, i, a);
        lemma_cost_capped(m, s, i, a, v, p);
        assert(m.bellman(s, i).0 <= m.grid.cost(s, s[i], m.actions[a]));
    }
    let t = m.upd(s, i);
    assert forall|j: int| 0 <= j < t.len() implies (#[trigger] t[j]).total_cost <= v + p
        && t[j].penalty + t[j].local_penalty <= p by {
        assert(s[j].total_cost <= v);
    }
    let u = s.update(i, lowered(m, s, i));
    assert forall|j: int| 0 <= j < u.len() implies (#[trigger] u[j]).total_cost <= v
        && u[j].penalty + u[j].local_penalty <= p by {
        assert(s[j].total_cost <= v);
    }
}

proof fn lemma_roomy_below(v: int, w: int, p: int)
    requires
        roomy(w, p),
        v <= w,
    ensures
        roomy(v, p),
{
    assert((v + p) * PROB_BASE <= (w + p) * PROB_BASE) by (nonlinear_arith)
        requires
            v <= w,
            PROB_BASE > 0,
    ;
}

proof fn lemma_pass_room(m: Model, s: Seq<State>, forward: bool, n: int, v: int, p: int, c: Scope)
    requires
        m.wf(),
        m.grid.located(s),
        full_mass(m),
        capped(s, v, p),
        no_dead_ends(m, s, c),
        0 <= n <= m.grid.len(),
        0 <= p,
        roomy(v + n * p, p),
    ensures
        pass_safe(m, s, forward, n, c),
        capped(gs_pass(m, s, forward, n).states, v + n * p, p),
    decreases n,
{
    if n > 0 {
        assert(n * p == (n - 1) * p + p) by (nonlinear_arith);
        lemma_roomy_below(v + (n - 1) * p, v + n * p, p);
        lemma_pass_room(m, s, forward, n - 1, v, p, c);
        lemma_pass_frame(m, s, forward, n - 1);
        let t = gs_pass(m, s, forward, n - 1).states;
        assert forall|i: int| 0 <= i < s.len() implies same_terms(s[i], #[trigger] t[i]) by {
            assert(same_place(s[i], t[i]));
        }
        lemma_no_dead_ends_frame(m, s, t, c);
        lemma_visit(m.grid, forward, n - 1);
        let i = visit(m.grid, forward, n - 1);
        lemma_update_capped(m, t, i, v + (n - 1) * p, p, c);
        assert forall|k: int| 0 <= k < n implies {
            let t = (#[trigger] gs_pass(m, s, forward, k)).states;
            let i = visit(m.grid, forward, k);
            c.r.contains(i) && updatable(t[i]) ==> safe_from(m, t, t[i], c.cap, c.r)
        } by {
            if k == n - 1 {
                assert(gs_pass(m, s, forward, k).states == t);
            }
        }
    } else {
        assert(0 * p == 0);
    }
}

proof fn lemma_run_room(
    m: Model,
    watch: Option<Seq<int>>,
    s: Seq<State>,
    n: int,
    v: int,
    p: int,
    c: Scope,
)
    requires
        m.wf(),
        m.grid.located(s),
        full_mass(m),
        capped(s, v, p),
        no_dead_ends(m, s, c),
        0 <= n,
        0 <= p,
        roomy(v + n * (m.grid.len() * p), p),
    ensures
        m.grid.located(gs_run(m, watch, s, n).states),
        no_dead_ends(m, gs_run(m, watch, s, n).states, c),
        capped(gs_run(m, watch, s, n).states, v + n * (m.grid.len() * p), p),
    decreases n,
{
    let l = m.grid.len() * p;
    lemma_len_nonneg(m.grid);
    assert(0 <= l) by (nonlinear_arith)
        requires
            l == m.grid.len() * p,
            0 <= m.grid.len(),
            0 <= p,
    ;
    lemma_run_frame(m, watch, s, n);
    let t = gs_run(m, watch, s, n).states;
    assert forall|i: int| 0 <= i < s.len() implies same_terms(s[i], #[trigger] t[i]) by {
        assert(same_place(s[i], t[i]));
    }
    lemma_no_dead_ends_frame(m, s, t, c);
    if n > 0 {
        assert(n * l == (n - 1) * l + l) by (nonlinear_arith);
        lemma_roomy_below(v + (n - 1) * l, v + n * l, p);
        lemma_run_room(m, watch, s, n - 1, v, p, c);
        let r = gs_run(m, watch, s, n - 1);
        if !r.done {
            lemma_pass_room(m, r.states, (n - 1) % 2 == 0, m.grid.len(), v + (n - 1) * l, p, c);
        } else {
            assert forall|i: int| 0 <= i < t.len() implies (#[trigger] t[i]).total_cost <= v + n * l
                by {
                assert(r.states[i].total_cost <= v + (n - 1) * l);
            }
        }
    } else {
        assert(0 * l == 0);
    }
}

/// No sum overflows while a tile without dead ends is solved, where values up to `v` and
/// penalties up to `p` leave room for one penalty more per update.
pub proof fn law_tile_solve_has_room(
    m: Model,
    watch: Option<Seq<int>>,
    s: Seq<State>,
    v: int,
    p: int,
    c: Scope,
)
    requires
        m.wf(),
        m.grid.located(s),
        full_mass(m),
        capped(s, v, p),
        no_dead_ends(m, s, c),
        0 <= p,
        roomy(v + TILE_MAX_ITER * (m.grid.len() * p), p),
    ensures
        run_safe(m, watch, s, c),
        capped(gs_solved(m, watch, s).states, v + TILE_MAX_ITER * (m.grid.len() * p), p),
{
    let l = m.grid.len() * p;
    lemma_len_nonneg(m.grid);
    assert(0 <= l) by (nonlinear_arith)
        requires
            l == m.grid.len() * p,
            0 <= m.grid.len(),
            0 <= p,
    ;
    let top = v + TILE_MAX_ITER * l;
    assert forall|q: int|
        0 <= q < TILE_MAX_ITER && !(#[trigger] gs_run(m, watch, s, q)).done implies pass_safe(
        m,
        gs_run(m, watch, s, q).states,
        q % 2 == 0,
        m.grid.len(),
        c,
    ) by {
        assert(q * l + l <= TILE_MAX_ITER * l) by (nonlinear_arith)
            requires
                q + 1 <= TILE_MAX_ITER,
                0 <= l,
        ;
        lemma_roomy_below(v + q * l, top, p);
        lemma_roomy_below(v + q * l + l, top, p);
        lemma_run_room(m, watch, s, q, v, p, c);
        lemma_pass_room(m, gs_run(m, watch, s, q).states, q % 2 == 0, m.grid.len(), v + q * l, p, c);
    }
    lemma_run_room(m, watch, s, TILE_MAX_ITER as int, v, p, c);
}

proof fn lemma_polish_pass_room(m: Model, s: Seq<State>, forward: bool, n: int, v: int, p: int, c: Scope)
    requires
        m.wf(),
        m.grid.located(s),
        full_mass(m),
        capped(s, v, p),
        no_dead_ends(m, s, c),
        0 <= n <= m.grid.len(),
        0 <= p,
        roomy(v, p),
    ensures
        polish_pass_safe(m, s, forward, n, c),
        m.grid.located(polish_pass(m, s, forward, n).0),
        no_dead_ends(m, polish_pass(m, s, forward, n).0, c),
        capped(polish_pass(m, s, forward, n).0, v, p),
    decreases n,
{
    if n > 0 {
        lemma_polish_pass_room(m, s, forward, n - 1, v, p, c);
        let t = polish_pass(m, s, forward, n - 1).0;
        let u = polish_pass(m, s, forward, n).0;
        lemma_visit(m.grid, forward, n - 1);
        let i = visit(m.grid, forward, n - 1);
        lemma_update_capped(m, t, i, v, p, c);
        assert forall|j: int| 0 <= j < t.len() implies same_terms(t[j], #[trigger] u[j]) by {}
        lemma_same_costs_located(m.grid, t, u);
        lemma_no_dead_ends_frame(m, t, u, c);
        assert forall|k: int| 0 <= k < n implies {
            let t = (#[trigger] polish_pass(m, s, forward, k)).0;
            let i = visit(m.grid, forward, k);
            c.r.contains(i) && updatable(t[i]) ==> safe_from(m, t, t[i], c.cap, c.r)
        } by {
            if k == n - 1 {
                assert(polish_pass(m, s, forward, k).0 == t);
            }
        }
    }
}

proof fn lemma_polish_room(m: Model, s: Seq<State>, n: int, v: int, p: int, c: Scope)
    requires
        m.wf(),
        m.grid.located(s),
        full_mass(m),
        capped(s, v, p),
        no_dead_ends(m, s, c),
        0 <= p,
        roomy(v, p),
    ensures
        m.grid.located(polish_run(m, s, n).states),
        no_dead_ends(m, polish_run(m, s, n).states, c),
        capped(polish_run(m, s, n).states, v, p),
    decreases n,
{
    if n > 0 {
        lemma_polish_room(m, s, n - 1, v, p, c);
        let r = polish_run(m, s, n - 1);
        if !r.done {
            lemma_len_nonneg(m.grid);
            lemma_polish_pass_room(m, r.states, (n - 1) % 2 == 0, m.grid.len(), v, p, c);
        }
    }
}

/// No sum overflows while a tile without dead ends is polished, where its values and
/// penalties leave room.
pub proof fn law_polish_has_room(m: Model, s: Seq<State>, v: int, p: int, c: Scope)
    requires
        m.wf(),
        m.grid.located(s),
        full_mass(m),
        capped(s, v, p),
        no_dead_ends(m, s, c),
        0 <= p,
        roomy(v, p),
    ensures
        polish_safe(m, s, c),
{
    assert forall|q: int|
        0 <= q < TILE_MAX_ITER && !(#[trigger] polish_run(m, s, q)).done implies polish_pass_safe(
        m,
        polish_run(m, s, q).states,
        q % 2 == 0,
        m.grid.len(),
        c,
    ) by {
        lemma_len_nonneg(m.grid);
        lemma_polish_room(m, s, q, v, p, c);
        lemma_polish_pass_room(m, polish_run(m, s, q).states, q % 2 == 0, m.grid.len(), v, p, c);
    }
}

/// Every free state of a tile, of each tile, has an action that leads on in the tile.
pub open spec fn no_dead_tiles(a: SchurArtifact, vi: ValueIterator) -> bool {
    forall|t: int, i: int|
        0 <= t < a.tiles@.len() && 0 <= i < base_tile(a, vi, t).len() && (#[trigger] base_tile(
            a,
            vi,
            t,
        )[i]).free ==> exists|b: int| #[trigger]
            leads_on(tile_model(a, vi), base_tile(a, vi, t), i, b)
}

/// What no action leads out of on the map, none leads out of in a tile.
proof fn lemma_closed_tile(a: SchurArtifact, vi: ValueIterator, t: int, c: Scope)
    requires
        vi.wf(),
        lies_on(a, vi),
        closed_scope(vi.model(), vi.states@, c),
    ensures
        closed_scope(tile_model(a, vi), base_tile(a, vi, t), tile_scope(a, vi.grid(), c, t)),
{
    let (m, g, tg) = (tile_model(a, vi), vi.grid(), tile_grid(a));
    let base = base_tile(a, vi, t);
    let ts = tile_scope(a, g, c, t);
    lemma_len_nonneg(tg);
    assert forall|i: int, b: int|
        0 <= i < base.len() && ts.r.contains(i) && #[trigger] leads_on(m, base, i, b) implies stays_in(
        m,
        base[i],
        b,
        ts.r,
    ) by {
        lemma_encode(i, tg.nx, tg.ny, tg.nt);
        let st = base[i];
        let (x, y) = (domain_x(a, t) + st.ix, domain_y(a, t) + st.iy);
        lemma_index_bound(x, y, st.it as int, g.nx, g.ny, g.nt);
        lemma_located(g, vi.states@, x, y, st.it as int);
        let j = g.at(x, y, st.it as int);
        let gs = vi.states@[j];
        let trs = m.actions[b].outcomes(st.it as int);
        assert(tg.action_ok(m.actions[b]));
        assert forall|k: int| 0 <= k < trs.len() implies g.lands(vi.states@, gs, #[trigger] trs[k])
            && on_map(a, g, t, tg.succ(st, trs[k])) && g.succ(gs, trs[k]) == map_index(
            a,
            g,
            t,
            tg.succ(st, trs[k]),
        ) by {
            assert(tg.lands(base, st, trs[k]));
            assert(tg.outcome_ok(m.actions[b].outcomes(st.it as int)[k]));
            lemma_succ_bound(tg, st, trs[k]);
            let q = tg.succ(st, trs[k]);
            lemma_tile_place(a, vi, Seq::empty(), t, q);
            lemma_encode(q, tg.nx, tg.ny, tg.nt);
            lemma_tile_succ(a, vi, t, st, gs, trs[k]);
            lemma_heading(tg, trs[k]);
            lemma_decode(st.ix + trs[k].dix, st.iy + trs[k].diy, tg.heading(trs[k]), tg.nx, tg.nt);
        }
        assert(leads_on(vi.model(), vi.states@, j, b));
        assert forall|k: int| 0 <= k < m.actions[b].outcomes(st.it as int).len() implies ts.r.contains(
            tg.succ(st, #[trigger] m.actions[b].outcomes(st.it as int)[k]),
        ) by {
            assert(c.r.contains(g.succ(gs, vi.model().actions[b].outcomes(gs.it as int)[k])));
            assert(g.lands(vi.states@, gs, trs[k]));
        }
    }
}

/// State `i` of tile `t` lies on the map.
spec fn on_map(a: SchurArtifact, g: Grid, t: int, i: int) -> bool {
    let tg = tile_grid(a);
    on_axis(domain_x(a, t) + x_of(i, tg.nx, tg.nt), g.nx) && on_axis(
        domain_y(a, t) + y_of(i, tg.nx, tg.nt),
        g.ny,
    )
}

/// Where it lies on the map.
spec fn map_index(a: SchurArtifact, g: Grid, t: int, i: int) -> int {
    let tg = tile_grid(a);
    g.at(
        domain_x(a, t) + x_of(i, tg.nx, tg.nt),
        domain_y(a, t) + y_of(i, tg.nx, tg.nt),
        t_of(i, tg.nt),
    )
}

/// No penalty of the map is above `p`.
pub open spec fn penalties_below(s: Seq<State>, p: int) -> bool {
    forall|i: int|
        0 <= i < s.len() ==> (#[trigger] s[i]).penalty + s[i].local_penalty <= p
}

/// What the tiles of a map need for their sums not to overflow.
pub open spec fn tiles_have_room(a: SchurArtifact, vi: ValueIterator, p: int, c: Scope) -> bool {
    &&& full_mass(vi.model())
    &&& penalties_below(vi.states@, p)
    &&& PROB_BASE <= p
    &&& no_dead_tiles(a, vi)
    &&& closed_scope(vi.model(), vi.states@, c)
    &&& roomy(REACH_THRESH + TILE_MAX_ITER * (tile_grid(a).len() * p), p)
}

proof fn lemma_base_capped(a: SchurArtifact, vi: ValueIterator, t: int, p: int)
    requires
        vi.wf(),
        lies_on(a, vi),
        penalties_below(vi.states@, p),
        PROB_BASE <= p,
    ensures
        capped(base_tile(a, vi, t), REACH_THRESH as int, p),
{
    let (g, tg) = (vi.grid(), tile_grid(a));
    let base = base_tile(a, vi, t);
    lemma_len_nonneg(tg);
    assert forall|i: int| 0 <= i < base.len() implies (#[trigger] base[i]).total_cost
        <= REACH_THRESH && base[i].penalty + base[i].local_penalty <= p by {
        lemma_encode(i, tg.nx, tg.ny, tg.nt);
        let x = domain_x(a, t) + x_of(i, tg.nx, tg.nt);
        let y = domain_y(a, t) + y_of(i, tg.nx, tg.nt);
        if on_axis(x, g.nx) && on_axis(y, g.ny) {
            lemma_index_bound(x, y, t_of(i, tg.nt), g.nx, g.ny, g.nt);
            let src = vi.states@[g.at(x, y, t_of(i, tg.nt))];
            assert(src.penalty + src.local_penalty <= p);
        }
    }
}

/// What is pinned in a tile keeps it capped.
proof fn lemma_pins_capped(
    a: SchurArtifact,
    d: Seq<u64>,
    t: int,
    s: Seq<State>,
    n: int,
    p: int,
)
    requires
        capped(s, REACH_THRESH as int, p),
        0 <= n <= a.tiles@[t].portals@.len(),
        forall|q: int| 0 <= q < d.len() ==> #[trigger] d[q] < REACH_THRESH || d[q] >= MAX_COST,
        d.len() == a.portals@.len(),
        edges_ok(a.tiles@[t], a.portals@.len() as int),
    ensures
        capped(with_portals(a, d, t, s, n), REACH_THRESH as int, p),
    decreases n,
{
    if n > 0 {
        lemma_pins_capped(a, d, t, s, n - 1, p);
        let before = with_portals(a, d, t, s, n - 1);
        let after = with_portals(a, d, t, s, n);
        let id = a.tiles@[t].portals@[n - 1] as int;
        assert(d[id] < REACH_THRESH || d[id] >= MAX_COST);
        assert forall|i: int| 0 <= i < after.len() implies (#[trigger] after[i]).total_cost
            <= REACH_THRESH && after[i].penalty + after[i].local_penalty <= p by {
            assert(before[i].total_cost <= REACH_THRESH);
        }
    }
}

proof fn lemma_goals_capped(
    a: SchurArtifact,
    vi: ValueIterator,
    t: int,
    f: Seq<(i32, i32, i32)>,
    n: int,
    p: int,
)
    requires
        vi.wf(),
        lies_on(a, vi),
        goals_on(vi.grid(), f),
        penalties_below(vi.states@, p),
        PROB_BASE <= p,
        0 <= n <= f.len(),
    ensures
        capped(with_goals(a, t, base_tile(a, vi, t), f, n), REACH_THRESH as int, p),
        same_costs(base_tile(a, vi, t), with_goals(a, t, base_tile(a, vi, t), f, n)),
    decreases n,
{
    let base = base_tile(a, vi, t);
    if n > 0 {
        lemma_goals_capped(a, vi, t, f, n - 1, p);
        let before = with_goals(a, t, base, f, n - 1);
        let after = with_goals(a, t, base, f, n);
        lemma_len_nonneg(tile_grid(a));
        assert(goal_on(vi.grid(), f[n - 1]));
        if in_domain(a, t, f[n - 1]) {
            let g = tile_grid(a);
            lemma_index_bound(
                f[n - 1].0 - domain_x(a, t),
                f[n - 1].1 - domain_y(a, t),
                f[n - 1].2 as int,
                g.nx,
                g.ny,
                g.nt,
            );
        }
        assert forall|i: int| 0 <= i < after.len() implies (#[trigger] after[i]).total_cost
            <= REACH_THRESH && after[i].penalty + after[i].local_penalty <= p by {
            assert(before[i].total_cost <= REACH_THRESH);
        }
        assert forall|i: int| 0 <= i < after.len() implies same_terms(base[i], #[trigger] after[i]) by {
            assert(same_terms(base[i], before[i]));
        }
    } else {
        lemma_base_capped(a, vi, t, p);
    }
}

/// A tile that starts with values pinned on it has room.
proof fn lemma_start_has_room(
    a: SchurArtifact,
    vi: ValueIterator,
    t: int,
    watch: Option<Seq<int>>,
    s: Seq<State>,
    p: int,
    c: Scope,
)
    requires
        vi.wf(),
        lies_on(a, vi),
        tiles_have_room(a, vi, p, c),
        0 <= t < a.tiles@.len(),
        same_costs(base_tile(a, vi, t), s),
        capped(s, REACH_THRESH as int, p),
    ensures
        tile_model(a, vi).wf(),
        full_mass(tile_model(a, vi)),
        tile_grid(a).located(s),
        no_dead_ends(tile_model(a, vi), s, tile_scope(a, vi.grid(), c, t)),
        run_safe(tile_model(a, vi), watch, s, tile_scope(a, vi.grid(), c, t)),
        capped(
            gs_solved(tile_model(a, vi), watch, s).states,
            REACH_THRESH + TILE_MAX_ITER * (tile_grid(a).len() * p),
            p,
        ),
{
    let m = tile_model(a, vi);
    let base = base_tile(a, vi, t);
    lemma_base_located(a, vi, t);
    lemma_tile_full_mass(a, vi);
    lemma_same_costs_located(m.grid, base, s);
    let ts = tile_scope(a, vi.grid(), c, t);
    lemma_closed_tile(a, vi, t, c);
    lemma_no_dead_ends_frame(m, base, s, ts);
    law_tile_solve_has_room(m, watch, s, REACH_THRESH as int, p, ts);
}

/// No sum overflows while crossing costs and first values of tile `t` are computed.
proof fn lemma_search_has_room(a: SchurArtifact, vi: ValueIterator, t: int, p: int, c: Scope)
    requires
        vi.wf(),
        fits(a, vi),
        tiles_have_room(a, vi, p, c),
        0 <= t < a.tiles@.len(),
    ensures
        crossings_safe(a, vi, t, c),
        seeding_safe(a, vi, goals(vi), t, c),
{
    let f = goals(vi);
    lemma_goals_on(vi.grid(), vi.states@, vi.states@.len() as int);
    let list = a.tiles@[t].portals@;
    let base = base_tile(a, vi, t);
    lemma_base_capped(a, vi, t, p);
    assert forall|j: int| 0 <= j < list.len() implies run_safe(
        tile_model(a, vi),
        Some(watch_list(a, base, t, list, list.len() as int)),
        crossing_start(a, vi, t, a.portals@[#[trigger] list[j] as int]),
        tile_scope(a, vi.grid(), c, t),
    ) by {
        let s = crossing_start(a, vi, t, a.portals@[list[j] as int]);
        assert forall|i: int| 0 <= i < s.len() implies (#[trigger] s[i]).total_cost
            <= REACH_THRESH && s[i].penalty + s[i].local_penalty <= p by {
            assert(base[i].total_cost <= REACH_THRESH);
        }
        assert forall|i: int| 0 <= i < s.len() implies same_terms(base[i], #[trigger] s[i]) by {
        }
        lemma_start_has_room(
            a,
            vi,
            t,
            Some(watch_list(a, base, t, list, list.len() as int)),
            s,
            p,
            c,
        );
    }
    lemma_goals_capped(a, vi, t, f, f.len() as int, p);
    let start = with_goals(a, t, base, f, f.len() as int);
    lemma_start_has_room(
        a,
        vi,
        t,
        Some(watch_list(a, start, t, list, list.len() as int)),
        start,
        p,
        c,
    );
}

/// No sum overflows on the way to the field of a map whose tiles have room, as long as
/// portals that have a value at all have one that counts as reached.
pub proof fn law_field_has_room(a: SchurArtifact, vi: ValueIterator, d: &Vec<u64>, p: int, c: Scope)
    requires
        vi.wf(),
        fits(a, vi),
        tiles_have_room(a, vi, p, c),
        d@.len() == a.portals@.len(),
        forall|q: int| 0 <= q < d@.len() ==> #[trigger] d@[q] < REACH_THRESH || d@[q] >= MAX_COST,
    ensures
        field_safe(a, vi, d, c),
{
    let f = goals(vi);
    lemma_goals_on(vi.grid(), vi.states@, vi.states@.len() as int);
    assert forall|t: int| 0 <= t < a.tiles@.len() implies #[trigger] crossings_safe(a, vi, t, c) by {
        lemma_search_has_room(a, vi, t, p, c);
    }
    assert forall|t: int| 0 <= t < a.tiles@.len() implies #[trigger] seeding_safe(a, vi, f, t, c) by {
        lemma_search_has_room(a, vi, t, p, c);
    }
    let art = &a;
    assert forall|k: int| 0 <= k < a.tiles@.len() implies restoring_safe(
        a,
        vi,
        d,
        f,
        #[trigger] all_tiles(a)[k] as int,
        c,
    ) by {
        let t = all_tiles(a)[k] as int;
        assert(a.tiles@.len() <= i32::MAX);
        assert(t == k);
        let arts = one_art(art, d);
        let m = tile_model(a, vi);
        let base = base_tile(a, vi, t);
        assert(edges_ok(a.tiles@[t], a.portals@.len() as int));
        lemma_goals_capped(a, vi, t, f, f.len() as int, p);
        let s1 = with_goals(a, t, base, f, f.len() as int);
        let s2 = pinned_tile(vi, arts, f, t);
        let n = a.tiles@[t].portals@.len() as int;
        assert(with_all_portals(arts, t, s1, 0) == s1);
        assert(arts[0].0 == art && arts[0].1 == d);
        assert(s2 == with_portals(a, d@, t, s1, n));
        lemma_pins_capped(a, d@, t, s1, n, p);
        assert(arts_ok(arts, vi));
        lemma_pinned_tile(vi, arts, f, t);
        assert forall|i: int| 0 <= i < s2.len() implies same_terms(base[i], #[trigger] s2[i]) by {}
        lemma_start_has_room(a, vi, t, None, s2, p, c);
        let v = REACH_THRESH + TILE_MAX_ITER * (tile_grid(a).len() * p);
        let g = gs_solved(m, None, s2).states;
        lemma_run_frame(m, None, s2, TILE_MAX_ITER as int);
        lemma_frame_costs(base, s2, g);
        let e = keep_goals(s1, g);
        assert forall|i: int| 0 <= i < base.len() implies same_terms(base[i], #[trigger] e[i]) by {
            assert(same_terms(base[i], g[i]));
        }
        assert forall|i: int| 0 <= i < e.len() implies (#[trigger] e[i]).total_cost <= v
            && e[i].penalty + e[i].local_penalty <= p by {
            assert(g[i].total_cost <= v);
        }
        lemma_base_located(a, vi, t);
        lemma_same_costs_located(m.grid, base, e);
        let ts = tile_scope(a, vi.grid(), c, t);
        lemma_closed_tile(a, vi, t, c);
        lemma_no_dead_ends_frame(m, base, e, ts);
        law_polish_has_room(m, e, v, p, ts);
    }
    let tiles = all_tiles(a);
    let s = tiles_restored(vi, one_art(art, d), f, tiles, tiles.len() as int, vi.states@);
    lemma_restored_goals(vi, one_art(art, d), f, tiles, tiles.len() as int, vi.states@);
    lemma_fixing_closed(a, vi, s, a.portals@.len() as int, c);
}

/// Nothing that is fixed leads out of what no action leads out of.
proof fn lemma_fixing_closed(a: SchurArtifact, vi: ValueIterator, s: Seq<State>, n: int, c: Scope)
    requires
        vi.wf(),
        fits(a, vi),
        closed_scope(vi.model(), vi.states@, c),
        same_goals(vi.states@, s),
        0 <= n <= a.portals@.len(),
    ensures
        fixing_safe(a, vi.model(), s, n, c),
{
    let m = vi.model();
    assert forall|k: int| 0 <= k < n implies {
        let list = map_patch(a, a.portals@[k], PATCH_LEN as int);
        list_safe(m, (#[trigger] fixed_portals(a, m, s, k)).0, list, list.len() as int, c)
    } by {
        let p = fixed_portals(a, m, s, k).0;
        let list = map_patch(a, a.portals@[k], PATCH_LEN as int);
        lemma_portals_goals(a, vi, s, k);
        lemma_goals_trans(vi.states@, s, p);
        assert(portal_on(vi.grid(), a.portals@[k]));
        lemma_map_patch(a, a.portals@[k], PATCH_LEN as int);
        assert forall|j: int| 0 <= j < list.len() implies goal_on(m.grid, #[trigger] list[j]) by {}
        assert forall|j: int| 0 <= j < list.len() implies real_safe(
            m,
            (#[trigger] fixed_list(m, p, list, j)).0,
            m.grid.at(list[j].0 as int, list[j].1 as int, list[j].2 as int),
            c,
        ) by {
            let q = fixed_list(m, p, list, j).0;
            let i = m.grid.at(list[j].0 as int, list[j].1 as int, list[j].2 as int);
            assert(goal_on(m.grid, list[j]));
            lemma_index_bound(
                list[j].0 as int,
                list[j].1 as int,
                list[j].2 as int,
                m.grid.nx,
                m.grid.ny,
                m.grid.nt,
            );
            lemma_listed_goals(m, p, list, j);
            lemma_goals_trans(vi.states@, p, q);
            assert forall|x: int| 0 <= x < q.len() implies same_terms(
                vi.states@[x],
                #[trigger] q[x],
            ) by {
                assert(same_place(vi.states@[x], q[x]));
            }
            lemma_closed_scope_frame(m, vi.states@, q, c);
            assert forall|b: int|
                0 <= b < m.actions.len() && c.r.contains(i) && is_real(
                    m.grid,
                    q,
                    q[i],
                    (#[trigger] m.actions[b]).outcomes(q[i].it as int),
                ) implies stays_in(m, q[i], b, c.r) by {
                assert(leads_on(m, q, i, b));
            }
        }
    }
}

} // verus!
