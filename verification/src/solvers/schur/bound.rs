//! Why the restored field is a field of upper bounds.
//!
//! All of this holds as long as no sum of costs that overflows a machine word, or that leads
//! out of the states that are looked at, comes out as less than what counts; the conditions
//! say so of every single update on the way.
use vstd::prelude::*;

use crate::action::StateTransition;
use crate::bounds::{
    above, full_mass, law_lower_solution_shifts, law_update_stays_above, lemma_lower_frame,
    lower_solution, lowered_by, not_below, safe_from, same_costs, same_terms, stays_in, weigh,
};
use crate::grid::{
    lemma_decode, lemma_encode, lemma_index_bound, lemma_index_injective, on_axis, on_grid, t_of,
    x_of, y_of,
};
use crate::model::{
    law_best_is_least, lemma_heading, lemma_located, lemma_succ_bound, same_frame, same_place,
    Grid, Model,
};
use crate::params::{PROB_BASE, REACH_THRESH};
use crate::solvers::schur::artifact::{clamped, Portal, SchurArtifact};
use crate::solvers::schur::crossing::{
    base_tile, crossing, lemma_run_frame, local_x, local_y, watch_list,
};
use crate::solvers::schur::domain::{
    domain_x, domain_y, edges_ok, fits, lies_on, portal_on, tile_grid, tile_model,
};
use crate::solvers::schur::patch::{
    in_patch, is_patch_state, list_max, off_t, off_x, off_y, patch_hit, patch_list, patch_of,
    patch_t, patch_value, with_patch, PatchAgg, PATCH_LEN,
};
use crate::solvers::schur::sweep::{
    gs_pass, gs_run, gs_solved, lemma_visit, lowered, polish_pass, polish_run, polished, visit,
    TILE_MAX_ITER,
};
use crate::solvers::schur::tile::map_state;
use crate::state::{updatable, State};
use crate::value_iterator::ValueIterator;

verus! {

/// Where a lower solution gives something, and how much at most.
pub struct Scope {
    pub cap: int,
    pub r: Set<int>,
}

/// No sum that overflows or leads out of the scope comes out below its cap during the first
/// `n` visits of a pass.
pub open spec fn pass_safe(m: Model, s: Seq<State>, forward: bool, n: int, c: Scope) -> bool {
    forall|k: int|
        0 <= k < n ==> {
            let t = (#[trigger] gs_pass(m, s, forward, k)).states;
            let i = visit(m.grid, forward, k);
            c.r.contains(i) && updatable(t[i]) ==> safe_from(m, t, t[i], c.cap, c.r)
        }
}

/// The same during a tile solve.
pub open spec fn run_safe(m: Model, watch: Option<Seq<int>>, s: Seq<State>, c: Scope) -> bool {
    forall|p: int|
        0 <= p < TILE_MAX_ITER && !(#[trigger] gs_run(m, watch, s, p)).done ==> pass_safe(
            m,
            gs_run(m, watch, s, p).states,
            p % 2 == 0,
            m.grid.len(),
            c,
        )
}

/// The same during the first `n` visits of a polishing pass.
pub open spec fn polish_pass_safe(
    m: Model,
    s: Seq<State>,
    forward: bool,
    n: int,
    c: Scope,
) -> bool {
    forall|k: int|
        0 <= k < n ==> {
            let t = (#[trigger] polish_pass(m, s, forward, k)).0;
            let i = visit(m.grid, forward, k);
            c.r.contains(i) && updatable(t[i]) ==> safe_from(m, t, t[i], c.cap, c.r)
        }
}

/// The same during a polish.
pub open spec fn polish_safe(m: Model, s: Seq<State>, c: Scope) -> bool {
    forall|p: int|
        0 <= p < TILE_MAX_ITER && !(#[trigger] polish_run(m, s, p)).done ==> polish_pass_safe(
            m,
            polish_run(m, s, p).states,
            p % 2 == 0,
            m.grid.len(),
            c,
        )
}

/// `nu` keeps to the scope: it gives nothing outside, and nowhere more than the cap, which
/// is not beyond what values can be.
pub open spec fn bounded(nu: Seq<int>, c: Scope) -> bool {
    &&& c.cap <= REACH_THRESH
    &&& forall|i: int| 0 <= i < nu.len() ==> #[trigger] nu[i] <= c.cap
    &&& forall|i: int| 0 <= i < nu.len() && !c.r.contains(i) ==> #[trigger] nu[i] <= 0
}

proof fn lemma_pass_above(m: Model, s: Seq<State>, nu: Seq<int>, forward: bool, n: int, c: Scope)
    requires
        m.wf(),
        m.grid.located(s),
        lower_solution(m, s, nu, c.r),
        above(s, nu),
        bounded(nu, c),
        0 <= n <= m.grid.len(),
        pass_safe(m, s, forward, n, c),
    ensures
        m.grid.located(gs_pass(m, s, forward, n).states),
        lower_solution(m, gs_pass(m, s, forward, n).states, nu, c.r),
        above(gs_pass(m, s, forward, n).states, nu),
    decreases n,
{
    if n > 0 {
        assert forall|k: int| 0 <= k < n - 1 implies {
            let t = (#[trigger] gs_pass(m, s, forward, k)).states;
            let i = visit(m.grid, forward, k);
            c.r.contains(i) && updatable(t[i]) ==> safe_from(m, t, t[i], c.cap, c.r)
        } by {}
        lemma_pass_above(m, s, nu, forward, n - 1, c);
        let t = gs_pass(m, s, forward, n - 1).states;
        lemma_visit(m.grid, forward, n - 1);
        let i = visit(m.grid, forward, n - 1);
        assert(nu[i] <= c.cap);
        law_update_stays_above(m, t, nu, i, c.cap, c.r);
    }
}

proof fn lemma_run_above(
    m: Model,
    watch: Option<Seq<int>>,
    s: Seq<State>,
    nu: Seq<int>,
    n: int,
    c: Scope,
)
    requires
        m.wf(),
        m.grid.located(s),
        lower_solution(m, s, nu, c.r),
        above(s, nu),
        bounded(nu, c),
        0 <= n <= TILE_MAX_ITER,
        run_safe(m, watch, s, c),
        0 <= m.grid.len(),
    ensures
        m.grid.located(gs_run(m, watch, s, n).states),
        lower_solution(m, gs_run(m, watch, s, n).states, nu, c.r),
        above(gs_run(m, watch, s, n).states, nu),
    decreases n,
{
    if n > 0 {
        lemma_run_above(m, watch, s, nu, n - 1, c);
        let r = gs_run(m, watch, s, n - 1);
        if !r.done {
            lemma_pass_above(m, r.states, nu, (n - 1) % 2 == 0, m.grid.len(), c);
        }
    }
}

proof fn lemma_lowered_above(m: Model, s: Seq<State>, nu: Seq<int>, i: int, c: Scope)
    requires
        m.wf(),
        m.grid.located(s),
        lower_solution(m, s, nu, c.r),
        above(s, nu),
        0 <= i < s.len(),
        c.r.contains(i) && updatable(s[i]) ==> safe_from(m, s, s[i], c.cap, c.r),
        bounded(nu, c),
    ensures
        m.grid.located(s.update(i, lowered(m, s, i))),
        lower_solution(m, s.update(i, lowered(m, s, i)), nu, c.r),
        above(s.update(i, lowered(m, s, i)), nu),
{
    assert(nu[i] <= c.cap);
    if updatable(s[i]) && m.bellman(s, i).0 < s[i].total_cost {
        law_update_stays_above(m, s, nu, i, c.cap, c.r);
    } else {
        assert(s.update(i, lowered(m, s, i)) =~= s);
    }
}

proof fn lemma_polish_pass_above(m: Model, s: Seq<State>, nu: Seq<int>, forward: bool, n: int, c: Scope)
    requires
        m.wf(),
        m.grid.located(s),
        lower_solution(m, s, nu, c.r),
        above(s, nu),
        bounded(nu, c),
        0 <= n <= m.grid.len(),
        polish_pass_safe(m, s, forward, n, c),
    ensures
        m.grid.located(polish_pass(m, s, forward, n).0),
        lower_solution(m, polish_pass(m, s, forward, n).0, nu, c.r),
        above(polish_pass(m, s, forward, n).0, nu),
    decreases n,
{
    if n > 0 {
        assert forall|k: int| 0 <= k < n - 1 implies {
            let t = (#[trigger] polish_pass(m, s, forward, k)).0;
            let i = visit(m.grid, forward, k);
            c.r.contains(i) && updatable(t[i]) ==> safe_from(m, t, t[i], c.cap, c.r)
        } by {}
        lemma_polish_pass_above(m, s, nu, forward, n - 1, c);
        let t = polish_pass(m, s, forward, n - 1).0;
        lemma_visit(m.grid, forward, n - 1);
        let i = visit(m.grid, forward, n - 1);
        lemma_lowered_above(m, t, nu, i, c);
    }
}

proof fn lemma_polish_above(m: Model, s: Seq<State>, nu: Seq<int>, n: int, c: Scope)
    requires
        m.wf(),
        m.grid.located(s),
        lower_solution(m, s, nu, c.r),
        above(s, nu),
        bounded(nu, c),
        0 <= n <= TILE_MAX_ITER,
        polish_safe(m, s, c),
        0 <= m.grid.len(),
    ensures
        m.grid.located(polish_run(m, s, n).states),
        lower_solution(m, polish_run(m, s, n).states, nu, c.r),
        above(polish_run(m, s, n).states, nu),
    decreases n,
{
    if n > 0 {
        lemma_polish_above(m, s, nu, n - 1, c);
        let r = polish_run(m, s, n - 1);
        if !r.done {
            lemma_polish_pass_above(m, r.states, nu, (n - 1) % 2 == 0, m.grid.len(), c);
        }
    }
}

/// A solved tile stays above a lower solution of the tile.
pub proof fn law_tile_solve_stays_above(
    m: Model,
    watch: Option<Seq<int>>,
    s: Seq<State>,
    nu: Seq<int>,
    c: Scope,
)
    requires
        m.wf(),
        m.grid.located(s),
        lower_solution(m, s, nu, c.r),
        above(s, nu),
        bounded(nu, c),
        run_safe(m, watch, s, c),
    ensures
        above(gs_solved(m, watch, s).states, nu),
{
    lemma_len_nonneg(m.grid);
    lemma_run_above(m, watch, s, nu, TILE_MAX_ITER as int, c);
}

pub proof fn lemma_len_nonneg(g: Grid)
    requires
        g.wf(),
    ensures
        0 <= g.len(),
{
    assert(0 <= g.nx * g.ny * g.nt) by (nonlinear_arith)
        requires
            0 <= g.nx,
            0 <= g.ny,
            0 <= g.nt,
    ;
}

/// A polished tile stays above a lower solution of the tile.
pub proof fn law_polish_stays_above(m: Model, s: Seq<State>, nu: Seq<int>, c: Scope)
    requires
        m.wf(),
        m.grid.located(s),
        lower_solution(m, s, nu, c.r),
        above(s, nu),
        bounded(nu, c),
        polish_safe(m, s, c),
    ensures
        above(polished(m, s).states, nu),
{
    lemma_len_nonneg(m.grid);
    lemma_polish_above(m, s, nu, TILE_MAX_ITER as int, c);
}

proof fn lemma_polish_pass_falls(m: Model, s: Seq<State>, forward: bool, n: int, i: int)
    requires
        m.grid.wf(),
        m.actions.len() <= usize::MAX,
        s.len() == m.grid.len(),
        0 <= n <= m.grid.len(),
        0 <= i < s.len(),
    ensures
        polish_pass(m, s, forward, n).0.len() == s.len(),
        polish_pass(m, s, forward, n).0[i].total_cost <= s[i].total_cost,
    decreases n,
{
    if n > 0 {
        lemma_polish_pass_falls(m, s, forward, n - 1, i);
        lemma_visit(m.grid, forward, n - 1);
        let t = polish_pass(m, s, forward, n - 1).0;
        let j = visit(m.grid, forward, n - 1);
        law_best_is_least(m, t, t[j], m.actions.len() as int);
    }
}

/// A polish never raises a value.
pub proof fn law_polish_never_raises(m: Model, s: Seq<State>, n: int, i: int)
    requires
        m.grid.wf(),
        m.actions.len() <= usize::MAX,
        s.len() == m.grid.len(),
        0 <= n,
        0 <= i < s.len(),
    ensures
        polish_run(m, s, n).states.len() == s.len(),
        polish_run(m, s, n).states[i].total_cost <= s[i].total_cost,
    decreases n,
{
    if n > 0 {
        law_polish_never_raises(m, s, n - 1, i);
        let r = polish_run(m, s, n - 1);
        if !r.done {
            lemma_len_nonneg(m.grid);
            lemma_polish_pass_falls(m, r.states, (n - 1) % 2 == 0, m.grid.len(), i);
        }
    }
}

/// What `nu` says of the states in the domain of tile `t`.
pub open spec fn tile_nu(a: SchurArtifact, g: Grid, nu: Seq<int>, t: int) -> Seq<int> {
    let tg = tile_grid(a);
    Seq::new(
        tg.len() as nat,
        |i: int|
            {
                let x = domain_x(a, t) + x_of(i, tg.nx, tg.nt);
                let y = domain_y(a, t) + y_of(i, tg.nx, tg.nt);
                if on_axis(x, g.nx) && on_axis(y, g.ny) {
                    nu[g.at(x, y, t_of(i, tg.nt))]
                } else {
                    0
                }
            },
    )
}

/// What is in scope of the domain of tile `t`.
pub open spec fn tile_scope(a: SchurArtifact, g: Grid, c: Scope, t: int) -> Scope {
    let tg = tile_grid(a);
    Scope {
        cap: c.cap,
        r: Set::new(
            |i: int|
                {
                    let x = domain_x(a, t) + x_of(i, tg.nx, tg.nt);
                    let y = domain_y(a, t) + y_of(i, tg.nx, tg.nt);
                    on_axis(x, g.nx) && on_axis(y, g.ny) && c.r.contains(g.at(x, y, t_of(i, tg.nt)))
                },
        ),
    }
}

/// No state of the map has an extra penalty.
pub open spec fn no_extra(s: Seq<State>) -> bool {
    forall|i: int| 0 <= i < s.len() ==> (#[trigger] s[i]).local_penalty == 0
}

/// The place of a tile's state on the map.
pub proof fn lemma_tile_place(a: SchurArtifact, vi: ValueIterator, nu: Seq<int>, t: int, i: int)
    requires
        vi.wf(),
        lies_on(a, vi),
        0 <= i < tile_grid(a).len(),
        base_tile(a, vi, t)[i].free,
    ensures
        ({
            let g = vi.grid();
            let st = base_tile(a, vi, t)[i];
            let (x, y) = (domain_x(a, t) + st.ix, domain_y(a, t) + st.iy);
            let j = g.at(x, y, st.it as int);
            &&& on_grid(
                st.ix as int,
                st.iy as int,
                st.it as int,
                a.side_len(),
                a.side_len(),
                a.nt as int,
            )
            &&& tile_grid(a).at(st.ix as int, st.iy as int, st.it as int) == i
            &&& on_grid(x, y, st.it as int, g.nx, g.ny, g.nt)
            &&& 0 <= j < vi.states@.len()
            &&& vi.states@[j].free
            &&& vi.states@[j].penalty == st.penalty
            &&& tile_nu(a, g, nu, t)[i] == nu[j]
        }),
{
    let tg = tile_grid(a);
    let g = vi.grid();
    lemma_encode(i, tg.nx, tg.ny, tg.nt);
    let st = base_tile(a, vi, t)[i];
    let (lx, ly, it) = (x_of(i, tg.nx, tg.nt), y_of(i, tg.nx, tg.nt), t_of(i, tg.nt));
    assert(st == map_state(g, vi.states@, domain_x(a, t), domain_y(a, t), lx, ly, it));
    lemma_index_bound(domain_x(a, t) + lx, domain_y(a, t) + ly, it, g.nx, g.ny, g.nt);
}

/// A tile laid over the map has its states in place.
pub proof fn lemma_base_located(a: SchurArtifact, vi: ValueIterator, t: int)
    requires
        lies_on(a, vi),
    ensures
        tile_grid(a).located(base_tile(a, vi, t)),
{
    let tg = tile_grid(a);
    let base = base_tile(a, vi, t);
    lemma_len_nonneg(tg);
    assert forall|i: int| 0 <= i < base.len() implies tg.located_at(#[trigger] base[i], i) by {
        lemma_encode(i, tg.nx, tg.ny, tg.nt);
    }
}

/// An outcome leads to the same state of the map, seen from the tile or from the map.
pub proof fn lemma_tile_succ(
    a: SchurArtifact,
    vi: ValueIterator,
    t: int,
    st: State,
    gs: State,
    tr: StateTransition,
)
    requires
        vi.wf(),
        lies_on(a, vi),
        on_grid(
            st.ix as int,
            st.iy as int,
            st.it as int,
            a.side_len(),
            a.side_len(),
            a.nt as int,
        ),
        gs.ix == domain_x(a, t) + st.ix,
        gs.iy == domain_y(a, t) + st.iy,
        tile_grid(a).outcome_ok(tr),
        tile_grid(a).stays(st, tr),
    ensures
        ({
            let tg = tile_grid(a);
            let j = tg.succ(st, tr);
            vi.grid().succ(gs, tr) == vi.grid().at(
                domain_x(a, t) + x_of(j, tg.nx, tg.nt),
                domain_y(a, t) + y_of(j, tg.nx, tg.nt),
                t_of(j, tg.nt),
            )
        }),
{
    let tg = tile_grid(a);
    lemma_heading(tg, tr);
    lemma_decode(st.ix + tr.dix, st.iy + tr.diy, tg.heading(tr), tg.nx, tg.nt);
}

proof fn lemma_tile_weigh(
    a: SchurArtifact,
    vi: ValueIterator,
    nu: Seq<int>,
    t: int,
    st: State,
    gs: State,
    trs: Seq<StateTransition>,
    k: int,
)
    requires
        vi.wf(),
        lies_on(a, vi),
        no_extra(vi.states@),
        on_grid(
            st.ix as int,
            st.iy as int,
            st.it as int,
            a.side_len(),
            a.side_len(),
            a.nt as int,
        ),
        gs.ix == domain_x(a, t) + st.ix,
        gs.iy == domain_y(a, t) + st.iy,
        0 <= k <= trs.len(),
        tile_grid(a).all_land(base_tile(a, vi, t), st, trs),
        forall|j: int| 0 <= j < trs.len() ==> tile_grid(a).outcome_ok(#[trigger] trs[j]),
    ensures
        weigh(tile_grid(a), tile_nu(a, vi.grid(), nu, t), base_tile(a, vi, t), st, trs, k)
            == weigh(vi.grid(), nu, vi.states@, gs, trs, k),
        forall|j: int| 0 <= j < k ==> vi.grid().lands(vi.states@, gs, #[trigger] trs[j]),
    decreases k,
{
    if k > 0 {
        lemma_tile_weigh(a, vi, nu, t, st, gs, trs, k - 1);
        let tg = tile_grid(a);
        let g = vi.grid();
        let tr = trs[k - 1];
        assert(tg.outcome_ok(tr));
        assert(tg.lands(base_tile(a, vi, t), st, tr));
        lemma_heading(tg, tr);
        lemma_succ_bound(tg, st, tr);
        let j = tg.succ(st, tr);
        lemma_tile_place(a, vi, nu, t, j);
        let b = base_tile(a, vi, t)[j];
        lemma_index_injective(
            st.ix + tr.dix,
            st.iy + tr.diy,
            tg.heading(tr),
            b.ix as int,
            b.iy as int,
            b.it as int,
            tg.nx,
            tg.nt,
        );
        assert(g.succ(gs, tr) == g.at(domain_x(a, t) + b.ix, domain_y(a, t) + b.iy, b.it as int));
        assert(vi.states@[g.succ(gs, tr)].local_penalty == 0);
    }
}

/// A lower solution of the map is one of each tile.
pub proof fn law_lower_solution_restricts(
    a: SchurArtifact,
    vi: ValueIterator,
    nu: Seq<int>,
    t: int,
    c: Scope,
)
    requires
        vi.wf(),
        lies_on(a, vi),
        no_extra(vi.states@),
        lower_solution(vi.model(), vi.states@, nu, c.r),
    ensures
        lower_solution(
            tile_model(a, vi),
            base_tile(a, vi, t),
            tile_nu(a, vi.grid(), nu, t),
            tile_scope(a, vi.grid(), c, t).r,
        ),
{
    let tm = tile_model(a, vi);
    let tg = tile_grid(a);
    let g = vi.grid();
    let base = base_tile(a, vi, t);
    let tn = tile_nu(a, g, nu, t);
    let tr = tile_scope(a, g, c, t).r;
    lemma_len_nonneg(tg);
    assert forall|i: int, b: int|
        0 <= i < base.len() && 0 <= b < tm.actions.len() && base[i].free && tr.contains(i)
            && stays_in(tm, base[i], b, tr) implies #[trigger] not_below(tm, base, tn, i, b) by {
        lemma_tile_place(a, vi, nu, t, i);
        let st = base[i];
        let trs = tm.actions[b].outcomes(st.it as int);
        if tg.all_land(base, st, trs) {
            let j = g.at(domain_x(a, t) + st.ix, domain_y(a, t) + st.iy, st.it as int);
            let gs = vi.states@[j];
            lemma_located(
                g,
                vi.states@,
                domain_x(a, t) + st.ix,
                domain_y(a, t) + st.iy,
                st.it as int,
            );
            assert(tg.action_ok(tm.actions[b]));
            assert forall|k: int| 0 <= k < trs.len() implies tg.outcome_ok(#[trigger] trs[k]) by {
                assert(tg.outcome_ok(tm.actions[b].outcomes(st.it as int)[k]));
            }
            lemma_tile_weigh(a, vi, nu, t, st, gs, trs, trs.len() as int);
            assert(g.all_land(vi.states@, gs, trs));
            assert(c.r.contains(j));
            assert(stays_in(vi.model(), gs, b, c.r)) by {
                assert forall|k: int|
                    0 <= k < vi.model().actions[b].outcomes(gs.it as int).len() implies c.r.contains(
                    g.succ(gs, #[trigger] vi.model().actions[b].outcomes(gs.it as int)[k]),
                ) by {
                    assert(tg.lands(base, st, trs[k]));
                    assert(tr.contains(tg.succ(st, tm.actions[b].outcomes(st.it as int)[k])));
                    lemma_tile_succ(a, vi, t, st, gs, trs[k]);
                }
            }
            assert(not_below(vi.model(), vi.states@, nu, j, b));
        }
    }
}

/// The `k`-th state of the patch of `p` is a free state of the map.
pub open spec fn patch_on_map(vi: ValueIterator, p: Portal, k: int) -> bool {
    let g = vi.grid();
    &&& on_axis(p.ix + off_x(k), g.nx)
    &&& on_axis(p.iy + off_y(k), g.ny)
    &&& vi.states@[patch_index(vi, p, k)].free
}

/// Where the `k`-th state of the patch of `p` is found.
pub open spec fn patch_index(vi: ValueIterator, p: Portal, k: int) -> int {
    let g = vi.grid();
    g.at(p.ix + off_x(k), p.iy + off_y(k), patch_t(p.it as int, k, g.nt))
}

/// No free state of the patch of `p` is worth more than `v`, as `nu` says.
pub open spec fn patch_below(vi: ValueIterator, nu: Seq<int>, p: Portal, v: int) -> bool {
    forall|k: int|
        0 <= k < PATCH_LEN && #[trigger] patch_on_map(vi, p, k) ==> nu[patch_index(vi, p, k)] <= v
}

/// The patch of `p` lies in the domain of tile `t`, as far as it is on the map.
pub open spec fn patch_inside(a: SchurArtifact, vi: ValueIterator, t: int, p: Portal) -> bool {
    forall|k: int|
        0 <= k < PATCH_LEN && #[trigger] patch_on_map(vi, p, k) ==> on_axis(
            p.ix + off_x(k) - domain_x(a, t),
            a.side_len(),
        ) && on_axis(p.iy + off_y(k) - domain_y(a, t), a.side_len())
}

proof fn lemma_list_max(s: Seq<State>, list: Seq<int>, n: int, k: int)
    requires
        0 <= k < n,
    ensures
        clamped(s[list[k]].total_cost) <= list_max(s, list, n),
    decreases n,
{
    if k < n - 1 {
        lemma_list_max(s, list, n - 1, k);
    }
}

proof fn lemma_patch_listed(
    g: Grid,
    s: Seq<State>,
    cx: int,
    cy: int,
    ct: int,
    n: int,
    k: int,
)
    requires
        0 <= k < n,
        patch_hit(g, s, cx, cy, ct, k),
    ensures
        patch_list(g, s, cx, cy, ct, n).contains(
            g.at(cx + off_x(k), cy + off_y(k), patch_t(ct, k, g.nt)),
        ),
    decreases n,
{
    let p = patch_list(g, s, cx, cy, ct, n - 1);
    let q = patch_list(g, s, cx, cy, ct, n);
    if k < n - 1 {
        lemma_patch_listed(g, s, cx, cy, ct, n - 1, k);
        let j = choose|j: int|
            0 <= j < p.len() && p[j] == g.at(cx + off_x(k), cy + off_y(k), patch_t(ct, k, g.nt));
        assert(q[j] == p[j]);
    } else {
        assert(q[p.len() as int] == g.at(cx + off_x(k), cy + off_y(k), patch_t(ct, k, g.nt)));
    }
}

/// The value of a patch bounds every state of it.
proof fn lemma_patch_value_bounds(
    a: SchurArtifact,
    vi: ValueIterator,
    nu: Seq<int>,
    t: int,
    s: Seq<State>,
    p: Portal,
    d: int,
    c: Scope,
)
    requires
        vi.wf(),
        lies_on(a, vi),
        portal_on(vi.grid(), p),
        same_costs(base_tile(a, vi, t), s),
        above(s, lowered_by(tile_nu(a, vi.grid(), nu, t), d)),
        patch_inside(a, vi, t, p),
        bounded(nu, c),
        nu.len() == vi.states@.len(),
        0 <= d,
    ensures
        ({
            let v = patch_value(
                tile_grid(a),
                s,
                local_x(a, t, p),
                local_y(a, t, p),
                p.it as int,
                PatchAgg::Max,
            );
            patch_below(vi, nu, p, v + d)
        }),
{
    let tg = tile_grid(a);
    let g = vi.grid();
    let base = base_tile(a, vi, t);
    let (cx, cy, ct) = (local_x(a, t, p), local_y(a, t, p), p.it as int);
    let list = patch_of(tg, s, cx, cy, ct);
    let v = patch_value(tg, s, cx, cy, ct, PatchAgg::Max);
    assert forall|k: int| 0 <= k < PATCH_LEN && #[trigger] patch_on_map(vi, p, k) implies nu[patch_index(
        vi,
        p,
        k,
    )] <= v + d by {
        let (x, y, it) = (cx + off_x(k), cy + off_y(k), patch_t(ct, k, tg.nt));
        vstd::arithmetic::div_mod::lemma_mod_bound(ct + off_t(k), tg.nt);
        lemma_index_bound(x, y, it, tg.nx, tg.ny, tg.nt);
        lemma_decode(x, y, it, tg.nx, tg.nt);
        let j = tg.at(x, y, it);
        let gj = patch_index(vi, p, k);
        lemma_index_bound(p.ix + off_x(k), p.iy + off_y(k), it, g.nx, g.ny, g.nt);
        assert(base[j] == map_state(g, vi.states@, domain_x(a, t), domain_y(a, t), x, y, it));
        assert(base[j].free);
        assert(same_terms(base[j], s[j]));
        assert(patch_hit(tg, s, cx, cy, ct, k));
        lemma_patch_listed(tg, s, cx, cy, ct, PATCH_LEN as int, k);
        let l = choose|l: int| 0 <= l < list.len() && list[l] == j;
        lemma_list_max(s, list, list.len() as int, l);
        let tn = tile_nu(a, g, nu, t);
        assert(tn[j] == nu[gj]);
        assert(lowered_by(tn, d)[j] == tn[j] - d);
        assert(lowered_by(tn, d)[j] <= s[j].total_cost);
        assert(nu[gj] <= c.cap);
    }
}

/// Pinning a patch at no less than `nu` says keeps the tile above.
pub proof fn lemma_patch_keeps_above(
    a: SchurArtifact,
    vi: ValueIterator,
    nu: Seq<int>,
    t: int,
    s: Seq<State>,
    p: Portal,
    cost: u64,
    d: int,
)
    requires
        vi.wf(),
        lies_on(a, vi),
        portal_on(vi.grid(), p),
        same_costs(base_tile(a, vi, t), s),
        above(s, lowered_by(tile_nu(a, vi.grid(), nu, t), d)),
        patch_below(vi, nu, p, cost + d),
    ensures
        ({
            let r = with_patch(
                s,
                PATCH_LEN as int,
                local_x(a, t, p),
                local_y(a, t, p),
                p.it as int,
                a.nt as int,
                cost,
            );
            &&& same_costs(base_tile(a, vi, t), r)
            &&& above(r, lowered_by(tile_nu(a, vi.grid(), nu, t), d))
        }),
{
    let tg = tile_grid(a);
    let g = vi.grid();
    let base = base_tile(a, vi, t);
    let (cx, cy, ct) = (local_x(a, t, p), local_y(a, t, p), p.it as int);
    let r = with_patch(s, PATCH_LEN as int, cx, cy, ct, a.nt as int, cost);
    let tn = tile_nu(a, g, nu, t);
    let mu = lowered_by(tn, d);
    assert forall|i: int| 0 <= i < base.len() implies same_terms(base[i], #[trigger] r[i]) by {
        assert(same_terms(base[i], s[i]));
    }
    assert forall|i: int| 0 <= i < r.len() && r[i].free implies mu[i] <= (
    #[trigger] r[i]).total_cost by {
        let st = s[i];
        assert(same_terms(base[i], st));
        assert(mu[i] <= s[i].total_cost);
        if in_patch(
            PATCH_LEN as int,
            cx,
            cy,
            ct,
            a.nt as int,
            st.ix as int,
            st.iy as int,
            st.it as int,
        ) {
            let k = choose|k: int|
                0 <= k < PATCH_LEN && #[trigger] is_patch_state(
                    k,
                    cx,
                    cy,
                    ct,
                    a.nt as int,
                    st.ix as int,
                    st.iy as int,
                    st.it as int,
                );
            lemma_tile_place(a, vi, nu, t, i);
            assert(patch_on_map(vi, p, k));
            assert(tn[i] == nu[patch_index(vi, p, k)]);
            assert(mu[i] == tn[i] - d);
        }
    }
}

/// A tile laid over the map is above whatever is bounded.
pub proof fn lemma_base_above(
    a: SchurArtifact,
    vi: ValueIterator,
    nu: Seq<int>,
    t: int,
    d: int,
    c: Scope,
)
    requires
        vi.wf(),
        lies_on(a, vi),
        bounded(nu, c),
        0 <= c.cap,
        nu.len() == vi.states@.len(),
        0 <= d,
    ensures
        above(base_tile(a, vi, t), lowered_by(tile_nu(a, vi.grid(), nu, t), d)),
        bounded(lowered_by(tile_nu(a, vi.grid(), nu, t), d), tile_scope(a, vi.grid(), c, t)),
        same_costs(base_tile(a, vi, t), base_tile(a, vi, t)),
{
    let tg = tile_grid(a);
    let g = vi.grid();
    let tn = tile_nu(a, g, nu, t);
    let mu = lowered_by(tn, d);
    lemma_len_nonneg(tg);
    let tr = tile_scope(a, g, c, t).r;
    assert forall|i: int| 0 <= i < mu.len() implies #[trigger] mu[i] <= c.cap && (tr.contains(i)
        || mu[i] <= 0) by {
        lemma_encode(i, tg.nx, tg.ny, tg.nt);
        let x = domain_x(a, t) + x_of(i, tg.nx, tg.nt);
        let y = domain_y(a, t) + y_of(i, tg.nx, tg.nt);
        if on_axis(x, g.nx) && on_axis(y, g.ny) {
            lemma_index_bound(x, y, t_of(i, tg.nt), g.nx, g.ny, g.nt);
            assert(nu[g.at(x, y, t_of(i, tg.nt))] <= c.cap);
            assert(!c.r.contains(g.at(x, y, t_of(i, tg.nt))) ==> nu[g.at(x, y, t_of(i, tg.nt))] <= 0);
        }
        assert(mu[i] == tn[i] - d);
    }
    let base = base_tile(a, vi, t);
    assert forall|i: int| 0 <= i < base.len() && base[i].free implies mu[i] <= (
    #[trigger] base[i]).total_cost by {
        assert(mu[i] <= c.cap);
    }
}

/// The start of the solve for the `j`-th portal of tile `t`.
pub open spec fn crossing_start(a: SchurArtifact, vi: ValueIterator, t: int, q: Portal) -> Seq<State> {
    with_patch(
        base_tile(a, vi, t),
        PATCH_LEN as int,
        local_x(a, t, q),
        local_y(a, t, q),
        q.it as int,
        a.nt as int,
        0,
    )
}

/// No sum that overflows or leads out of the scope comes out below its cap while the
/// crossing costs of tile `t` are computed.
pub open spec fn crossings_safe(a: SchurArtifact, vi: ValueIterator, t: int, c: Scope) -> bool {
    let list = a.tiles@[t].portals@;
    forall|j: int|
        0 <= j < list.len() ==> run_safe(
            tile_model(a, vi),
            Some(watch_list(a, base_tile(a, vi, t), t, list, list.len() as int)),
            crossing_start(a, vi, t, a.portals@[#[trigger] list[j] as int]),
            tile_scope(a, vi.grid(), c, t),
        )
}

pub proof fn lemma_same_costs_located(g: Grid, s: Seq<State>, t: Seq<State>)
    requires
        g.located(s),
        same_costs(s, t),
    ensures
        g.located(t),
{
    assert forall|i: int| 0 <= i < t.len() implies g.located_at(#[trigger] t[i], i) by {
        assert(g.located_at(s[i], i));
        assert(same_terms(s[i], t[i]));
    }
}

pub proof fn lemma_frame_costs(b: Seq<State>, s: Seq<State>, t: Seq<State>)
    requires
        same_costs(b, s),
        same_frame(s, t),
    ensures
        same_costs(b, t),
{
    assert forall|i: int| 0 <= i < b.len() implies same_terms(b[i], #[trigger] t[i]) by {
        assert(same_terms(b[i], s[i]));
        assert(same_place(s[i], t[i]));
    }
}

/// What is known of the map and of `nu` throughout.
pub open spec fn setting(a: SchurArtifact, vi: ValueIterator, nu: Seq<int>, c: Scope) -> bool {
    &&& vi.wf()
    &&& fits(a, vi)
    &&& full_mass(vi.model())
    &&& no_extra(vi.states@)
    &&& lower_solution(vi.model(), vi.states@, nu, c.r)
    &&& bounded(nu, c)
    &&& 0 <= c.cap
}

pub proof fn lemma_tile_full_mass(a: SchurArtifact, vi: ValueIterator)
    requires
        full_mass(vi.model()),
        lies_on(a, vi),
    ensures
        full_mass(tile_model(a, vi)),
{
    let tm = tile_model(a, vi);
    assert forall|b: int, it: int|
        #![trigger tm.actions[b].outcomes(it)]
        0 <= b < tm.actions.len() && 0 <= it < tm.grid.nt implies crate::bounds::mass(
        tm.actions[b].outcomes(it),
        tm.actions[b].outcomes(it).len() as int,
    ) == PROB_BASE by {
        assert(vi.model().actions[b].outcomes(it) == tm.actions[b].outcomes(it));
    }
}

/// A tile solve that starts above the tile's lower solution, lowered by `d`, ends
/// with patch values that bound the patches, up to `d`.
pub proof fn lemma_solved_patch(
    a: SchurArtifact,
    vi: ValueIterator,
    nu: Seq<int>,
    t: int,
    watch: Option<Seq<int>>,
    start: Seq<State>,
    p: Portal,
    d: int,
    c: Scope,
)
    requires
        setting(a, vi, nu, c),
        portal_on(vi.grid(), p),
        patch_inside(a, vi, t, p),
        same_costs(base_tile(a, vi, t), start),
        above(start, lowered_by(tile_nu(a, vi.grid(), nu, t), d)),
        run_safe(tile_model(a, vi), watch, start, tile_scope(a, vi.grid(), c, t)),
        0 <= d,
    ensures
        patch_below(
            vi,
            nu,
            p,
            patch_value(
                tile_grid(a),
                gs_solved(tile_model(a, vi), watch, start).states,
                local_x(a, t, p),
                local_y(a, t, p),
                p.it as int,
                PatchAgg::Max,
            ) + d,
        ),
{
    let tm = tile_model(a, vi);
    let base = base_tile(a, vi, t);
    let tn = tile_nu(a, vi.grid(), nu, t);
    let mu = lowered_by(tn, d);
    let ts = tile_scope(a, vi.grid(), c, t);
    lemma_base_located(a, vi, t);
    lemma_same_costs_located(tm.grid, base, start);
    law_lower_solution_restricts(a, vi, nu, t, c);
    lemma_tile_full_mass(a, vi);
    law_lower_solution_shifts(tm, base, tn, d, ts.r);
    lemma_lower_frame(tm, base, start, mu, ts.r);
    lemma_base_above(a, vi, nu, t, d, c);
    law_tile_solve_stays_above(tm, watch, start, mu, ts);
    lemma_run_frame(tm, watch, start, TILE_MAX_ITER as int);
    let end = gs_solved(tm, watch, start).states;
    lemma_frame_costs(base, start, end);
    lemma_patch_value_bounds(a, vi, nu, t, end, p, d, c);
}

/// Crossing a tile costs no less than the difference in worth: a bound for the patch
/// at the far side and the crossing cost bound the patch at the near side.
pub proof fn law_crossing_bounds(
    a: SchurArtifact,
    vi: ValueIterator,
    nu: Seq<int>,
    t: int,
    i: int,
    j: int,
    v: int,
    c: Scope,
)
    requires
        setting(a, vi, nu, c),
        0 <= t < a.tiles@.len(),
        crossings_safe(a, vi, t, c),
        0 <= i < a.tiles@[t].portals@.len(),
        0 <= j < a.tiles@[t].portals@.len(),
        patch_inside(a, vi, t, a.portals@[a.tiles@[t].portals@[i] as int]),
        patch_below(vi, nu, a.portals@[a.tiles@[t].portals@[j] as int], v),
        0 <= v,
    ensures
        patch_below(
            vi,
            nu,
            a.portals@[a.tiles@[t].portals@[i] as int],
            crossing(a, vi, t, a.tiles@[t].portals@, PatchAgg::Max, i, j) + v,
        ),
{
    let list = a.tiles@[t].portals@;
    assert(edges_ok(a.tiles@[t], a.portals@.len() as int));
    assert(list[i] < a.portals@.len() && list[j] < a.portals@.len());
    let p = a.portals@[list[i] as int];
    let q = a.portals@[list[j] as int];
    assert(portal_on(vi.grid(), a.portals@[list[i] as int]));
    assert(portal_on(vi.grid(), a.portals@[list[j] as int]));
    if i != j {
        let base = base_tile(a, vi, t);
        lemma_base_above(a, vi, nu, t, v, c);
        lemma_patch_keeps_above(a, vi, nu, t, base, q, 0, v);
        let watch = Some(watch_list(a, base, t, list, list.len() as int));
        assert(run_safe(
            tile_model(a, vi),
            watch,
            crossing_start(a, vi, t, q),
            tile_scope(a, vi.grid(), c, t),
        ));
        lemma_solved_patch(a, vi, nu, t, watch, crossing_start(a, vi, t, q), p, v, c);
    }
}

} // verus!
