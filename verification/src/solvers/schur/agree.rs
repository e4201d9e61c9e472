//! The tiled solver ends where the others do.
use vstd::prelude::*;

use crate::bounds::{above, full_mass, updates};
use crate::grid::lemma_index_bound;
use crate::model::{same_place, Model};
use crate::params::{MAX_COST, REACH_THRESH};
use crate::solvers::agreement::{
    cold, gives_goals_nothing, law_any_order_is_solution, law_frontier_solve_is_solution,
    law_solution_dominates, law_solutions_agree, law_start_is_upper_field,
    law_upper_field_bounds_solution, lemma_goals_trans, reached, same_goals, settles, solution,
    upper_field, values_on,
};
use crate::solvers::frontier2d::rounds;
use crate::solvers::landing::{dominated, rounds_safe};
use crate::solvers::schur::artifact::{Portal, SchurArtifact, SchurConfig};
use crate::solvers::schur::bound::{patch_index, patch_on_map, Scope};
use crate::solvers::schur::crossing::built;
use crate::solvers::schur::domain::{fits, lemma_map_patch, map_patch, portal_on};
use crate::solvers::schur::fix::{fixed_list, fixed_portals};
use crate::solvers::schur::materialize::Valued;
use crate::solvers::schur::patch::{off_t, off_x, off_y, patch_t, PatchAgg, PATCH_LEN};
use crate::solvers::schur::query::{goal_on, goals};
use crate::solvers::schur::restore::{one_art, tiles_restored};
use crate::solvers::schur::solve::{all_tiles, is_field, pristine, swept_from};
use crate::solvers::schur::search::{searched, PortalDijkstra};
use crate::solvers::schur::upper::{
    field_safe, law_field_is_upper_bound, law_portal_values_bound, lemma_built_inside,
    lemma_goal_list, search_safe,
};
use crate::state::State;
use crate::value_iterator::ValueIterator;

verus! {

/// Restoring tiles leaves goals alone.
pub proof fn lemma_restored_goals(
    vi: ValueIterator,
    arts: Seq<Valued>,
    f: Seq<(i32, i32, i32)>,
    tiles: Seq<i32>,
    n: int,
    s: Seq<State>,
)
    ensures
        same_goals(s, tiles_restored(vi, arts, f, tiles, n, s)),
    decreases n,
{
    if n > 0 {
        lemma_restored_goals(vi, arts, f, tiles, n - 1, s);
        let p = tiles_restored(vi, arts, f, tiles, n - 1, s);
        let q = tiles_restored(vi, arts, f, tiles, n, s);
        assert(same_goals(p, q));
        lemma_goals_trans(s, p, q);
    } else {
        assert(same_goals(s, s));
    }
}

/// Fixing listed states leaves goals alone.
pub proof fn lemma_listed_goals(m: Model, s: Seq<State>, list: Seq<(i32, i32, i32)>, n: int)
    requires
        m.grid.len() == s.len(),
        0 <= n <= list.len(),
        forall|k: int| 0 <= k < list.len() ==> goal_on(m.grid, #[trigger] list[k]),
    ensures
        same_goals(s, fixed_list(m, s, list, n).0),
    decreases n,
{
    if n > 0 {
        lemma_listed_goals(m, s, list, n - 1);
        let p = fixed_list(m, s, list, n - 1).0;
        let q = list[n - 1];
        assert(goal_on(m.grid, list[n - 1]));
        lemma_index_bound(q.0 as int, q.1 as int, q.2 as int, m.grid.nx, m.grid.ny, m.grid.nt);
        assert(same_goals(p, fixed_list(m, s, list, n).0));
        lemma_goals_trans(s, p, fixed_list(m, s, list, n).0);
    } else {
        assert(same_goals(s, s));
    }
}

/// Fixing portals leaves goals alone.
pub proof fn lemma_portals_goals(a: SchurArtifact, vi: ValueIterator, s: Seq<State>, n: int)
    requires
        vi.wf(),
        fits(a, vi),
        vi.grid().len() == s.len(),
        0 <= n <= a.portals@.len(),
    ensures
        same_goals(s, fixed_portals(a, vi.model(), s, n).0),
    decreases n,
{
    if n > 0 {
        lemma_portals_goals(a, vi, s, n - 1);
        let p = fixed_portals(a, vi.model(), s, n - 1).0;
        assert(portal_on(vi.grid(), a.portals@[n - 1]));
        let list = map_patch(a, a.portals@[n - 1], PATCH_LEN as int);
        lemma_map_patch(a, a.portals@[n - 1], PATCH_LEN as int);
        assert forall|k: int| 0 <= k < list.len() implies goal_on(
            vi.grid(),
            #[trigger] list[k],
        ) by {}
        lemma_listed_goals(vi.model(), p, list, list.len() as int);
        lemma_goals_trans(s, p, fixed_portals(a, vi.model(), s, n).0);
    } else {
        assert(same_goals(s, s));
    }
}

/// The field that the tiled solver restores is a field of upper bounds: on a cold map whose
/// actions have full mass, as long as no sum that overflows or leads out of `r` comes out
/// below `cap` on the way. So a sweep from it that converges ends where every other solver
/// does.
pub proof fn law_restored_field_is_upper_field(
    a: SchurArtifact,
    vi: ValueIterator,
    cfg: SchurConfig,
    d: &Vec<u64>,
    field: Seq<State>,
    u: int,
    r: Set<int>,
    cap: int,
)
    requires
        vi.wf(),
        fits(a, vi),
        full_mass(vi.model()),
        pristine(vi.states@),
        built(a, vi, cfg, PatchAgg::Max),
        is_field(a, vi, PatchAgg::Max, d, field, u),
        0 <= cap <= REACH_THRESH,
        field_safe(a, vi, d, (Scope { cap, r })),
    ensures
        upper_field(vi.model(), vi.states@, field, r, cap),
{
    let s = vi.states@;
    let art = &a;
    let tiles = all_tiles(a);
    let f = goals(vi);
    let q = tiles_restored(vi, one_art(art, d), f, tiles, tiles.len() as int, s);
    lemma_restored_goals(vi, one_art(art, d), f, tiles, tiles.len() as int, s);
    lemma_portals_goals(a, vi, q, a.portals@.len() as int);
    lemma_goals_trans(s, q, field);
    assert forall|nu: Seq<int>|
        #[trigger] dominated(vi.model(), s, nu, cap, r) && gives_goals_nothing(
            s,
            nu,
        ) implies above(field, nu) by {
        law_field_is_upper_bound(a, vi, cfg, d, field, u, nu, Scope { cap, r });
    }
}

/// A converged tiled solve is a solution on `r`, and so agrees with every other, where every
/// free state of `r` has a value below `cap` and none of their sums that overflowed or led
/// out of `r` came out below that.
pub proof fn law_tiled_solve_is_solution(
    a: SchurArtifact,
    vi: ValueIterator,
    cfg: SchurConfig,
    d: &Vec<u64>,
    field: Seq<State>,
    u: int,
    n: int,
    r: Set<int>,
    cap: int,
)
    requires
        vi.wf(),
        fits(a, vi),
        full_mass(vi.model()),
        pristine(vi.states@),
        built(a, vi, cfg, PatchAgg::Max),
        is_field(a, vi, PatchAgg::Max, d, field, u),
        0 <= cap <= REACH_THRESH,
        field_safe(a, vi, d, (Scope { cap, r })),
        0 <= n,
        rounds(vi.model(), swept_from(vi, field, u), n).frontier == Set::<int>::empty(),
        reached(vi.model(), rounds(vi.model(), swept_from(vi, field, u), n).states, r, cap),
        rounds_safe(vi.model(), swept_from(vi, field, u), n, cap, r),
    ensures
        solution(
            vi.model(),
            vi.states@,
            rounds(vi.model(), swept_from(vi, field, u), n).states,
            r,
            cap,
        ),
{
    law_restored_field_is_upper_field(a, vi, cfg, d, field, u, r, cap);
    law_frontier_solve_is_solution(vi.model(), vi.states@, swept_from(vi, field, u), n, r, cap);
}

/// The field that the tiled solver restores bounds every solution, the reference among them:
/// no free state of `r` is worth more than the field says. Goals keep their values.
pub proof fn law_restored_field_bounds_solution(
    a: SchurArtifact,
    vi: ValueIterator,
    cfg: SchurConfig,
    d: &Vec<u64>,
    field: Seq<State>,
    u: int,
    t: Seq<State>,
    r: Set<int>,
    cap: int,
    i: int,
)
    requires
        vi.wf(),
        fits(a, vi),
        full_mass(vi.model()),
        pristine(vi.states@),
        cold(vi.states@),
        built(a, vi, cfg, PatchAgg::Max),
        is_field(a, vi, PatchAgg::Max, d, field, u),
        0 <= cap <= REACH_THRESH,
        field_safe(a, vi, d, (Scope { cap, r })),
        solution(vi.model(), vi.states@, t, r, cap),
        0 <= i < vi.states@.len(),
    ensures
        r.contains(i) && vi.states@[i].free ==> t[i].total_cost <= field[i].total_cost,
        vi.states@[i].final_state ==> field[i] == vi.states@[i],
{
    law_restored_field_is_upper_field(a, vi, cfg, d, field, u, r, cap);
    if r.contains(i) && vi.states@[i].free {
        law_upper_field_bounds_solution(vi.model(), vi.states@, field, t, r, cap, i);
    }
}

/// The value of a portal bounds every solution on its patch, the reference among them, also
/// where only some tiles may be used: no free state of `r` in the patch is worth more.
pub proof fn law_portal_value_bounds_solution(
    a: SchurArtifact,
    vi: ValueIterator,
    cfg: SchurConfig,
    mask: Option<Seq<bool>>,
    found: PortalDijkstra,
    t: Seq<State>,
    r: Set<int>,
    cap: int,
    q: int,
    k: int,
)
    requires
        vi.wf(),
        full_mass(vi.model()),
        pristine(vi.states@),
        cold(vi.states@),
        built(a, vi, cfg, PatchAgg::Max),
        searched(a, vi, mask, PatchAgg::Max, found),
        0 <= cap <= REACH_THRESH,
        search_safe(a, vi, goals(vi), (Scope { cap, r })),
        solution(vi.model(), vi.states@, t, r, cap),
        0 <= q < a.portals@.len(),
        0 <= k < PATCH_LEN,
        patch_on_map(vi, a.portals@[q], k),
        r.contains(patch_index(vi, a.portals@[q], k)),
    ensures
        found.d@.len() == a.portals@.len(),
        t[patch_index(vi, a.portals@[q], k)].total_cost <= found.d@[q],
{
    let s = vi.states@;
    let c = Scope { cap, r };
    let nu = values_on(t, r);
    let j = patch_index(vi, a.portals@[q], k);
    law_solution_dominates(vi.model(), s, t, r, cap);
    lemma_built_inside(a, vi, cfg);
    lemma_goal_list(vi, nu, s.len() as int);
    assert(portal_on(vi.grid(), a.portals@[q]));
    lemma_patch_index(vi, a.portals@[q], k);
    assert(same_place(s[j], t[j]));
    assert(t[j].total_cost < cap);
    if found.d@[q] < MAX_COST {
        law_portal_values_bound(a, vi, nu, mask, found, q, c);
        assert(nu[j] <= found.d@[q]);
    }
}

/// The states of a patch lie on the map.
proof fn lemma_patch_index(vi: ValueIterator, p: Portal, k: int)
    requires
        vi.wf(),
        portal_on(vi.grid(), p),
        patch_on_map(vi, p, k),
    ensures
        0 <= patch_index(vi, p, k) < vi.states@.len(),
{
    let g = vi.grid();
    vstd::arithmetic::div_mod::lemma_mod_bound(p.it + off_t(k), g.nt);
    lemma_index_bound(
        p.ix + off_x(k),
        p.iy + off_y(k),
        patch_t(p.it as int, k, g.nt),
        g.nx,
        g.ny,
        g.nt,
    );
}

/// A converged tiled solve ends where sweeps in any order whatever do: with the same values
/// and the same policy wherever both have reached.
pub proof fn law_tiled_solve_agrees_with_sweeps(
    a: SchurArtifact,
    vi: ValueIterator,
    cfg: SchurConfig,
    d: &Vec<u64>,
    field: Seq<State>,
    u: int,
    n: int,
    order: Seq<int>,
    r: Set<int>,
    cap: int,
    i: int,
)
    requires
        vi.wf(),
        fits(a, vi),
        full_mass(vi.model()),
        pristine(vi.states@),
        cold(vi.states@),
        built(a, vi, cfg, PatchAgg::Max),
        is_field(a, vi, PatchAgg::Max, d, field, u),
        0 <= cap <= REACH_THRESH,
        field_safe(a, vi, d, (Scope { cap, r })),
        0 <= n,
        rounds(vi.model(), swept_from(vi, field, u), n).frontier == Set::<int>::empty(),
        reached(vi.model(), rounds(vi.model(), swept_from(vi, field, u), n).states, r, cap),
        rounds_safe(vi.model(), swept_from(vi, field, u), n, cap, r),
        settles(vi.model(), vi.states@, order, r, cap),
        0 <= i < vi.states@.len(),
        r.contains(i),
        vi.states@[i].free,
    ensures
        ({
            let x = rounds(vi.model(), swept_from(vi, field, u), n).states[i];
            let y = updates(vi.model(), vi.states@, order, order.len() as int)[i];
            x.total_cost == y.total_cost && x.optimal_action == y.optimal_action
        }),
{
    let (m, s) = (vi.model(), vi.states@);
    law_tiled_solve_is_solution(a, vi, cfg, d, field, u, n, r, cap);
    law_start_is_upper_field(m, s, r, cap);
    law_any_order_is_solution(m, s, s, order, r, cap);
    law_solutions_agree(
        m,
        s,
        rounds(m, swept_from(vi, field, u), n).states,
        updates(m, s, order, order.len() as int),
        r,
        cap,
        i,
    );
}

} // verus!
