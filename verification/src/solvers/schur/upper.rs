//! The restored field is a field of upper bounds: no value in it is below a lower
//! solution, and so none is below the values of a fixed point.
use vstd::prelude::*;

use crate::bounds::{
    above, law_lower_solution_shifts, lemma_lower_frame, lower_solution, lowered_by, not_below,
    same_costs, same_terms, stays_in,
};
use crate::grid::{
    lemma_decode, lemma_encode, lemma_index_bound, lemma_index_injective, on_axis, t_of, x_of,
    y_of,
};
use crate::model::{lemma_succ_bound, Grid, Model};
use crate::params::{MAX_COST, PROB_BASE, REACH_THRESH};
use crate::solvers::schur::artifact::{SchurArtifact, SchurConfig, TileEdges};
use crate::solvers::schur::bound::{
    bounded, crossings_safe, law_crossing_bounds, law_lower_solution_restricts, law_polish_stays_above,
    law_tile_solve_stays_above, lemma_base_above, lemma_base_located, lemma_frame_costs,
    lemma_patch_keeps_above, lemma_same_costs_located, lemma_solved_patch, lemma_tile_full_mass,
    lemma_tile_place, patch_below, patch_inside, patch_on_map, polish_safe, run_safe, setting,
    tile_nu, tile_scope, Scope,
};
use crate::solvers::schur::crossing::{
    base_tile, built, crosses, crossing, lemma_run_frame, watch_list,
};
use crate::solvers::schur::domain::{
    domain_x, domain_y, edges_ok, lemma_map_patch, map_patch, portal_on, tile_grid, tile_model,
};
use crate::solvers::schur::fix::{exact_cost, fixed_list, fixed_portals, is_real, real_best};
use crate::solvers::schur::materialize::{
    has_pins, keep_goals, more_goals, pinned_tile, same_tiling, solution, with_all_portals,
    with_portals, Valued,
};
use crate::solvers::schur::merge::{lemma_tile_at, offers, tile_at, tile_merged};
use crate::solvers::schur::patch::{off_x, off_y, PatchAgg, PATCH_LEN};
use crate::solvers::schur::place::{
    all_sites, has_segment, line_sites, on_segment, segment, segment_cell, site, tiling, Segment,
    Tiling,
};
use crate::solvers::schur::query::{
    cross_cost, goal_on, goals, goals_on, has_walk, in_domain, is_edge, is_seed, is_shortest,
    seed_value, seeded_at, slot, walk, with_goals,
};
use crate::solvers::schur::restore::{one_art, tile_restored, tiles_restored};
use crate::solvers::schur::search::{searched, PortalDijkstra};
use crate::solvers::schur::solve::{all_tiles, is_field, pristine};
use crate::solvers::schur::sweep::{gs_solved, TILE_MAX_ITER};
use crate::state::State;
use crate::value_iterator::ValueIterator;

verus! {

/// Goals are worth nothing.
pub open spec fn zero_at(vi: ValueIterator, nu: Seq<int>, f: Seq<(i32, i32, i32)>) -> bool {
    forall|k: int|
        0 <= k < f.len() ==> nu[vi.grid().at(
            (#[trigger] f[k]).0 as int,
            f[k].1 as int,
            f[k].2 as int,
        )] <= 0
}

/// Pinning the goals keeps a tile above.
proof fn lemma_goals_above(
    a: SchurArtifact,
    vi: ValueIterator,
    nu: Seq<int>,
    t: int,
    f: Seq<(i32, i32, i32)>,
    n: int,
    c: Scope,
)
    requires
        setting(a, vi, nu, c),
        goals_on(vi.grid(), f),
        zero_at(vi, nu, f),
        0 <= n <= f.len(),
    ensures
        ({
            let s = with_goals(a, t, base_tile(a, vi, t), f, n);
            &&& same_costs(base_tile(a, vi, t), s)
            &&& above(s, lowered_by(tile_nu(a, vi.grid(), nu, t), 0))
        }),
    decreases n,
{
    let base = base_tile(a, vi, t);
    let g = vi.grid();
    let tg = tile_grid(a);
    let tn = tile_nu(a, g, nu, t);
    let mu = lowered_by(tn, 0);
    if n <= 0 {
        lemma_base_above(a, vi, nu, t, 0, c);
    } else {
        lemma_goals_above(a, vi, nu, t, f, n - 1, c);
        let p = with_goals(a, t, base, f, n - 1);
        let s = with_goals(a, t, base, f, n);
        let q = f[n - 1];
        assert(goal_on(g, f[n - 1]));
        if in_domain(a, t, q) {
            let (lx, ly, it) = (q.0 - domain_x(a, t), q.1 - domain_y(a, t), q.2 as int);
            lemma_index_bound(lx, ly, it, tg.nx, tg.ny, tg.nt);
            let i = tg.at(lx, ly, it);
            assert forall|j: int| 0 <= j < base.len() implies same_terms(base[j], #[trigger] s[j]) by {
                assert(same_terms(base[j], p[j]));
            }
            assert forall|j: int| 0 <= j < s.len() && s[j].free implies mu[j] <= (
            #[trigger] s[j]).total_cost by {
                assert(same_terms(base[j], p[j]));
                if j == i {
                    lemma_tile_place(a, vi, nu, t, i);
                    let b = base[i];
                    lemma_index_injective(
                        lx,
                        ly,
                        it,
                        b.ix as int,
                        b.iy as int,
                        b.it as int,
                        tg.nx,
                        tg.nt,
                    );
                    assert(tn[i] == nu[g.at(q.0 as int, q.1 as int, q.2 as int)]);
                    assert(mu[i] == tn[i] - 0);
                } else {
                    assert(mu[j] <= p[j].total_cost);
                }
            }
        }
    }
}

/// No sum that overflows or leads out of the scope comes out below its cap while tile `t`
/// is solved for the goals `f`.
pub open spec fn seeding_safe(
    a: SchurArtifact,
    vi: ValueIterator,
    f: Seq<(i32, i32, i32)>,
    t: int,
    c: Scope,
) -> bool {
    let start = with_goals(a, t, base_tile(a, vi, t), f, f.len() as int);
    let list = a.tiles@[t].portals@;
    run_safe(
        tile_model(a, vi),
        Some(watch_list(a, start, t, list, list.len() as int)),
        start,
        tile_scope(a, vi.grid(), c, t),
    )
}

/// Every listed portal's patch lies in the domain of its tile.
pub open spec fn patches_inside(a: SchurArtifact, vi: ValueIterator) -> bool {
    forall|t: int, i: int|
        0 <= t < a.tiles@.len() && 0 <= i < a.tiles@[t].portals@.len() ==> patch_inside(
            a,
            vi,
            t,
            a.portals@[#[trigger] a.tiles@[t].portals@[i] as int],
        )
}

/// The first value of a portal bounds its patch.
pub proof fn law_seed_bounds(
    a: SchurArtifact,
    vi: ValueIterator,
    nu: Seq<int>,
    f: Seq<(i32, i32, i32)>,
    t: int,
    i: int,
    c: Scope,
)
    requires
        setting(a, vi, nu, c),
        patches_inside(a, vi),
        goals_on(vi.grid(), f),
        zero_at(vi, nu, f),
        0 <= t < a.tiles@.len(),
        0 <= i < a.tiles@[t].portals@.len(),
        seeding_safe(a, vi, f, t, c),
    ensures
        patch_below(
            vi,
            nu,
            a.portals@[a.tiles@[t].portals@[i] as int],
            seed_value(a, vi, f, PatchAgg::Max, t, a.tiles@[t].portals@[i]) as int,
        ),
{
    let list = a.tiles@[t].portals@;
    assert(edges_ok(a.tiles@[t], a.portals@.len() as int));
    assert(list[i] < a.portals@.len());
    let p = a.portals@[list[i] as int];
    assert(portal_on(vi.grid(), a.portals@[list[i] as int]));
    assert(patch_inside(a, vi, t, a.portals@[a.tiles@[t].portals@[i] as int]));
    lemma_goals_above(a, vi, nu, t, f, f.len() as int, c);
    let start = with_goals(a, t, base_tile(a, vi, t), f, f.len() as int);
    lemma_solved_patch(
        a,
        vi,
        nu,
        t,
        Some(watch_list(a, start, t, list, list.len() as int)),
        start,
        p,
        0,
        c,
    );
}

/// The crossing costs of the artifact are those of the map.
pub open spec fn crossings_of(a: SchurArtifact, vi: ValueIterator) -> bool {
    forall|t: int|
        0 <= t < a.tiles@.len() ==> crosses(a, vi, t, PatchAgg::Max, #[trigger] a.tiles@[t])
}

/// No sum that overflows or leads out of the scope comes out below its cap while crossing
/// costs and first values are computed.
pub open spec fn search_safe(
    a: SchurArtifact,
    vi: ValueIterator,
    f: Seq<(i32, i32, i32)>,
    c: Scope,
) -> bool {
    &&& forall|t: int| 0 <= t < a.tiles@.len() ==> #[trigger] crossings_safe(a, vi, t, c)
    &&& forall|t: int| 0 <= t < a.tiles@.len() ==> #[trigger] seeding_safe(a, vi, f, t, c)
}

/// The cost of a walk bounds the patch where it starts.
proof fn lemma_walk_bounds(
    a: SchurArtifact,
    vi: ValueIterator,
    nu: Seq<int>,
    f: Seq<(i32, i32, i32)>,
    mask: Option<Seq<bool>>,
    seed: Seq<u64>,
    via: Seq<i32>,
    q: int,
    v: int,
    k: nat,
    c: Scope,
)
    requires
        setting(a, vi, nu, c),
        patches_inside(a, vi),
        crossings_of(a, vi),
        search_safe(a, vi, f, c),
        goals_on(vi.grid(), f),
        zero_at(vi, nu, f),
        is_seed(a, vi, f, mask, PatchAgg::Max, a.tiles@.len() as int, seed, via),
        0 <= q < a.portals@.len(),
        walk(a, mask, seed, q, v, k),
    ensures
        0 <= v,
        patch_below(vi, nu, a.portals@[q], v),
    decreases k,
{
    if k == 0 {
        if seed[q] == MAX_COST && via[q] == -1 {
            assert forall|j: int|
                0 <= j < PATCH_LEN && #[trigger] patch_on_map(
                    vi,
                    a.portals@[q],
                    j,
                ) implies nu[crate::solvers::schur::bound::patch_index(vi, a.portals@[q], j)]
                <= v by {
                let p = a.portals@[q];
                let g = vi.grid();
                assert(portal_on(g, a.portals@[q]));
                vstd::arithmetic::div_mod::lemma_mod_bound(
                    p.it + crate::solvers::schur::patch::off_t(j),
                    g.nt,
                );
                lemma_index_bound(
                    p.ix + off_x(j),
                    p.iy + off_y(j),
                    crate::solvers::schur::patch::patch_t(p.it as int, j, g.nt),
                    g.nx,
                    g.ny,
                    g.nt,
                );
                assert(nu[crate::solvers::schur::bound::patch_index(vi, a.portals@[q], j)]
                    <= c.cap);
            }
        } else {
            let t = via[q] as int;
            assert(seeded_at(
                a,
                vi,
                f,
                mask,
                PatchAgg::Max,
                a.tiles@.len() as int,
                q,
                seed[q],
                t,
            ));
            let list = a.tiles@[t].portals@;
            let i = choose|i: int| 0 <= i < list.len() && list[i] == q as u32;
            assert(seeding_safe(a, vi, f, t, c));
            law_seed_bounds(a, vi, nu, f, t, i, c);
        }
    } else {
        let (t, i, j) = choose|t: int, i: int, j: int| #[trigger]
            is_edge(a, mask, t, i, j) && slot(a, t, i) == q && walk(
                a,
                mask,
                seed,
                slot(a, t, j),
                v - cross_cost(a, t, i, j),
                (k - 1) as nat,
            );
        assert(edges_ok(a.tiles@[t], a.portals@.len() as int));
        let list = a.tiles@[t].portals@;
        assert(list[i] < a.portals@.len() && list[j] < a.portals@.len());
        let w = cross_cost(a, t, i, j);
        lemma_walk_bounds(
            a,
            vi,
            nu,
            f,
            mask,
            seed,
            via,
            slot(a, t, j),
            v - w,
            (k - 1) as nat,
            c,
        );
        assert(crossings_safe(a, vi, t, c));
        assert(patch_inside(a, vi, t, a.portals@[a.tiles@[t].portals@[i] as int]));
        law_crossing_bounds(a, vi, nu, t, i, j, v - w, c);
        let n = list.len() as int;
        assert(crosses(a, vi, t, PatchAgg::Max, a.tiles@[t]));
        assert(a.tiles@[t].w@[i * n + j] == crossing(a, vi, t, list, PatchAgg::Max, i, j));
    }
}

/// Every portal's value bounds its patch, also where only some tiles may be used.
pub proof fn law_portal_values_bound(
    a: SchurArtifact,
    vi: ValueIterator,
    nu: Seq<int>,
    mask: Option<Seq<bool>>,
    r: PortalDijkstra,
    q: int,
    c: Scope,
)
    requires
        setting(a, vi, nu, c),
        patches_inside(a, vi),
        crossings_of(a, vi),
        search_safe(a, vi, goals(vi), c),
        goals_on(vi.grid(), goals(vi)),
        zero_at(vi, nu, goals(vi)),
        searched(a, vi, mask, PatchAgg::Max, r),
        0 <= q < a.portals@.len(),
        r.d@[q] < MAX_COST,
    ensures
        patch_below(vi, nu, a.portals@[q], r.d@[q] as int),
{
    let f = goals(vi);
    let (seed, via) = choose|seed: Seq<u64>, via: Seq<i32>|
        #![trigger is_shortest(a, mask, seed, via, r.d@, r.parent@, r.via_tile@)]
        is_seed(a, vi, f, mask, PatchAgg::Max, a.tiles@.len() as int, seed, via) && is_shortest(
            a,
            mask,
            seed,
            via,
            r.d@,
            r.parent@,
            r.via_tile@,
        );
    assert(has_walk(a, mask, seed, q, r.d@[q] as int));
    let k = choose|k: nat| #[trigger] walk(a, mask, seed, q, r.d@[q] as int, k);
    lemma_walk_bounds(a, vi, nu, f, mask, seed, via, q, r.d@[q] as int, k, c);
}

/// Every portal value below `MAX_COST` bounds its patch.
pub open spec fn values_bound(
    a: SchurArtifact,
    vi: ValueIterator,
    nu: Seq<int>,
    d: Seq<u64>,
) -> bool {
    &&& d.len() == a.portals@.len()
    &&& forall|q: int|
        0 <= q < d.len() && #[trigger] d[q] < MAX_COST ==> patch_below(
            vi,
            nu,
            a.portals@[q],
            d[q] as int,
        )
}

proof fn lemma_portals_above(
    a: SchurArtifact,
    vi: ValueIterator,
    nu: Seq<int>,
    d: Seq<u64>,
    t: int,
    s: Seq<State>,
    n: int,
    c: Scope,
)
    requires
        setting(a, vi, nu, c),
        values_bound(a, vi, nu, d),
        0 <= t < a.tiles@.len(),
        0 <= n <= a.tiles@[t].portals@.len(),
        same_costs(base_tile(a, vi, t), s),
        above(s, lowered_by(tile_nu(a, vi.grid(), nu, t), 0)),
    ensures
        same_costs(base_tile(a, vi, t), with_portals(a, d, t, s, n)),
        above(with_portals(a, d, t, s, n), lowered_by(tile_nu(a, vi.grid(), nu, t), 0)),
    decreases n,
{
    if n > 0 {
        lemma_portals_above(a, vi, nu, d, t, s, n - 1, c);
        assert(edges_ok(a.tiles@[t], a.portals@.len() as int));
        let id = a.tiles@[t].portals@[n - 1] as int;
        assert(a.tiles@[t].portals@[n - 1] < a.portals@.len());
        assert(portal_on(vi.grid(), a.portals@[id]));
        if d[id] < MAX_COST {
            lemma_patch_keeps_above(
                a,
                vi,
                nu,
                t,
                with_portals(a, d, t, s, n - 1),
                a.portals@[id],
                d[id],
                0,
            );
        }
    }
}

/// No sum that overflows or leads out of the scope comes out below its cap while tile `t`
/// is restored from the portal values of all `arts`.
pub open spec fn all_safe(
    vi: ValueIterator,
    arts: Seq<Valued>,
    f: Seq<(i32, i32, i32)>,
    t: int,
    c: Scope,
) -> bool {
    let a = *arts[0].0;
    let m = tile_model(a, vi);
    let s1 = with_goals(a, t, base_tile(a, vi, t), f, f.len() as int);
    let s2 = pinned_tile(vi, arts, f, t);
    let ts = tile_scope(a, vi.grid(), c, t);
    &&& run_safe(m, None, s2, ts)
    &&& polish_safe(m, keep_goals(s1, gs_solved(m, None, s2).states), ts)
}

/// No sum that overflows or leads out of the scope comes out below its cap while tile `t`
/// is restored from the portal values `d`.
pub open spec fn restoring_safe(
    a: SchurArtifact,
    vi: ValueIterator,
    d: &Vec<u64>,
    f: Seq<(i32, i32, i32)>,
    t: int,
    c: Scope,
) -> bool {
    let art = &a;
    all_safe(vi, one_art(art, d), f, t, c)
}

/// All `arts` are artifacts of the map with the same tiling, and their portal values bound
/// `nu`.
pub open spec fn all_bound(vi: ValueIterator, nu: Seq<int>, arts: Seq<Valued>, c: Scope) -> bool {
    &&& arts.len() > 0
    &&& forall|k: int|
        0 <= k < arts.len() ==> {
            &&& setting(*(#[trigger] arts[k]).0, vi, nu, c)
            &&& values_bound(*arts[k].0, vi, nu, arts[k].1@)
            &&& same_tiling(*arts[0].0, *arts[k].0)
        }
}

proof fn lemma_all_portals_above(
    vi: ValueIterator,
    nu: Seq<int>,
    arts: Seq<Valued>,
    t: int,
    s: Seq<State>,
    n: int,
    c: Scope,
)
    requires
        all_bound(vi, nu, arts, c),
        0 <= t < arts[0].0.tiles@.len(),
        0 <= n <= arts.len(),
        same_costs(base_tile(*arts[0].0, vi, t), s),
        above(s, lowered_by(tile_nu(*arts[0].0, vi.grid(), nu, t), 0)),
    ensures
        same_costs(base_tile(*arts[0].0, vi, t), with_all_portals(arts, t, s, n)),
        above(
            with_all_portals(arts, t, s, n),
            lowered_by(tile_nu(*arts[0].0, vi.grid(), nu, t), 0),
        ),
    decreases n,
{
    if n > 0 {
        lemma_all_portals_above(vi, nu, arts, t, s, n - 1, c);
        assert(setting(*arts[n - 1].0, vi, nu, c) && same_tiling(*arts[0].0, *arts[n - 1].0));
        assert(setting(*arts[0].0, vi, nu, c));
        let a = *arts[n - 1].0;
        lemma_portals_above(
            a,
            vi,
            nu,
            arts[n - 1].1@,
            t,
            with_all_portals(arts, t, s, n - 1),
            a.tiles@[t].portals@.len() as int,
            c,
        );
    }
}

/// A restored tile is above the lower solution.
proof fn lemma_solution_above(
    vi: ValueIterator,
    nu: Seq<int>,
    arts: Seq<Valued>,
    f: Seq<(i32, i32, i32)>,
    t: int,
    c: Scope,
)
    requires
        all_bound(vi, nu, arts, c),
        goals_on(vi.grid(), f),
        zero_at(vi, nu, f),
        0 <= t < arts[0].0.tiles@.len(),
        all_safe(vi, arts, f, t, c),
    ensures
        ({
            let s = solution(vi, arts, f, t).states;
            &&& same_costs(base_tile(*arts[0].0, vi, t), s)
            &&& above(s, lowered_by(tile_nu(*arts[0].0, vi.grid(), nu, t), 0))
        }),
{
    let a = *arts[0].0;
    assert(setting(*arts[0].0, vi, nu, c));
    let m = tile_model(a, vi);
    let base = base_tile(a, vi, t);
    let tn = tile_nu(a, vi.grid(), nu, t);
    let mu = lowered_by(tn, 0);
    let s1 = with_goals(a, t, base, f, f.len() as int);
    let s2 = pinned_tile(vi, arts, f, t);
    lemma_goals_above(a, vi, nu, t, f, f.len() as int, c);
    lemma_all_portals_above(vi, nu, arts, t, s1, arts.len() as int, c);
    lemma_base_located(a, vi, t);
    lemma_same_costs_located(m.grid, base, s2);
    law_lower_solution_restricts(a, vi, nu, t, c);
    lemma_tile_full_mass(a, vi);
    let ts = tile_scope(a, vi.grid(), c, t);
    law_lower_solution_shifts(m, base, tn, 0, ts.r);
    lemma_lower_frame(m, base, s2, mu, ts.r);
    lemma_base_above(a, vi, nu, t, 0, c);
    law_tile_solve_stays_above(m, None, s2, mu, ts);
    lemma_run_frame(m, None, s2, TILE_MAX_ITER as int);
    let g = gs_solved(m, None, s2).states;
    lemma_frame_costs(base, s2, g);
    if more_goals(s1, s2) {
        let k = keep_goals(s1, g);
        assert forall|i: int| 0 <= i < base.len() implies same_terms(base[i], #[trigger] k[i]) by {
            assert(same_terms(base[i], g[i]));
        }
        lemma_same_costs_located(m.grid, base, k);
        lemma_lower_frame(m, base, k, mu, ts.r);
        assert forall|i: int| 0 <= i < k.len() && k[i].free implies mu[i] <= (
        #[trigger] k[i]).total_cost by {
            assert(mu[i] <= g[i].total_cost);
        }
        law_polish_stays_above(m, k, mu, ts);
        lemma_polish_costs(m, base, k, TILE_MAX_ITER as int);
    }
}

proof fn lemma_polish_pass_costs(
    m: Model,
    b: Seq<State>,
    s: Seq<State>,
    forward: bool,
    n: int,
)
    requires
        m.grid.wf(),
        same_costs(b, s),
        s.len() == m.grid.len(),
        0 <= n <= m.grid.len(),
    ensures
        same_costs(b, crate::solvers::schur::sweep::polish_pass(m, s, forward, n).0),
    decreases n,
{
    if n > 0 {
        lemma_polish_pass_costs(m, b, s, forward, n - 1);
        crate::solvers::schur::sweep::lemma_visit(m.grid, forward, n - 1);
        let p = crate::solvers::schur::sweep::polish_pass(m, s, forward, n - 1).0;
        let q = crate::solvers::schur::sweep::polish_pass(m, s, forward, n).0;
        assert forall|i: int| 0 <= i < b.len() implies same_terms(b[i], #[trigger] q[i]) by {
            assert(same_terms(b[i], p[i]));
        }
    }
}

proof fn lemma_polish_costs(m: Model, b: Seq<State>, s: Seq<State>, n: int)
    requires
        m.grid.wf(),
        same_costs(b, s),
        s.len() == m.grid.len(),
        0 <= n,
    ensures
        same_costs(b, crate::solvers::schur::sweep::polish_run(m, s, n).states),
    decreases n,
{
    if n > 0 {
        lemma_polish_costs(m, b, s, n - 1);
        let r = crate::solvers::schur::sweep::polish_run(m, s, n - 1);
        if !r.done {
            lemma_polish_pass_costs(m, b, r.states, (n - 1) % 2 == 0, m.grid.len());
        }
    }
}

/// Merging a tile that is above the lower solution keeps the map above.
proof fn lemma_merge_above(
    a: SchurArtifact,
    vi: ValueIterator,
    nu: Seq<int>,
    t: int,
    ts: Seq<State>,
    s: Seq<State>,
    c: Scope,
)
    requires
        setting(a, vi, nu, c),
        0 <= t < a.tiles@.len(),
        same_costs(base_tile(a, vi, t), ts),
        above(ts, lowered_by(tile_nu(a, vi.grid(), nu, t), 0)),
        same_costs(vi.states@, s),
        above(s, nu),
    ensures
        same_costs(vi.states@, tile_merged(a, t, ts, s)),
        above(tile_merged(a, t, ts, s), nu),
{
    let g = vi.grid();
    let tg = tile_grid(a);
    let base = base_tile(a, vi, t);
    let tn = tile_nu(a, g, nu, t);
    let mu = lowered_by(tn, 0);
    let r = tile_merged(a, t, ts, s);
    assert forall|i: int| 0 <= i < r.len() implies same_terms(vi.states@[i], #[trigger] r[i]) by {
        assert(same_terms(vi.states@[i], s[i]));
    }
    assert forall|i: int| 0 <= i < r.len() && r[i].free implies nu[i] <= (
    #[trigger] r[i]).total_cost by {
        assert(same_terms(vi.states@[i], s[i]));
        assert(nu[i] <= s[i].total_cost);
        if offers(a, t, ts, i) {
            lemma_tile_at(a, vi, t, i);
            lemma_encode(i, g.nx, g.ny, g.nt);
            let j = tile_at(a, t, i);
            let (x, y, it) = (x_of(i, g.nx, g.nt), y_of(i, g.nx, g.nt), t_of(i, g.nt));
            let (lx, ly) = (x - domain_x(a, t), y - domain_y(a, t));
            lemma_decode(lx, ly, it, tg.nx, tg.nt);
            assert(tn[j] == nu[i]);
            assert(base[j] == crate::solvers::schur::tile::map_state(
                g,
                vi.states@,
                domain_x(a, t),
                domain_y(a, t),
                lx,
                ly,
                it,
            ));
            assert(base[j].free);
            assert(same_terms(base[j], ts[j]));
            assert(mu[j] == tn[j] - 0);
            assert(mu[j] <= ts[j].total_cost);
        }
    }
}

proof fn lemma_tiles_above(
    a: SchurArtifact,
    vi: ValueIterator,
    nu: Seq<int>,
    d: &Vec<u64>,
    f: Seq<(i32, i32, i32)>,
    tiles: Seq<i32>,
    n: int,
    s: Seq<State>,
    c: Scope,
)
    requires
        setting(a, vi, nu, c),
        values_bound(a, vi, nu, d@),
        goals_on(vi.grid(), f),
        zero_at(vi, nu, f),
        0 <= n <= tiles.len(),
        forall|k: int| 0 <= k < tiles.len() ==> 0 <= #[trigger] tiles[k] < a.tiles@.len(),
        forall|k: int|
            0 <= k < tiles.len() ==> restoring_safe(a, vi, d, f, #[trigger] tiles[k] as int, c),
        same_costs(vi.states@, s),
        above(s, nu),
    ensures
        ({
            let art = &a;
            let r = tiles_restored(vi, one_art(art, d), f, tiles, n, s);
            &&& same_costs(vi.states@, r)
            &&& above(r, nu)
        }),
    decreases n,
{
    if n > 0 {
        let art = &a;
        let arts = one_art(art, d);
        lemma_tiles_above(a, vi, nu, d, f, tiles, n - 1, s, c);
        let p = tiles_restored(vi, arts, f, tiles, n - 1, s);
        let t = tiles[n - 1] as int;
        assert(0 <= tiles[n - 1] < a.tiles@.len());
        if has_pins(arts, f, t) {
            assert(all_bound(vi, nu, arts, c)) by {
                assert(arts.len() == 1);
            }
            assert(restoring_safe(a, vi, d, f, tiles[n - 1] as int, c));
            lemma_solution_above(vi, nu, arts, f, t, c);
            lemma_merge_above(a, vi, nu, t, solution(vi, arts, f, t).states, p, c);
        }
    }
}

/// A tile that is restored from several artifacts at once stays a field of upper bounds: no
/// value that is merged into the map is below a lower solution that the map is above of and
/// that all portal values bound.
pub proof fn law_joint_restore_is_upper_bound(
    vi: ValueIterator,
    nu: Seq<int>,
    arts: Seq<Valued>,
    f: Seq<(i32, i32, i32)>,
    t: int,
    s: Seq<State>,
    c: Scope,
)
    requires
        all_bound(vi, nu, arts, c),
        goals_on(vi.grid(), f),
        zero_at(vi, nu, f),
        0 <= t < arts[0].0.tiles@.len(),
        all_safe(vi, arts, f, t, c),
        same_costs(vi.states@, s),
        above(s, nu),
    ensures
        above(tile_restored(vi, arts, f, t, s), nu),
{
    assert(setting(*arts[0].0, vi, nu, c));
    if has_pins(arts, f, t) {
        lemma_solution_above(vi, nu, arts, f, t, c);
        lemma_merge_above(*arts[0].0, vi, nu, t, solution(vi, arts, f, t).states, s, c);
    }
}

/// Every real action from state `i`, if that is in the scope, stays in it or costs no less
/// than its cap.
pub open spec fn real_safe(m: Model, s: Seq<State>, i: int, c: Scope) -> bool {
    forall|b: int|
        0 <= b < m.actions.len() && c.r.contains(i) && is_real(
            m.grid,
            s,
            s[i],
            (#[trigger] m.actions[b]).outcomes(s[i].it as int),
        ) ==> stays_in(m, s[i], b, c.r) || c.cap <= exact_cost(
            m.grid,
            s,
            s[i],
            m.actions[b].outcomes(s[i].it as int),
        )
}

/// The same of each state in turn while the first `n` listed ones are fixed.
pub open spec fn list_safe(
    m: Model,
    s: Seq<State>,
    list: Seq<(i32, i32, i32)>,
    n: int,
    c: Scope,
) -> bool {
    forall|k: int|
        0 <= k < n ==> real_safe(
            m,
            (#[trigger] fixed_list(m, s, list, k)).0,
            m.grid.at(list[k].0 as int, list[k].1 as int, list[k].2 as int),
            c,
        )
}

/// The same while the patches of the first `n` portals are fixed.
pub open spec fn fixing_safe(
    a: SchurArtifact,
    m: Model,
    s: Seq<State>,
    n: int,
    c: Scope,
) -> bool {
    forall|k: int|
        0 <= k < n ==> {
            let list = map_patch(a, a.portals@[k], PATCH_LEN as int);
            list_safe(m, (#[trigger] fixed_portals(a, m, s, k)).0, list, list.len() as int, c)
        }
}

proof fn lemma_real_above(m: Model, s: Seq<State>, nu: Seq<int>, i: int, k: int, c: Scope)
    requires
        m.wf(),
        m.grid.located(s),
        lower_solution(m, s, nu, c.r),
        above(s, nu),
        bounded(nu, c),
        0 <= i < s.len(),
        s[i].free,
        0 <= k <= m.actions.len(),
        real_safe(m, s, i, c),
    ensures
        real_best(m, s, s[i], k) matches Some((q, _)) ==> nu[i] <= q && 0 <= q < REACH_THRESH,
    decreases k,
{
    if k > 0 {
        lemma_real_above(m, s, nu, i, k - 1, c);
        let g = m.grid;
        let st = s[i];
        let trs = m.actions[k - 1].outcomes(st.it as int);
        let n = trs.len() as int;
        if is_real(g, s, st, trs) {
            assert(g.located_at(s[i], i));
            assert(g.action_ok(m.actions[k - 1]));
            assert forall|j: int| 0 <= j < trs.len() implies g.lands(s, st, #[trigger] trs[j])
                && 0 <= trs[j].prob && nu[g.succ(st, trs[j])] <= s[g.succ(
                st,
                trs[j],
            )].total_cost by {
                assert(g.outcome_ok(m.actions[k - 1].outcomes(st.it as int)[j]));
                lemma_succ_bound(g, st, trs[j]);
            }
            crate::bounds::lemma_weigh_below(g, nu, s, st, trs, n);
            crate::model::lemma_weighted_nonneg(g, s, st, trs, n);
            let w = g.weighted(s, st, trs, n);
            let b = PROB_BASE as int;
            vstd::arithmetic::div_mod::lemma_fundamental_div_mod(w, b);
            vstd::arithmetic::div_mod::lemma_mod_bound(w, b);
            assert(0 <= w / b) by (nonlinear_arith)
                requires
                    0 <= w,
                    0 < b,
            ;
            assert(m.actions[k - 1].outcomes(st.it as int) == trs);
            assert(nu[i] <= c.cap);
            if c.r.contains(i) && stays_in(m, st, k - 1, c.r) {
                assert(not_below(m, s, nu, i, k - 1));
                assert(nu[i] <= w / b) by (nonlinear_arith)
                    requires
                        nu[i] * b <= w,
                        0 <= w,
                        w == b * (w / b) + w % b,
                        w % b < b,
                        0 < b,
                ;
            }
        }
    }
}

proof fn lemma_fixed_list_above(
    m: Model,
    b: Seq<State>,
    s: Seq<State>,
    nu: Seq<int>,
    list: Seq<(i32, i32, i32)>,
    n: int,
    c: Scope,
)
    requires
        m.wf(),
        m.grid.located(b),
        lower_solution(m, b, nu, c.r),
        bounded(nu, c),
        list_safe(m, s, list, n, c),
        same_costs(b, s),
        above(s, nu),
        0 <= n <= list.len(),
        forall|k: int| 0 <= k < list.len() ==> goal_on(m.grid, #[trigger] list[k]),
    ensures
        same_costs(b, fixed_list(m, s, list, n).0),
        above(fixed_list(m, s, list, n).0, nu),
    decreases n,
{
    if n > 0 {
        assert(list_safe(m, s, list, n - 1, c));
        lemma_fixed_list_above(m, b, s, nu, list, n - 1, c);
        let p = fixed_list(m, s, list, n - 1).0;
        let r = fixed_list(m, s, list, n).0;
        let q = list[n - 1];
        assert(goal_on(m.grid, list[n - 1]));
        lemma_index_bound(q.0 as int, q.1 as int, q.2 as int, m.grid.nx, m.grid.ny, m.grid.nt);
        let i = m.grid.at(q.0 as int, q.1 as int, q.2 as int);
        lemma_same_costs_located(m.grid, b, p);
        lemma_lower_frame(m, b, p, nu, c.r);
        if p[i].free {
            lemma_real_above(m, p, nu, i, m.actions.len() as int, c);
        }
        assert forall|j: int| 0 <= j < b.len() implies same_terms(b[j], #[trigger] r[j]) by {
            assert(same_terms(b[j], p[j]));
        }
        assert forall|j: int| 0 <= j < r.len() && r[j].free implies nu[j] <= (
        #[trigger] r[j]).total_cost by {
            assert(same_terms(b[j], p[j]));
            assert(nu[j] <= p[j].total_cost);
        }
    }
}

proof fn lemma_fixed_portals_above(
    a: SchurArtifact,
    vi: ValueIterator,
    nu: Seq<int>,
    s: Seq<State>,
    n: int,
    c: Scope,
)
    requires
        setting(a, vi, nu, c),
        fixing_safe(a, vi.model(), s, n, c),
        same_costs(vi.states@, s),
        above(s, nu),
        0 <= n <= a.portals@.len(),
    ensures
        same_costs(vi.states@, fixed_portals(a, vi.model(), s, n).0),
        above(fixed_portals(a, vi.model(), s, n).0, nu),
    decreases n,
{
    if n > 0 {
        assert(fixing_safe(a, vi.model(), s, n - 1, c));
        lemma_fixed_portals_above(a, vi, nu, s, n - 1, c);
        let p = fixed_portals(a, vi.model(), s, n - 1).0;
        assert(portal_on(vi.grid(), a.portals@[n - 1]));
        let list = map_patch(a, a.portals@[n - 1], PATCH_LEN as int);
        lemma_map_patch(a, a.portals@[n - 1], PATCH_LEN as int);
        assert forall|k: int| 0 <= k < list.len() implies goal_on(
            vi.grid(),
            #[trigger] list[k],
        ) by {}
        lemma_fixed_list_above(
            vi.model(),
            vi.states@,
            p,
            nu,
            list,
            list.len() as int,
            c,
        );
    }
}

/// No sum that overflows or leads out of the scope comes out below its cap on the way to
/// the field.
pub open spec fn field_safe(a: SchurArtifact, vi: ValueIterator, d: &Vec<u64>, c: Scope) -> bool {
    let f = goals(vi);
    &&& search_safe(a, vi, f, c)
    &&& forall|k: int|
        0 <= k < a.tiles@.len() ==> restoring_safe(
            a,
            vi,
            d,
            f,
            #[trigger] all_tiles(a)[k] as int,
            c,
        )
    &&& fixing_safe(
        a,
        vi.model(),
        tiles_restored(
            vi,
            one_art(&a, d),
            f,
            all_tiles(a),
            all_tiles(a).len() as int,
            vi.states@,
        ),
        a.portals@.len() as int,
        c,
    )
}

/// The field that the tiled solver restores is a field of upper bounds: on a pristine
/// map whose actions have full mass, no value of it is below any lower solution in the
/// scope that gives goals nothing, as long as no sum that overflows or leads out of the
/// scope comes out below its cap on the way.
pub proof fn law_field_is_upper_bound(
    a: SchurArtifact,
    vi: ValueIterator,
    cfg: SchurConfig,
    d: &Vec<u64>,
    field: Seq<State>,
    u: int,
    nu: Seq<int>,
    c: Scope,
)
    requires
        setting(a, vi, nu, c),
        built(a, vi, cfg, PatchAgg::Max),
        pristine(vi.states@),
        forall|i: int|
            0 <= i < nu.len() && (#[trigger] vi.states@[i]).final_state ==> nu[i] <= 0,
        is_field(a, vi, PatchAgg::Max, d, field, u),
        field_safe(a, vi, d, c),
    ensures
        above(field, nu),
{
    let f = goals(vi);
    let s = vi.states@;
    lemma_built_inside(a, vi, cfg);
    lemma_goal_list(vi, nu, s.len() as int);
    let r = choose|r: PortalDijkstra| #[trigger]
        searched(a, vi, None, PatchAgg::Max, r) && r.d@ == d@;
    assert(values_bound(a, vi, nu, d@)) by {
        let (seed, via) = choose|seed: Seq<u64>, via: Seq<i32>|
            #![trigger is_shortest(a, None, seed, via, r.d@, r.parent@, r.via_tile@)]
            is_seed(a, vi, f, None, PatchAgg::Max, a.tiles@.len() as int, seed, via)
                && is_shortest(a, None, seed, via, r.d@, r.parent@, r.via_tile@);
        assert(d@.len() == a.portals@.len());
        assert forall|q: int| 0 <= q < d@.len() && #[trigger] d@[q] < MAX_COST implies patch_below(
            vi,
            nu,
            a.portals@[q],
            d@[q] as int,
        ) by {
            law_portal_values_bound(a, vi, nu, None, r, q, c);
        }
    }
    assert(above(s, nu)) by {
        assert forall|i: int| 0 <= i < s.len() && s[i].free implies nu[i] <= (
        #[trigger] s[i]).total_cost by {
            assert(s[i].final_state || s[i].total_cost == MAX_COST);
            assert(nu[i] <= c.cap);
        }
    }
    assert(same_costs(s, s));
    let tiles = all_tiles(a);
    assert forall|k: int| 0 <= k < tiles.len() implies 0 <= #[trigger] tiles[k]
        < a.tiles@.len() by {}
    lemma_tiles_above(a, vi, nu, d, f, tiles, tiles.len() as int, s, c);
    let art = &a;
    lemma_fixed_portals_above(
        a,
        vi,
        nu,
        tiles_restored(vi, one_art(art, d), f, tiles, tiles.len() as int, s),
        a.portals@.len() as int,
        c,
    );
}

/// The goals of a field lie on the map, and `nu` gives them nothing.
pub proof fn lemma_goal_list(vi: ValueIterator, nu: Seq<int>, n: int)
    requires
        vi.wf(),
        nu.len() == vi.states@.len(),
        0 <= n <= vi.states@.len(),
        forall|i: int|
            0 <= i < nu.len() && (#[trigger] vi.states@[i]).final_state ==> nu[i] <= 0,
    ensures
        goals_on(
            vi.grid(),
            crate::solvers::schur::query::finals_of(vi.states@, n),
        ),
        zero_at(vi, nu, crate::solvers::schur::query::finals_of(vi.states@, n)),
    decreases n,
{
    if n > 0 {
        lemma_goal_list(vi, nu, n - 1);
        let s = vi.states@;
        assert(vi.grid().located_at(s[n - 1], n - 1));
        let p = crate::solvers::schur::query::finals_of(s, n - 1);
        let q = crate::solvers::schur::query::finals_of(s, n);
        assert forall|k: int| 0 <= k < q.len() implies goal_on(vi.grid(), #[trigger] q[k]) by {
            if k < p.len() {
                assert(goal_on(vi.grid(), p[k]));
                assert(q[k] == p[k]);
            }
        }
        assert forall|k: int| 0 <= k < q.len() implies nu[vi.grid().at(
            (#[trigger] q[k]).0 as int,
            q[k].1 as int,
            q[k].2 as int,
        )] <= 0 by {
            if k < p.len() {
                assert(q[k] == p[k]);
            }
        }
    }
}

/// Portals stand far enough inside the domains of their tiles.
pub proof fn lemma_built_inside(a: SchurArtifact, vi: ValueIterator, cfg: SchurConfig)
    requires
        vi.wf(),
        built(a, vi, cfg, PatchAgg::Max),
    ensures
        patches_inside(a, vi),
        crossings_of(a, vi),
{
    let g = vi.grid();
    let l = tiling(g, cfg);
    let lists = a.tiles@.map_values(|e: TileEdges| e.portals@);
    let q = all_sites(g, vi.states@, l);
    assert forall|t: int, i: int|
        0 <= t < a.tiles@.len() && 0 <= i < a.tiles@[t].portals@.len() implies patch_inside(
        a,
        vi,
        t,
        a.portals@[#[trigger] a.tiles@[t].portals@[i] as int],
    ) by {
        let id = a.tiles@[t].portals@[i];
        assert(lists[t] == a.tiles@[t].portals@);
        assert(lists[t][i] < a.portals@.len());
        assert(lists[t].contains(id));
        let p = a.portals@[id as int];
        let r = site(t, p);
        assert(q.contains(site(t, a.portals@[id as int])));
        let (v, k, j) = choose|v: bool, k: int, j: int| #[trigger]
            has_segment(l, v, k, j) && line_sites(g, vi.states@, l, v, k, j).contains(r);
        let e = segment(g, l, v, k, j);
        let pos = choose|pos: int| #[trigger]
            on_segment(g, vi.states@, e, l.spacing, pos) && segment_cell(e, pos) == (r.x, r.y);
        lemma_on_segment(g, vi.states@, e, l.spacing, pos);
        lemma_segment_inside(a, t, l, v, k, j, pos);
        assert forall|n: int| 0 <= n < PATCH_LEN && #[trigger] patch_on_map(
            vi,
            p,
            n,
        ) implies on_axis(p.ix + off_x(n) - domain_x(a, t), a.side_len()) && on_axis(
            p.iy + off_y(n) - domain_y(a, t),
            a.side_len(),
        ) by {
            assert(-1 <= off_x(n) <= 1 && -1 <= off_y(n) <= 1);
        }
    }
}

/// Portals of a segment stand on it.
proof fn lemma_on_segment(g: Grid, s: Seq<State>, e: Segment, spacing: int, pos: int)
    requires
        on_segment(g, s, e, spacing, pos),
        1 <= spacing,
    ensures
        e.lo <= pos <= e.hi,
{
    let (x, y) = choose|x: int, y: int| #[trigger]
        crate::solvers::schur::place::is_run(g, s, e, x, y)
            && crate::solvers::schur::place::on_run(x, y, spacing, pos);
    let i = choose|i: int|
        0 <= i < crate::solvers::schur::place::run_count(y - x + 1, spacing) && pos
            == #[trigger] crate::solvers::schur::place::run_position(x, y, spacing, i);
    crate::solvers::schur::place::lemma_run_position(x, y, spacing, i);
}

/// Column (row) `c` of tiles: its domain holds all within a patch of the tile and of
/// the line after it.
proof fn lemma_segment_inside(
    a: SchurArtifact,
    t: int,
    l: Tiling,
    v: bool,
    k: int,
    j: int,
    pos: int,
)
    requires
        a.tile == l.tile,
        a.tnx == l.tnx,
        1 <= l.tile,
        1 <= l.tnx,
        3 <= a.halo,
        has_segment(l, v, k, j),
        if v {
            t == j * l.tnx + k - 1 || t == j * l.tnx + k
        } else {
            t == (k - 1) * l.tnx + j || t == k * l.tnx + j
        },
        j * l.tile <= pos < (j + 1) * l.tile,
    ensures
        ({
            let (x, y) = if v {
                (k * l.tile, pos)
            } else {
                (pos, k * l.tile)
            };
            &&& 1 <= x - domain_x(a, t) < a.side_len() - 1
            &&& 1 <= y - domain_y(a, t) < a.side_len() - 1
        }),
{
    let w = l.tnx;
    let (tx, ty) = if v {
        if t == j * w + k - 1 {
            (k - 1, j)
        } else {
            (k, j)
        }
    } else {
        if t == (k - 1) * w + j {
            (j, k - 1)
        } else {
            (j, k)
        }
    };
    vstd::arithmetic::div_mod::lemma_fundamental_div_mod_converse(t, w, ty, tx);
    let tl = l.tile;
    assert((k - 1) * tl == k * tl - tl) by (nonlinear_arith);
    assert((j + 1) * tl == j * tl + tl) by (nonlinear_arith);
}

} // verus!
