//! Laws of the tiled solver that relate several of its steps.
use vstd::prelude::*;

use crate::grid::lemma_index_bound;
use crate::model::Grid;
use crate::params::MAX_COST;
use crate::solvers::frontier2d::{law_solve_is_determined, seeded, solved};
use crate::solvers::observe::{Log, SolveOutcome};
use crate::solvers::schur::artifact::{SchurArtifact, SchurConfig, TileEdges};
use crate::solvers::schur::corridor::labels_ok;
use crate::solvers::schur::crossing::{built, crosses, crossing, lemma_crosses_geometry};
use crate::solvers::schur::domain::{fits, tile_model};
use crate::solvers::schur::materialize::{has_pins, solution, Valued};
use crate::solvers::schur::merge::{diff_of, merged, merged_state, offers};
use crate::solvers::schur::order::{lemma_same_stops, same_lines};
use crate::solvers::schur::patch::PatchAgg;
use crate::solvers::schur::place::{
    all_sites, free_on, has_segment, is_run, lemma_tile_start, line_sites, on_run, on_segment,
    segment, segment_cell, tiles_across, tiling, Site, Tiling,
};
use crate::solvers::schur::query::{
    comes_from, cross_cost, goals, has_walk, is_edge, is_seed, is_seed_tile, is_shortest,
    seed_value, seeded_at, slot, walk,
};
use crate::solvers::schur::restore::{lemma_same_base, same_map, tiles_restored};
use crate::solvers::schur::search::{searched, PortalDijkstra};
use crate::solvers::schur::solve::{pristine, solved_with};
use crate::state::State;
use crate::value_iterator::ValueIterator;

verus! {

/// What a search returns can be followed to the goal tile by tile.
pub proof fn law_search_gives_labels(
    a: SchurArtifact,
    vi: ValueIterator,
    mask: Option<Seq<bool>>,
    agg: PatchAgg,
    r: PortalDijkstra,
)
    requires
        fits(a, vi),
        searched(a, vi, mask, agg, r),
    ensures
        labels_ok(a, r),
{
    let f = goals(vi);
    let n = a.tiles@.len() as int;
    let (seed, via) = choose|seed: Seq<u64>, via: Seq<i32>|
        #![trigger is_shortest(a, mask, seed, via, r.d@, r.parent@, r.via_tile@)]
        is_seed(a, vi, f, mask, agg, n, seed, via) && is_shortest(
            a,
            mask,
            seed,
            via,
            r.d@,
            r.parent@,
            r.via_tile@,
        );
    assert forall|q: int| 0 <= q < a.portals@.len() implies #[trigger] r.via_tile@[q] < a.tnx
        * a.tny by {
        if r.parent@[q] == u32::MAX {
            assert((seed[q] == MAX_COST && via[q] == -1) || seeded_at(
                a,
                vi,
                f,
                mask,
                agg,
                n,
                q,
                seed[q],
                via[q] as int,
            ));
            assert(0 < a.tnx * a.tny) by (nonlinear_arith)
                requires
                    1 <= a.tnx,
                    1 <= a.tny,
            ;
        } else {
            assert(comes_from(a, mask, r.d@, q, r.parent@[q] as int, r.via_tile@[q] as int));
        }
    }
    assert forall|q: int| 0 <= q < a.portals@.len() implies #[trigger] r.parent@[q] == u32::MAX
        || r.parent@[q] < a.portals@.len() by {}
}

proof fn lemma_walk_allowed(
    a: SchurArtifact,
    seed1: Seq<u64>,
    seed2: Seq<u64>,
    mask: Option<Seq<bool>>,
    q: int,
    v: int,
    k: nat,
)
    requires
        walk(a, mask, seed1, q, v, k),
        forall|t: int|
            0 <= t < a.tiles@.len() ==> crate::solvers::schur::domain::edges_ok(
                #[trigger] a.tiles@[t],
                a.portals@.len() as int,
            ),
        0 <= q < a.portals@.len(),
        seed1.len() == a.portals@.len(),
        seed2.len() == a.portals@.len(),
        forall|p: int| 0 <= p < seed1.len() ==> #[trigger] seed2[p] <= seed1[p],
    ensures
        exists|u: int| u <= v && #[trigger] walk(a, None, seed2, q, u, k),
    decreases k,
{
    if k == 0 {
        assert(walk(a, None, seed2, q, seed2[q] as int, 0));
    } else {
        let (t, i, j) = choose|t: int, i: int, j: int| #[trigger]
            is_edge(a, mask, t, i, j) && slot(a, t, i) == q && walk(
                a,
                mask,
                seed1,
                slot(a, t, j),
                v - cross_cost(a, t, i, j),
                (k - 1) as nat,
            );
        let w = cross_cost(a, t, i, j);
        assert(crate::solvers::schur::domain::edges_ok(a.tiles@[t], a.portals@.len() as int));
        assert(a.tiles@[t].portals@[j] < a.portals@.len());
        lemma_walk_allowed(a, seed1, seed2, mask, slot(a, t, j), v - w, (k - 1) as nat);
        let u = choose|u: int| u <= v - w && #[trigger] walk(
            a,
            None,
            seed2,
            slot(a, t, j),
            u,
            (k - 1) as nat,
        );
        assert(is_edge(a, None, t, i, j));
        assert(walk(a, None, seed2, slot(a, t, j), (u + w) - w, (k - 1) as nat));
        assert(walk(a, None, seed2, q, u + w, k));
    }
}

/// Restricting a search to some tiles never lowers a portal value: what it returns is
/// still a bound.
pub proof fn law_mask_only_raises(
    a: SchurArtifact,
    vi: ValueIterator,
    mask: Option<Seq<bool>>,
    agg: PatchAgg,
    masked: PortalDijkstra,
    free: PortalDijkstra,
    q: int,
)
    requires
        fits(a, vi),
        searched(a, vi, mask, agg, masked),
        searched(a, vi, None, agg, free),
        0 <= q < a.portals@.len(),
    ensures
        free.d@[q] <= masked.d@[q],
{
    let f = goals(vi);
    let n = a.tiles@.len() as int;
    let (s1, v1) = choose|seed: Seq<u64>, via: Seq<i32>|
        #![trigger is_shortest(a, mask, seed, via, masked.d@, masked.parent@, masked.via_tile@)]
        is_seed(a, vi, f, mask, agg, n, seed, via) && is_shortest(
            a,
            mask,
            seed,
            via,
            masked.d@,
            masked.parent@,
            masked.via_tile@,
        );
    let (s2, v2) = choose|seed: Seq<u64>, via: Seq<i32>|
        #![trigger is_shortest(a, None, seed, via, free.d@, free.parent@, free.via_tile@)]
        is_seed(a, vi, f, None, agg, n, seed, via) && is_shortest(
            a,
            None,
            seed,
            via,
            free.d@,
            free.parent@,
            free.via_tile@,
        );
    assert forall|p: int| 0 <= p < s1.len() implies #[trigger] s2[p] <= s1[p] by {
        assert(s2[p] <= MAX_COST) by {
            assert((s2[p] == MAX_COST && v2[p] == -1) || seeded_at(
                a,
                vi,
                f,
                None,
                agg,
                n,
                p,
                s2[p],
                v2[p] as int,
            ));
        }
        if !(s1[p] == MAX_COST && v1[p] == -1) {
            let t = v1[p] as int;
            assert(seeded_at(a, vi, f, mask, agg, n, p, s1[p], t));
            assert(is_seed_tile(a, f, None, t));
            let list = a.tiles@[t].portals@;
            let i = choose|i: int| 0 <= i < list.len() && list[i] == p as u32;
            assert(s2[a.tiles@[t].portals@[i] as int] <= seed_value(a, vi, f, agg, t, list[i]));
        }
    }
    if masked.d@[q] < MAX_COST {
        let v = masked.d@[q] as int;
        assert(has_walk(a, mask, s1, q, v));
        let k = choose|k: nat| #[trigger] walk(a, mask, s1, q, v, k);
        lemma_walk_allowed(a, s1, s2, mask, q, v, k);
        let u = choose|u: int| u <= v && #[trigger] walk(a, None, s2, q, u, k);
        assert(free.d@[q] <= u || u >= MAX_COST);
    }
}

proof fn lemma_same_sites(g: Grid, s: Seq<State>, t: Seq<State>, l: Tiling, r: Site)
    requires
        g.wf(),
        g.nt > 0,
        g.nx > 0,
        g.ny > 0,
        s.len() == g.len(),
        t.len() == s.len(),
        forall|i: int| 0 <= i < s.len() ==> (#[trigger] t[i]).free == s[i].free,
        1 <= l.tile,
        l.tnx == tiles_across(g.nx, l.tile),
        l.tny == tiles_across(g.ny, l.tile),
        all_sites(g, s, l).contains(r),
    ensures
        all_sites(g, t, l).contains(r),
{
    let (v, k, j) = choose|v: bool, k: int, j: int| #[trigger]
        has_segment(l, v, k, j) && line_sites(g, s, l, v, k, j).contains(r);
    let e = segment(g, l, v, k, j);
    let across = if v {
        g.nx
    } else {
        g.ny
    };
    let along = if v {
        g.ny
    } else {
        g.nx
    };
    lemma_tile_start(across, l.tile, k);
    lemma_tile_start(along, l.tile, j);
    assert forall|p: int| e.lo <= p <= e.hi implies free_on(g, s, e, p) == #[trigger] free_on(
        g,
        t,
        e,
        p,
    ) by {
        let c = segment_cell(e, p);
        lemma_index_bound(c.0, c.1, 0, g.nx, g.ny, g.nt);
        assert(t[g.at(c.0, c.1, 0)].free == s[g.at(c.0, c.1, 0)].free);
    }
    let pos = choose|pos: int| #[trigger]
        on_segment(g, s, e, l.spacing, pos) && segment_cell(e, pos) == (r.x, r.y);
    let (a, b) = choose|a: int, b: int| #[trigger]
        is_run(g, s, e, a, b) && on_run(a, b, l.spacing, pos);
    assert(is_run(g, t, e, a, b)) by {
        assert forall|p: int| a <= p <= b implies #[trigger] free_on(g, t, e, p) by {
            assert(free_on(g, s, e, p));
        }
        if a != e.lo {
            assert(!free_on(g, t, e, a - 1));
        }
        if b != e.hi {
            assert(!free_on(g, t, e, b + 1));
        }
    }
    assert(on_segment(g, t, e, l.spacing, pos));
    assert(line_sites(g, t, l, v, k, j).contains(r));
}

/// An artifact does not depend on goals, values or policies: it serves every goal on
/// the same map.
pub proof fn law_artifact_serves_every_goal(
    a: SchurArtifact,
    v: ValueIterator,
    w: ValueIterator,
    cfg: SchurConfig,
    agg: PatchAgg,
)
    requires
        v.wf(),
        w.wf(),
        same_map(v, w),
        w.actions@ == v.actions@,
        w.cell_num_x == v.cell_num_x,
        w.cell_num_y == v.cell_num_y,
        w.cell_num_t == v.cell_num_t,
        built(a, v, cfg, agg),
    ensures
        built(a, w, cfg, agg),
{
    let g = v.grid();
    let l = tiling(g, cfg);
    let (s, t) = (v.states@, w.states@);
    assert(all_sites(g, s, l) =~= all_sites(g, t, l)) by {
        assert forall|r: Site| all_sites(g, s, l).contains(r) <==> all_sites(g, t, l).contains(
            r,
        ) by {
            if all_sites(g, s, l).contains(r) {
                lemma_same_sites(g, s, t, l, r);
            }
            if all_sites(g, t, l).contains(r) {
                lemma_same_sites(g, t, s, l, r);
            }
        }
    }
    assert(same_lines(g, s, t, l)) by {
        assert forall|vertical: bool, k: int, j: int, p: int|
            #![trigger free_on(g, s, segment(g, l, vertical, k, j), p)]
            has_segment(l, vertical, k, j) && segment(g, l, vertical, k, j).lo <= p <= segment(
                g,
                l,
                vertical,
                k,
                j,
            ).hi implies free_on(g, s, segment(g, l, vertical, k, j), p) == free_on(
            g,
            t,
            segment(g, l, vertical, k, j),
            p,
        ) by {
            let e = segment(g, l, vertical, k, j);
            let (across, along) = if vertical {
                (g.nx, g.ny)
            } else {
                (g.ny, g.nx)
            };
            lemma_tile_start(across, l.tile, k);
            lemma_tile_start(along, l.tile, j);
            let c = segment_cell(e, p);
            lemma_index_bound(c.0, c.1, 0, g.nx, g.ny, g.nt);
            assert(t[g.at(c.0, c.1, 0)].free == s[g.at(c.0, c.1, 0)].free);
        }
    }
    lemma_same_stops(g, s, t, l);
    assert forall|t: int| 0 <= t < a.tiles@.len() implies crosses(
        a,
        w,
        t,
        agg,
        #[trigger] a.tiles@[t],
    ) by {
        let e = a.tiles@[t];
        assert(crosses(a, v, t, agg, e));
        lemma_same_base(a, v, w, t);
        assert(tile_model(a, v) == tile_model(a, w));
        let n = e.portals@.len() as int;
        assert forall|i: int, j: int| 0 <= i < n && 0 <= j < n implies #[trigger] e.w@[i * n + j]
            == crossing(a, w, t, e.portals@, agg, i, j) by {
            assert(e.w@[i * n + j] == crossing(a, v, t, e.portals@, agg, i, j));
        }
    }
}

/// Two artifacts that are built of the same map with the same settings are the same, down to
/// the numbers of portals.
pub proof fn law_builds_are_equal(
    a: SchurArtifact,
    b: SchurArtifact,
    v: ValueIterator,
    w: ValueIterator,
    cfg: SchurConfig,
    agg: PatchAgg,
)
    requires
        v.wf(),
        w.wf(),
        same_map(v, w),
        w.actions@ == v.actions@,
        w.cell_num_x == v.cell_num_x,
        w.cell_num_y == v.cell_num_y,
        w.cell_num_t == v.cell_num_t,
        built(a, v, cfg, agg),
        built(b, w, cfg, agg),
    ensures
        a@ == b@,
{
    law_artifact_serves_every_goal(a, v, w, cfg, agg);
    let (la, lb) = (
        a.tiles@.map_values(|e: TileEdges| e.portals@),
        b.tiles@.map_values(|e: TileEdges| e.portals@),
    );
    assert(la.len() == lb.len());
    assert(a.portals@ == b.portals@ && la == lb);
    assert forall|t: int| 0 <= t < a.tiles@.len() implies #[trigger] a@.tiles[t] == b@.tiles[t] by {
        let (e, f) = (a.tiles@[t], b.tiles@[t]);
        assert(la[t] == e.portals@ && lb[t] == f.portals@);
        assert(crosses(a, w, t, agg, e));
        assert(crosses(b, w, t, agg, f));
        lemma_crosses_geometry(a, b, w, t, agg, e);
        let n = e.portals@.len() as int;
        assert forall|k: int| 0 <= k < e.w@.len() implies #[trigger] e.w@[k] == f.w@[k] by {
            vstd::arithmetic::div_mod::lemma_fundamental_div_mod(k, n);
            vstd::arithmetic::div_mod::lemma_mod_bound(k, n);
            let (i, j) = (k / n, k % n);
            assert(0 <= i < n && k == i * n + j) by (nonlinear_arith)
                requires
                    0 <= k < n * n,
                    k == n * i + j,
                    0 <= j < n,
            ;
            assert(e.w@[i * n + j] == crossing(b, w, t, e.portals@, agg, i, j));
            assert(f.w@[i * n + j] == crossing(b, w, t, f.portals@, agg, i, j));
        }
        assert(e.w@ =~= f.w@);
    }
    assert(a@.tiles =~= b@.tiles);
}

/// The smaller of two values.
pub open spec fn smaller(x: u64, y: u64) -> u64 {
    if x <= y {
        x
    } else {
        y
    }
}

/// Two offers for a state can be merged in either order: the value is the least of
/// the three.
pub proof fn law_offers_commute(s: State, v: u64, a: i8, w: u64, b: i8)
    ensures
        merged_state(merged_state(s, v, a), w, b).total_cost == merged_state(
            merged_state(s, w, b),
            v,
            a,
        ).total_cost,
        !s.final_state ==> merged_state(merged_state(s, v, a), w, b).total_cost == smaller(
            s.total_cost,
            smaller(v, w),
        ),
        s.final_state ==> merged_state(merged_state(s, v, a), w, b) == s,
{
}

/// What tile `t` has for state `i` of the map, if anything.
pub open spec fn offer_of(
    vi: ValueIterator,
    arts: Seq<Valued>,
    f: Seq<(i32, i32, i32)>,
    t: int,
    i: int,
) -> Option<u64> {
    let ts = solution(vi, arts, f, t).states;
    if has_pins(arts, f, t) && offers(*arts[0].0, t, ts, i) {
        Some(diff_of(*arts[0].0, t, ts, i).1)
    } else {
        None
    }
}

/// After tiles have been restored, a state has the least of the value it had and of all
/// that the tiles have for it; goals stay.
pub proof fn law_restored_is_least(
    vi: ValueIterator,
    arts: Seq<Valued>,
    f: Seq<(i32, i32, i32)>,
    tiles: Seq<i32>,
    n: int,
    s: Seq<State>,
    i: int,
)
    requires
        0 <= n <= tiles.len(),
        0 <= i < s.len(),
    ensures
        ({
            let r = tiles_restored(vi, arts, f, tiles, n, s);
            &&& r.len() == s.len()
            &&& r[i].final_state == s[i].final_state
            &&& s[i].final_state ==> r[i] == s[i]
            &&& r[i].total_cost <= s[i].total_cost
            &&& !s[i].final_state ==> forall|k: int|
                0 <= k < n ==> (offer_of(vi, arts, f, #[trigger] tiles[k] as int, i) matches Some(v)
                    ==> r[i].total_cost <= v)
            &&& r[i].total_cost == s[i].total_cost || exists|k: int|
                0 <= k < n && offer_of(vi, arts, f, #[trigger] tiles[k] as int, i) == Some(
                    r[i].total_cost,
                )
        }),
    decreases n,
{
    if n > 0 {
        law_restored_is_least(vi, arts, f, tiles, n - 1, s, i);
        let p = tiles_restored(vi, arts, f, tiles, n - 1, s);
        let r = tiles_restored(vi, arts, f, tiles, n, s);
        let o = offer_of(vi, arts, f, tiles[n - 1] as int, i);
        if r[i].total_cost == p[i].total_cost {
            if p[i].total_cost != s[i].total_cost {
                let k = choose|k: int|
                    0 <= k < n - 1 && offer_of(vi, arts, f, #[trigger] tiles[k] as int, i) == Some(
                        p[i].total_cost,
                    );
                assert(offer_of(vi, arts, f, tiles[k] as int, i) == Some(r[i].total_cost));
            }
        } else {
            assert(o == Some(r[i].total_cost));
        }
    }
}

/// The order in which tiles are restored does not matter for values, nor does restoring one
/// twice: two lists of the same tiles give every state the same value.
pub proof fn law_tile_order_does_not_matter(
    vi: ValueIterator,
    arts: Seq<Valued>,
    f: Seq<(i32, i32, i32)>,
    a: Seq<i32>,
    b: Seq<i32>,
    s: Seq<State>,
    i: int,
)
    requires
        forall|t: i32| #[trigger] a.contains(t) <==> b.contains(t),
        0 <= i < s.len(),
    ensures
        tiles_restored(vi, arts, f, a, a.len() as int, s)[i].total_cost == tiles_restored(
            vi,
            arts,
            f,
            b,
            b.len() as int,
            s,
        )[i].total_cost,
{
    lemma_no_more(vi, arts, f, a, b, s, i);
    lemma_no_more(vi, arts, f, b, a, s, i);
}

proof fn lemma_no_more(
    vi: ValueIterator,
    arts: Seq<Valued>,
    f: Seq<(i32, i32, i32)>,
    a: Seq<i32>,
    b: Seq<i32>,
    s: Seq<State>,
    i: int,
)
    requires
        forall|t: i32| #[trigger] b.contains(t) ==> a.contains(t),
        0 <= i < s.len(),
    ensures
        tiles_restored(vi, arts, f, a, a.len() as int, s)[i].total_cost <= tiles_restored(
            vi,
            arts,
            f,
            b,
            b.len() as int,
            s,
        )[i].total_cost,
{
    law_restored_is_least(vi, arts, f, a, a.len() as int, s, i);
    law_restored_is_least(vi, arts, f, b, b.len() as int, s, i);
    let r = tiles_restored(vi, arts, f, b, b.len() as int, s)[i];
    if r.total_cost != s[i].total_cost {
        let k = choose|k: int|
            0 <= k < b.len() && offer_of(vi, arts, f, #[trigger] b[k] as int, i) == Some(
                r.total_cost,
            );
        assert(b.contains(b[k]));
        let j = choose|j: int| 0 <= j < a.len() && a[j] == b[k];
        assert(offer_of(vi, arts, f, a[j] as int, i) == Some(r.total_cost));
    }
}

/// On a field that is not pristine the tiled solver does what planar frontiers do: where
/// nobody interrupts, the two come to the same end.
pub proof fn law_other_fields_are_swept(
    art: SchurArtifact,
    vi: ValueIterator,
    agg: PatchAgg,
    max_iter: int,
    out: SolveOutcome,
    s: Seq<State>,
    a: Log,
    b: Log,
    out2: SolveOutcome,
    t: Seq<State>,
)
    requires
        !pristine(vi.states@),
        solved_with(art, vi, agg, max_iter, out, s, false, a, b),
        solved(vi.model(), seeded(vi.model(), vi.states@), 0, max_iter, out2, t),
        !out2.interrupted(),
    ensures
        out == out2,
        s == t,
{
    law_solve_is_determined(
        vi.model(),
        seeded(vi.model(), vi.states@),
        0,
        max_iter,
        out,
        s,
        out2,
        t,
    );
}

} // verus!
