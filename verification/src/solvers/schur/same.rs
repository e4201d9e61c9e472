//! Artifacts that hold the same do the same: portal values, restored tiles and solves depend
//! on what an artifact holds, and on nothing else.
use vstd::prelude::*;

use crate::params::MAX_COST;
use crate::solvers::frontier2d::{law_solve_is_determined, solved};
use crate::solvers::observe::{Log, SolveOutcome};
use crate::solvers::schur::artifact::{Portal, SchurArtifact, SchurConfig};
use crate::solvers::schur::crossing::{base_tile, built, watch_list};
use crate::solvers::schur::domain::{
    domain_x, domain_y, fits, map_patch, tile_grid, tile_model,
};
use crate::solvers::schur::fix::fixed_portals;
use crate::solvers::schur::laws::law_builds_are_equal;
use crate::solvers::schur::materialize::{
    any_valued, has_pins, has_valued, pinned_tile, solution, with_all_portals, with_portals,
};
use crate::solvers::schur::merge::tile_merged;
use crate::solvers::schur::patch::{PatchAgg, PATCH_LEN};
use crate::solvers::schur::query::{
    comes_from, cross_cost, goal_solved, goals, has_goal, has_walk, in_domain, is_edge, is_seed,
    is_seed_tile, is_shortest, seed_value, seeded_at, slot, walk, with_goals,
};
use crate::solvers::schur::restore::{one_art, tile_restored, tiles_restored, tiles_updates};
use crate::solvers::schur::search::{portal_values, searched, PortalDijkstra};
use crate::solvers::schur::solve::{
    all_tiles, is_field, pristine, solved_with, swept_from, tiled_solve, upper_bounds,
};
use crate::model::Model;
use crate::state::State;
use crate::value_iterator::ValueIterator;

verus! {

/// What artifacts that hold the same have in common.
proof fn lemma_same_parts(a: SchurArtifact, b: SchurArtifact)
    requires
        a@ == b@,
    ensures
        a.tile == b.tile,
        a.halo == b.halo,
        a.nx == b.nx,
        a.ny == b.ny,
        a.nt == b.nt,
        a.tnx == b.tnx,
        a.tny == b.tny,
        a.portals@ == b.portals@,
        a.tiles@.len() == b.tiles@.len(),
        tile_grid(a) == tile_grid(b),
        forall|t: int|
            0 <= t < a.tiles@.len() ==> (#[trigger] a.tiles@[t]).portals@ == b.tiles@[t].portals@
                && a.tiles@[t].w@ == b.tiles@[t].w@,
        forall|t: int| #[trigger] domain_x(a, t) == domain_x(b, t),
        forall|t: int| #[trigger] domain_y(a, t) == domain_y(b, t),
{
    assert(a@.tiles.len() == a.tiles@.len() && b@.tiles.len() == b.tiles@.len());
    assert forall|t: int| 0 <= t < a.tiles@.len() implies (#[trigger] a.tiles@[t]).portals@
        == b.tiles@[t].portals@ && a.tiles@[t].w@ == b.tiles@[t].w@ by {
        assert(a@.tiles[t] == a.tiles@[t]@);
        assert(b@.tiles[t] == b.tiles@[t]@);
    }
}

proof fn lemma_same_goals(
    a: SchurArtifact,
    b: SchurArtifact,
    t: int,
    s: Seq<State>,
    f: Seq<(i32, i32, i32)>,
    n: int,
)
    requires
        a@ == b@,
    ensures
        with_goals(a, t, s, f, n) == with_goals(b, t, s, f, n),
    decreases n,
{
    lemma_same_parts(a, b);
    if n > 0 {
        lemma_same_goals(a, b, t, s, f, n - 1);
        assert(domain_x(a, t) == domain_x(b, t) && domain_y(a, t) == domain_y(b, t));
    }
}

proof fn lemma_same_has_goal(
    a: SchurArtifact,
    b: SchurArtifact,
    t: int,
    f: Seq<(i32, i32, i32)>,
)
    requires
        a@ == b@,
        has_goal(a, t, f),
    ensures
        has_goal(b, t, f),
{
    lemma_same_parts(a, b);
    let k = choose|k: int| 0 <= k < f.len() && in_domain(a, t, #[trigger] f[k]);
    assert(domain_x(a, t) == domain_x(b, t) && domain_y(a, t) == domain_y(b, t));
    assert(in_domain(b, t, f[k]));
}

proof fn lemma_same_pins(
    a: SchurArtifact,
    b: SchurArtifact,
    d: Seq<u64>,
    t: int,
    s: Seq<State>,
    n: int,
)
    requires
        a@ == b@,
        0 <= t < a.tiles@.len(),
    ensures
        with_portals(a, d, t, s, n) == with_portals(b, d, t, s, n),
    decreases n,
{
    lemma_same_parts(a, b);
    if n > 0 {
        lemma_same_pins(a, b, d, t, s, n - 1);
        assert(a.tiles@[t].portals@ == b.tiles@[t].portals@);
        assert(domain_x(a, t) == domain_x(b, t) && domain_y(a, t) == domain_y(b, t));
    }
}

/// A tile is restored in the same way.
proof fn lemma_same_solution(
    vi: ValueIterator,
    a: &SchurArtifact,
    b: &SchurArtifact,
    d: &Vec<u64>,
    e: &Vec<u64>,
    f: Seq<(i32, i32, i32)>,
    t: int,
)
    requires
        a@ == b@,
        d@ == e@,
        0 <= t < a.tiles@.len(),
    ensures
        solution(vi, one_art(a, d), f, t) == solution(vi, one_art(b, e), f, t),
        has_pins(one_art(a, d), f, t) == has_pins(one_art(b, e), f, t),
{
    lemma_same_parts(*a, *b);
    let (x, y) = (one_art(a, d), one_art(b, e));
    assert(domain_x(*a, t) == domain_x(*b, t) && domain_y(*a, t) == domain_y(*b, t));
    assert(base_tile(*a, vi, t) == base_tile(*b, vi, t));
    let base = base_tile(*a, vi, t);
    lemma_same_goals(*a, *b, t, base, f, f.len() as int);
    let s1 = with_goals(*a, t, base, f, f.len() as int);
    assert(a.tiles@[t].portals@ == b.tiles@[t].portals@);
    let n = a.tiles@[t].portals@.len() as int;
    lemma_same_pins(*a, *b, d@, t, s1, n);
    assert(with_all_portals(x, t, s1, 0) == s1 && with_all_portals(y, t, s1, 0) == s1);
    assert(x[0] == (a, d) && y[0] == (b, e));
    assert(with_all_portals(x, t, s1, 1) == with_portals(*a, d@, t, s1, n));
    assert(with_all_portals(y, t, s1, 1) == with_portals(*b, e@, t, s1, n));
    assert(pinned_tile(vi, x, f, t) == pinned_tile(vi, y, f, t));
    assert(tile_model(*a, vi) == tile_model(*b, vi));
    if has_pins(x, f, t) {
        lemma_same_has_pins(a, b, d, e, f, t);
    }
    if has_pins(y, f, t) {
        lemma_same_has_pins(b, a, e, d, f, t);
    }
}

proof fn lemma_same_has_pins(
    a: &SchurArtifact,
    b: &SchurArtifact,
    d: &Vec<u64>,
    e: &Vec<u64>,
    f: Seq<(i32, i32, i32)>,
    t: int,
)
    requires
        a@ == b@,
        d@ == e@,
        0 <= t < a.tiles@.len(),
        has_pins(one_art(a, d), f, t),
    ensures
        has_pins(one_art(b, e), f, t),
{
    lemma_same_parts(*a, *b);
    let (x, y) = (one_art(a, d), one_art(b, e));
    assert(x[0] == (a, d) && y[0] == (b, e));
    if has_goal(*a, t, f) {
        lemma_same_has_goal(*a, *b, t, f);
    } else {
        assert(any_valued(x, t, 1));
        let n = a.tiles@[t].portals@.len() as int;
        assert(has_valued(*x[0].0, x[0].1@, t, x[0].0.tiles@[t].portals@.len() as int));
        let i = choose|i: int|
            0 <= i < n && d@[(#[trigger] a.tiles@[t].portals@[i]) as int] < MAX_COST;
        assert(a.tiles@[t].portals@ == b.tiles@[t].portals@);
        assert(e@[b.tiles@[t].portals@[i] as int] < MAX_COST);
        assert(has_valued(*y[0].0, y[0].1@, t, y[0].0.tiles@[t].portals@.len() as int));
        assert(any_valued(y, t, 1));
    }
}

/// Tiles are restored in the same way.
proof fn lemma_same_restored(
    vi: ValueIterator,
    a: &SchurArtifact,
    b: &SchurArtifact,
    d: &Vec<u64>,
    e: &Vec<u64>,
    f: Seq<(i32, i32, i32)>,
    tiles: Seq<i32>,
    n: int,
    s: Seq<State>,
)
    requires
        a@ == b@,
        d@ == e@,
        0 <= n <= tiles.len(),
        forall|k: int| 0 <= k < tiles.len() ==> 0 <= #[trigger] tiles[k] < a.tiles@.len(),
    ensures
        tiles_restored(vi, one_art(a, d), f, tiles, n, s) == tiles_restored(
            vi,
            one_art(b, e),
            f,
            tiles,
            n,
            s,
        ),
        tiles_updates(vi, one_art(a, d), f, tiles, n) == tiles_updates(
            vi,
            one_art(b, e),
            f,
            tiles,
            n,
        ),
    decreases n,
{
    if n > 0 {
        lemma_same_restored(vi, a, b, d, e, f, tiles, n - 1, s);
        let t = tiles[n - 1] as int;
        assert(0 <= tiles[n - 1] < a.tiles@.len());
        lemma_same_solution(vi, a, b, d, e, f, t);
        lemma_same_parts(*a, *b);
        let p = tiles_restored(vi, one_art(a, d), f, tiles, n - 1, s);
        let ts = solution(vi, one_art(a, d), f, t).states;
        assert(domain_x(*a, t) == domain_x(*b, t) && domain_y(*a, t) == domain_y(*b, t));
        assert(tile_merged(*a, t, ts, p) =~= tile_merged(*b, t, ts, p));
        assert(one_art(a, d)[0] == (a, d) && one_art(b, e)[0] == (b, e));
        assert(tile_restored(vi, one_art(a, d), f, t, p) == tile_restored(
            vi,
            one_art(b, e),
            f,
            t,
            p,
        ));
    }
}

proof fn lemma_same_patch(
    a: SchurArtifact,
    b: SchurArtifact,
    p: Portal,
    n: int,
)
    requires
        a@ == b@,
    ensures
        map_patch(a, p, n) == map_patch(b, p, n),
    decreases n,
{
    lemma_same_parts(a, b);
    if n > 0 {
        lemma_same_patch(a, b, p, n - 1);
    }
}

/// Portals are fixed in the same way.
proof fn lemma_same_fixed(a: SchurArtifact, b: SchurArtifact, m: Model, s: Seq<State>, n: int)
    requires
        a@ == b@,
    ensures
        fixed_portals(a, m, s, n) == fixed_portals(b, m, s, n),
    decreases n,
{
    lemma_same_parts(a, b);
    if n > 0 {
        lemma_same_fixed(a, b, m, s, n - 1);
        lemma_same_patch(a, b, a.portals@[n - 1], PATCH_LEN as int);
    }
}

proof fn lemma_same_watch(
    a: SchurArtifact,
    b: SchurArtifact,
    s: Seq<State>,
    t: int,
    list: Seq<u32>,
    n: int,
)
    requires
        a@ == b@,
    ensures
        watch_list(a, s, t, list, n) == watch_list(b, s, t, list, n),
    decreases n,
{
    lemma_same_parts(a, b);
    if n > 0 {
        lemma_same_watch(a, b, s, t, list, n - 1);
        assert(domain_x(a, t) == domain_x(b, t) && domain_y(a, t) == domain_y(b, t));
    }
}

/// First values are the same.
proof fn lemma_same_seed_value(
    a: SchurArtifact,
    b: SchurArtifact,
    vi: ValueIterator,
    f: Seq<(i32, i32, i32)>,
    agg: PatchAgg,
    t: int,
    p: u32,
)
    requires
        a@ == b@,
        0 <= t < a.tiles@.len(),
    ensures
        seed_value(a, vi, f, agg, t, p) == seed_value(b, vi, f, agg, t, p),
{
    lemma_same_parts(a, b);
    assert(domain_x(a, t) == domain_x(b, t) && domain_y(a, t) == domain_y(b, t));
    assert(base_tile(a, vi, t) == base_tile(b, vi, t));
    lemma_same_goals(a, b, t, base_tile(a, vi, t), f, f.len() as int);
    let start = with_goals(a, t, base_tile(a, vi, t), f, f.len() as int);
    let list = a.tiles@[t].portals@;
    assert(list == b.tiles@[t].portals@);
    lemma_same_watch(a, b, start, t, list, list.len() as int);
    assert(tile_model(a, vi) == tile_model(b, vi));
    assert(goal_solved(a, vi, f, t) == goal_solved(b, vi, f, t));
}

proof fn lemma_same_seed_tile(
    a: SchurArtifact,
    b: SchurArtifact,
    f: Seq<(i32, i32, i32)>,
    mask: Option<Seq<bool>>,
    t: int,
)
    requires
        a@ == b@,
        is_seed_tile(a, f, mask, t),
    ensures
        is_seed_tile(b, f, mask, t),
{
    lemma_same_parts(a, b);
    assert(a.tiles@[t].portals@ == b.tiles@[t].portals@);
    lemma_same_has_goal(a, b, t, f);
}

/// What has the least first values of one artifact has those of the other.
proof fn lemma_same_seed(
    a: SchurArtifact,
    b: SchurArtifact,
    vi: ValueIterator,
    f: Seq<(i32, i32, i32)>,
    mask: Option<Seq<bool>>,
    agg: PatchAgg,
    d: Seq<u64>,
    via: Seq<i32>,
)
    requires
        a@ == b@,
        is_seed(a, vi, f, mask, agg, a.tiles@.len() as int, d, via),
    ensures
        is_seed(b, vi, f, mask, agg, b.tiles@.len() as int, d, via),
{
    lemma_same_parts(a, b);
    let n = a.tiles@.len() as int;
    assert forall|t: int, i: int|
        0 <= t < n && is_seed_tile(b, f, mask, t) && 0 <= i
            < b.tiles@[t].portals@.len() implies d[#[trigger] b.tiles@[t].portals@[i] as int]
        <= seed_value(b, vi, f, agg, t, b.tiles@[t].portals@[i]) by {
        lemma_same_seed_tile(b, a, f, mask, t);
        assert(a.tiles@[t].portals@ == b.tiles@[t].portals@);
        lemma_same_seed_value(a, b, vi, f, agg, t, a.tiles@[t].portals@[i]);
        assert(d[a.tiles@[t].portals@[i] as int] <= seed_value(
            a,
            vi,
            f,
            agg,
            t,
            a.tiles@[t].portals@[i],
        ));
    }
    assert forall|p: int| 0 <= p < d.len() implies (#[trigger] d[p] == MAX_COST && via[p] == -1)
        || seeded_at(b, vi, f, mask, agg, n, p, d[p], via[p] as int) by {
        if !(d[p] == MAX_COST && via[p] == -1) {
            let t = via[p] as int;
            assert(seeded_at(a, vi, f, mask, agg, n, p, d[p], t));
            lemma_same_seed_tile(a, b, f, mask, t);
            assert(a.tiles@[t].portals@ == b.tiles@[t].portals@);
            lemma_same_seed_value(a, b, vi, f, agg, t, p as u32);
        }
    }
}

proof fn lemma_same_edge(
    a: SchurArtifact,
    b: SchurArtifact,
    mask: Option<Seq<bool>>,
    t: int,
    i: int,
    j: int,
)
    requires
        a@ == b@,
        is_edge(a, mask, t, i, j),
    ensures
        is_edge(b, mask, t, i, j),
        slot(b, t, i) == slot(a, t, i),
        slot(b, t, j) == slot(a, t, j),
        cross_cost(b, t, i, j) == cross_cost(a, t, i, j),
{
    lemma_same_parts(a, b);
    assert(a.tiles@[t].portals@ == b.tiles@[t].portals@ && a.tiles@[t].w@ == b.tiles@[t].w@);
}

proof fn lemma_same_walk(
    a: SchurArtifact,
    b: SchurArtifact,
    mask: Option<Seq<bool>>,
    seed: Seq<u64>,
    q: int,
    v: int,
    k: nat,
)
    requires
        a@ == b@,
        walk(a, mask, seed, q, v, k),
    ensures
        walk(b, mask, seed, q, v, k),
    decreases k,
{
    if k > 0 {
        let (t, i, j) = choose|t: int, i: int, j: int| #[trigger]
            is_edge(a, mask, t, i, j) && slot(a, t, i) == q && walk(
                a,
                mask,
                seed,
                slot(a, t, j),
                v - cross_cost(a, t, i, j),
                (k - 1) as nat,
            );
        lemma_same_edge(a, b, mask, t, i, j);
        lemma_same_walk(
            a,
            b,
            mask,
            seed,
            slot(a, t, j),
            v - cross_cost(a, t, i, j),
            (k - 1) as nat,
        );
        assert(is_edge(b, mask, t, i, j));
    }
}

/// Shortest walks are the same.
proof fn lemma_same_shortest(
    a: SchurArtifact,
    b: SchurArtifact,
    mask: Option<Seq<bool>>,
    seed: Seq<u64>,
    seed_via: Seq<i32>,
    d: Seq<u64>,
    parent: Seq<u32>,
    via: Seq<i32>,
)
    requires
        a@ == b@,
        is_shortest(a, mask, seed, seed_via, d, parent, via),
    ensures
        is_shortest(b, mask, seed, seed_via, d, parent, via),
{
    lemma_same_parts(a, b);
    assert forall|q: int| 0 <= q < d.len() && #[trigger] d[q] < MAX_COST implies has_walk(
        b,
        mask,
        seed,
        q,
        d[q] as int,
    ) by {
        assert(has_walk(a, mask, seed, q, d[q] as int));
        let k = choose|k: nat| #[trigger] walk(a, mask, seed, q, d[q] as int, k);
        lemma_same_walk(a, b, mask, seed, q, d[q] as int, k);
    }
    assert forall|q: int, v: int, k: nat|
        0 <= q < d.len() && #[trigger] walk(b, mask, seed, q, v, k) implies d[q] <= v || v
        >= MAX_COST by {
        lemma_same_walk(b, a, mask, seed, q, v, k);
    }
    assert forall|q: int| 0 <= q < d.len() implies if #[trigger] parent[q] == u32::MAX {
        d[q] == seed[q] && via[q] == seed_via[q]
    } else {
        &&& parent[q] < d.len()
        &&& d[q] < MAX_COST
        &&& comes_from(b, mask, d, q, parent[q] as int, via[q] as int)
    } by {
        if parent[q] != u32::MAX {
            let (p, t) = (parent[q] as int, via[q] as int);
            assert(comes_from(a, mask, d, q, p, t));
            let (i, j) = choose|i: int, j: int| #[trigger]
                is_edge(a, mask, t, i, j) && slot(a, t, i) == q && slot(a, t, j) == p && d[q]
                    == cross_cost(a, t, i, j) + d[p];
            lemma_same_edge(a, b, mask, t, i, j);
        }
    }
}

/// There is only one list of least first values.
proof fn lemma_one_seed(
    a: SchurArtifact,
    vi: ValueIterator,
    mask: Option<Seq<bool>>,
    agg: PatchAgg,
    d: Seq<u64>,
    via: Seq<i32>,
    e: Seq<u64>,
    wia: Seq<i32>,
)
    requires
        fits(a, vi),
        is_seed(a, vi, goals(vi), mask, agg, a.tiles@.len() as int, d, via),
        is_seed(a, vi, goals(vi), mask, agg, a.tiles@.len() as int, e, wia),
    ensures
        e.len() == d.len(),
        forall|p: int| 0 <= p < d.len() ==> #[trigger] e[p] <= d[p],
{
    let f = goals(vi);
    let n = a.tiles@.len() as int;
    assert forall|p: int| 0 <= p < d.len() implies #[trigger] e[p] <= d[p] by {
        if d[p] == MAX_COST && via[p] == -1 {
            assert((e[p] == MAX_COST && wia[p] == -1) || seeded_at(
                a,
                vi,
                f,
                mask,
                agg,
                n,
                p,
                e[p],
                wia[p] as int,
            ));
        } else {
            let t = via[p] as int;
            assert(seeded_at(a, vi, f, mask, agg, n, p, d[p], t));
            let list = a.tiles@[t].portals@;
            let i = choose|i: int| 0 <= i < list.len() && list[i] == p as u32;
            assert(e[a.tiles@[t].portals@[i] as int] <= seed_value(
                a,
                vi,
                f,
                agg,
                t,
                a.tiles@[t].portals@[i],
            ));
        }
    }
}

/// There is only one list of least costs.
proof fn lemma_one_shortest(
    a: SchurArtifact,
    mask: Option<Seq<bool>>,
    seed: Seq<u64>,
    via: Seq<i32>,
    x: PortalDijkstra,
    wia: Seq<i32>,
    y: PortalDijkstra,
)
    requires
        is_shortest(a, mask, seed, via, x.d@, x.parent@, x.via_tile@),
        is_shortest(a, mask, seed, wia, y.d@, y.parent@, y.via_tile@),
    ensures
        x.d@.len() == y.d@.len(),
        forall|q: int| 0 <= q < x.d@.len() ==> #[trigger] y.d@[q] <= x.d@[q],
{
    assert forall|q: int| 0 <= q < x.d@.len() implies #[trigger] y.d@[q] <= x.d@[q] by {
        assert(x.d@[q] <= MAX_COST && y.d@[q] <= MAX_COST);
        if x.d@[q] < MAX_COST {
            assert(has_walk(a, mask, seed, q, x.d@[q] as int));
            let k = choose|k: nat| #[trigger] walk(a, mask, seed, q, x.d@[q] as int, k);
            assert(walk(a, mask, seed, q, x.d@[q] as int, k));
        }
    }
}

/// Portal values are a function of the map, of the artifact and of the tiles that may be
/// used.
pub proof fn law_portal_values_are_determined(
    a: SchurArtifact,
    b: SchurArtifact,
    vi: ValueIterator,
    mask: Option<Seq<bool>>,
    agg: PatchAgg,
    x: PortalDijkstra,
    y: PortalDijkstra,
)
    requires
        fits(a, vi),
        a@ == b@,
        searched(a, vi, mask, agg, x),
        searched(b, vi, mask, agg, y),
    ensures
        x.d@ == y.d@,
{
    let f = goals(vi);
    let n = a.tiles@.len() as int;
    lemma_same_parts(a, b);
    let (sx, vx) = choose|seed: Seq<u64>, via: Seq<i32>|
        #![trigger is_shortest(a, mask, seed, via, x.d@, x.parent@, x.via_tile@)]
        is_seed(a, vi, f, mask, agg, n, seed, via) && is_shortest(
            a,
            mask,
            seed,
            via,
            x.d@,
            x.parent@,
            x.via_tile@,
        );
    let (sy, vy) = choose|seed: Seq<u64>, via: Seq<i32>|
        #![trigger is_shortest(b, mask, seed, via, y.d@, y.parent@, y.via_tile@)]
        is_seed(b, vi, f, mask, agg, n, seed, via) && is_shortest(
            b,
            mask,
            seed,
            via,
            y.d@,
            y.parent@,
            y.via_tile@,
        );
    lemma_same_seed(b, a, vi, f, mask, agg, sy, vy);
    lemma_same_shortest(b, a, mask, sy, vy, y.d@, y.parent@, y.via_tile@);
    lemma_one_seed(a, vi, mask, agg, sx, vx, sy, vy);
    lemma_one_seed(a, vi, mask, agg, sy, vy, sx, vx);
    assert(sx =~= sy);
    lemma_one_shortest(a, mask, sx, vx, x, vy, y);
    lemma_one_shortest(a, mask, sx, vy, y, vx, x);
    assert(x.d@ =~= y.d@);
}

/// There is only one field of upper bounds, and one number of updates to it.
pub proof fn law_upper_bounds_are_determined(
    a: SchurArtifact,
    b: SchurArtifact,
    vi: ValueIterator,
    agg: PatchAgg,
    s: Seq<State>,
    u: int,
    t: Seq<State>,
    v: int,
)
    requires
        fits(a, vi),
        a@ == b@,
        upper_bounds(a, vi, agg, s, u),
        upper_bounds(b, vi, agg, t, v),
    ensures
        s == t,
        u == v,
{
    let d = choose|d: &Vec<u64>| #[trigger] is_field(a, vi, agg, d, s, u);
    let e = choose|e: &Vec<u64>| #[trigger] is_field(b, vi, agg, e, t, v);
    assert(portal_values(a, vi, agg, d@) && portal_values(b, vi, agg, e@));
    let x = choose|x: PortalDijkstra| #[trigger] searched(a, vi, None, agg, x) && x.d@ == d@;
    let y = choose|y: PortalDijkstra| #[trigger] searched(b, vi, None, agg, y) && y.d@ == e@;
    law_portal_values_are_determined(a, b, vi, None, agg, x, y);
    lemma_same_parts(a, b);
    let tiles = all_tiles(a);
    let n = tiles.len() as int;
    assert(all_tiles(b) == tiles);
    let f = goals(vi);
    assert(a.tiles@.len() <= i32::MAX);
    assert forall|k: int| 0 <= k < tiles.len() implies 0 <= #[trigger] tiles[k]
        < a.tiles@.len() by {}
    let (ra, rb) = (&a, &b);
    lemma_same_restored(vi, ra, rb, d, e, f, tiles, n, vi.states@);
    lemma_same_fixed(
        a,
        b,
        vi.model(),
        tiles_restored(vi, one_art(ra, d), f, tiles, n, vi.states@),
        a.portals@.len() as int,
    );
}

/// Solving a field with an artifact built for the occasion comes to the same end as building
/// one first and solving with it, where nobody interrupts.
pub proof fn law_observed_solve_is_build_and_solve(
    a: SchurArtifact,
    b: SchurArtifact,
    vi: ValueIterator,
    cfg: SchurConfig,
    agg: PatchAgg,
    max_iter: int,
    out: SolveOutcome,
    s: Seq<State>,
    out2: SolveOutcome,
    t: Seq<State>,
    la: Log,
    lb: Log,
    lc: Log,
    ld: Log,
)
    requires
        vi.wf(),
        pristine(vi.states@),
        built(a, vi, cfg, agg),
        built(b, vi, cfg, agg),
        solved_with(a, vi, agg, max_iter, out, s, false, la, lb),
        solved_with(b, vi, agg, max_iter, out2, t, false, lc, ld),
    ensures
        out == out2,
        s == t,
{
    law_builds_are_equal(a, b, vi, vi, cfg, agg);
    assert(tiled_solve(a, vi, agg, max_iter, out, s, false, la, lb));
    assert(tiled_solve(b, vi, agg, max_iter, out2, t, false, lc, ld));
    let (f, u) = choose|f: Seq<State>, u: int| #[trigger]
        upper_bounds(a, vi, agg, f, u) && solved(
            vi.model(),
            swept_from(vi, f, u),
            1,
            max_iter,
            out,
            s,
        );
    let (g, v) = choose|g: Seq<State>, v: int| #[trigger]
        upper_bounds(b, vi, agg, g, v) && solved(
            vi.model(),
            swept_from(vi, g, v),
            1,
            max_iter,
            out2,
            t,
        );
    law_upper_bounds_are_determined(a, b, vi, agg, f, u, g, v);
    law_solve_is_determined(vi.model(), swept_from(vi, f, u), 1, max_iter, out, s, out2, t);
}

} // verus!
