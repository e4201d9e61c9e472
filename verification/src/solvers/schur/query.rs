//! From a goal to portal values: the tiles around the goal give the first values,
//! a search over crossing costs gives the rest.
use vstd::prelude::*;

use crate::grid::{on_axis, on_grid};
use crate::model::Grid;
use crate::params::MAX_COST;
use crate::solvers::displacement::larger;
use crate::solvers::schur::artifact::SchurArtifact;
use crate::solvers::schur::crossing::{base_tile, local_x, local_y, watch_list};
use crate::solvers::schur::domain::{
    domain_x, domain_y, lemma_tile_coords, lies_on, tile_grid, tile_model,
};
use crate::solvers::schur::patch::{patch_value, pinned, PatchAgg};
use crate::solvers::schur::sweep::gs_solved;
use crate::solvers::schur::tile::TileVi;
use crate::state::State;
use crate::value_iterator::ValueIterator;

verus! {

/// The goals among the first `n` states.
pub open spec fn finals_of(s: Seq<State>, n: int) -> Seq<(i32, i32, i32)>
    decreases n,
{
    if n <= 0 {
        Seq::empty()
    } else {
        let before = finals_of(s, n - 1);
        if s[n - 1].final_state {
            before.push((s[n - 1].ix, s[n - 1].iy, s[n - 1].it))
        } else {
            before
        }
    }
}

/// All goals of `vi`.
pub open spec fn goals(vi: ValueIterator) -> Seq<(i32, i32, i32)> {
    finals_of(vi.states@, vi.states@.len() as int)
}

/// Every listed goal is a state of the lattice.
pub open spec fn goals_on(g: Grid, f: Seq<(i32, i32, i32)>) -> bool {
    forall|k: int| 0 <= k < f.len() ==> goal_on(g, #[trigger] f[k])
}

/// A goal lies on the map.
pub open spec fn goal_on(g: Grid, f: (i32, i32, i32)) -> bool {
    on_grid(f.0 as int, f.1 as int, f.2 as int, g.nx, g.ny, g.nt)
}

/// The goals of a field lie on its map.
pub proof fn lemma_goals_on(g: Grid, s: Seq<State>, n: int)
    requires
        g.located(s),
        0 <= n <= s.len(),
    ensures
        goals_on(g, finals_of(s, n)),
    decreases n,
{
    if n > 0 {
        lemma_goals_on(g, s, n - 1);
        assert(g.located_at(s[n - 1], n - 1));
        let before = finals_of(s, n - 1);
        let now = finals_of(s, n);
        assert forall|k: int| 0 <= k < now.len() implies goal_on(g, #[trigger] now[k]) by {
            if k < before.len() {
                assert(goal_on(g, before[k]));
            }
        }
    }
}

/// The goals of `vi`, in the order of their states.
pub fn collect_finals(vi: &ValueIterator) -> (r: Vec<(i32, i32, i32)>)
    requires
        vi.wf(),
    ensures
        r@ == goals(*vi),
        goals_on(vi.grid(), r@),
{
    let mut out: Vec<(i32, i32, i32)> = Vec::new();
    let mut k: usize = 0;
    while k < vi.states.len()
        invariant
            k <= vi.states.len(),
            out@ == finals_of(vi.states@, k as int),
        decreases vi.states.len() - k,
    {
        let s: &State = &vi.states[k];
        if s.final_state {
            out.push((s.ix, s.iy, s.it));
        }
        k += 1;
    }
    proof {
        lemma_goals_on(vi.grid(), vi.states@, vi.states@.len() as int);
    }
    out
}

/// First of the tiles whose domains hold the column (row) `v`.
pub open spec fn first_covering(a: SchurArtifact, v: int) -> int {
    larger((v - a.halo) / (a.tile as int), 0)
}

/// Last of the tiles whose domains hold the column (row) `v`, among `n`.
pub open spec fn last_covering(a: SchurArtifact, v: int, n: int) -> int {
    let k = (v + a.halo) / (a.tile as int);
    if k <= n - 1 {
        k
    } else {
        n - 1
    }
}

/// The tiles that cover a column (row) are exactly those whose domains hold it.
pub proof fn law_covering_is_exact(a: SchurArtifact, v: int, n: int, k: int)
    requires
        1 <= a.tile,
        0 <= a.halo,
        0 <= k < n,
    ensures
        on_axis(v - a.origin(k), a.side_len()) <==> first_covering(a, v) <= k <= last_covering(
            a,
            v,
            n,
        ),
{
    let t = a.tile as int;
    let lo = (v - a.halo) / t;
    let hi = (v + a.halo) / t;
    vstd::arithmetic::div_mod::lemma_fundamental_div_mod(v - a.halo, t);
    vstd::arithmetic::div_mod::lemma_mod_bound(v - a.halo, t);
    vstd::arithmetic::div_mod::lemma_fundamental_div_mod(v + a.halo, t);
    vstd::arithmetic::div_mod::lemma_mod_bound(v + a.halo, t);
    let r1 = (v - a.halo) % t;
    let r2 = (v + a.halo) % t;
    assert(lo <= k <==> v - a.halo < k * t + t) by (nonlinear_arith)
        requires
            v - a.halo == t * lo + r1,
            0 <= r1 < t,
    ;
    assert(k <= hi <==> k * t <= v + a.halo) by (nonlinear_arith)
        requires
            v + a.halo == t * hi + r2,
            0 <= r2 < t,
    ;
}

/// Quotient rounded down.
fn floor_div(a: i32, b: i32) -> (r: i32)
    requires
        1 <= b,
        i32::MIN < a,
    ensures
        r == a as int / b as int,
{
    if a >= 0 {
        return a / b;
    }
    let n: i64 = -(a as i64);
    let q: i64 = (n + b as i64 - 1) / b as i64;
    proof {
        let (ai, bi, qi) = (a as int, b as int, q as int);
        vstd::arithmetic::div_mod::lemma_fundamental_div_mod(n + bi - 1, bi);
        vstd::arithmetic::div_mod::lemma_mod_bound(n + bi - 1, bi);
        let r = (n + bi - 1) % bi;
        assert(-qi * bi + (bi - 1 - r) == ai) by (nonlinear_arith)
            requires
                n + bi - 1 == bi * qi + r,
                n == -ai,
        ;
        vstd::arithmetic::div_mod::lemma_fundamental_div_mod_converse(ai, bi, -qi, bi - 1 - r);
        assert(0 <= qi <= n) by (nonlinear_arith)
            requires
                n + bi - 1 == bi * qi + r,
                0 <= r < bi,
                1 <= bi,
                1 <= n,
        ;
    }
    (-q) as i32
}

/// The tiles whose domains hold the cell `(gx, gy)`: columns `r.0..=r.1`, rows
/// `r.2..=r.3`.
pub fn tiles_covering(art: &SchurArtifact, gx: i32, gy: i32) -> (r: (i32, i32, i32, i32))
    requires
        1 <= art.tile,
        0 <= art.halo,
        1 <= art.tnx,
        1 <= art.tny,
        0 <= gx <= i32::MAX - art.halo,
        0 <= gy <= i32::MAX - art.halo,
    ensures
        r.0 == first_covering(*art, gx as int),
        r.1 == last_covering(*art, gx as int, art.tnx as int),
        r.2 == first_covering(*art, gy as int),
        r.3 == last_covering(*art, gy as int, art.tny as int),
        forall|k: int|
            0 <= k < art.tnx ==> (on_axis(gx - #[trigger] art.origin(k), art.side_len()) <==> r.0
                <= k <= r.1),
        forall|k: int|
            0 <= k < art.tny ==> (on_axis(gy - #[trigger] art.origin(k), art.side_len()) <==> r.2
                <= k <= r.3),
{
    proof {
        assert forall|k: int| 0 <= k < art.tnx implies (on_axis(
            gx - #[trigger] art.origin(k),
            art.side_len(),
        ) <==> first_covering(*art, gx as int) <= k <= last_covering(
            *art,
            gx as int,
            art.tnx as int,
        )) by {
            law_covering_is_exact(*art, gx as int, art.tnx as int, k);
        }
        assert forall|k: int| 0 <= k < art.tny implies (on_axis(
            gy - #[trigger] art.origin(k),
            art.side_len(),
        ) <==> first_covering(*art, gy as int) <= k <= last_covering(
            *art,
            gy as int,
            art.tny as int,
        )) by {
            law_covering_is_exact(*art, gy as int, art.tny as int, k);
        }
    }
    let mut x0: i32 = floor_div(gx - art.halo, art.tile);
    if x0 < 0 {
        x0 = 0;
    }
    let mut x1: i32 = floor_div(gx + art.halo, art.tile);
    if x1 > art.tnx - 1 {
        x1 = art.tnx - 1;
    }
    let mut y0: i32 = floor_div(gy - art.halo, art.tile);
    if y0 < 0 {
        y0 = 0;
    }
    let mut y1: i32 = floor_div(gy + art.halo, art.tile);
    if y1 > art.tny - 1 {
        y1 = art.tny - 1;
    }
    (x0, x1, y0, y1)
}

/// The goal `f` lies in the domain of tile `t`.
pub open spec fn in_domain(a: SchurArtifact, t: int, f: (i32, i32, i32)) -> bool {
    on_axis(f.0 - domain_x(a, t), a.side_len()) && on_axis(f.1 - domain_y(a, t), a.side_len())
}

/// One of the goals lies in the domain of tile `t`.
pub open spec fn has_goal(a: SchurArtifact, t: int, f: Seq<(i32, i32, i32)>) -> bool {
    exists|k: int| 0 <= k < f.len() && in_domain(a, t, #[trigger] f[k])
}

/// The tile's states after the first `n` goals have been pinned at zero.
pub open spec fn with_goals(
    a: SchurArtifact,
    t: int,
    s: Seq<State>,
    f: Seq<(i32, i32, i32)>,
    n: int,
) -> Seq<State>
    decreases n,
{
    if n <= 0 {
        s
    } else {
        let p = with_goals(a, t, s, f, n - 1);
        if in_domain(a, t, f[n - 1]) {
            let i = tile_grid(a).at(
                f[n - 1].0 - domain_x(a, t),
                f[n - 1].1 - domain_y(a, t),
                f[n - 1].2 as int,
            );
            p.update(i, pinned(p[i], 0))
        } else {
            p
        }
    }
}

/// Lays a tile over the map and pins the goals in its domain; returns whether there
/// was one.
pub(crate) fn lay_goals(
    src: &ValueIterator,
    art: &SchurArtifact,
    finals: &Vec<(i32, i32, i32)>,
    tv: &mut TileVi,
    t: usize,
) -> (r: bool)
    requires
        src.wf(),
        lies_on(*art, *src),
        goals_on(src.grid(), finals@),
        t < art.tnx * art.tny,
        old(tv).wf(),
        old(tv).side == art.side_len(),
        old(tv).nt == art.nt,
    ensures
        final(tv).wf(),
        final(tv).side == old(tv).side,
        final(tv).nt == old(tv).nt,
        final(tv).states@ == with_goals(
            *art,
            t as int,
            base_tile(*art, *src, t as int),
            finals@,
            finals@.len() as int,
        ),
        r == has_goal(*art, t as int, finals@),
{
    proof {
        lemma_tile_coords(*art, *src, t as int);
    }
    let (x0, y0) = art.origin_of(t, Ghost(*src));
    let side: i32 = tv.side;
    tv.hydrate(src, x0, y0);
    let ghost base = base_tile(*art, *src, t as int);
    assert(tv.grid() == tile_grid(*art));
    let mut any: bool = false;
    let mut k: usize = 0;
    while k < finals.len()
        invariant
            k <= finals.len(),
            lies_on(*art, *src),
            goals_on(src.grid(), finals@),
            tv.wf(),
            tv.side == old(tv).side,
            tv.nt == old(tv).nt,
            tv.nt == art.nt,
            side == tv.side,
            side == art.side_len(),
            tv.grid() == tile_grid(*art),
            x0 == domain_x(*art, t as int),
            y0 == domain_y(*art, t as int),
            -art.halo <= x0 <= art.tnx * art.tile,
            -art.halo <= y0 <= art.tny * art.tile,
            tv.states@ == with_goals(*art, t as int, base, finals@, k as int),
            any == exists|j: int| 0 <= j < k && in_domain(*art, t as int, #[trigger] finals@[j]),
        decreases finals.len() - k,
    {
        let (gx, gy, it) = finals[k];
        assert(goal_on(src.grid(), finals@[k as int]));
        let (lx, ly) = (gx - x0, gy - y0);
        if lx >= 0 && lx < side && ly >= 0 && ly < side {
            tv.pin(lx, ly, it, 0);
            any = true;
            assert(in_domain(*art, t as int, finals@[k as int]));
        }
        k += 1;
    }
    any
}

/// Tile `t` may be used.
pub open spec fn usable(mask: Option<Seq<bool>>, t: int) -> bool {
    match mask {
        None => true,
        Some(m) => m[t],
    }
}

pub open spec fn mask_view(mask: Option<&Vec<bool>>) -> Option<Seq<bool>> {
    match mask {
        None => None,
        Some(m) => Some(m@),
    }
}

/// Tile `t` gives first values: it may be used, has portals, and a goal in its
/// domain.
pub open spec fn is_seed_tile(
    a: SchurArtifact,
    f: Seq<(i32, i32, i32)>,
    mask: Option<Seq<bool>>,
    t: int,
) -> bool {
    &&& 0 <= t < a.tiles@.len()
    &&& a.tiles@[t].portals@.len() > 0
    &&& usable(mask, t)
    &&& has_goal(a, t, f)
}

/// Tile `t` solved for the goals in its domain.
pub open spec fn goal_solved(
    a: SchurArtifact,
    vi: ValueIterator,
    f: Seq<(i32, i32, i32)>,
    t: int,
) -> Seq<State> {
    let start = with_goals(a, t, base_tile(a, vi, t), f, f.len() as int);
    let list = a.tiles@[t].portals@;
    let watch = watch_list(a, start, t, list, list.len() as int);
    gs_solved(tile_model(a, vi), Some(watch), start).states
}

/// The value that the goals in the domain of tile `t` give the portal `p`.
pub open spec fn seed_value(
    a: SchurArtifact,
    vi: ValueIterator,
    f: Seq<(i32, i32, i32)>,
    agg: PatchAgg,
    t: int,
    p: u32,
) -> u64 {
    let c = a.portals@[p as int];
    patch_value(
        tile_grid(a),
        goal_solved(a, vi, f, t),
        local_x(a, t, c),
        local_y(a, t, c),
        c.it as int,
        agg,
    )
}

/// The portal `p` has its first value `v` from one of the first `n` tiles, `t`.
pub open spec fn seeded_at(
    a: SchurArtifact,
    vi: ValueIterator,
    f: Seq<(i32, i32, i32)>,
    mask: Option<Seq<bool>>,
    agg: PatchAgg,
    n: int,
    p: int,
    v: u64,
    t: int,
) -> bool {
    &&& 0 <= t < n
    &&& is_seed_tile(a, f, mask, t)
    &&& a.tiles@[t].portals@.contains(p as u32)
    &&& v == seed_value(a, vi, f, agg, t, p as u32)
    &&& v < MAX_COST
}

/// `d` holds for each portal the least value that the first `n` tiles give it, and
/// `via` a tile that gives it; `MAX_COST` and `-1` where none does.
pub open spec fn is_seed(
    a: SchurArtifact,
    vi: ValueIterator,
    f: Seq<(i32, i32, i32)>,
    mask: Option<Seq<bool>>,
    agg: PatchAgg,
    n: int,
    d: Seq<u64>,
    via: Seq<i32>,
) -> bool {
    &&& d.len() == a.portals@.len()
    &&& via.len() == a.portals@.len()
    &&& forall|t: int, i: int|
        0 <= t < n && is_seed_tile(a, f, mask, t) && 0 <= i < a.tiles@[t].portals@.len()
            ==> d[#[trigger] a.tiles@[t].portals@[i] as int] <= seed_value(
            a,
            vi,
            f,
            agg,
            t,
            a.tiles@[t].portals@[i],
        )
    &&& forall|p: int|
        0 <= p < d.len() ==> (#[trigger] d[p] == MAX_COST && via[p] == -1) || seeded_at(
            a,
            vi,
            f,
            mask,
            agg,
            n,
            p,
            d[p],
            via[p] as int,
        )
}

/// Cost of crossing tile `t` from its `i`-th to its `j`-th portal.
pub open spec fn cross_cost(a: SchurArtifact, t: int, i: int, j: int) -> u64 {
    a.tiles@[t].w@[i * (a.tiles@[t].portals@.len() as int) + j]
}

/// Tile `t` can be crossed from its `i`-th to its `j`-th portal.
pub open spec fn is_edge(
    a: SchurArtifact,
    mask: Option<Seq<bool>>,
    t: int,
    i: int,
    j: int,
) -> bool {
    &&& 0 <= t < a.tiles@.len()
    &&& usable(mask, t)
    &&& 0 <= i < a.tiles@[t].portals@.len()
    &&& 0 <= j < a.tiles@[t].portals@.len()
    &&& cross_cost(a, t, i, j) < MAX_COST
}

/// The portal at the `i`-th place of tile `t`.
pub open spec fn slot(a: SchurArtifact, t: int, i: int) -> int {
    a.tiles@[t].portals@[i] as int
}

/// A walk of `k` crossings leads from the portal `q` to a first value, at the total
/// cost `v`.
pub open spec fn walk(
    a: SchurArtifact,
    mask: Option<Seq<bool>>,
    seed: Seq<u64>,
    q: int,
    v: int,
    k: nat,
) -> bool
    decreases k,
{
    if k == 0 {
        v == seed[q]
    } else {
        exists|t: int, i: int, j: int| #[trigger]
            is_edge(a, mask, t, i, j) && slot(a, t, i) == q && walk(
                a,
                mask,
                seed,
                slot(a, t, j),
                v - cross_cost(a, t, i, j),
                (k - 1) as nat,
            )
    }
}

/// Some walk from the portal `q` costs `v`.
pub open spec fn has_walk(
    a: SchurArtifact,
    mask: Option<Seq<bool>>,
    seed: Seq<u64>,
    q: int,
    v: int,
) -> bool {
    exists|k: nat| #[trigger] walk(a, mask, seed, q, v, k)
}

/// The portal `q` has its value from crossing the tile `t` to the portal `p`.
pub open spec fn comes_from(
    a: SchurArtifact,
    mask: Option<Seq<bool>>,
    d: Seq<u64>,
    q: int,
    p: int,
    t: int,
) -> bool {
    exists|i: int, j: int| #[trigger]
        is_edge(a, mask, t, i, j) && slot(a, t, i) == q && slot(a, t, j) == p && d[q]
            == cross_cost(a, t, i, j) + d[p]
}

/// `d` holds the least cost of any walk from each portal, `MAX_COST` where there is
/// none below that; `parent` and `via` tell, for each portal with a value, whether
/// it is a first value (`u32::MAX`, and the tile that gave it) or which crossing it
/// comes from.
pub open spec fn is_shortest(
    a: SchurArtifact,
    mask: Option<Seq<bool>>,
    seed: Seq<u64>,
    seed_via: Seq<i32>,
    d: Seq<u64>,
    parent: Seq<u32>,
    via: Seq<i32>,
) -> bool {
    &&& d.len() == a.portals@.len()
    &&& parent.len() == a.portals@.len()
    &&& via.len() == a.portals@.len()
    &&& forall|q: int| 0 <= q < d.len() ==> #[trigger] d[q] <= MAX_COST
    &&& forall|q: int|
        0 <= q < d.len() && #[trigger] d[q] < MAX_COST ==> has_walk(a, mask, seed, q, d[q] as int)
    &&& forall|q: int, v: int, k: nat|
        0 <= q < d.len() && #[trigger] walk(a, mask, seed, q, v, k) ==> d[q] <= v || v >= MAX_COST
    &&& forall|q: int|
        0 <= q < d.len() ==> if #[trigger] parent[q] == u32::MAX {
            d[q] == seed[q] && via[q] == seed_via[q]
        } else {
            &&& parent[q] < d.len()
            &&& d[q] < MAX_COST
            &&& comes_from(a, mask, d, q, parent[q] as int, via[q] as int)
        }
}

/// One of the first `n` states is a goal at `f`.
pub open spec fn has_final(s: Seq<State>, n: int, f: (i32, i32, i32)) -> bool {
    exists|i: int|
        0 <= i < n && (#[trigger] s[i]).final_state && (s[i].ix, s[i].iy, s[i].it) == f
}

/// The goals of a map are listed: each goal state and no other.
pub proof fn law_goals_are_listed(s: Seq<State>, n: int)
    requires
        0 <= n <= s.len(),
    ensures
        forall|k: int|
            0 <= k < finals_of(s, n).len() ==> has_final(s, n, #[trigger] finals_of(s, n)[k]),
        forall|i: int|
            0 <= i < n && (#[trigger] s[i]).final_state ==> finals_of(s, n).contains(
                (s[i].ix, s[i].iy, s[i].it),
            ),
    decreases n,
{
    if n > 0 {
        law_goals_are_listed(s, n - 1);
        let (p, q) = (finals_of(s, n - 1), finals_of(s, n));
        assert forall|k: int| 0 <= k < q.len() implies has_final(s, n, #[trigger] q[k]) by {
            if k < p.len() {
                assert(p[k] == q[k]);
                assert(has_final(s, n - 1, p[k]));
                let i = choose|i: int|
                    0 <= i < n - 1 && (#[trigger] s[i]).final_state && (s[i].ix, s[i].iy, s[i].it)
                        == p[k];
                assert(s[i].final_state);
            } else {
                assert(s[n - 1].final_state);
            }
        }
        assert forall|i: int| 0 <= i < n && (#[trigger] s[i]).final_state implies q.contains(
            (s[i].ix, s[i].iy, s[i].it),
        ) by {
            let v = (s[i].ix, s[i].iy, s[i].it);
            if i < n - 1 {
                let k = choose|k: int| 0 <= k < p.len() && p[k] == v;
                assert(q[k] == v);
            } else {
                assert(q[p.len() as int] == v);
            }
        }
    }
}

/// The goals in a tile's domain become goals of the tile that cost nothing, and every other
/// state of the tile stays.
pub proof fn law_tile_gets_its_goals(
    a: SchurArtifact,
    t: int,
    s: Seq<State>,
    f: Seq<(i32, i32, i32)>,
    n: int,
    i: int,
)
    requires
        tile_grid(a).wf(),
        s.len() == tile_grid(a).len(),
        forall|k: int| 0 <= k < f.len() ==> 0 <= (#[trigger] f[k]).2 < a.nt,
        0 <= n <= f.len(),
        0 <= i < s.len(),
    ensures
        with_goals(a, t, s, f, n).len() == s.len(),
        ({
            let new = with_goals(a, t, s, f, n)[i];
            if goal_here(a, t, f, n, i) {
                new.final_state && new.total_cost == 0 && new == (State {
                    final_state: true,
                    total_cost: 0,
                    optimal_action: None,
                    ..s[i]
                })
            } else {
                new == s[i]
            }
        }),
    decreases n,
{
    if n > 0 {
        law_tile_gets_its_goals(a, t, s, f, n - 1, i);
        let p = with_goals(a, t, s, f, n - 1);
        let j = tile_grid(a).at(
            f[n - 1].0 - domain_x(a, t),
            f[n - 1].1 - domain_y(a, t),
            f[n - 1].2 as int,
        );
        let g = tile_grid(a);
        assert(0 <= f[n - 1].2 < a.nt);
        if in_domain(a, t, f[n - 1]) {
            crate::grid::lemma_index_bound(
                f[n - 1].0 - domain_x(a, t),
                f[n - 1].1 - domain_y(a, t),
                f[n - 1].2 as int,
                g.nx,
                g.ny,
                g.nt,
            );
        }
        if in_domain(a, t, f[n - 1]) && j == i {
            assert(goal_here(a, t, f, n, i));
        } else if goal_here(a, t, f, n - 1, i) {
            let k = choose|k: int|
                0 <= k < n - 1 && in_domain(a, t, #[trigger] f[k]) && tile_grid(a).at(
                    f[k].0 - domain_x(a, t),
                    f[k].1 - domain_y(a, t),
                    f[k].2 as int,
                ) == i;
            assert(in_domain(a, t, f[k]));
        }
    }
}

/// One of the first `n` goals lies at the place `i` of the tile.
pub open spec fn goal_here(
    a: SchurArtifact,
    t: int,
    f: Seq<(i32, i32, i32)>,
    n: int,
    i: int,
) -> bool {
    exists|k: int|
        0 <= k < n && in_domain(a, t, #[trigger] f[k]) && tile_grid(a).at(
            f[k].0 - domain_x(a, t),
            f[k].1 - domain_y(a, t),
            f[k].2 as int,
        ) == i
}

} // verus!
