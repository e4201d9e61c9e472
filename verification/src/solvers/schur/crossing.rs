//! Computing an artifact: the crossing costs of every tile.
use vstd::prelude::*;

use crate::model::{lemma_frame_trans, lemma_upd_keeps, same_frame, Model};
use crate::solvers::displacement::{displacement, larger, reach, Axis};
use crate::solvers::schur::artifact::{Portal, SchurArtifact, SchurConfig, TileEdges, PATCH_R};
use crate::solvers::schur::domain::{
    domain_x, domain_y, edges_ok, fits, lemma_tile_coords, lemma_tile_model, lies_on, portal_on,
    tile_grid, tile_model,
};
use crate::solvers::schur::order::in_order;
use crate::solvers::schur::patch::{patch_of, patch_value, with_patch, PatchAgg, PATCH_LEN};
use crate::solvers::schur::place::{
    all_sites, halo_of, holds_sites, lemma_tiles_index, place_portals, tiling,
};
use crate::solvers::schur::sweep::{
    gs_pass, gs_run, gs_solved, lemma_visit, visit, watch_indices, TILE_MAX_ITER,
};
use crate::solvers::schur::tile::{laid_over, without_value, TileVi};
use crate::state::State;
use crate::value_iterator::ValueIterator;

verus! {

/// Tile `t` laid over the map, without values.
pub open spec fn base_tile(a: SchurArtifact, vi: ValueIterator, t: int) -> Seq<State> {
    laid_over(tile_grid(a), vi.grid(), vi.states@, domain_x(a, t), domain_y(a, t))
}

/// Column of the portal `p` in the domain of tile `t`.
pub open spec fn local_x(a: SchurArtifact, t: int, p: Portal) -> int {
    p.ix - domain_x(a, t)
}

/// Row of the portal `p` in the domain of tile `t`.
pub open spec fn local_y(a: SchurArtifact, t: int, p: Portal) -> int {
    p.iy - domain_y(a, t)
}

/// The free states of the patches of the first `n` listed portals, in the domain of
/// tile `t`.
pub open spec fn watch_list(
    a: SchurArtifact,
    s: Seq<State>,
    t: int,
    list: Seq<u32>,
    n: int,
) -> Seq<int>
    decreases n,
{
    if n <= 0 {
        Seq::empty()
    } else {
        let p = a.portals@[list[n - 1] as int];
        watch_list(a, s, t, list, n - 1) + patch_of(
            tile_grid(a),
            s,
            local_x(a, t, p),
            local_y(a, t, p),
            p.it as int,
        )
    }
}

/// The tile solved with the patch of the portal `q` as its goal.
pub open spec fn solved_for(
    a: SchurArtifact,
    vi: ValueIterator,
    t: int,
    list: Seq<u32>,
    q: Portal,
) -> Seq<State> {
    let base = base_tile(a, vi, t);
    let start = with_patch(
        base,
        PATCH_LEN as int,
        local_x(a, t, q),
        local_y(a, t, q),
        q.it as int,
        a.nt as int,
        0,
    );
    let watch = watch_list(a, base, t, list, list.len() as int);
    gs_solved(tile_model(a, vi), Some(watch), start).states
}

/// What crossing tile `t` from the `i`-th to the `j`-th of its portals costs.
pub open spec fn crossing(
    a: SchurArtifact,
    vi: ValueIterator,
    t: int,
    list: Seq<u32>,
    agg: PatchAgg,
    i: int,
    j: int,
) -> u64 {
    if i == j {
        0
    } else {
        let p = a.portals@[list[i] as int];
        let q = a.portals@[list[j] as int];
        patch_value(
            tile_grid(a),
            solved_for(a, vi, t, list, q),
            local_x(a, t, p),
            local_y(a, t, p),
            p.it as int,
            agg,
        )
    }
}

/// `e` holds the crossing costs of tile `t`.
pub open spec fn crosses(
    a: SchurArtifact,
    vi: ValueIterator,
    t: int,
    agg: PatchAgg,
    e: TileEdges,
) -> bool {
    let n = e.portals@.len() as int;
    &&& e.w@.len() == n * n
    &&& forall|i: int, j: int|
        0 <= i < n && 0 <= j < n ==> #[trigger] e.w@[i * n + j] == crossing(
            a,
            vi,
            t,
            e.portals@,
            agg,
            i,
            j,
        )
}

/// A pass changes nothing but values and policies.
pub proof fn lemma_pass_frame(m: Model, s: Seq<State>, forward: bool, k: int)
    requires
        m.wf(),
        m.grid.located(s),
        0 <= k <= m.grid.len(),
    ensures
        m.grid.located(gs_pass(m, s, forward, k).states),
        same_frame(s, gs_pass(m, s, forward, k).states),
    decreases k,
{
    if k > 0 {
        lemma_pass_frame(m, s, forward, k - 1);
        let p = gs_pass(m, s, forward, k - 1).states;
        let i = visit(m.grid, forward, k - 1);
        lemma_visit(m.grid, forward, k - 1);
        lemma_upd_keeps(m, p, i);
        lemma_frame_trans(s, p, m.upd(p, i));
    }
}

/// A tile solve changes nothing but values and policies.
pub proof fn lemma_run_frame(m: Model, watch: Option<Seq<int>>, s: Seq<State>, n: int)
    requires
        m.wf(),
        m.grid.located(s),
    ensures
        m.grid.located(gs_run(m, watch, s, n).states),
        same_frame(s, gs_run(m, watch, s, n).states),
    decreases n,
{
    if n > 0 {
        lemma_run_frame(m, watch, s, n - 1);
        let r = gs_run(m, watch, s, n - 1);
        if !r.done {
            let p = gs_pass(m, r.states, (n - 1) % 2 == 0, m.grid.len());
            lemma_pass_frame(m, r.states, (n - 1) % 2 == 0, m.grid.len());
            lemma_frame_trans(s, r.states, p.states);
        }
    }
}

/// Clearing the values of a solved tile gives back the tile as it was laid over the
/// map.
proof fn lemma_reset_base(
    m: Model,
    base: Seq<State>,
    start: Seq<State>,
    watch: Option<Seq<int>>,
    n: int,
)
    requires
        m.wf(),
        m.grid.located(start),
        start.len() == base.len(),
        forall|i: int| 0 <= i < base.len() ==> without_value(#[trigger] base[i]) == base[i],
        forall|i: int| 0 <= i < base.len() ==> without_value(#[trigger] start[i]) == base[i],
    ensures
        gs_run(m, watch, start, n).states.map_values(|s: State| without_value(s)) =~= base,
{
    lemma_run_frame(m, watch, start, n);
    let e = gs_run(m, watch, start, n).states;
    assert forall|i: int| 0 <= i < base.len() implies without_value(#[trigger] e[i]) == base[i] by {
        assert(crate::model::same_place(start[i], e[i]));
        assert(without_value(start[i]) == base[i]);
    }
}

/// A copy of a list.
fn copy_list(v: &Vec<u32>) -> (r: Vec<u32>)
    ensures
        r@ == v@,
{
    let mut out: Vec<u32> = Vec::new();
    let mut k: usize = 0;
    while k < v.len()
        invariant
            k <= v.len(),
            out@ =~= v@.take(k as int),
        decreases v.len() - k,
    {
        out.push(v[k]);
        k += 1;
    }
    out
}

/// The free states of the patches of the listed portals, in the domain of tile `t`.
pub(crate) fn watch_states(
    art: &SchurArtifact,
    tv: &TileVi,
    list: &Vec<u32>,
    t: usize,
    Ghost(vi): Ghost<ValueIterator>,
) -> (r: Vec<usize>)
    requires
        lies_on(*art, vi),
        t < art.tnx * art.tny,
        tv.wf(),
        tv.side == art.side_len(),
        tv.nt == art.nt,
        forall|i: int| 0 <= i < list@.len() ==> (#[trigger] list@[i]) < art.portals@.len(),
    ensures
        r@.map_values(|i: usize| i as int) =~= watch_list(
            *art,
            tv.states@,
            t as int,
            list@,
            list@.len() as int,
        ),
        forall|j: int| 0 <= j < r@.len() ==> (#[trigger] r@[j]) < tv.states@.len(),
{
    let (x0, y0) = art.origin_of(t, Ghost(vi));
    proof {
        lemma_tile_coords(*art, vi, t as int);
    }
    let ghost f = |i: usize| i as int;
    let mut out: Vec<usize> = Vec::new();
    assert(out@.map_values(f) =~= Seq::<int>::empty());
    let mut k: usize = 0;
    while k < list.len()
        invariant
            k <= list.len(),
            f == (|i: usize| i as int),
            lies_on(*art, vi),
            tv.wf(),
            tv.side == art.side_len(),
            tv.nt == art.nt,
            x0 == domain_x(*art, t as int),
            y0 == domain_y(*art, t as int),
            -art.halo <= x0 <= art.tnx * art.tile,
            -art.halo <= y0 <= art.tny * art.tile,
            forall|i: int| 0 <= i < list@.len() ==> (#[trigger] list@[i]) < art.portals@.len(),
            out@.map_values(f) =~= watch_list(*art, tv.states@, t as int, list@, k as int),
            forall|j: int| 0 <= j < out@.len() ==> (#[trigger] out@[j]) < tv.states@.len(),
        decreases list.len() - k,
    {
        let p: Portal = art.portals[list[k] as usize];
        assert(portal_on(vi.grid(), art.portals@[list@[k as int] as int]));
        let mut part: Vec<usize> = tv.patch_local(p.ix - x0, p.iy - y0, p.it);
        let ghost was = out@;
        let ghost add = part@;
        out.append(&mut part);
        assert(out@.map_values(f) =~= was.map_values(f) + add.map_values(f));
        assert forall|j: int| 0 <= j < out@.len() implies (#[trigger] out@[j])
            < tv.states@.len() by {
            if j < was.len() {
                assert(out@[j] == was[j]);
            } else {
                assert(out@[j] == add[j - was.len()]);
            }
        }
        k += 1;
    }
    out
}

/// The crossing costs of one tile.
pub fn tile_edges(
    src: &ValueIterator,
    art: &SchurArtifact,
    tile_portals: &Vec<Vec<u32>>,
    tv: &mut TileVi,
    t: usize,
    agg: PatchAgg,
) -> (r: TileEdges)
    requires
        src.wf(),
        lies_on(*art, *src),
        t < art.tnx * art.tny,
        t < tile_portals@.len(),
        forall|i: int|
            0 <= i < tile_portals@[t as int]@.len() ==> (#[trigger] tile_portals@[t as int]@[i])
                < art.portals@.len(),
        old(tv).wf(),
        old(tv).side == art.side_len(),
        old(tv).nt == art.nt,
    ensures
        final(tv).wf(),
        final(tv).side == old(tv).side,
        final(tv).nt == old(tv).nt,
        r.portals@ == tile_portals@[t as int]@,
        crosses(*art, *src, t as int, agg, r),
{
    let portals: Vec<u32> = copy_list(&tile_portals[t]);
    let ghost list = portals@;
    let n: usize = portals.len();
    if n == 0 {
        return TileEdges { portals, w: Vec::new() };
    }
    let ghost m = tile_model(*art, *src);
    proof {
        lemma_tile_coords(*art, *src, t as int);
    }
    let (x0, y0) = art.origin_of(t, Ghost(*src));
    tv.hydrate(src, x0, y0);
    let ghost base = base_tile(*art, *src, t as int);
    assert(tv.states@ == base);
    assert(tv.grid() == tile_grid(*art));
    let watch: Vec<usize> = watch_states(art, tv, &portals, t, Ghost(*src));
    let ghost wl = watch_list(*art, base, t as int, list, n as int);
    assert(forall|i: int| 0 <= i < base.len() ==> without_value(#[trigger] base[i]) == base[i]);
    let mut cols: Vec<Vec<u64>> = Vec::new();
    let mut j: usize = 0;
    while j < n
        invariant
            j <= n,
            n == list.len(),
            list == portals@,
            src.wf(),
            lies_on(*art, *src),
            m == tile_model(*art, *src),
            tv.wf(),
            tv.side == old(tv).side,
            tv.nt == old(tv).nt,
            tv.side == art.side_len(),
            tv.nt == art.nt,
            tv.grid() == tile_grid(*art),
            base == base_tile(*art, *src, t as int),
            base.len() == tv.states@.len(),
            tv.states@.map_values(|s: State| without_value(s)) =~= base,
            forall|i: int| 0 <= i < base.len() ==> without_value(#[trigger] base[i]) == base[i],
            wl == watch_list(*art, base, t as int, list, n as int),
            watch@.map_values(|i: usize| i as int) =~= wl,
            forall|k: int| 0 <= k < watch@.len() ==> (#[trigger] watch@[k]) < base.len(),
            x0 == domain_x(*art, t as int),
            y0 == domain_y(*art, t as int),
            -art.halo <= x0 <= art.tnx * art.tile,
            -art.halo <= y0 <= art.tny * art.tile,
            forall|i: int| 0 <= i < list.len() ==> (#[trigger] list[i]) < art.portals@.len(),
            cols@.len() == j,
            forall|c: int|
                0 <= c < j ==> (#[trigger] cols@[c])@.len() == n && forall|i: int|
                    0 <= i < n ==> #[trigger] cols@[c]@[i] == crossing(
                        *art,
                        *src,
                        t as int,
                        list,
                        agg,
                        i,
                        c,
                    ),
        decreases n - j,
    {
        let q: Portal = art.portals[portals[j] as usize];
        assert(portal_on(src.grid(), art.portals@[list[j as int] as int]));
        tv.reset_values();
        assert(tv.states@ =~= base);
        tv.pin_patch(q.ix - x0, q.iy - y0, q.it, 0);
        let ghost start = tv.states@;
        assert forall|i: int| 0 <= i < base.len() implies without_value(#[trigger] start[i])
            == base[i] by {
            assert(without_value(base[i]) == base[i]);
        }
        let ghost wo = watch_indices(Some(&watch));
        let u: u64 = tv.solve_gs(&src.actions, Some(&watch));
        proof {
            assert(wo == Some(wl));
            assert(tv.states@ == solved_for(*art, *src, t as int, list, q));
            lemma_reset_base(m, base, start, Some(wl), TILE_MAX_ITER as int);
        }
        let mut col: Vec<u64> = Vec::new();
        let mut i: usize = 0;
        while i < n
            invariant
                i <= n,
                j < n,
                n == list.len(),
                list == portals@,
                lies_on(*art, *src),
                tv.wf(),
                tv.side == art.side_len(),
                tv.nt == art.nt,
                tv.grid() == tile_grid(*art),
                q == art.portals@[list[j as int] as int],
                tv.states@ == solved_for(*art, *src, t as int, list, q),
                x0 == domain_x(*art, t as int),
                y0 == domain_y(*art, t as int),
                -art.halo <= x0 <= art.tnx * art.tile,
                -art.halo <= y0 <= art.tny * art.tile,
                forall|i: int| 0 <= i < list.len() ==> (#[trigger] list[i]) < art.portals@.len(),
                col@.len() == i,
                forall|k: int|
                    0 <= k < i ==> #[trigger] col@[k] == crossing(
                        *art,
                        *src,
                        t as int,
                        list,
                        agg,
                        k,
                        j as int,
                    ),
            decreases n - i,
        {
            let p: Portal = art.portals[portals[i] as usize];
            assert(portal_on(src.grid(), art.portals@[list[i as int] as int]));
            let v: u64 = if i == j {
                0
            } else {
                tv.patch_max(p.ix - x0, p.iy - y0, p.it, agg)
            };
            col.push(v);
            i += 1;
        }
        cols.push(col);
        j += 1;
    }
    let mut w: Vec<u64> = Vec::new();
    let mut i: usize = 0;
    assert(0 * n == 0) by (nonlinear_arith);
    while i < n
        invariant
            i <= n,
            n == list.len(),
            cols@.len() == n,
            forall|c: int|
                0 <= c < n ==> (#[trigger] cols@[c])@.len() == n && forall|i: int|
                    0 <= i < n ==> #[trigger] cols@[c]@[i] == crossing(
                        *art,
                        *src,
                        t as int,
                        list,
                        agg,
                        i,
                        c,
                    ),
            w@.len() == i * n,
            forall|r: int, c: int|
                0 <= r < i && 0 <= c < n ==> #[trigger] w@[r * n + c] == crossing(
                    *art,
                    *src,
                    t as int,
                    list,
                    agg,
                    r,
                    c,
                ),
        decreases n - i,
    {
        let mut j: usize = 0;
        while j < n
            invariant
                j <= n,
                i < n,
                n == list.len(),
                cols@.len() == n,
                forall|c: int|
                    0 <= c < n ==> (#[trigger] cols@[c])@.len() == n && forall|i: int|
                        0 <= i < n ==> #[trigger] cols@[c]@[i] == crossing(
                            *art,
                            *src,
                            t as int,
                            list,
                            agg,
                            i,
                            c,
                        ),
                w@.len() == i * n + j,
                forall|r: int, c: int|
                    0 <= r < i && 0 <= c < n ==> #[trigger] w@[r * n + c] == crossing(
                        *art,
                        *src,
                        t as int,
                        list,
                        agg,
                        r,
                        c,
                    ),
                forall|c: int|
                    0 <= c < j ==> #[trigger] w@[i * n + c] == crossing(
                        *art,
                        *src,
                        t as int,
                        list,
                        agg,
                        i as int,
                        c,
                    ),
            decreases n - j,
        {
            let ghost before = w@;
            w.push(cols[j][i]);
            assert(cols@[j as int]@[i as int] == crossing(
                *art,
                *src,
                t as int,
                list,
                agg,
                i as int,
                j as int,
            ));
            assert forall|r: int, c: int| 0 <= r < i && 0 <= c < n implies #[trigger] w@[r * n + c]
                == crossing(*art, *src, t as int, list, agg, r, c) by {
                assert(r * n + c < i * n && 0 <= r * n) by (nonlinear_arith)
                    requires
                        0 <= r,
                        r + 1 <= i,
                        0 <= c < n,
                ;
                assert(before[r * n + c] == crossing(*art, *src, t as int, list, agg, r, c));
            }
            j += 1;
        }
        proof {
            assert(i * n + n == (i + 1) * n) by (nonlinear_arith);
        }
        i += 1;
    }
    TileEdges { portals, w }
}

/// `a` is the artifact of the map of `vi` that `cfg` asks for: its portals, each
/// tile's list of them, and the crossing costs of each tile.
pub open spec fn built(
    a: SchurArtifact,
    vi: ValueIterator,
    cfg: SchurConfig,
    agg: PatchAgg,
) -> bool {
    let g = vi.grid();
    let l = tiling(g, cfg);
    &&& a.tile == l.tile
    &&& a.halo == halo_of(reach(vi.model(), Axis::X), reach(vi.model(), Axis::Y))
    &&& a.nx == g.nx
    &&& a.ny == g.ny
    &&& a.nt == g.nt
    &&& a.tnx == l.tnx
    &&& a.tny == l.tny
    &&& a.portals@.len() <= g.len()
    &&& fits(a, vi)
    &&& holds_sites(
        g,
        a.portals@,
        a.tiles@.map_values(|e: TileEdges| e.portals@),
        all_sites(g, vi.states@, l),
    )
    &&& in_order(
        g,
        vi.states@,
        l,
        a.portals@,
        a.tiles@.map_values(|e: TileEdges| e.portals@),
    )
    &&& forall|t: int|
        0 <= t < a.tiles@.len() ==> crosses(a, vi, t, agg, #[trigger] a.tiles@[t])
}

/// The tiling that `cfg` asks for has coordinates that fit an `i32`.
pub open spec fn buildable(vi: ValueIterator, cfg: SchurConfig) -> bool {
    let g = vi.grid();
    let tile = larger(cfg.tile as int, 1);
    let halo = halo_of(reach(vi.model(), Axis::X), reach(vi.model(), Axis::Y));
    let side = tile + 2 * halo;
    &&& vi.states@.len() > 0
    &&& g.nx + tile + 2 * halo < i32::MAX
    &&& g.ny + tile + 2 * halo < i32::MAX
    &&& side * side <= i32::MAX
    &&& side * side * g.nt <= i32::MAX
}

/// Whether the numbers of the tiling that `cfg` asks for fit.
pub fn can_build(src: &ValueIterator, cfg: &SchurConfig) -> (r: bool)
    requires
        src.wf(),
    ensures
        r == buildable(*src, *cfg),
{
    let (mx, my, mt) = displacement(src);
    let mut widest: i64 = if mx >= my {
        mx as i64
    } else {
        my as i64
    };
    if widest < 1 {
        widest = 1;
    }
    let halo: i64 = widest + PATCH_R as i64 + 1;
    let tile: i64 = if cfg.tile >= 1 {
        cfg.tile as i64
    } else {
        1
    };
    let side: i64 = tile + 2 * halo;
    let end: i64 = i32::MAX as i64;
    if src.states.len() == 0 || src.cell_num_x as i64 + side >= end || src.cell_num_y as i64 + side
        >= end {
        return false;
    }
    assert(0 <= side * side <= 0x7fff_ffff * 0x7fff_ffff) by (nonlinear_arith)
        requires
            0 <= side <= 0x7fff_ffff,
    ;
    if side * side > end {
        return false;
    }
    let nt: i64 = src.cell_num_t as i64;
    assert(0 <= side * side * nt <= 0x7fff_ffff * 0x7fff_ffff) by (nonlinear_arith)
        requires
            0 <= side * side <= 0x7fff_ffff,
            0 <= nt <= 0x7fff_ffff,
    ;
    side * side * nt <= end
}

pub(crate) proof fn lemma_lies_on(a: SchurArtifact, vi: ValueIterator, cfg: SchurConfig)
    requires
        vi.wf(),
        buildable(vi, cfg),
        a.tile == tiling(vi.grid(), cfg).tile,
        a.halo == halo_of(reach(vi.model(), Axis::X), reach(vi.model(), Axis::Y)),
        a.nx == vi.grid().nx,
        a.ny == vi.grid().ny,
        a.nt == vi.grid().nt,
        a.tnx == tiling(vi.grid(), cfg).tnx,
        a.tny == tiling(vi.grid(), cfg).tny,
        forall|k: int|
            0 <= k < a.portals@.len() ==> portal_on(vi.grid(), #[trigger] a.portals@[k]),
    ensures
        lies_on(a, vi),
{
    let g = vi.grid();
    assert(g.nx > 0 && g.ny > 0 && g.nt > 0) by (nonlinear_arith)
        requires
            0 < g.nx * g.ny * g.nt,
            0 <= g.nx,
            0 <= g.ny,
            0 <= g.nt,
    ;
    let tile = a.tile as int;
    let dx = (g.nx + tile - 1) / tile;
    let dy = (g.ny + tile - 1) / tile;
    vstd::arithmetic::div_mod::lemma_fundamental_div_mod(g.nx + tile - 1, tile);
    vstd::arithmetic::div_mod::lemma_mod_bound(g.nx + tile - 1, tile);
    vstd::arithmetic::div_mod::lemma_fundamental_div_mod(g.ny + tile - 1, tile);
    vstd::arithmetic::div_mod::lemma_mod_bound(g.ny + tile - 1, tile);
    assert(1 <= dx <= g.nx && dx * tile <= g.nx + tile - 1) by (nonlinear_arith)
        requires
            g.nx + tile - 1 == tile * dx + (g.nx + tile - 1) % tile,
            0 <= (g.nx + tile - 1) % tile < tile,
            1 <= g.nx,
            1 <= tile,
    ;
    assert(1 <= dy <= g.ny && dy * tile <= g.ny + tile - 1) by (nonlinear_arith)
        requires
            g.ny + tile - 1 == tile * dy + (g.ny + tile - 1) % tile,
            0 <= (g.ny + tile - 1) % tile < tile,
            1 <= g.ny,
            1 <= tile,
    ;
    lemma_tiles_index(0, 0, a.tnx as int, a.tny as int, g.nx, g.ny);
    lemma_tile_model(vi, a.tile, a.halo, a.side_len() as i32);
}

/// A tiling's costs depend on its geometry and its portals only.
pub(crate) proof fn lemma_crosses_geometry(
    a: SchurArtifact,
    b: SchurArtifact,
    vi: ValueIterator,
    t: int,
    agg: PatchAgg,
    e: TileEdges,
)
    requires
        crosses(a, vi, t, agg, e),
        b.tile == a.tile,
        b.halo == a.halo,
        b.nt == a.nt,
        b.tnx == a.tnx,
        b.portals@ == a.portals@,
    ensures
        crosses(b, vi, t, agg, e),
{
    let n = e.portals@.len() as int;
    assert(tile_model(a, vi) == tile_model(b, vi));
    assert(base_tile(a, vi, t) == base_tile(b, vi, t));
    assert forall|s: Seq<State>, k: int| #[trigger]
        watch_list(a, s, t, e.portals@, k) == watch_list(b, s, t, e.portals@, k) by {
        lemma_watch_geometry(a, b, s, t, e.portals@, k);
    }
    assert forall|i: int, j: int| 0 <= i < n && 0 <= j < n implies #[trigger] e.w@[i * n + j]
        == crossing(b, vi, t, e.portals@, agg, i, j) by {
        assert(e.w@[i * n + j] == crossing(a, vi, t, e.portals@, agg, i, j));
    }
}

proof fn lemma_watch_geometry(
    a: SchurArtifact,
    b: SchurArtifact,
    s: Seq<State>,
    t: int,
    list: Seq<u32>,
    n: int,
)
    requires
        b.tile == a.tile,
        b.halo == a.halo,
        b.nt == a.nt,
        b.tnx == a.tnx,
        b.portals@ == a.portals@,
    ensures
        watch_list(a, s, t, list, n) == watch_list(b, s, t, list, n),
    decreases n,
{
    if n > 0 {
        lemma_watch_geometry(a, b, s, t, list, n - 1);
    }
}

/// The artifact of a map, with crossing costs summed up over patches by `agg`.
pub fn build_with(src: &ValueIterator, cfg: &SchurConfig, agg: PatchAgg) -> (r: SchurArtifact)
    requires
        src.wf(),
        buildable(*src, *cfg),
    ensures
        built(r, *src, *cfg, agg),
{
    let (art, lists) = place_portals(src, cfg);
    let ghost g = src.grid();
    let ghost lv = lists@.map_values(|v: Vec<u32>| v@);
    proof {
        lemma_lies_on(art, *src, *cfg);
        assert(forall|t: int| 0 <= t < lv.len() ==> #[trigger] lv[t] == lists@[t]@);
    }
    let mut tv: TileVi = TileVi::new(src, art.side());
    let n: usize = lists.len();
    let mut tiles: Vec<TileEdges> = Vec::new();
    let mut t: usize = 0;
    while t < n
        invariant
            t <= n,
            n == lists@.len(),
            n == art.tnx * art.tny,
            src.wf(),
            g == src.grid(),
            lies_on(art, *src),
            lv == lists@.map_values(|v: Vec<u32>| v@),
            forall|t: int| 0 <= t < lv.len() ==> #[trigger] lv[t] == lists@[t]@,
            forall|t: int, i: int|
                0 <= t < lv.len() && 0 <= i < lv[t].len() ==> (#[trigger] lv[t][i])
                    < art.portals@.len(),
            tv.wf(),
            tv.side == art.side_len(),
            tv.nt == art.nt,
            tiles@.len() == t,
            forall|u: int|
                0 <= u < t ==> (#[trigger] tiles@[u]).portals@ == lv[u] && crosses(
                    art,
                    *src,
                    u,
                    agg,
                    tiles@[u],
                ),
        decreases n - t,
    {
        assert forall|i: int| 0 <= i < lists@[t as int]@.len() implies (
        #[trigger] lists@[t as int]@[i]) < art.portals@.len() by {
            assert(lv[t as int][i] < art.portals@.len());
        }
        let e: TileEdges = tile_edges(src, &art, &lists, &mut tv, t, agg);
        tiles.push(e);
        t += 1;
    }
    let out = SchurArtifact {
        tile: art.tile,
        halo: art.halo,
        nx: art.nx,
        ny: art.ny,
        nt: art.nt,
        tnx: art.tnx,
        tny: art.tny,
        portals: art.portals,
        tiles,
    };
    proof {
        assert forall|t: int| 0 <= t < out.tiles@.len() implies crosses(
            out,
            *src,
            t,
            agg,
            #[trigger] out.tiles@[t],
        ) by {
            lemma_crosses_geometry(art, out, *src, t, agg, tiles@[t]);
        }
        assert forall|t: int| 0 <= t < out.tiles@.len() implies edges_ok(
            #[trigger] out.tiles@[t],
            out.portals@.len() as int,
        ) by {
            assert(tiles@[t].portals@ == lv[t]);
            assert forall|i: int| 0 <= i < tiles@[t].portals@.len() implies (
            #[trigger] tiles@[t].portals@[i]) < out.portals@.len() by {
                assert(lv[t][i] < art.portals@.len());
            }
        }
        assert(out.tiles@.map_values(|e: TileEdges| e.portals@) =~= lv);
        lemma_lies_on(out, *src, *cfg);
    }
    out
}

/// The artifact of a map. It does not depend on the goal.
pub fn build(src: &ValueIterator, cfg: &SchurConfig) -> (r: SchurArtifact)
    requires
        src.wf(),
        buildable(*src, *cfg),
    ensures
        built(r, *src, *cfg, PatchAgg::Max),
{
    build_with(src, cfg, PatchAgg::Max)
}

} // verus!
