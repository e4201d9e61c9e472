//! How an artifact lies on a map: tile domains, and the conditions under which the
//! two belong together.
use vstd::prelude::*;

use crate::grid::{index3, lemma_index_bound, on_axis, on_grid};
use crate::model::{Grid, Model};
use crate::solvers::displacement::{law_reach_covers, reach, Axis};
use crate::solvers::schur::artifact::{Portal, SchurArtifact, TileEdges};
use crate::solvers::schur::patch::{
    in_patch, is_patch_state, law_patch_is_the_surroundings, off_t, off_x, off_y, patch_state,
    patch_t, PATCH_LEN,
};
use crate::solvers::schur::place::halo_of;
use crate::value_iterator::{grid_of, model_of, ValueIterator};

verus! {

/// The crossing costs of a tile form a square, over existing portals.
pub open spec fn edges_ok(e: TileEdges, portals: int) -> bool {
    &&& e.w@.len() == e.portals@.len() * e.portals@.len()
    &&& forall|i: int| 0 <= i < e.portals@.len() ==> (#[trigger] e.portals@[i]) < portals
}

/// The tiling of `a` is one of the map of `vi`, and all its coordinates fit an `i32`.
pub open spec fn lies_on(a: SchurArtifact, vi: ValueIterator) -> bool {
    let g = vi.grid();
    &&& a.nx == g.nx && a.ny == g.ny && a.nt == g.nt
    &&& g.nx > 0 && g.ny > 0 && g.nt > 0
    &&& 1 <= a.tile
    &&& 0 <= a.halo
    &&& 1 <= a.tnx
    &&& 1 <= a.tny
    &&& a.tnx * a.tny <= i32::MAX
    &&& a.tnx * a.tile + 2 * a.halo < i32::MAX
    &&& a.tny * a.tile + 2 * a.halo < i32::MAX
    &&& a.side_len() <= i32::MAX
    &&& a.nx + a.halo < i32::MAX
    &&& a.ny + a.halo < i32::MAX
    &&& model_of(vi.actions@, a.side_len() as i32, a.side_len() as i32, a.nt).wf()
    &&& forall|k: int| 0 <= k < a.portals@.len() ==> portal_on(g, #[trigger] a.portals@[k])
}

/// `p` is a state of the lattice.
pub open spec fn portal_on(g: Grid, p: Portal) -> bool {
    on_grid(p.ix as int, p.iy as int, p.it as int, g.nx, g.ny, g.nt)
}

/// `a` is an artifact of the map of `vi`.
pub open spec fn fits(a: SchurArtifact, vi: ValueIterator) -> bool {
    &&& lies_on(a, vi)
    &&& a.portals@.len() < u32::MAX
    &&& a.tiles@.len() == a.tnx * a.tny
    &&& forall|t: int|
        0 <= t < a.tiles@.len() ==> edges_ok(#[trigger] a.tiles@[t], a.portals@.len() as int)
}

/// Column of the tile number `t`.
pub open spec fn tile_x(a: SchurArtifact, t: int) -> int {
    t % (a.tnx as int)
}

/// Row of the tile number `t`.
pub open spec fn tile_y(a: SchurArtifact, t: int) -> int {
    t / (a.tnx as int)
}

/// The lattice of a tile's domain.
pub open spec fn tile_grid(a: SchurArtifact) -> Grid {
    Grid { nx: a.side_len(), ny: a.side_len(), nt: a.nt as int }
}

/// The model of a tile's domain, with the actions of `vi`.
pub open spec fn tile_model(a: SchurArtifact, vi: ValueIterator) -> Model {
    Model { grid: tile_grid(a), actions: vi.actions@ }
}

/// First column of the domain of tile `t`.
pub open spec fn domain_x(a: SchurArtifact, t: int) -> int {
    a.origin(tile_x(a, t))
}

/// First row of the domain of tile `t`.
pub open spec fn domain_y(a: SchurArtifact, t: int) -> int {
    a.origin(tile_y(a, t))
}

/// Tile numbers name tiles, and their domains have coordinates that fit an `i32`.
pub proof fn lemma_tile_coords(a: SchurArtifact, vi: ValueIterator, t: int)
    requires
        lies_on(a, vi),
        0 <= t < a.tnx * a.tny,
    ensures
        0 <= tile_x(a, t) < a.tnx,
        0 <= tile_y(a, t) < a.tny,
        -a.halo <= domain_x(a, t) <= a.tnx * a.tile - a.halo - a.tile,
        -a.halo <= domain_y(a, t) <= a.tny * a.tile - a.halo - a.tile,
        0 <= tile_x(a, t) * a.tile <= i32::MAX,
        0 <= tile_y(a, t) * a.tile <= i32::MAX,
{
    let n = a.tnx as int;
    let (x, y) = (tile_x(a, t), tile_y(a, t));
    vstd::arithmetic::div_mod::lemma_fundamental_div_mod(t, n);
    vstd::arithmetic::div_mod::lemma_mod_bound(t, n);
    assert(0 <= y < a.tny) by (nonlinear_arith)
        requires
            t == n * y + t % n,
            0 <= t % n < n,
            0 <= t < n * a.tny,
    ;
    let tl = a.tile as int;
    assert(0 <= x * tl && x * tl + tl <= n * tl) by (nonlinear_arith)
        requires
            0 <= x,
            x + 1 <= n,
            1 <= tl,
    ;
    assert(0 <= y * tl && y * tl + tl <= a.tny * tl) by (nonlinear_arith)
        requires
            0 <= y,
            y + 1 <= a.tny,
            1 <= tl,
    ;
}

/// The actions of a map also work on the domain of a tile whose margin is as wide
/// as they reach.
pub proof fn lemma_tile_model(vi: ValueIterator, tile: i32, halo: i32, side: i32)
    requires
        vi.wf(),
        1 <= tile,
        halo == halo_of(reach(vi.model(), Axis::X), reach(vi.model(), Axis::Y)),
        side == tile + 2 * halo,
        side * side <= i32::MAX,
        side * side * vi.cell_num_t <= i32::MAX,
        vi.cell_num_t > 0,
    ensures
        model_of(vi.actions@, side, side, vi.cell_num_t).wf(),
{
    let m = vi.model();
    let tm = model_of(vi.actions@, side, side, vi.cell_num_t);
    let g = m.grid;
    assert(side <= 46340) by (nonlinear_arith)
        requires
            side * side <= 0x7fff_ffff,
            0 <= side,
    ;
    assert forall|a: int| 0 <= a < tm.actions.len() implies tm.grid.action_ok(
        #[trigger] tm.actions[a],
    ) by {
        let act = tm.actions[a];
        assert(g.action_ok(m.actions[a]));
        assert forall|it: int, k: int|
            0 <= it < tm.grid.nt && 0 <= k < act.outcomes(it).len() implies tm.grid.outcome_ok(
            #[trigger] act.outcomes(it)[k],
        ) by {
            assert(g.outcome_ok(m.actions[a].outcomes(it)[k]));
            law_reach_covers(m, Axis::X, a, it, k);
            law_reach_covers(m, Axis::Y, a, it, k);
        }
    }
}

impl SchurArtifact {
    /// Corner of the domain of tile `(tx, ty)`.
    pub fn domain_origin(&self, tx: i32, ty: i32) -> (r: (i32, i32))
        requires
            0 <= tx * self.tile <= i32::MAX,
            0 <= ty * self.tile <= i32::MAX,
            0 <= self.halo,
        ensures
            r.0 == self.origin(tx as int),
            r.1 == self.origin(ty as int),
    {
        (tx * self.tile - self.halo, ty * self.tile - self.halo)
    }

    /// Side of a tile's domain, in cells.
    pub fn side(&self) -> (r: i32)
        requires
            i32::MIN <= 2 * self.halo <= i32::MAX,
            i32::MIN <= self.side_len() <= i32::MAX,
        ensures
            r == self.side_len(),
    {
        self.tile + 2 * self.halo
    }

    /// Corner of the domain of tile number `t`.
    pub(crate) fn origin_of(&self, t: usize, Ghost(vi): Ghost<ValueIterator>) -> (r: (i32, i32))
        requires
            lies_on(*self, vi),
            t < self.tnx * self.tny,
        ensures
            r.0 == domain_x(*self, t as int),
            r.1 == domain_y(*self, t as int),
    {
        proof {
            lemma_tile_coords(*self, vi, t as int);
        }
        let tx: i32 = t as i32 % self.tnx;
        let ty: i32 = t as i32 / self.tnx;
        self.domain_origin(tx, ty)
    }

    /// The states of a portal's patch that lie on the map, free or not.
    pub fn patch_states(&self, p: Portal) -> (r: Vec<(i32, i32, i32)>)
        requires
            i32::MIN < p.ix < i32::MAX,
            i32::MIN < p.iy < i32::MAX,
            0 <= p.it < self.nt,
        ensures
            r@ == map_patch(*self, p, PATCH_LEN as int),
    {
        let mut out: Vec<(i32, i32, i32)> = Vec::new();
        let mut k: i32 = 0;
        while k < PATCH_LEN
            invariant
                0 <= k <= PATCH_LEN,
                i32::MIN < p.ix < i32::MAX,
                i32::MIN < p.iy < i32::MAX,
                0 <= p.it < self.nt,
                out@ == map_patch(*self, p, k as int),
            decreases PATCH_LEN - k,
        {
            let (x, y, t) = patch_state(k, p.ix, p.iy, p.it, self.nt);
            if x >= 0 && x < self.nx && y >= 0 && y < self.ny {
                out.push((x, y, t));
            }
            k += 1;
        }
        out
    }

    /// The free states of a portal's patch that lie in the square of side `side`
    /// with its corner at `(x0, y0)`, as indices of that square.
    pub fn patch_local_idx(
        &self,
        src: &ValueIterator,
        x0: i32,
        y0: i32,
        side: i32,
        p: Portal,
    ) -> (r: Vec<i32>)
        requires
            src.wf(),
            self.nx == src.cell_num_x,
            self.ny == src.cell_num_y,
            self.nt == src.cell_num_t,
            portal_on(src.grid(), p),
            p.ix + 1 - x0 <= i32::MAX,
            p.iy + 1 - y0 <= i32::MAX,
            grid_of(side, side, self.nt).wf(),
        ensures
            r@ == local_patch(
                *self,
                *src,
                x0 as int,
                y0 as int,
                side as int,
                map_patch(*self, p, PATCH_LEN as int),
                map_patch(*self, p, PATCH_LEN as int).len() as int,
            ),
    {
        let all: Vec<(i32, i32, i32)> = self.patch_states(p);
        let ghost ms = map_patch(*self, p, PATCH_LEN as int);
        proof {
            lemma_map_patch(*self, p, PATCH_LEN as int);
        }
        let mut out: Vec<i32> = Vec::new();
        let mut k: usize = 0;
        while k < all.len()
            invariant
                k <= all.len(),
                all@ == ms,
                src.wf(),
                self.nx == src.cell_num_x,
                self.ny == src.cell_num_y,
                self.nt == src.cell_num_t,
                p.ix + 1 - x0 <= i32::MAX,
                p.iy + 1 - y0 <= i32::MAX,
                grid_of(side, side, self.nt).wf(),
                forall|j: int|
                    0 <= j < ms.len() ==> {
                        let q = #[trigger] ms[j];
                        &&& on_grid(
                            q.0 as int,
                            q.1 as int,
                            q.2 as int,
                            self.nx as int,
                            self.ny as int,
                            self.nt as int,
                        )
                        &&& q.0 <= p.ix + 1
                        &&& q.1 <= p.iy + 1
                    },
                out@ == local_patch(
                    *self,
                    *src,
                    x0 as int,
                    y0 as int,
                    side as int,
                    ms,
                    k as int,
                ),
            decreases all.len() - k,
        {
            let (gx, gy, it) = all[k];
            assert(ms[k as int] == (gx, gy, it));
            let inside: bool = gx >= x0 && gy >= y0 && gx - x0 < side && gy - y0 < side;
            if inside {
                let i: usize = src.to_index(gx, gy, it) as usize;
                if src.states[i].free {
                    let (lx, ly) = (gx - x0, gy - y0);
                    proof {
                        let g = grid_of(side, side, self.nt);
                        lemma_index_bound(lx as int, ly as int, it as int, g.nx, g.ny, g.nt);
                        assert(g.nx * (ly + 1) * g.nt <= g.nx * g.ny * g.nt) by (nonlinear_arith)
                            requires
                                0 <= g.nx,
                                0 <= g.nt,
                                ly + 1 <= g.ny,
                        ;
                    }
                    out.push(crate::grid::to_index_raw(lx, ly, it, side, self.nt));
                }
            }
            k += 1;
        }
        out
    }
}

/// Those of the first `n` states of a portal's patch that lie on the map.
pub open spec fn map_patch(a: SchurArtifact, p: Portal, n: int) -> Seq<(i32, i32, i32)>
    decreases n,
{
    if n <= 0 {
        Seq::empty()
    } else {
        let before = map_patch(a, p, n - 1);
        let (x, y) = (p.ix + off_x(n - 1), p.iy + off_y(n - 1));
        if on_axis(x, a.nx as int) && on_axis(y, a.ny as int) {
            before.push((x as i32, y as i32, patch_t(p.it as int, n - 1, a.nt as int) as i32))
        } else {
            before
        }
    }
}

/// Those of the first `n` listed states that are free and lie in a square, as
/// indices of the square.
pub open spec fn local_patch(
    a: SchurArtifact,
    vi: ValueIterator,
    x0: int,
    y0: int,
    side: int,
    list: Seq<(i32, i32, i32)>,
    n: int,
) -> Seq<i32>
    decreases n,
{
    if n <= 0 {
        Seq::empty()
    } else {
        let before = local_patch(a, vi, x0, y0, side, list, n - 1);
        let (x, y, t) = (list[n - 1].0 as int, list[n - 1].1 as int, list[n - 1].2 as int);
        if on_axis(x - x0, side) && on_axis(y - y0, side) && vi.states@[vi.grid().at(
            x,
            y,
            t,
        )].free {
            before.push(index3(x - x0, y - y0, t, side, a.nt as int) as i32)
        } else {
            before
        }
    }
}

/// The states of a patch on the map are states of the lattice, close to the portal.
pub proof fn lemma_map_patch(a: SchurArtifact, p: Portal, n: int)
    requires
        0 <= n,
        0 <= p.it < a.nt,
        n <= PATCH_LEN,
    ensures
        forall|j: int|
            0 <= j < map_patch(a, p, n).len() ==> {
                let q = #[trigger] map_patch(a, p, n)[j];
                &&& on_grid(
                    q.0 as int,
                    q.1 as int,
                    q.2 as int,
                    a.nx as int,
                    a.ny as int,
                    a.nt as int,
                )
                &&& q.0 <= p.ix + 1
                &&& q.1 <= p.iy + 1
            },
    decreases n,
{
    if n > 0 {
        lemma_map_patch(a, p, n - 1);
        vstd::arithmetic::div_mod::lemma_mod_bound(p.it + off_t(n - 1), a.nt as int);
        let before = map_patch(a, p, n - 1);
        let now = map_patch(a, p, n);
        assert forall|j: int| 0 <= j < now.len() implies {
            let q = #[trigger] now[j];
            &&& on_grid(
                q.0 as int,
                q.1 as int,
                q.2 as int,
                a.nx as int,
                a.ny as int,
                a.nt as int,
            )
            &&& q.0 <= p.ix + 1
            &&& q.1 <= p.iy + 1
        } by {
            if j < before.len() {
                assert(now[j] == before[j]);
            }
        }
    }
}

/// The cells of a tile lie in the middle of its domain, as far from its border as the halo
/// is wide, and tiles are counted row by row.
pub proof fn law_tile_lies_in_its_domain(a: SchurArtifact, tx: int, ty: int, x: int, y: int)
    requires
        1 <= a.tile,
        0 <= a.halo,
        0 <= tx < a.tnx,
        0 <= ty,
        tx * a.tile <= x < (tx + 1) * a.tile,
        ty * a.tile <= y < (ty + 1) * a.tile,
    ensures
        ({
            let t = ty * a.tnx + tx;
            &&& a.halo <= x - domain_x(a, t) < a.halo + a.tile
            &&& a.halo <= y - domain_y(a, t) < a.halo + a.tile
            &&& a.side_len() == a.halo + a.tile + a.halo
        }),
{
    let w = a.tnx as int;
    vstd::arithmetic::div_mod::lemma_fundamental_div_mod_converse(ty * w + tx, w, ty, tx);
    assert((tx + 1) * a.tile == tx * a.tile + a.tile && (ty + 1) * a.tile == ty * a.tile + a.tile)
        by (nonlinear_arith);
}

/// The states of a portal's patch are those of the map at most one column, one row and one
/// heading from it.
pub proof fn law_portal_patch_is_near(a: SchurArtifact, p: Portal, n: int, i: int)
    requires
        0 <= p.it < a.nt,
        0 <= n <= PATCH_LEN,
        0 <= i < map_patch(a, p, n).len(),
    ensures
        ({
            let (x, y, t) = map_patch(a, p, n)[i];
            &&& 0 <= x < a.nx && 0 <= y < a.ny && 0 <= t < a.nt
            &&& -1 <= x - p.ix <= 1
            &&& -1 <= y - p.iy <= 1
            &&& -1 <= t - p.it <= 1 || t - p.it >= a.nt - 1 || p.it - t >= a.nt - 1
        }),
    decreases n,
{
    let b = map_patch(a, p, n - 1);
    if i < b.len() {
        law_portal_patch_is_near(a, p, n - 1, i);
        assert(map_patch(a, p, n)[i] == b[i]);
    } else {
        let k = n - 1;
        let (cx, cy, ct, nt) = (p.ix as int, p.iy as int, p.it as int, a.nt as int);
        let (x, y, t) = (cx + off_x(k), cy + off_y(k), patch_t(ct, k, nt));
        vstd::arithmetic::div_mod::lemma_mod_bound(ct + off_t(k), nt);
        assert(is_patch_state(k, cx, cy, ct, nt, x, y, t));
        assert(in_patch(PATCH_LEN as int, cx, cy, ct, nt, x, y, t));
        law_patch_is_the_surroundings(cx, cy, ct, nt, x, y, t);
    }
}

/// Every state of the map at most one column, one row and one heading from a portal is in its
/// patch.
pub proof fn law_portal_patch_is_whole(a: SchurArtifact, p: Portal, x: i32, y: i32, t: i32)
    requires
        0 <= p.it < a.nt,
        0 <= x < a.nx,
        0 <= y < a.ny,
        0 <= t < a.nt,
        -1 <= x - p.ix <= 1,
        -1 <= y - p.iy <= 1,
        -1 <= t - p.it <= 1 || t - p.it >= a.nt - 1 || p.it - t >= a.nt - 1,
    ensures
        map_patch(a, p, PATCH_LEN as int).contains((x, y, t)),
{
    let (cx, cy, ct, nt) = (p.ix as int, p.iy as int, p.it as int, a.nt as int);
    law_patch_is_the_surroundings(cx, cy, ct, nt, x as int, y as int, t as int);
    let k = choose|k: int|
        0 <= k < PATCH_LEN && #[trigger] is_patch_state(
            k,
            cx,
            cy,
            ct,
            nt,
            x as int,
            y as int,
            t as int,
        );
    lemma_in_patch(a, p, PATCH_LEN as int, k, (x, y, t));
}

proof fn lemma_in_patch(a: SchurArtifact, p: Portal, n: int, k: int, v: (i32, i32, i32))
    requires
        0 <= k < n,
        on_axis(v.0 as int, a.nx as int),
        on_axis(v.1 as int, a.ny as int),
        is_patch_state(
            k,
            p.ix as int,
            p.iy as int,
            p.it as int,
            a.nt as int,
            v.0 as int,
            v.1 as int,
            v.2 as int,
        ),
    ensures
        map_patch(a, p, n).contains(v),
    decreases n,
{
    let (b, l) = (map_patch(a, p, n - 1), map_patch(a, p, n));
    if k < n - 1 {
        lemma_in_patch(a, p, n - 1, k, v);
        let i = choose|i: int| 0 <= i < b.len() && b[i] == v;
        assert(l[i] == v);
    } else {
        assert(l[b.len() as int] == v);
    }
}

/// The listed places of a patch in a tile are those of its free states in the tile's domain,
/// each counted from the domain's corner.
pub proof fn law_tile_patch_is_in_the_domain(
    a: SchurArtifact,
    vi: ValueIterator,
    x0: int,
    y0: int,
    side: int,
    list: Seq<(i32, i32, i32)>,
    n: int,
    i: int,
)
    requires
        0 <= n <= list.len(),
        0 <= i < local_patch(a, vi, x0, y0, side, list, n).len(),
    ensures
        exists|k: int|
            0 <= k < n && #[trigger] lists_state(a, vi, x0, y0, side, list[k]) && local_patch(
                a,
                vi,
                x0,
                y0,
                side,
                list,
                n,
            )[i] == index3(
                list[k].0 - x0,
                list[k].1 - y0,
                list[k].2 as int,
                side,
                a.nt as int,
            ) as i32,
    decreases n,
{
    let b = local_patch(a, vi, x0, y0, side, list, n - 1);
    if i < b.len() {
        law_tile_patch_is_in_the_domain(a, vi, x0, y0, side, list, n - 1, i);
        let k = choose|k: int|
            0 <= k < n - 1 && #[trigger] lists_state(a, vi, x0, y0, side, list[k]) && b[i]
                == index3(
                list[k].0 - x0,
                list[k].1 - y0,
                list[k].2 as int,
                side,
                a.nt as int,
            ) as i32;
        assert(lists_state(a, vi, x0, y0, side, list[k]));
    } else {
        assert(lists_state(a, vi, x0, y0, side, list[n - 1]));
    }
}

/// The state `q` of the map is free and lies in the domain with the corner `(x0, y0)`.
pub open spec fn lists_state(
    a: SchurArtifact,
    vi: ValueIterator,
    x0: int,
    y0: int,
    side: int,
    q: (i32, i32, i32),
) -> bool {
    &&& x0 <= q.0 < x0 + side
    &&& y0 <= q.1 < y0 + side
    &&& vi.states@[vi.grid().at(q.0 as int, q.1 as int, q.2 as int)].free
}

/// Every free state of a patch in the tile's domain is listed.
pub proof fn law_tile_patch_is_whole(
    a: SchurArtifact,
    vi: ValueIterator,
    x0: int,
    y0: int,
    side: int,
    list: Seq<(i32, i32, i32)>,
    n: int,
    k: int,
)
    requires
        0 <= k < n <= list.len(),
        lists_state(a, vi, x0, y0, side, list[k]),
    ensures
        local_patch(a, vi, x0, y0, side, list, n).contains(
            index3(
                list[k].0 - x0,
                list[k].1 - y0,
                list[k].2 as int,
                side,
                a.nt as int,
            ) as i32,
        ),
    decreases n,
{
    let (b, l) = (
        local_patch(a, vi, x0, y0, side, list, n - 1),
        local_patch(a, vi, x0, y0, side, list, n),
    );
    let v = index3(
        list[k].0 - x0,
        list[k].1 - y0,
        list[k].2 as int,
        side,
        a.nt as int,
    ) as i32;
    if k < n - 1 {
        law_tile_patch_is_whole(a, vi, x0, y0, side, list, n - 1, k);
        let i = choose|i: int| 0 <= i < b.len() && b[i] == v;
        assert(l[i] == v);
    } else {
        assert(l[b.len() as int] == v);
    }
}

} // verus!
