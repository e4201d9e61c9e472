//! Restoring the values of a map tile by tile, and filling in the portals.
use vstd::prelude::*;

use crate::grid::{lemma_index_bound, on_axis};
use crate::solvers::schur::artifact::SchurArtifact;
use crate::solvers::schur::crossing::base_tile;
use crate::solvers::schur::domain::{domain_x, domain_y, fits, lies_on, tile_grid, tile_model};
use crate::solvers::schur::materialize::{arts_ok, has_pins, solution, solve_tile, Valued};
use crate::solvers::schur::merge::{
    covers, lemma_merge_tile, lemma_tile_at, lemma_tile_merged_keeps, merge_diffs, tile_at,
    tile_diffs, tile_merged, Diff,
};
use crate::solvers::schur::query::{goals, goals_on};
use crate::solvers::schur::sweep::TILE_MAX_ITER;
use crate::solvers::schur::tile::TileVi;
use crate::state::State;
use crate::value_iterator::ValueIterator;

verus! {

/// Working space for restoring tiles, to be used again from tile to tile.
pub struct TileScratch(TileVi);

impl TileScratch {
    /// The working space is one for tiles of `a`.
    pub closed spec fn serves(self, a: SchurArtifact) -> bool {
        &&& self.0.wf()
        &&& self.0.side == a.side_len()
        &&& self.0.nt == a.nt
    }

    /// Working space for the tiles of `art`.
    pub fn new(vi: &ValueIterator, art: &SchurArtifact) -> (r: TileScratch)
        requires
            lies_on(*art, *vi),
        ensures
            r.serves(*art),
    {
        TileScratch(TileVi::new(vi, art.side()))
    }
}

/// The map's states `s` after tile `t` has been restored from the portal values in
/// `arts` and the goals `f`.
pub open spec fn tile_restored(
    vi: ValueIterator,
    arts: Seq<Valued>,
    f: Seq<(i32, i32, i32)>,
    t: int,
    s: Seq<State>,
) -> Seq<State> {
    if has_pins(arts, f, t) {
        tile_merged(*arts[0].0, t, solution(vi, arts, f, t).states, s)
    } else {
        s
    }
}

/// How many values moved while tile `t` was solved.
pub open spec fn tile_updates(
    vi: ValueIterator,
    arts: Seq<Valued>,
    f: Seq<(i32, i32, i32)>,
    t: int,
) -> int {
    if has_pins(arts, f, t) {
        solution(vi, arts, f, t).updates
    } else {
        0
    }
}

/// Restores tile `t` from several artifacts at once: the portals of all of them are
/// pinned. Returns how many values moved.
pub fn materialize_one_multi(
    vi: &mut ValueIterator,
    arts: &[Valued],
    finals: &Vec<(i32, i32, i32)>,
    tv: &mut TileScratch,
    t: i32,
) -> (r: u64)
    requires
        old(vi).wf(),
        arts_ok(arts@, *old(vi)),
        goals_on(old(vi).grid(), finals@),
        0 <= t < arts@[0].0.tiles@.len(),
        old(tv).serves(*arts@[0].0),
    ensures
        final(vi).wf(),
        final(tv).serves(*arts@[0].0),
        final(vi).has_states(
            *old(vi),
            tile_restored(*old(vi), arts@, finals@, t as int, old(vi).states@),
        ),
        r == tile_updates(*old(vi), arts@, finals@, t as int),
        r <= 2 * TILE_MAX_ITER * tile_grid(*arts@[0].0).len(),
{
    let ghost av = arts@;
    let ghost v0 = *vi;
    let ghost ti = t as int;
    assert(fits(*av[0].0, *vi));
    let (pinned, updates) = solve_tile(vi, arts, finals, &mut tv.0, t as usize);
    if !pinned {
        proof {
            let l = tile_grid(*av[0].0).len();
            assert(0 <= l);
            assert(0 <= 2 * TILE_MAX_ITER * l) by (nonlinear_arith)
                requires
                    0 <= l,
            ;
        }
        return 0;
    }
    let art: &SchurArtifact = arts[0].0;
    let diffs: Vec<Diff> = tile_diffs(&tv.0, art, t as usize, Ghost(v0));
    let ghost ts = solution(v0, av, finals@, ti).states;
    let ghost s0 = vi.states@;
    proof {
        assert forall|k: int| 0 <= k < diffs@.len() implies (#[trigger] diffs@[k]).0
            < s0.len() by {}
        lemma_merge_tile(*art, ti, ts, s0, diffs@);
        assert forall|i: int| 0 <= i < s0.len() && #[trigger] covers(*art, ti, i) implies 0
            <= tile_at(*art, ti, i) < ts.len() by {
            lemma_tile_at(*art, v0, ti, i);
        }
        lemma_tile_merged_keeps(v0.model(), *art, ti, ts, s0, tile_model(*art, v0));
    }
    merge_diffs(vi, &diffs);
    updates
}

/// Restores tile `t`. Returns how many values moved.
pub fn materialize_one(
    vi: &mut ValueIterator,
    art: &SchurArtifact,
    d: &Vec<u64>,
    finals: &Vec<(i32, i32, i32)>,
    tv: &mut TileScratch,
    t: i32,
) -> (r: u64)
    requires
        old(vi).wf(),
        fits(*art, *old(vi)),
        d@.len() == art.portals@.len(),
        goals_on(old(vi).grid(), finals@),
        0 <= t < art.tiles@.len(),
        old(tv).serves(*art),
    ensures
        final(vi).wf(),
        final(tv).serves(*art),
        final(vi).has_states(
            *old(vi),
            tile_restored(*old(vi), one_art(art, d), finals@, t as int, old(vi).states@),
        ),
        r == tile_updates(*old(vi), one_art(art, d), finals@, t as int),
        r <= 2 * TILE_MAX_ITER * tile_grid(*art).len(),
{
    let arts: [Valued; 1] = [(art, d)];
    assert(arts@ =~= one_art(art, d));
    assert(arts_ok(arts@, *vi));
    materialize_one_multi(vi, &arts, finals, tv, t)
}

/// A single artifact with its portal values.
pub open spec fn one_art<'a>(art: &'a SchurArtifact, d: &'a Vec<u64>) -> Seq<Valued<'a>> {
    seq![(art, d)]
}

/// The two maps differ at most in values, goals and policies.
pub open spec fn same_map(a: ValueIterator, b: ValueIterator) -> bool {
    &&& a.model() == b.model()
    &&& a.states@.len() == b.states@.len()
    &&& forall|i: int|
        0 <= i < a.states@.len() ==> (#[trigger] b.states@[i]).free == a.states@[i].free
            && b.states@[i].penalty == a.states@[i].penalty
}

/// What a tile takes from the map is the same for the same map.
pub proof fn lemma_same_base(art: SchurArtifact, a: ValueIterator, b: ValueIterator, t: int)
    requires
        same_map(a, b),
        a.grid().wf(),
        a.grid().nt == art.nt,
        a.states@.len() == a.grid().len(),
    ensures
        base_tile(art, a, t) =~= base_tile(art, b, t),
{
    let (x, y) = (base_tile(art, a, t), base_tile(art, b, t));
    let tg = tile_grid(art);
    let g = a.grid();
    assert forall|i: int| 0 <= i < x.len() implies x[i] == y[i] by {
        let (lx, ly, it) = (
            crate::grid::x_of(i, tg.nx, tg.nt),
            crate::grid::y_of(i, tg.nx, tg.nt),
            crate::grid::t_of(i, tg.nt),
        );
        let (gx, gy) = (domain_x(art, t) + lx, domain_y(art, t) + ly);
        if on_axis(gx, g.nx) && on_axis(gy, g.ny) {
            assert(art.nt > 0) by {
                if art.nt <= 0 {
                    assert(tg.len() <= 0) by (nonlinear_arith)
                        requires
                            art.nt <= 0,
                            tg.len() == tg.nx * tg.nx * art.nt,
                    ;
                }
            }
            vstd::arithmetic::div_mod::lemma_mod_bound(i, tg.nt);
            lemma_index_bound(gx, gy, it, g.nx, g.ny, g.nt);
            let k = g.at(gx, gy, it);
            assert(b.states@[k].free == a.states@[k].free);
        }
    }
}

proof fn lemma_same_solution(
    a: ValueIterator,
    b: ValueIterator,
    arts: Seq<Valued>,
    f: Seq<(i32, i32, i32)>,
    t: int,
)
    requires
        same_map(a, b),
        a.wf(),
        arts_ok(arts, a),
    ensures
        solution(a, arts, f, t) == solution(b, arts, f, t),
{
    assert(fits(*arts[0].0, a));
    lemma_same_base(*arts[0].0, a, b, t);
    assert(tile_model(*arts[0].0, a) == tile_model(*arts[0].0, b));
}

/// The map's states `s` after the first `n` of the given tiles have been restored.
pub open spec fn tiles_restored(
    vi: ValueIterator,
    arts: Seq<Valued>,
    f: Seq<(i32, i32, i32)>,
    tiles: Seq<i32>,
    n: int,
    s: Seq<State>,
) -> Seq<State>
    decreases n,
{
    if n <= 0 {
        s
    } else {
        tile_restored(
            vi,
            arts,
            f,
            tiles[n - 1] as int,
            tiles_restored(vi, arts, f, tiles, n - 1, s),
        )
    }
}

/// How many values moved while the first `n` of the given tiles were solved.
pub open spec fn tiles_updates(
    vi: ValueIterator,
    arts: Seq<Valued>,
    f: Seq<(i32, i32, i32)>,
    tiles: Seq<i32>,
    n: int,
) -> int
    decreases n,
{
    if n <= 0 {
        0
    } else {
        tiles_updates(vi, arts, f, tiles, n - 1) + tile_updates(vi, arts, f, tiles[n - 1] as int)
    }
}

/// Restores the given tiles. Returns how many values moved.
pub fn materialize_many(
    vi: &mut ValueIterator,
    art: &SchurArtifact,
    d: &Vec<u64>,
    finals: &Vec<(i32, i32, i32)>,
    tiles: &Vec<i32>,
) -> (r: u64)
    requires
        old(vi).wf(),
        fits(*art, *old(vi)),
        d@.len() == art.portals@.len(),
        goals_on(old(vi).grid(), finals@),
        forall|k: int| 0 <= k < tiles@.len() ==> 0 <= #[trigger] tiles@[k] < art.tiles@.len(),
        tiles@.len() * (2 * TILE_MAX_ITER * tile_grid(*art).len()) <= u64::MAX,
    ensures
        final(vi).wf(),
        final(vi).has_states(
            *old(vi),
            tiles_restored(
                *old(vi),
                one_art(art, d),
                finals@,
                tiles@,
                tiles@.len() as int,
                old(vi).states@,
            ),
        ),
        same_map(*old(vi), *final(vi)),
        r == tiles_updates(
            *old(vi),
            one_art(art, d),
            finals@,
            tiles@,
            tiles@.len() as int,
        ),
        r <= tiles@.len() * (2 * TILE_MAX_ITER * tile_grid(*art).len()),
{
    let ghost v0 = *vi;
    let ghost arts = one_art(art, d);
    let ghost f = finals@;
    let ghost each = 2 * TILE_MAX_ITER * tile_grid(*art).len();
    let mut tv: TileScratch = TileScratch::new(vi, art);
    let mut updates: u64 = 0;
    let mut k: usize = 0;
    assert(arts_ok(arts, v0));
    while k < tiles.len()
        invariant
            k <= tiles.len(),
            v0 == *old(vi),
            v0.wf(),
            vi.wf(),
            fits(*art, v0),
            arts == one_art(art, d),
            arts_ok(arts, v0),
            d@.len() == art.portals@.len(),
            f == finals@,
            goals_on(v0.grid(), f),
            forall|k: int| 0 <= k < tiles@.len() ==> 0 <= #[trigger] tiles@[k] < art.tiles@.len(),
            tv.serves(*art),
            same_map(v0, *vi),
            vi.has_states(v0, tiles_restored(v0, arts, f, tiles@, k as int, v0.states@)),
            updates == tiles_updates(v0, arts, f, tiles@, k as int),
            updates <= k * each,
            each == 2 * TILE_MAX_ITER * tile_grid(*art).len(),
            0 <= each,
            tiles@.len() * each <= u64::MAX,
        decreases tiles.len() - k,
    {
        let t: i32 = tiles[k];
        let ghost v1 = *vi;
        assert(0 <= tiles@[k as int] < art.tiles@.len());
        proof {
            assert(fits(*art, v1));
            assert(k * each + each == (k + 1) * each) by (nonlinear_arith);
            assert((k + 1) * each <= tiles@.len() * each) by (nonlinear_arith)
                requires
                    k + 1 <= tiles@.len(),
                    0 <= each,
            ;
            lemma_same_solution(v0, v1, arts, f, t as int);
        }
        let u: u64 = materialize_one(vi, art, d, finals, &mut tv, t);
        updates += u;
        proof {
            assert forall|i: int| 0 <= i < v0.states@.len() implies (
            #[trigger] vi.states@[i]).free == v0.states@[i].free && vi.states@[i].penalty
                == v0.states@[i].penalty by {
                assert(v1.states@[i].free == v0.states@[i].free);
            }
        }
        k += 1;
    }
    updates
}

} // verus!
