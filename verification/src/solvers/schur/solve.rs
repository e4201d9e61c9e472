//! The tiled solver: restore a field of upper bounds, then sweep it to the fixed
//! point.
use vstd::prelude::*;

use crate::params::MAX_COST;
use crate::solvers::bitboard::Bitboard2D;
use crate::solvers::displacement::{displacement, reach, Axis};
use crate::solvers::frontier2d::{
    frontier2d_solve_observed, rounds, seed_frontier_2d, seeded, solved, sweep_frontier,
    sights_of, valued_cells, watched, Wave,
};
use crate::solvers::observe::{
    asks_of, lemma_asked_once_more, lemma_nothing_shown, lemma_shown_in_turn, log_of, obeyed,
    was_shown, Log, SolveFlow, SolveObserver, SolveOutcome,
};
use crate::solvers::schur::artifact::{SchurArtifact, SchurConfig, PATCH_R};
use crate::solvers::schur::crossing::{build_with, buildable, built, can_build};
use crate::solvers::schur::domain::{fits, tile_grid};
use crate::solvers::schur::fix::{fix_portal_actions, fixed_portals};
use crate::solvers::schur::patch::{PatchAgg, PATCH_LEN};
use crate::solvers::schur::place::{halo_of, tiling};
use crate::solvers::schur::query::{collect_finals, goals};
use crate::solvers::schur::restore::{materialize_many, one_art, tiles_restored, tiles_updates};
use crate::solvers::schur::search::{portal_costs_agg, portal_values};
use crate::solvers::schur::sweep::TILE_MAX_ITER;
use crate::state::State;
use crate::value_iterator::ValueIterator;

verus! {

/// The numbers of all tiles.
pub open spec fn all_tiles(a: SchurArtifact) -> Seq<i32> {
    Seq::new(a.tiles@.len(), |t: int| t as i32)
}

/// The number of updates that restoring all tiles can take stays countable.
pub open spec fn countable(a: SchurArtifact) -> bool {
    a.tiles@.len() * (2 * TILE_MAX_ITER * tile_grid(a).len()) + a.portals@.len() * PATCH_LEN
        < 0x8000_0000_0000_0000
}

/// The same of the artifact that `cfg` asks for.
pub open spec fn tiling_countable(vi: ValueIterator, cfg: SchurConfig) -> bool {
    let g = vi.grid();
    let l = tiling(g, cfg);
    let side = l.tile + 2 * halo_of(reach(vi.model(), Axis::X), reach(vi.model(), Axis::Y));
    (l.tnx * l.tny) * (2 * TILE_MAX_ITER * (side * side * g.nt)) + g.len() * PATCH_LEN
        < 0x8000_0000_0000_0000
}

/// Whether `cfg` asks for a tiling whose numbers fit, and whose updates stay countable.
pub fn can_solve(vi: &ValueIterator, cfg: &SchurConfig) -> (r: bool)
    requires
        vi.wf(),
    ensures
        r == (buildable(*vi, *cfg) && tiling_countable(*vi, *cfg)),
{
    if !can_build(vi, cfg) {
        return false;
    }
    let ghost g = vi.grid();
    let (mx, my, mt) = displacement(vi);
    let mut widest: i64 = if mx >= my {
        mx as i64
    } else {
        my as i64
    };
    if widest < 1 {
        widest = 1;
    }
    let tile: i64 = if cfg.tile >= 1 {
        cfg.tile as i64
    } else {
        1
    };
    let side: i64 = tile + 2 * (widest + PATCH_R as i64 + 1);
    let (nx, ny, nt) = (vi.cell_num_x as i64, vi.cell_num_y as i64, vi.cell_num_t as i64);
    let (tnx, tny) = ((nx + tile - 1) / tile, (ny + tile - 1) / tile);
    proof {
        assert(g.nx > 0 && g.ny > 0 && g.nt > 0) by (nonlinear_arith)
            requires
                0 < g.nx * g.ny * g.nt,
                0 <= g.nx,
                0 <= g.ny,
                0 <= g.nt,
        ;
        assert(1 <= tnx <= 0x7fff_ffff && 1 <= tny <= 0x7fff_ffff) by (nonlinear_arith)
            requires
                tnx == (nx + tile - 1) / tile as int,
                tny == (ny + tile - 1) / tile as int,
                1 <= tile,
                0 < nx && nx + tile <= 0x7fff_ffff,
                0 < ny && ny + tile <= 0x7fff_ffff,
        ;
        assert(0 <= tnx * tny <= 0x7fff_ffff * 0x7fff_ffff) by (nonlinear_arith)
            requires
                0 <= tnx <= 0x7fff_ffff,
                0 <= tny <= 0x7fff_ffff,
        ;
        assert(tnx == tiling(g, *cfg).tnx && tny == tiling(g, *cfg).tny);
    }
    let tiles: u128 = (tnx * tny) as u128;
    let domain: u128 = (side * side * nt) as u128;
    assert(0 <= tiles * (2 * TILE_MAX_ITER * domain) <= 0x7fff_ffff * 0x7fff_ffff * (128
        * 0x7fff_ffff)) by (nonlinear_arith)
        requires
            0 <= tiles <= 0x7fff_ffff * 0x7fff_ffff,
            0 <= domain <= 0x7fff_ffff,
            TILE_MAX_ITER == 64,
    ;
    let patches: u128 = vi.states.len() as u128 * PATCH_LEN as u128;
    tiles * (2 * TILE_MAX_ITER as u128 * domain) + patches < 0x8000_0000_0000_0000
}

proof fn lemma_countable(a: SchurArtifact, vi: ValueIterator, cfg: SchurConfig, agg: PatchAgg)
    requires
        built(a, vi, cfg, agg),
        tiling_countable(vi, cfg),
    ensures
        countable(a),
{
    let n = a.portals@.len();
    let l = vi.grid().len();
    assert(n * PATCH_LEN <= l * PATCH_LEN) by (nonlinear_arith)
        requires
            n <= l,
            PATCH_LEN == 27,
    ;
}

/// `s` is the field of upper bounds for the goals of `vi`: all tiles restored from
/// the portal values `d`, then the portal patches given policies. `u` counts the
/// updates on the way.
pub open spec fn is_field(
    a: SchurArtifact,
    vi: ValueIterator,
    agg: PatchAgg,
    d: &Vec<u64>,
    s: Seq<State>,
    u: int,
) -> bool {
    let art = &a;
    let tiles = all_tiles(a);
    let n = tiles.len() as int;
    let f = goals(vi);
    let fixed = fixed_portals(
        a,
        vi.model(),
        tiles_restored(vi, one_art(art, d), f, tiles, n, vi.states@),
        a.portals@.len() as int,
    );
    &&& portal_values(a, vi, agg, d@)
    &&& s == fixed.0
    &&& u == tiles_updates(vi, one_art(art, d), f, tiles, n) + fixed.1
}

/// `s` is a field of upper bounds for the goals of `vi`, got in `u` updates.
pub open spec fn upper_bounds(
    a: SchurArtifact,
    vi: ValueIterator,
    agg: PatchAgg,
    s: Seq<State>,
    u: int,
) -> bool {
    exists|d: &Vec<u64>| #[trigger] is_field(a, vi, agg, d, s, u)
}

/// Puts the field of upper bounds in place of the values. Returns how many updates
/// it took.
pub fn upper_bound_field(vi: &mut ValueIterator, art: &SchurArtifact) -> (r: u64)
    requires
        old(vi).wf(),
        fits(*art, *old(vi)),
        countable(*art),
    ensures
        final(vi).wf(),
        final(vi).has_states(*old(vi), final(vi).states@),
        upper_bounds(*art, *old(vi), PatchAgg::Max, final(vi).states@, r as int),
        r < 0x8000_0000_0000_0000,
{
    upper_bound_field_agg(vi, art, PatchAgg::Max)
}

/// The same, with patches summed up by `agg`. What comes out is sure to be a field of upper
/// bounds only with [`PatchAgg::Max`].
pub fn upper_bound_field_agg(vi: &mut ValueIterator, art: &SchurArtifact, agg: PatchAgg) -> (r: u64)
    requires
        old(vi).wf(),
        fits(*art, *old(vi)),
        countable(*art),
    ensures
        final(vi).wf(),
        final(vi).has_states(*old(vi), final(vi).states@),
        upper_bounds(*art, *old(vi), agg, final(vi).states@, r as int),
        r < 0x8000_0000_0000_0000,
{
    let ghost v0 = *vi;
    let finals: Vec<(i32, i32, i32)> = collect_finals(vi);
    let d: Vec<u64> = portal_costs_agg(vi, art, agg);
    let n: usize = art.tiles.len();
    let mut tiles: Vec<i32> = Vec::new();
    let mut t: usize = 0;
    while t < n
        invariant
            t <= n,
            n == art.tiles@.len(),
            n <= i32::MAX,
            tiles@ =~= all_tiles(*art).take(t as int),
        decreases n - t,
    {
        tiles.push(t as i32);
        t += 1;
    }
    assert(tiles@ =~= all_tiles(*art));
    proof {
        assert(0 <= art.portals@.len() * PATCH_LEN);
    }
    let restored: u64 = materialize_many(vi, art, &d, &finals, &tiles);
    proof {
        assert(fits(*art, *vi));
    }
    let fixed: u64 = fix_portal_actions(vi, art);
    assert(is_field(*art, v0, agg, &d, vi.states@, restored + fixed));
    restored + fixed
}

/// The field is as before any solve: no extra penalties, and values at goals only.
pub open spec fn pristine(s: Seq<State>) -> bool {
    forall|i: int|
        0 <= i < s.len() ==> (#[trigger] s[i]).local_penalty == 0 && (s[i].final_state
            || s[i].total_cost == MAX_COST)
}

/// Whether the field is as before any solve.
fn is_pristine(vi: &ValueIterator) -> (r: bool)
    ensures
        r == pristine(vi.states@),
{
    let mut i: usize = 0;
    while i < vi.states.len()
        invariant
            i <= vi.states.len(),
            forall|j: int|
                0 <= j < i ==> (#[trigger] vi.states@[j]).local_penalty == 0 && (
                vi.states@[j].final_state || vi.states@[j].total_cost == MAX_COST),
        decreases vi.states.len() - i,
    {
        let s: &State = &vi.states[i];
        if s.local_penalty != 0 || !(s.final_state || s.total_cost == MAX_COST) {
            assert(!(vi.states@[i as int].local_penalty == 0 && (vi.states@[i as int].final_state
                || vi.states@[i as int].total_cost == MAX_COST)));
            return false;
        }
        i += 1;
    }
    true
}

/// Where the sweep of the field `s` starts, after `u` updates.
pub open spec fn swept_from(vi: ValueIterator, s: Seq<State>, u: int) -> Wave {
    Wave { states: s, frontier: valued_cells(vi.grid(), s), updates: u }
}

/// What the tiled solver comes to: the field of upper bounds counts as one round;
/// the observer may end the solve there, otherwise the field is swept until nothing
/// moves. Where the observer may interrupt, `a` to `b` is what passed between it and the
/// solver: it was asked after the field of upper bounds and after every round that left
/// work, was shown what it wanted to see, and was obeyed.
pub open spec fn tiled_solve(
    art: SchurArtifact,
    vi: ValueIterator,
    agg: PatchAgg,
    max_iter: int,
    out: SolveOutcome,
    s: Seq<State>,
    heard: bool,
    a: Log,
    b: Log,
) -> bool {
    exists|field: Seq<State>, u: int| #[trigger]
        upper_bounds(art, vi, agg, field, u) && {
            let m = vi.model();
            let w = swept_from(vi, field, u);
            let n = out.iters - 1;
            let left = rounds(m, w, n).frontier != Set::<int>::empty();
            &&& {
                ||| out.iters == 1 && out.updates == u && s == field && out.interrupted()
                    && !out.converged && !(out.stopped && out.cancelled)
                ||| solved(m, w, 1, max_iter, out, s)
            }
            &&& heard ==> was_shown(a, b, 1, 1 + asks_of(n, left), sights_of(m, w, 1)) && obeyed(
                a,
                b,
                out,
            )
            &&& !heard ==> !out.interrupted()
        }
}

/// What a solve by planar frontiers comes to, and what passed between it and its observer.
pub open spec fn planar_solve(
    vi: ValueIterator,
    max_iter: int,
    out: SolveOutcome,
    s: Seq<State>,
    heard: bool,
    a: Log,
    b: Log,
) -> bool {
    let w = seeded(vi.model(), vi.states@);
    &&& solved(vi.model(), w, 0, max_iter, out, s)
    &&& heard ==> watched(vi.model(), w, 0, out, a, b)
    &&& !heard ==> !out.interrupted()
}

/// What [`schur_solve_with`] comes to: the tiled solver on a pristine field, planar
/// frontiers on any other.
pub open spec fn solved_with(
    art: SchurArtifact,
    vi: ValueIterator,
    agg: PatchAgg,
    max_iter: int,
    out: SolveOutcome,
    s: Seq<State>,
    heard: bool,
    a: Log,
    b: Log,
) -> bool {
    if pristine(vi.states@) {
        tiled_solve(art, vi, agg, max_iter, out, s, heard, a, b)
    } else {
        planar_solve(vi, max_iter, out, s, heard, a, b)
    }
}

/// Sweeps a field of upper bounds until nothing moves.
fn exactify<O: SolveObserver>(
    vi: &mut ValueIterator,
    iters: u32,
    updates: u64,
    max_iter: u32,
    obs: &mut O,
) -> (out: SolveOutcome)
    requires
        old(vi).wf(),
        updates < 0x8000_0000_0000_0000,
    ensures
        final(vi).wf(),
        final(vi).has_states(*old(vi), final(vi).states@),
        solved(
            old(vi).model(),
            swept_from(*old(vi), old(vi).states@, updates as int),
            iters as int,
            max_iter as int,
            out,
            final(vi).states@,
        ),
        !old(obs).may_interrupt() ==> !out.interrupted(),
        old(obs).may_interrupt() ==> watched(
            old(vi).model(),
            swept_from(*old(vi), old(vi).states@, updates as int),
            iters as int,
            out,
            log_of(*old(obs)),
            log_of(*final(obs)),
        ),
        final(obs).may_interrupt() == old(obs).may_interrupt(),
{
    let frontier: Bitboard2D = seed_frontier_2d(vi);
    assert(frontier.members() == valued_cells(vi.grid(), vi.states@));
    sweep_frontier(vi, frontier, iters, updates, max_iter, obs)
}

/// Solves the field with an artifact of its map.
pub fn schur_solve_with<O: SolveObserver>(
    vi: &mut ValueIterator,
    art: &SchurArtifact,
    max_iter: u32,
    obs: &mut O,
) -> (out: SolveOutcome)
    requires
        old(vi).wf(),
        fits(*art, *old(vi)),
        countable(*art),
    ensures
        final(vi).wf(),
        final(vi).has_states(*old(vi), final(vi).states@),
        solved_with(
            *art,
            *old(vi),
            PatchAgg::Max,
            max_iter as int,
            out,
            final(vi).states@,
            old(obs).may_interrupt(),
            log_of(*old(obs)),
            log_of(*final(obs)),
        ),
        final(obs).may_interrupt() == old(obs).may_interrupt(),
{
    schur_solve_agg(vi, art, max_iter, obs, PatchAgg::Max)
}

/// Solves the field with an artifact of its map, with patches summed up by `agg`.
pub fn schur_solve_agg<O: SolveObserver>(
    vi: &mut ValueIterator,
    art: &SchurArtifact,
    max_iter: u32,
    obs: &mut O,
    agg: PatchAgg,
) -> (out: SolveOutcome)
    requires
        old(vi).wf(),
        fits(*art, *old(vi)),
        countable(*art),
    ensures
        final(vi).wf(),
        final(vi).has_states(*old(vi), final(vi).states@),
        solved_with(
            *art,
            *old(vi),
            agg,
            max_iter as int,
            out,
            final(vi).states@,
            old(obs).may_interrupt(),
            log_of(*old(obs)),
            log_of(*final(obs)),
        ),
        final(obs).may_interrupt() == old(obs).may_interrupt(),
{
    if !is_pristine(vi) {
        return frontier2d_solve_observed(vi, max_iter, obs);
    }
    let ghost v0 = *vi;
    let updates: u64 = upper_bound_field_agg(vi, art, agg);
    let ghost field = vi.states@;
    assert(upper_bounds(*art, v0, agg, field, updates as int));
    let ghost m = v0.model();
    let ghost w = swept_from(v0, field, updates as int);
    let ghost sights = sights_of(m, w, 1);
    let ghost l0 = log_of(*obs);
    let ghost heard = obs.may_interrupt();
    proof {
        lemma_nothing_shown(l0, 1, sights);
    }
    let iters: u32 = 1;
    if obs.due(iters as u64) {
        let flow: SolveFlow = obs.boundary(vi, iters, updates);
        proof {
            if heard {
                lemma_asked_once_more(l0, l0, log_of(*obs), 1, 0, sights, true, flow);
            }
        }
        match flow {
            SolveFlow::Continue => {},
            SolveFlow::Stop => {
                return SolveOutcome::stopped(iters, updates);
            },
            SolveFlow::Cancel => {
                return SolveOutcome::cancelled(iters, updates);
            },
        }
    } else {
        proof {
            if heard {
                lemma_asked_once_more(
                    l0,
                    l0,
                    log_of(*obs),
                    1,
                    0,
                    sights,
                    false,
                    SolveFlow::Continue,
                );
            }
        }
    }
    let ghost l1 = log_of(*obs);
    let out: SolveOutcome = exactify(vi, iters, updates, max_iter, obs);
    proof {
        if heard {
            let l2 = log_of(*obs);
            let n = out.iters - 1;
            let more = asks_of(n, rounds(m, w, n).frontier != Set::<int>::empty());
            lemma_shown_in_turn(l0, l1, l2, 1, 1, more, sights);
            assert(obeyed(l0, l2, out));
        }
    }
    out
}

/// Solves the field, with an artifact built for the occasion where that helps: on a
/// pristine field. Any other is solved by planar frontiers.
pub fn schur_solve_observed<O: SolveObserver>(
    vi: &mut ValueIterator,
    max_iter: u32,
    obs: &mut O,
    cfg: SchurConfig,
) -> (out: SolveOutcome)
    requires
        old(vi).wf(),
        pristine(old(vi).states@) ==> buildable(*old(vi), cfg) && tiling_countable(*old(vi), cfg),
    ensures
        final(vi).wf(),
        final(vi).has_states(*old(vi), final(vi).states@),
        pristine(old(vi).states@) ==> exists|a: SchurArtifact|
            built(a, *old(vi), cfg, PatchAgg::Max) && #[trigger] solved_with(
                a,
                *old(vi),
                PatchAgg::Max,
                max_iter as int,
                out,
                final(vi).states@,
                old(obs).may_interrupt(),
                log_of(*old(obs)),
                log_of(*final(obs)),
            ),
        !pristine(old(vi).states@) ==> planar_solve(
            *old(vi),
            max_iter as int,
            out,
            final(vi).states@,
            old(obs).may_interrupt(),
            log_of(*old(obs)),
            log_of(*final(obs)),
        ),
        final(obs).may_interrupt() == old(obs).may_interrupt(),
{
    schur_solve_observed_agg(vi, max_iter, obs, cfg, PatchAgg::Max)
}

/// The same, with patches summed up by `agg`.
pub fn schur_solve_observed_agg<O: SolveObserver>(
    vi: &mut ValueIterator,
    max_iter: u32,
    obs: &mut O,
    cfg: SchurConfig,
    agg: PatchAgg,
) -> (out: SolveOutcome)
    requires
        old(vi).wf(),
        pristine(old(vi).states@) ==> buildable(*old(vi), cfg) && tiling_countable(*old(vi), cfg),
    ensures
        final(vi).wf(),
        final(vi).has_states(*old(vi), final(vi).states@),
        pristine(old(vi).states@) ==> exists|a: SchurArtifact|
            built(a, *old(vi), cfg, agg) && #[trigger] solved_with(
                a,
                *old(vi),
                agg,
                max_iter as int,
                out,
                final(vi).states@,
                old(obs).may_interrupt(),
                log_of(*old(obs)),
                log_of(*final(obs)),
            ),
        !pristine(old(vi).states@) ==> planar_solve(
            *old(vi),
            max_iter as int,
            out,
            final(vi).states@,
            old(obs).may_interrupt(),
            log_of(*old(obs)),
            log_of(*final(obs)),
        ),
        final(obs).may_interrupt() == old(obs).may_interrupt(),
{
    if !is_pristine(vi) {
        return frontier2d_solve_observed(vi, max_iter, obs);
    }
    let ghost v0 = *vi;
    let art: SchurArtifact = build_with(vi, &cfg, agg);
    proof {
        lemma_countable(art, v0, cfg, agg);
    }
    let ghost l0 = log_of(*obs);
    let ghost heard = obs.may_interrupt();
    let out: SolveOutcome = schur_solve_agg(vi, &art, max_iter, obs, agg);
    assert(solved_with(
        art,
        v0,
        agg,
        max_iter as int,
        out,
        vi.states@,
        heard,
        l0,
        log_of(*obs),
    ));
    out
}

} // verus!
