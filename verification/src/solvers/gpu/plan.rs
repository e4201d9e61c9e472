//! What the precomputation of a tiling hands to the kernels once: portals, their
//! patches in each tile, the jobs, and the outcomes of all actions.
use vstd::prelude::*;

use crate::action::{Action, StateTransition};
use crate::params::MAX_COST;
use crate::solvers::displacement::{reach, Axis};
use crate::solvers::gpu::chunk::{jobs_apart, law_jobs_apart, tiles_match};
use crate::solvers::gpu::jobs::{
    cap_of, jobs_of, lemma_jobs_range, probs_cap, split_jobs, Job,
};
use crate::solvers::schur::artifact::{Portal, SchurArtifact, SchurConfig, TileEdges};
use crate::solvers::schur::crossing::{buildable, lemma_lies_on};
use crate::solvers::schur::domain::{
    domain_x, domain_y, edges_ok, fits, lemma_tile_coords, local_patch, map_patch, portal_on,
};
use crate::solvers::schur::order::in_order;
use crate::solvers::schur::patch::PATCH_LEN;
use crate::solvers::schur::place::{all_sites, halo_of, holds_sites, place_portals, tiling};
use crate::value_iterator::{grid_of, ValueIterator};

verus! {

/// The free states of the patch of portal `p` in the domain of tile `t`.
pub open spec fn patch_idx(a: SchurArtifact, vi: ValueIterator, t: int, p: Portal) -> Seq<i32> {
    let m = map_patch(a, p, PATCH_LEN as int);
    local_patch(a, vi, domain_x(a, t), domain_y(a, t), a.side_len(), m, m.len() as int)
}

/// Numbers of portals of the tiles.
pub open spec fn portal_counts(a: SchurArtifact) -> Seq<usize> {
    a.tiles@.map_values(|e: TileEdges| e.portals@.len() as usize)
}

/// A precomputation, ready to be run in chunks.
pub struct GpuPlan {
    /// The artifact, with its crossing costs still unknown.
    pub art: SchurArtifact,
    /// For every tile and each of its portals the states of the portal's patch.
    pub patches: Vec<Vec<Vec<i32>>>,
    pub jobs: Vec<Job>,
    /// Most problems of a chunk.
    pub cap: usize,
}

/// `patches` holds the patches of the portals of tile `t`.
pub open spec fn tile_patched(
    a: SchurArtifact,
    vi: ValueIterator,
    t: int,
    patches: Seq<Vec<i32>>,
) -> bool {
    &&& patches.len() == a.tiles@[t].portals@.len()
    &&& forall|i: int|
        0 <= i < patches.len() ==> (#[trigger] patches[i])@ == patch_idx(
            a,
            vi,
            t,
            a.portals@[a.tiles@[t].portals@[i] as int],
        )
}

impl GpuPlan {
    /// The plan is one for the map of `vi`.
    pub open spec fn plans(self, vi: ValueIterator) -> bool {
        &&& fits(self.art, vi)
        &&& self.patches@.len() == self.art.tiles@.len()
        &&& forall|t: int|
            0 <= t < self.patches@.len() ==> tile_patched(
                self.art,
                vi,
                t,
                (#[trigger] self.patches@[t])@,
            )
        &&& self.cap == cap_of(self.art.side_len() * self.art.side_len() * self.art.nt)
        &&& self.jobs@ == jobs_of(
            portal_counts(self.art),
            self.art.tiles@.len() as int,
            self.cap as int,
        )
    }

    /// The artifact is the one that `cfg` asks for, with all crossing costs unknown.
    pub open spec fn starts(self, vi: ValueIterator, cfg: SchurConfig) -> bool {
        let g = vi.grid();
        let l = tiling(g, cfg);
        let a = self.art;
        &&& a.tile == l.tile
        &&& a.halo == halo_of(reach(vi.model(), Axis::X), reach(vi.model(), Axis::Y))
        &&& a.tnx == l.tnx
        &&& a.tny == l.tny
        &&& holds_sites(
            g,
            a.portals@,
            a.tiles@.map_values(|e: TileEdges| e.portals@),
            all_sites(g, vi.states@, l),
        )
        &&& in_order(
            g,
            vi.states@,
            l,
            a.portals@,
            a.tiles@.map_values(|e: TileEdges| e.portals@),
        )
        &&& forall|t: int, k: int|
            0 <= t < a.tiles@.len() && 0 <= k < a.tiles@[t].w@.len()
                ==> #[trigger] a.tiles@[t].w@[k] == MAX_COST
    }
}

/// Every job names a tile of the plan and problems of that tile.
pub open spec fn jobs_ok(plan: GpuPlan) -> bool {
    forall|k: int|
        0 <= k < plan.jobs@.len() ==> {
            let job = #[trigger] plan.jobs@[k];
            &&& job.tile < plan.patches@.len()
            &&& job.first + job.count <= plan.patches@[job.tile as int]@.len()
            &&& 1 <= job.count <= plan.cap
        }
}

/// The jobs of a plan are usable.
proof fn lemma_plan_jobs(plan: GpuPlan, vi: ValueIterator)
    requires
        plan.plans(vi),
        plan.art.tiles@.len() <= usize::MAX,
        1 <= plan.cap,
        forall|t: int|
            0 <= t < plan.art.tiles@.len() ==> (#[trigger] plan.art.tiles@[t]).portals@.len()
                <= usize::MAX,
    ensures
        jobs_ok(plan),
        jobs_apart(plan.jobs@),
{
    let counts = portal_counts(plan.art);
    let n = plan.art.tiles@.len() as int;
    law_jobs_apart(counts, n, plan.cap as int);
    lemma_jobs_range(counts, n, plan.cap as int);
    assert forall|k: int| 0 <= k < plan.jobs@.len() implies {
        let job = #[trigger] plan.jobs@[k];
        &&& job.tile < plan.patches@.len()
        &&& job.first + job.count <= plan.patches@[job.tile as int]@.len()
        &&& 1 <= job.count <= plan.cap
    } by {
        let job = plan.jobs@[k];
        assert(job == jobs_of(counts, n, plan.cap as int)[k]);
        assert(tile_patched(plan.art, vi, job.tile as int, plan.patches@[job.tile as int]@));
    }
}

/// Crossing costs of which none is known yet.
fn unknown_edges(list: &Vec<u32>) -> (r: TileEdges)
    ensures
        r.portals@ == list@,
        r.w@.len() == list@.len() * list@.len(),
        forall|k: int| 0 <= k < r.w@.len() ==> #[trigger] r.w@[k] == MAX_COST,
{
    let mut portals: Vec<u32> = Vec::new();
    let mut w: Vec<u64> = Vec::new();
    let mut i: usize = 0;
    while i < list.len()
        invariant
            i <= list@.len(),
            portals@ == list@.take(i as int),
            w@.len() == i * list@.len(),
            forall|k: int| 0 <= k < w@.len() ==> #[trigger] w@[k] == MAX_COST,
        decreases list.len() - i,
    {
        portals.push(list[i]);
        let mut j: usize = 0;
        while j < list.len()
            invariant
                j <= list@.len(),
                w@.len() == i * list@.len() + j,
                forall|k: int| 0 <= k < w@.len() ==> #[trigger] w@[k] == MAX_COST,
            decreases list.len() - j,
        {
            w.push(MAX_COST);
            j += 1;
        }
        proof {
            assert((i + 1) * list@.len() == i * list@.len() + list@.len()) by (nonlinear_arith);
            assert(portals@ =~= list@.take(i + 1));
        }
        i += 1;
    }
    assert(portals@ =~= list@);
    TileEdges { portals, w }
}

/// The patches of all portals of tile `t`.
fn tile_patches(src: &ValueIterator, art: &SchurArtifact, t: usize) -> (r: Vec<Vec<i32>>)
    requires
        src.wf(),
        fits(*art, *src),
        t < art.tiles@.len(),
    ensures
        tile_patched(*art, *src, t as int, r@),
{
    let side: i32 = art.side();
    let (x0, y0) = art.origin_of(t, Ghost(*src));
    let list: &Vec<u32> = &art.tiles[t].portals;
    proof {
        lemma_tile_coords(*art, *src, t as int);
        assert(edges_ok(art.tiles@[t as int], art.portals@.len() as int));
    }
    let mut out: Vec<Vec<i32>> = Vec::new();
    let mut i: usize = 0;
    while i < list.len()
        invariant
            src.wf(),
            fits(*art, *src),
            t < art.tiles@.len(),
            side == art.side_len(),
            x0 == domain_x(*art, t as int),
            y0 == domain_y(*art, t as int),
            -art.halo <= x0,
            -art.halo <= y0,
            list@ == art.tiles@[t as int].portals@,
            edges_ok(art.tiles@[t as int], art.portals@.len() as int),
            i <= list@.len(),
            out@.len() == i,
            forall|k: int|
                0 <= k < i ==> (#[trigger] out@[k])@ == patch_idx(
                    *art,
                    *src,
                    t as int,
                    art.portals@[list@[k] as int],
                ),
        decreases list.len() - i,
    {
        let k: usize = list[i] as usize;
        assert(list@[i as int] < art.portals@.len());
        let p: Portal = art.portals[k];
        assert(portal_on(src.grid(), art.portals@[k as int]));
        assert(grid_of(side, side, art.nt).wf());
        out.push(art.patch_local_idx(src, x0, y0, side, p));
        i += 1;
    }
    out
}

impl GpuPlan {
    /// The plan for the tiling that `cfg` asks for.
    pub fn new(src: &ValueIterator, cfg: &SchurConfig) -> (r: GpuPlan)
        requires
            src.wf(),
            buildable(*src, *cfg),
        ensures
            r.plans(*src),
            r.starts(*src, *cfg),
            jobs_ok(r),
            jobs_apart(r.jobs@),
            tiles_match(r.art, r.patches@),
    {
        let (placed, lists) = place_portals(src, cfg);
        let ghost lv = lists@.map_values(|v: Vec<u32>| v@);
        proof {
            lemma_lies_on(placed, *src, *cfg);
            assert(forall|t: int| 0 <= t < lv.len() ==> #[trigger] lv[t] == lists@[t]@);
        }
        let n: usize = lists.len();
        let mut tiles: Vec<TileEdges> = Vec::new();
        let mut t: usize = 0;
        while t < n
            invariant
                n == lists@.len(),
                t <= n,
                tiles@.len() == t,
                forall|u: int|
                    0 <= u < t ==> {
                        let e = #[trigger] tiles@[u];
                        &&& e.portals@ == lists@[u]@
                        &&& e.w@.len() == lists@[u]@.len() * lists@[u]@.len()
                        &&& forall|k: int| 0 <= k < e.w@.len() ==> #[trigger] e.w@[k] == MAX_COST
                    },
            decreases n - t,
        {
            tiles.push(unknown_edges(&lists[t]));
            t += 1;
        }
        let art = SchurArtifact {
            tile: placed.tile,
            halo: placed.halo,
            nx: placed.nx,
            ny: placed.ny,
            nt: placed.nt,
            tnx: placed.tnx,
            tny: placed.tny,
            portals: placed.portals,
            tiles,
        };
        proof {
            lemma_lies_on(art, *src, *cfg);
            assert(art.tiles@.map_values(|e: TileEdges| e.portals@) =~= lv);
            assert forall|t: int| 0 <= t < art.tiles@.len() implies edges_ok(
                #[trigger] art.tiles@[t],
                art.portals@.len() as int,
            ) by {
                assert forall|i: int| 0 <= i < art.tiles@[t].portals@.len() implies (
                #[trigger] art.tiles@[t].portals@[i]) < art.portals@.len() by {
                    assert(lv[t][i] < art.portals@.len());
                }
            }
        }
        let mut patches: Vec<Vec<Vec<i32>>> = Vec::new();
        let mut counts: Vec<usize> = Vec::new();
        let mut t: usize = 0;
        while t < n
            invariant
                src.wf(),
                fits(art, *src),
                n == art.tiles@.len(),
                t <= n,
                patches@.len() == t,
                counts@.len() == t,
                forall|u: int|
                    0 <= u < t ==> tile_patched(art, *src, u, (#[trigger] patches@[u])@),
                forall|u: int|
                    0 <= u < t ==> #[trigger] counts@[u] == art.tiles@[u].portals@.len(),
            decreases n - t,
        {
            patches.push(tile_patches(src, &art, t));
            counts.push(art.tiles[t].portals.len());
            t += 1;
        }
        let side: i32 = art.side();
        proof {
            let g = grid_of(side, side, art.nt);
            assert(g.wf());
            assert(side * side * art.nt == g.len());
        }
        let cap: usize = probs_cap((side * side * art.nt) as usize);
        let jobs: Vec<Job> = split_jobs(&counts, cap);
        assert(counts@ =~= portal_counts(art));
        let plan = GpuPlan { art, patches, jobs, cap };
        proof {
            assert forall|t: int| 0 <= t < plan.art.tiles@.len() implies (
            #[trigger] plan.art.tiles@[t]).portals@.len() <= usize::MAX by {
                assert(counts@[t] == plan.art.tiles@[t].portals@.len());
            }
            lemma_plan_jobs(plan, *src);
            assert forall|t: int| 0 <= t < plan.patches@.len() implies (
            #[trigger] plan.art.tiles@[t]).w@.len() == plan.patches@[t]@.len()
                * plan.patches@[t]@.len() by {
                assert(edges_ok(plan.art.tiles@[t], plan.art.portals@.len() as int));
                assert(tile_patched(plan.art, *src, t, plan.patches@[t]@));
            }
        }
        plan
    }
}

/// The outcomes of the first `n` of `trs`, each as four numbers.
pub open spec fn outcome_quads(trs: Seq<StateTransition>, n: int) -> Seq<i32>
    decreases n,
{
    if n <= 0 {
        Seq::empty()
    } else {
        let tr = trs[n - 1];
        outcome_quads(trs, n - 1) + seq![tr.dix, tr.diy, tr.dit, tr.prob]
    }
}

/// The outcomes of action `a` from its first `n` headings, each as four numbers.
pub open spec fn heading_quads(a: Action, n: int) -> Seq<i32>
    decreases n,
{
    if n <= 0 {
        Seq::empty()
    } else {
        heading_quads(a, n - 1) + outcome_quads(a.outcomes(n - 1), a.outcomes(n - 1).len() as int)
    }
}

/// The outcomes of the first `n` actions, each as four numbers.
pub open spec fn action_quads(actions: Seq<Action>, nt: int, n: int) -> Seq<i32>
    decreases n,
{
    if n <= 0 {
        Seq::empty()
    } else {
        action_quads(actions, nt, n - 1) + heading_quads(actions[n - 1], nt)
    }
}

/// Outcomes that stand before those of action `a` from heading `it`.
pub open spec fn quad_start(actions: Seq<Action>, nt: int, a: int, it: int) -> int {
    (action_quads(actions, nt, a).len() + heading_quads(actions[a], it).len()) as int / 4
}

proof fn lemma_quads_grow(actions: Seq<Action>, nt: int, a: int, b: int)
    requires
        a <= b,
    ensures
        action_quads(actions, nt, a).len() <= action_quads(actions, nt, b).len(),
    decreases b,
{
    if a < b && b > 0 {
        lemma_quads_grow(actions, nt, a, b - 1);
    }
}

proof fn lemma_heading_quads_grow(a: Action, i: int, j: int)
    requires
        i <= j,
    ensures
        heading_quads(a, i).len() <= heading_quads(a, j).len(),
    decreases j,
{
    if i < j && j > 0 {
        lemma_heading_quads_grow(a, i, j - 1);
    }
}

/// All outcomes in a row, four numbers each, and for every action and heading where its
/// outcomes start.
pub fn flatten_outcomes(actions: &Vec<Action>, nt: i32) -> (r: (Vec<i32>, Vec<i32>))
    requires
        0 <= nt,
        forall|a: int|
            0 <= a < actions@.len() ==> (#[trigger] actions@[a]).state_transitions@.len() == nt,
        action_quads(actions@, nt as int, actions@.len() as int).len() <= 4 * i32::MAX,
    ensures
        r.1@ == action_quads(actions@, nt as int, actions@.len() as int),
        r.0@.len() == actions@.len() * nt + 1,
        forall|a: int, it: int|
            0 <= a < actions@.len() && 0 <= it < nt ==> r.0@[a * nt + it] == #[trigger] quad_start(
                actions@,
                nt as int,
                a,
                it,
            ),
        r.0@[actions@.len() * nt] == r.1@.len() as int / 4,
{
    let ghost acts = actions@;
    let ghost total = action_quads(acts, nt as int, acts.len() as int).len();
    let mut off: Vec<i32> = Vec::new();
    let mut dat: Vec<i32> = Vec::new();
    off.push(0);
    let mut a: usize = 0;
    while a < actions.len()
        invariant
            0 <= nt,
            acts == actions@,
            forall|b: int|
                0 <= b < acts.len() ==> (#[trigger] acts[b]).state_transitions@.len() == nt,
            total == action_quads(acts, nt as int, acts.len() as int).len(),
            total <= 4 * i32::MAX,
            a <= acts.len(),
            dat@ == action_quads(acts, nt as int, a as int),
            off@.len() == a * nt + 1,
            forall|b: int, it: int|
                0 <= b < a && 0 <= it < nt ==> off@[b * nt + it] == #[trigger] quad_start(
                    acts,
                    nt as int,
                    b,
                    it,
                ),
            off@[a * nt] == dat@.len() as int / 4,
        decreases actions.len() - a,
    {
        let act: &Action = &actions[a];
        assert(acts[a as int].state_transitions@.len() == nt);
        assert((a + 1) * nt == a * nt + nt) by (nonlinear_arith);
        let ghost base = dat@;
        let mut it: i32 = 0;
        while it < nt
            invariant
                0 <= nt,
                acts == actions@,
                total == action_quads(acts, nt as int, acts.len() as int).len(),
                total <= 4 * i32::MAX,
                a < acts.len(),
                *act == acts[a as int],
                act.state_transitions@.len() == nt,
                0 <= it <= nt,
                base == action_quads(acts, nt as int, a as int),
                dat@ == base + heading_quads(*act, it as int),
                off@.len() == a * nt + it + 1,
                forall|b: int, u: int|
                    0 <= b < a && 0 <= u < nt ==> off@[b * nt + u] == #[trigger] quad_start(
                        acts,
                        nt as int,
                        b,
                        u,
                    ),
                forall|u: int|
                    0 <= u < it ==> off@[a * nt + u] == #[trigger] quad_start(
                        acts,
                        nt as int,
                        a as int,
                        u,
                    ),
                off@[a * nt + it] == dat@.len() as int / 4,
            decreases nt - it,
        {
            let trs: &Vec<StateTransition> = &act.state_transitions[it as usize];
            let ghost inner = dat@;
            let mut k: usize = 0;
            assert(inner + outcome_quads(trs@, 0) =~= inner);
            while k < trs.len()
                invariant
                    k <= trs@.len(),
                    dat@ == inner + outcome_quads(trs@, k as int),
                decreases trs.len() - k,
            {
                let tr: StateTransition = trs[k];
                dat.push(tr.dix);
                dat.push(tr.diy);
                dat.push(tr.dit);
                dat.push(tr.prob);
                assert(dat@ =~= inner + outcome_quads(trs@, k + 1));
                k += 1;
            }
            proof {
                assert(dat@ =~= base + heading_quads(*act, it + 1));
                lemma_heading_quads_grow(*act, it + 1, nt as int);
                lemma_quads_grow(acts, nt as int, a + 1, acts.len() as int);
            }
            let ghost o0 = off@;
            off.push((dat.len() / 4) as i32);
            proof {
                assert(0 <= a * nt) by (nonlinear_arith)
                    requires
                        0 <= a,
                        0 <= nt,
                ;
                assert forall|b: int, u: int| 0 <= b < a && 0 <= u < nt implies off@[b * nt + u]
                    == #[trigger] quad_start(acts, nt as int, b, u) by {
                    assert(0 <= b * nt + u <= a * nt) by (nonlinear_arith)
                        requires
                            0 <= b,
                            b + 1 <= a,
                            0 <= u < nt,
                    ;
                    assert(o0[b * nt + u] == quad_start(acts, nt as int, b, u));
                }
                assert forall|u: int| 0 <= u < it + 1 implies off@[a * nt + u]
                    == #[trigger] quad_start(acts, nt as int, a as int, u) by {}
            }
            it += 1;
        }
        proof {
            assert(dat@ =~= action_quads(acts, nt as int, a + 1));
            assert forall|b: int, u: int| 0 <= b < a + 1 && 0 <= u < nt implies off@[b * nt + u]
                == #[trigger] quad_start(acts, nt as int, b, u) by {
                if b == a {
                    assert(off@[a * nt + u] == quad_start(acts, nt as int, a as int, u));
                }
            }
        }
        a += 1;
    }
    (off, dat)
}

/// Each outcome stands in four numbers: the columns and rows that it leads on, the heading
/// that it leads to, and its samples, one outcome after the other.
pub proof fn law_outcomes_stand_in_fours(trs: Seq<StateTransition>, n: int, k: int)
    requires
        0 <= k < n <= trs.len(),
    ensures
        outcome_quads(trs, n).len() == 4 * n,
        outcome_quads(trs, n)[4 * k] == trs[k].dix,
        outcome_quads(trs, n)[4 * k + 1] == trs[k].diy,
        outcome_quads(trs, n)[4 * k + 2] == trs[k].dit,
        outcome_quads(trs, n)[4 * k + 3] == trs[k].prob,
    decreases n,
{
    if k < n - 1 {
        law_outcomes_stand_in_fours(trs, n - 1, k);
    } else {
        lemma_fours(trs, n - 1);
    }
}

proof fn lemma_fours(trs: Seq<StateTransition>, n: int)
    requires
        0 <= n,
    ensures
        outcome_quads(trs, n).len() == 4 * n,
    decreases n,
{
    if n > 0 {
        lemma_fours(trs, n - 1);
    }
}

} // verus!
