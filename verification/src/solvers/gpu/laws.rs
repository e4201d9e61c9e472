//! What an artifact that was computed in chunks has in common with one that was built at
//! once.
use vstd::prelude::*;

use crate::solvers::gpu::chunk::{chunk_written, edge, in_chunk, same_but_costs};
use crate::solvers::gpu::jobs::{covers, law_jobs_partition};
use crate::solvers::gpu::plan::{portal_counts, tile_patched, GpuPlan};
use crate::solvers::schur::artifact::{SchurArtifact, SchurConfig, TileEdges};
use crate::solvers::schur::crossing::built;
use crate::solvers::schur::domain::edges_ok;
use crate::solvers::schur::patch::PatchAgg;
use crate::value_iterator::ValueIterator;

verus! {

/// A chunk that has been computed: the jobs up to `hi`, what the kernels watched, and the
/// artifact after it has been taken over.
pub struct Chunk {
    pub hi: int,
    pub out: Seq<u64>,
    pub stride: int,
    pub art: SchurArtifact,
}

/// Where chunk number `c` starts.
pub open spec fn chunk_lo(chunks: Seq<Chunk>, c: int) -> int {
    if c <= 0 {
        0
    } else {
        chunks[c - 1].hi
    }
}

/// The artifact after `c` chunks.
pub open spec fn art_after(plan: GpuPlan, chunks: Seq<Chunk>, c: int) -> SchurArtifact {
    if c <= 0 {
        plan.art
    } else {
        chunks[c - 1].art
    }
}

/// The first `n` chunks have been taken over one after the other.
pub open spec fn chunks_written(
    plan: GpuPlan,
    chunks: Seq<Chunk>,
    n: int,
    agg: PatchAgg,
) -> bool {
    forall|c: int|
        0 <= c < n ==> chunk_lo(chunks, c) <= (#[trigger] chunks[c]).hi && chunk_written(
            art_after(plan, chunks, c),
            chunks[c].art,
            plan.patches@,
            plan.jobs@,
            chunk_lo(chunks, c),
            chunks[c].hi,
            chunks[c].out,
            chunks[c].stride,
            agg,
        )
}

/// The two artifacts have the same tiling, the same portals under the same numbers, and the
/// same list of them in every tile.
pub open spec fn same_portals(a: SchurArtifact, b: SchurArtifact) -> bool {
    &&& a.tile == b.tile
    &&& a.halo == b.halo
    &&& a.nx == b.nx
    &&& a.ny == b.ny
    &&& a.nt == b.nt
    &&& a.tnx == b.tnx
    &&& a.tny == b.tny
    &&& a.portals@ == b.portals@
    &&& a.tiles@.len() == b.tiles@.len()
    &&& forall|t: int|
        0 <= t < a.tiles@.len() ==> (#[trigger] a.tiles@[t]).portals@ == b.tiles@[t].portals@
}

/// A plan starts with the portals of the artifact that is built of the same map.
pub proof fn law_plan_has_the_portals_of_a_build(
    plan: GpuPlan,
    a: SchurArtifact,
    vi: ValueIterator,
    cfg: SchurConfig,
    agg: PatchAgg,
)
    requires
        plan.plans(vi),
        plan.starts(vi, cfg),
        built(a, vi, cfg, agg),
    ensures
        same_portals(plan.art, a),
{
    let p = plan.art;
    let (lp, la) = (
        p.tiles@.map_values(|e: TileEdges| e.portals@),
        a.tiles@.map_values(|e: TileEdges| e.portals@),
    );
    assert(lp.len() == la.len());
    assert(p.portals@ == a.portals@ && lp == la);
    assert forall|t: int| 0 <= t < p.tiles@.len() implies (#[trigger] p.tiles@[t]).portals@
        == a.tiles@[t].portals@ by {
        assert(lp[t] == p.tiles@[t].portals@ && la[t] == a.tiles@[t].portals@);
    }
}

/// Chunks change nothing but costs.
proof fn lemma_chunks_frame(plan: GpuPlan, chunks: Seq<Chunk>, n: int, agg: PatchAgg)
    requires
        0 <= n <= chunks.len(),
        chunks_written(plan, chunks, n, agg),
    ensures
        0 <= chunk_lo(chunks, n),
        same_but_costs(plan.art, art_after(plan, chunks, n)),
    decreases n,
{
    if n > 0 {
        lemma_chunks_frame(plan, chunks, n - 1, agg);
        let (a, b) = (art_after(plan, chunks, n - 1), chunks[n - 1].art);
        assert forall|u: int| 0 <= u < plan.art.tiles@.len() implies (
        #[trigger] plan.art.tiles@[u]).portals == b.tiles@[u].portals
            && plan.art.tiles@[u].w@.len() == b.tiles@[u].w@.len() by {
            assert(a.tiles@[u].portals == b.tiles@[u].portals);
        }
    }
}

/// Chunks leave the crossing of every portal to itself that they have come to at nothing.
proof fn lemma_chunks_stay(
    plan: GpuPlan,
    chunks: Seq<Chunk>,
    n: int,
    agg: PatchAgg,
    t: int,
    i: int,
)
    requires
        0 <= n <= chunks.len(),
        chunks_written(plan, chunks, n, agg),
        0 <= t < plan.patches@.len(),
        0 <= i < plan.patches@[t]@.len(),
        in_chunk(plan.jobs@, 0, chunk_lo(chunks, n), t, i),
    ensures
        edge(art_after(plan, chunks, n), plan.patches@, t, i, i) == 0,
    decreases n,
{
    if n > 0 {
        let (lo, hi) = (chunk_lo(chunks, n - 1), chunks[n - 1].hi);
        let (a, b) = (art_after(plan, chunks, n - 1), chunks[n - 1].art);
        let k = choose|k: int| 0 <= k < hi && covers(#[trigger] plan.jobs@[k], t, i);
        if in_chunk(plan.jobs@, lo, hi, t, i) {
            let q = choose|q: int| lo <= q < hi && covers(#[trigger] plan.jobs@[q], t, i);
            assert(covers(plan.jobs@[q], plan.jobs@[q].tile as int, i));
            assert(edge(b, plan.patches@, plan.jobs@[q].tile as int, i, i) == 0);
        } else {
            assert(k < lo) by {
                if lo <= k {
                    assert(covers(plan.jobs@[k], t, i));
                }
            }
            assert(in_chunk(plan.jobs@, 0, lo, t, i));
            lemma_chunks_stay(plan, chunks, n - 1, agg, t, i);
            assert(edge(b, plan.patches@, t, i, i) == edge(a, plan.patches@, t, i, i));
        }
    }
}

/// Every portal of a tile has a job.
proof fn lemma_portal_has_job(plan: GpuPlan, vi: ValueIterator, t: int, i: int)
    requires
        plan.plans(vi),
        0 <= t < plan.art.tiles@.len(),
        0 <= i < plan.art.tiles@[t].portals@.len(),
    ensures
        in_chunk(plan.jobs@, 0, plan.jobs@.len() as int, t, i),
{
    let counts = portal_counts(plan.art);
    let n = plan.art.tiles@.len() as int;
    assert(plan.art.tiles.len() == n);
    assert(plan.art.tiles@[t].portals.len() == plan.art.tiles@[t].portals@.len());
    law_jobs_partition(counts, n, plan.cap as int, t, i);
    let k = choose|k: int| 0 <= k < plan.jobs@.len() && covers(#[trigger] plan.jobs@[k], t, i);
    assert(covers(plan.jobs@[k], t, i));
}

/// An artifact that was computed in chunks has the tiling, the portals and the lists of one
/// that is built of the same map at once. It has a cost for every pair of portals of a tile,
/// and none for staying. The other costs are what the kernels made of them.
pub proof fn law_chunks_make_an_artifact(
    plan: GpuPlan,
    chunks: Seq<Chunk>,
    a: SchurArtifact,
    vi: ValueIterator,
    cfg: SchurConfig,
    agg: PatchAgg,
    t: int,
)
    requires
        plan.plans(vi),
        plan.starts(vi, cfg),
        chunks_written(plan, chunks, chunks.len() as int, agg),
        chunk_lo(chunks, chunks.len() as int) == plan.jobs@.len(),
        built(a, vi, cfg, agg),
        0 <= t < plan.art.tiles@.len(),
    ensures
        same_portals(art_after(plan, chunks, chunks.len() as int), a),
        ({
            let e = art_after(plan, chunks, chunks.len() as int).tiles@[t];
            let n = e.portals@.len() as int;
            &&& e.w@.len() == n * n
            &&& forall|i: int| 0 <= i < n ==> #[trigger] e.w@[i * n + i] == 0
        }),
{
    let m = chunks.len() as int;
    let b = art_after(plan, chunks, m);
    law_plan_has_the_portals_of_a_build(plan, a, vi, cfg, agg);
    lemma_chunks_frame(plan, chunks, m, agg);
    assert forall|u: int| 0 <= u < b.tiles@.len() implies (#[trigger] b.tiles@[u]).portals@
        == a.tiles@[u].portals@ by {
        assert(plan.art.tiles@[u].portals == b.tiles@[u].portals);
    }
    assert(plan.art.tiles@[t].portals == b.tiles@[t].portals);
    assert(edges_ok(plan.art.tiles@[t], plan.art.portals@.len() as int));
    let e = b.tiles@[t];
    let n = e.portals@.len() as int;
    assert(tile_patched(plan.art, vi, t, plan.patches@[t]@));
    assert forall|i: int| 0 <= i < n implies #[trigger] e.w@[i * n + i] == 0 by {
        lemma_portal_has_job(plan, vi, t, i);
        lemma_chunks_stay(plan, chunks, m, agg, t, i);
        assert(edge(b, plan.patches@, t, i, i) == e.w@[i * n + i]);
    }
}

} // verus!
