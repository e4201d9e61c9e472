//! The start and the end of a chunk.
use vstd::prelude::*;

use crate::params::MAX_COST;
use crate::solvers::gpu::batch::{job_patches, job_watch, lemma_problems_grow};
use crate::solvers::gpu::jobs::{covers, jobs_of, problems, Job};
use crate::solvers::gpu::judge::{
    lemma_starts_grow, patch_start, patch_starts, read_crossing, write_job, Watched,
};
use crate::solvers::gpu::plan::{jobs_ok, GpuPlan};
use crate::solvers::schur::artifact::{SchurArtifact, TileEdges};
use crate::solvers::schur::patch::PatchAgg;

verus! {

/// The most states that one of the jobs `lo` to `hi` watches.
pub open spec fn widest(plan: GpuPlan, lo: int, hi: int) -> int
    decreases hi - lo,
{
    if hi <= lo {
        0
    } else {
        let w = widest(plan, lo, hi - 1);
        let n = job_watch(plan, hi - 1).len() as int;
        if n > w {
            n
        } else {
            w
        }
    }
}

/// The watched states of every job can be counted.
pub open spec fn watch_countable(plan: GpuPlan) -> bool {
    forall|k: int| 0 <= k < plan.jobs@.len() ==> #[trigger] job_watch(plan, k).len() <= usize::MAX
}

/// The most states that one of the jobs `lo` to `hi` watches.
pub fn widest_watch(plan: &GpuPlan, lo: usize, hi: usize) -> (r: usize)
    requires
        jobs_ok(*plan),
        watch_countable(*plan),
        lo <= hi <= plan.jobs@.len(),
    ensures
        r == widest(*plan, lo as int, hi as int),
{
    let mut w: usize = 0;
    let mut k: usize = lo;
    while k < hi
        invariant
            jobs_ok(*plan),
            watch_countable(*plan),
            lo <= k <= hi <= plan.jobs@.len(),
            w == widest(*plan, lo as int, k as int),
        decreases hi - k,
    {
        assert(plan.jobs@[k as int].tile < plan.patches@.len());
        let patches: &Vec<Vec<i32>> = &plan.patches[plan.jobs[k].tile];
        assert(job_watch(*plan, k as int).len() <= usize::MAX);
        let starts: Vec<usize> = patch_starts(patches);
        assert(starts@[patches@.len() as int] == patch_start(patches@, patches@.len() as int));
        let n: usize = starts[patches.len()];
        if n > w {
            w = n;
        }
        k += 1;
    }
    w
}

/// No job of `lo` to `hi` watches more states than the widest.
pub proof fn law_widest_covers_all(plan: GpuPlan, lo: int, hi: int, k: int)
    requires
        lo <= k < hi,
    ensures
        job_watch(plan, k).len() <= widest(plan, lo, hi),
    decreases hi - lo,
{
    if k < hi - 1 {
        law_widest_covers_all(plan, lo, hi - 1, k);
    }
}

/// What is known of problem `j` of job `k` before the first pass: its own patch is
/// reached, all else is unknown.
pub open spec fn starts_at(plan: GpuPlan, k: int, j: int, w: Watched) -> bool {
    let ps = job_patches(plan, k);
    let i = plan.jobs@[k].first + j;
    &&& w.wf()
    &&& w.stable == 0
    &&& !w.done
    &&& w.prev@ == Seq::new(
        job_watch(plan, k).len(),
        |q: int|
            if patch_start(ps, i) <= q < patch_start(ps, i + 1) {
                0u64
            } else {
                MAX_COST
            },
    )
}

/// What is known of all problems of a chunk before the first pass.
pub open spec fn chunk_started(plan: GpuPlan, lo: int, hi: int, probs: Seq<Watched>) -> bool {
    &&& probs.len() == problems(plan.jobs@, lo, hi)
    &&& forall|k: int, j: int|
        lo <= k < hi && 0 <= j < plan.jobs@[k].count ==> starts_at(
            plan,
            k,
            j,
            #[trigger] probs[problems(plan.jobs@, lo, k) + j],
        )
}

/// What is known of all problems of a chunk before the first pass.
pub fn start_chunk(plan: &GpuPlan, lo: usize, hi: usize) -> (r: Vec<Watched>)
    requires
        jobs_ok(*plan),
        watch_countable(*plan),
        lo <= hi <= plan.jobs@.len(),
    ensures
        chunk_started(*plan, lo as int, hi as int, r@),
{
    let ghost pl = *plan;
    let ghost l = lo as int;
    let mut out: Vec<Watched> = Vec::new();
    let mut k: usize = lo;
    while k < hi
        invariant
            pl == *plan,
            l == lo,
            jobs_ok(*plan),
            watch_countable(*plan),
            lo <= k <= hi <= plan.jobs@.len(),
            chunk_started(pl, l, k as int, out@),
        decreases hi - k,
    {
        let job: Job = plan.jobs[k];
        assert(plan.jobs@[k as int].tile < plan.patches@.len());
        let patches: &Vec<Vec<i32>> = &plan.patches[job.tile];
        assert(job_watch(*plan, k as int).len() <= usize::MAX);
        let starts: Vec<usize> = patch_starts(patches);
        let ghost ps = patches@;
        let np: usize = patches.len();
        assert(starts@[np as int] == patch_start(ps, np as int));
        let watched: usize = starts[np];
        let ghost o0 = out@;
        let ghost n0 = problems(pl.jobs@, l, k as int);
        let mut j: usize = 0;
        while j < job.count
            invariant
                ps == job_patches(pl, k as int),
                job == pl.jobs@[k as int],
                np == ps.len(),
                job.first + job.count <= np,
                starts@.len() == np + 1,
                forall|i: int| 0 <= i <= np ==> #[trigger] starts@[i] == patch_start(ps, i),
                watched == job_watch(pl, k as int).len(),
                watched == patch_start(ps, np as int),
                n0 == o0.len(),
                j <= job.count,
                out@.len() == n0 + j,
                forall|i: int| 0 <= i < n0 ==> #[trigger] out@[i] == o0[i],
                forall|i: int|
                    0 <= i < j ==> starts_at(pl, k as int, i, #[trigger] out@[n0 + i]),
            decreases job.count - j,
        {
            let i: usize = job.first + j;
            proof {
                lemma_starts_grow(ps, i as int, i + 1);
                lemma_starts_grow(ps, i + 1, np as int);
                assert(starts@[i as int] == patch_start(ps, i as int));
                assert(starts@[i + 1] == patch_start(ps, i + 1));
            }
            let w: Watched = Watched::new(watched, starts[i], starts[i + 1]);
            proof {
                assert(w.prev@ =~= Seq::new(
                    job_watch(pl, k as int).len(),
                    |q: int|
                        if patch_start(ps, i as int) <= q < patch_start(ps, i + 1) {
                            0u64
                        } else {
                            MAX_COST
                        },
                ));
                assert(starts_at(pl, k as int, j as int, w));
            }
            let ghost o1 = out@;
            out.push(w);
            proof {
                assert forall|i: int| 0 <= i < j + 1 implies starts_at(
                    pl,
                    k as int,
                    i,
                    #[trigger] out@[n0 + i],
                ) by {
                    if i < j {
                        assert(out@[n0 + i] == o1[n0 + i]);
                    }
                }
            }
            j += 1;
        }
        proof {
            assert(problems(pl.jobs@, l, k + 1) == n0 + job.count);
            assert forall|q: int, i: int|
                l <= q < k + 1 && 0 <= i < pl.jobs@[q].count implies starts_at(
                pl,
                q,
                i,
                #[trigger] out@[problems(pl.jobs@, l, q) + i],
            ) by {
                if q < k {
                    lemma_problem_range(pl.jobs@, l, q, k as int, i);
                    assert(starts_at(pl, q, i, o0[problems(pl.jobs@, l, q) + i]));
                }
            }
        }
        k += 1;
    }
    out
}

/// A problem of an earlier job comes before those of a later job.
pub proof fn lemma_problem_range(jobs: Seq<Job>, lo: int, q: int, k: int, i: int)
    requires
        lo <= q < k,
        0 <= i < jobs[q].count,
    ensures
        0 <= problems(jobs, lo, q) + i < problems(jobs, lo, k),
    decreases k - lo,
{
    lemma_problems_grow(jobs, lo, lo, q);
    lemma_problems_grow(jobs, lo, q + 1, k);
}

/// No problem belongs to two jobs.
pub open spec fn jobs_apart(jobs: Seq<Job>) -> bool {
    forall|a: int, b: int, t: int, j: int|
        0 <= a < jobs.len() && 0 <= b < jobs.len() && #[trigger] covers(jobs[a], t, j)
            && #[trigger] covers(jobs[b], t, j) ==> a == b
}

/// The tiles have the crossing costs that jobs ask for.
pub open spec fn tiles_match(art: SchurArtifact, patches: Seq<Vec<Vec<i32>>>) -> bool {
    &&& patches.len() == art.tiles@.len()
    &&& forall|t: int|
        0 <= t < patches.len() ==> (#[trigger] art.tiles@[t]).w@.len() == patches[t]@.len()
            * patches[t]@.len()
}

/// The crossing cost from portal `i` to portal `j` of tile `t`.
pub open spec fn edge(
    art: SchurArtifact,
    patches: Seq<Vec<Vec<i32>>>,
    t: int,
    i: int,
    j: int,
) -> u64 {
    art.tiles@[t].w@[i * patches[t]@.len() + j]
}

/// Only the crossing costs may differ.
pub open spec fn same_but_costs(a: SchurArtifact, b: SchurArtifact) -> bool {
    &&& a.tile == b.tile
    &&& a.halo == b.halo
    &&& a.nx == b.nx
    &&& a.ny == b.ny
    &&& a.nt == b.nt
    &&& a.tnx == b.tnx
    &&& a.tny == b.tny
    &&& a.portals == b.portals
    &&& a.tiles@.len() == b.tiles@.len()
    &&& forall|t: int|
        0 <= t < a.tiles@.len() ==> (#[trigger] a.tiles@[t]).portals == b.tiles@[t].portals
            && a.tiles@[t].w@.len() == b.tiles@[t].w@.len()
}

/// Problem `j` of tile `t` belongs to one of the jobs `lo` to `hi`.
pub open spec fn in_chunk(jobs: Seq<Job>, lo: int, hi: int, t: int, j: int) -> bool {
    exists|k: int| lo <= k < hi && covers(#[trigger] jobs[k], t, j)
}

/// The costs of the jobs `lo` to `hi` have been taken over, and no others.
pub open spec fn chunk_written(
    a: SchurArtifact,
    b: SchurArtifact,
    patches: Seq<Vec<Vec<i32>>>,
    jobs: Seq<Job>,
    lo: int,
    hi: int,
    out: Seq<u64>,
    stride: int,
    agg: PatchAgg,
) -> bool {
    &&& same_but_costs(a, b)
    &&& forall|k: int, i: int, j: int|
        #![trigger edge(b, patches, jobs[k].tile as int, i, j)]
        lo <= k < hi && covers(jobs[k], jobs[k].tile as int, j) && 0 <= i
            < patches[jobs[k].tile as int]@.len() ==> edge(b, patches, jobs[k].tile as int, i, j)
            == read_crossing(
            patches[jobs[k].tile as int]@,
            out,
            (problems(jobs, lo, k) + (j - jobs[k].first)) * stride,
            i,
            j,
            agg,
        )
    &&& forall|t: int, i: int, j: int|
        #![trigger edge(b, patches, t, i, j)]
        0 <= t < patches.len() && 0 <= i < patches[t]@.len() && 0 <= j < patches[t]@.len()
            && !in_chunk(jobs, lo, hi, t, j) ==> edge(b, patches, t, i, j) == edge(
            a,
            patches,
            t,
            i,
            j,
        )
}

/// Takes the crossing costs of the jobs `lo` to `hi` over from what the kernels watched.
pub fn write_chunk(
    art: &mut SchurArtifact,
    patches: &Vec<Vec<Vec<i32>>>,
    jobs: &Vec<Job>,
    lo: usize,
    hi: usize,
    out: &Vec<u64>,
    stride: usize,
    agg: PatchAgg,
)
    requires
        tiles_match(*old(art), patches@),
        jobs_apart(jobs@),
        lo <= hi <= jobs@.len(),
        forall|k: int|
            lo <= k < hi ==> {
                let job = #[trigger] jobs@[k];
                &&& job.tile < patches@.len()
                &&& job.first + job.count <= patches@[job.tile as int]@.len()
                &&& patch_start(
                    patches@[job.tile as int]@,
                    patches@[job.tile as int]@.len() as int,
                ) <= stride
            },
        problems(jobs@, lo as int, hi as int) * stride <= out@.len(),
        problems(jobs@, lo as int, hi as int) <= usize::MAX,
    ensures
        tiles_match(*final(art), patches@),
        chunk_written(
            *old(art),
            *final(art),
            patches@,
            jobs@,
            lo as int,
            hi as int,
            out@,
            stride as int,
            agg,
        ),
{
    let ghost a0 = *art;
    let ghost ps = patches@;
    let ghost js = jobs@;
    let ghost l = lo as int;
    let ghost total = problems(js, l, hi as int);
    let mut base: usize = 0;
    let mut k: usize = lo;
    while k < hi
        invariant
            ps == patches@,
            js == jobs@,
            l == lo,
            tiles_match(a0, ps),
            tiles_match(*art, ps),
            jobs_apart(js),
            lo <= k <= hi <= js.len(),
            forall|k: int|
                lo <= k < hi ==> {
                    let job = #[trigger] js[k];
                    &&& job.tile < ps.len()
                    &&& job.first + job.count <= ps[job.tile as int]@.len()
                    &&& patch_start(ps[job.tile as int]@, ps[job.tile as int]@.len() as int)
                        <= stride
                },
            total == problems(js, l, hi as int),
            total * stride <= out@.len(),
            total <= usize::MAX,
            base == problems(js, l, k as int),
            chunk_written(a0, *art, ps, js, l, k as int, out@, stride as int, agg),
        decreases hi - k,
    {
        let job: Job = jobs[k];
        let ghost a1 = *art;
        proof {
            assert(js[k as int].tile < ps.len());
            lemma_problems_grow(js, l, k + 1, hi as int);
            assert((base + job.count) * stride <= total * stride) by (nonlinear_arith)
                requires
                    base + job.count <= total,
                    0 <= stride,
            ;
            assert(a1.tiles@[job.tile as int].w@.len() == ps[job.tile as int]@.len()
                * ps[job.tile as int]@.len());
        }
        let e: &mut TileEdges = &mut art.tiles[job.tile];
        write_job(&mut e.w, &patches[job.tile], &job, out, base, stride, agg);
        proof {
            let p = ps[job.tile as int]@;
            assert forall|i: int, j: int|
                0 <= i < p.len() && 0 <= j < p.len() implies #[trigger] edge(
                *art,
                ps,
                job.tile as int,
                i,
                j,
            ) == if job.first <= j < job.first + job.count {
                read_crossing(p, out@, (base + (j - job.first)) * stride, i, j, agg)
            } else {
                edge(a1, ps, job.tile as int, i, j)
            } by {
                let v = art.tiles@[job.tile as int].w@[i * p.len() + j];
            }
            lemma_written(a0, a1, *art, ps, js, l, k as int, out@, stride as int, agg);
        }
        base += job.count;
        k += 1;
    }
}

proof fn lemma_written(
    a0: SchurArtifact,
    a1: SchurArtifact,
    a2: SchurArtifact,
    ps: Seq<Vec<Vec<i32>>>,
    js: Seq<Job>,
    l: int,
    k: int,
    out: Seq<u64>,
    stride: int,
    agg: PatchAgg,
)
    requires
        0 <= l <= k < js.len(),
        js[k].tile < ps.len(),
        jobs_apart(js),
        tiles_match(a1, ps),
        chunk_written(a0, a1, ps, js, l, k, out, stride, agg),
        a2.tiles@.len() == a1.tiles@.len(),
        a2 == (SchurArtifact { tiles: a2.tiles, ..a1 }),
        forall|t: int|
            0 <= t < a1.tiles@.len() && t != js[k].tile ==> #[trigger] a2.tiles@[t]
                == a1.tiles@[t],
        a2.tiles@[js[k].tile as int].portals == a1.tiles@[js[k].tile as int].portals,
        a2.tiles@[js[k].tile as int].w@.len() == a1.tiles@[js[k].tile as int].w@.len(),
        forall|i: int, j: int|
            0 <= i < ps[js[k].tile as int]@.len() && 0 <= j < ps[js[k].tile as int]@.len()
                ==> #[trigger] edge(a2, ps, js[k].tile as int, i, j) == if js[k].first <= j
                < js[k].first + js[k].count {
                read_crossing(
                    ps[js[k].tile as int]@,
                    out,
                    (problems(js, l, k) + (j - js[k].first)) * stride,
                    i,
                    j,
                    agg,
                )
            } else {
                edge(a1, ps, js[k].tile as int, i, j)
            },
        js[k].first + js[k].count <= ps[js[k].tile as int]@.len(),
        forall|q: int|
            l <= q < k ==> {
                let job = #[trigger] js[q];
                &&& job.tile < ps.len()
                &&& job.first + job.count <= ps[job.tile as int]@.len()
            },
    ensures
        tiles_match(a2, ps),
        chunk_written(a0, a2, ps, js, l, k + 1, out, stride, agg),
{
    let job = js[k];
    assert forall|t: int| 0 <= t < ps.len() implies (#[trigger] a2.tiles@[t]).w@.len()
        == ps[t]@.len() * ps[t]@.len() by {
        assert(a1.tiles@[t].w@.len() == ps[t]@.len() * ps[t]@.len());
    }
    assert(same_but_costs(a0, a2)) by {
        assert forall|t: int| 0 <= t < a0.tiles@.len() implies (#[trigger] a0.tiles@[t]).portals
            == a2.tiles@[t].portals && a0.tiles@[t].w@.len() == a2.tiles@[t].w@.len() by {
            assert(a0.tiles@[t].portals == a1.tiles@[t].portals);
        }
    }
    assert forall|q: int, i: int, j: int|
        #![trigger edge(a2, ps, js[q].tile as int, i, j)]
        l <= q < k + 1 && covers(js[q], js[q].tile as int, j) && 0 <= i
            < ps[js[q].tile as int]@.len() implies edge(a2, ps, js[q].tile as int, i, j)
        == read_crossing(
        ps[js[q].tile as int]@,
        out,
        (problems(js, l, q) + (j - js[q].first)) * stride,
        i,
        j,
        agg,
    ) by {
        let t = js[q].tile as int;
        if q < k {
            assert(edge(a1, ps, t, i, j) == read_crossing(
                ps[t]@,
                out,
                (problems(js, l, q) + (j - js[q].first)) * stride,
                i,
                j,
                agg,
            ));
            if t == job.tile {
                assert(!covers(js[k], t, j)) by {
                    if covers(js[k], t, j) {
                        assert(covers(js[q], t, j));
                    }
                }
            } else {
                assert(a2.tiles@[t] == a1.tiles@[t]);
            }
        }
    }
    assert forall|t: int, i: int, j: int|
        #![trigger edge(a2, ps, t, i, j)]
        0 <= t < ps.len() && 0 <= i < ps[t]@.len() && 0 <= j < ps[t]@.len() && !in_chunk(
            js,
            l,
            k + 1,
            t,
            j,
        ) implies edge(a2, ps, t, i, j) == edge(a0, ps, t, i, j) by {
        assert(!covers(js[k], t, j));
        assert(!in_chunk(js, l, k, t, j)) by {
            if in_chunk(js, l, k, t, j) {
                let q = choose|q: int| l <= q < k && covers(#[trigger] js[q], t, j);
                assert(covers(js[q], t, j));
            }
        }
        assert(edge(a1, ps, t, i, j) == edge(a0, ps, t, i, j));
        if t != job.tile {
            assert(a2.tiles@[t] == a1.tiles@[t]);
        }
    }
}

/// The jobs that tiles are split into never share a problem.
pub proof fn law_jobs_apart(counts: Seq<usize>, n: int, cap: int)
    requires
        0 <= n <= counts.len() <= usize::MAX,
        1 <= cap,
    ensures
        jobs_apart(jobs_of(counts, n, cap)),
{
    let jobs = jobs_of(counts, n, cap);
    assert forall|a: int, b: int, t: int, j: int|
        0 <= a < jobs.len() && 0 <= b < jobs.len() && #[trigger] covers(jobs[a], t, j)
            && #[trigger] covers(jobs[b], t, j) implies a == b by {
        crate::solvers::gpu::jobs::lemma_jobs_range(counts, n, cap);
        assert(jobs[a].tile < n);
        crate::solvers::gpu::jobs::law_jobs_partition(counts, n, cap, t, j);
    }
}

} // verus!
