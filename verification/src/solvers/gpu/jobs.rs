//! Cutting the precomputation of a tiling into pieces that fit a graphics card.
//!
//! A problem is one tile with the patch of one of its portals pinned. A job is a run
//! of problems of one tile, and a chunk a run of jobs that are solved together.
use vstd::prelude::*;

verus! {

/// Most problems of a chunk.
pub const PROBS_PER_CHUNK: usize = 1024;

/// Bytes that the values of a chunk may take.
pub const VALUE_BYTES: usize = 0x8000_0000;

/// The problems `first` up to, but without, `first + count` of a tile.
#[derive(Clone, Copy, Debug, PartialEq, Eq, Structural)]
pub struct Job {
    pub tile: usize,
    pub first: usize,
    pub count: usize,
}

/// Problems of a chunk whose problems have `dom` states each.
pub open spec fn cap_of(dom: int) -> int {
    let bytes = if dom * 8 >= 1 {
        dom * 8
    } else {
        1
    };
    let fit = VALUE_BYTES as int / bytes;
    if fit < 1 {
        1
    } else if fit < PROBS_PER_CHUNK {
        fit
    } else {
        PROBS_PER_CHUNK as int
    }
}

/// Problems of a chunk whose problems have `dom` states each: as many as the bytes
/// allow, but at least one.
pub fn probs_cap(dom: usize) -> (r: usize)
    ensures
        r == cap_of(dom as int),
        1 <= r <= PROBS_PER_CHUNK,
{
    if dom == 0 {
        return PROBS_PER_CHUNK;
    }
    let fit: usize = (VALUE_BYTES / 8) / dom;
    proof {
        vstd::arithmetic::div_mod::lemma_div_denominator(VALUE_BYTES as int, 8, dom as int);
    }
    if fit < 1 {
        1
    } else if fit < PROBS_PER_CHUNK {
        fit
    } else {
        PROBS_PER_CHUNK
    }
}

/// The lesser of two numbers.
pub open spec fn smaller(a: int, b: int) -> int {
    if a < b {
        a
    } else {
        b
    }
}

/// The problems of tile `t` from `j` to `n`, in jobs of at most `cap`.
pub open spec fn tile_jobs(t: int, j: int, n: int, cap: int) -> Seq<Job>
    decreases n - j,
{
    if j >= n || cap < 1 {
        Seq::empty()
    } else {
        let c = smaller(cap, n - j);
        seq![Job { tile: t as usize, first: j as usize, count: c as usize }] + tile_jobs(
            t,
            j + c,
            n,
            cap,
        )
    }
}

/// The jobs of the first `n` tiles, where tile `t` has `counts[t]` problems.
pub open spec fn jobs_of(counts: Seq<usize>, n: int, cap: int) -> Seq<Job>
    decreases n,
{
    if n <= 0 {
        Seq::empty()
    } else {
        jobs_of(counts, n - 1, cap) + tile_jobs(n - 1, 0, counts[n - 1] as int, cap)
    }
}

/// The jobs for tiles with the given numbers of problems, of at most `cap` problems
/// each.
pub fn split_jobs(counts: &Vec<usize>, cap: usize) -> (r: Vec<Job>)
    requires
        1 <= cap,
    ensures
        r@ == jobs_of(counts@, counts@.len() as int, cap as int),
{
    let mut jobs: Vec<Job> = Vec::new();
    let mut t: usize = 0;
    while t < counts.len()
        invariant
            1 <= cap,
            t <= counts@.len(),
            jobs@ == jobs_of(counts@, t as int, cap as int),
        decreases counts.len() - t,
    {
        let n: usize = counts[t];
        let ghost base = jobs@;
        let mut j: usize = 0;
        assert(base + tile_jobs(t as int, 0, n as int, cap as int) =~= jobs@ + tile_jobs(
            t as int,
            j as int,
            n as int,
            cap as int,
        ));
        while j < n
            invariant
                1 <= cap,
                t < counts@.len(),
                j <= n,
                base + tile_jobs(t as int, 0, n as int, cap as int) == jobs@ + tile_jobs(
                    t as int,
                    j as int,
                    n as int,
                    cap as int,
                ),
            decreases n - j,
        {
            let left: usize = n - j;
            let count: usize = if cap < left {
                cap
            } else {
                left
            };
            let ghost before = jobs@;
            jobs.push(Job { tile: t, first: j, count });
            proof {
                let rest = tile_jobs(t as int, j + count, n as int, cap as int);
                assert(before + tile_jobs(t as int, j as int, n as int, cap as int) =~= jobs@
                    + rest);
            }
            j += count;
        }
        assert(jobs@ =~= base + tile_jobs(t as int, 0, n as int, cap as int));
        t += 1;
    }
    jobs
}

/// Problem `j` of tile `t` belongs to the job.
pub open spec fn covers(job: Job, t: int, j: int) -> bool {
    job.tile == t && job.first <= j < job.first + job.count
}

/// Problem `j` of tile `t` belongs to one of the jobs.
pub open spec fn covered(jobs: Seq<Job>, t: int, j: int) -> bool {
    exists|i: int| 0 <= i < jobs.len() && covers(#[trigger] jobs[i], t, j)
}

proof fn lemma_tile_jobs(t: int, j0: int, n: int, cap: int)
    requires
        0 <= t <= usize::MAX,
        0 <= j0,
        n <= usize::MAX,
        1 <= cap,
    ensures
        forall|i: int|
            0 <= i < tile_jobs(t, j0, n, cap).len() ==> {
                let job = #[trigger] tile_jobs(t, j0, n, cap)[i];
                &&& job.tile == t
                &&& j0 <= job.first
                &&& 1 <= job.count <= cap
                &&& job.first + job.count <= n
            },
        forall|j: int|
            j0 <= j < n ==> #[trigger] covered(tile_jobs(t, j0, n, cap), t, j),
        forall|j: int, a: int, b: int|
            0 <= a < tile_jobs(t, j0, n, cap).len() && 0 <= b < tile_jobs(t, j0, n, cap).len()
                && #[trigger] covers(tile_jobs(t, j0, n, cap)[a], t, j) && #[trigger] covers(
                tile_jobs(t, j0, n, cap)[b],
                t,
                j,
            ) ==> a == b,
    decreases n - j0,
{
    if j0 < n {
        let c = smaller(cap, n - j0);
        let rest = tile_jobs(t, j0 + c, n, cap);
        let all = tile_jobs(t, j0, n, cap);
        lemma_tile_jobs(t, j0 + c, n, cap);
        assert forall|i: int| 0 < i < all.len() implies #[trigger] all[i] == rest[i - 1] by {}
        assert forall|j: int| j0 <= j < n implies #[trigger] covered(all, t, j) by {
            if j < j0 + c {
                assert(covers(all[0], t, j));
            } else {
                assert(covered(rest, t, j));
                let i = choose|i: int| 0 <= i < rest.len() && covers(#[trigger] rest[i], t, j);
                assert(all[i + 1] == rest[i]);
            }
        }
        assert forall|j: int, a: int, b: int|
            0 <= a < all.len() && 0 <= b < all.len() && #[trigger] covers(all[a], t, j) && #[trigger] covers(
                all[b],
                t,
                j,
            ) implies a == b by {
            if a > 0 && b > 0 {
                assert(all[a] == rest[a - 1] && all[b] == rest[b - 1]);
            }
        }
    }
}

pub proof fn lemma_jobs_range(counts: Seq<usize>, n: int, cap: int)
    requires
        0 <= n <= counts.len() <= usize::MAX,
        1 <= cap,
    ensures
        forall|i: int|
            0 <= i < jobs_of(counts, n, cap).len() ==> {
                let job = #[trigger] jobs_of(counts, n, cap)[i];
                &&& job.tile < n
                &&& 1 <= job.count <= cap
                &&& job.first + job.count <= counts[job.tile as int]
            },
    decreases n,
{
    if n > 0 {
        lemma_jobs_range(counts, n - 1, cap);
        lemma_tile_jobs(n - 1, 0, counts[n - 1] as int, cap);
        let (a, b) = (
            jobs_of(counts, n - 1, cap),
            tile_jobs(n - 1, 0, counts[n - 1] as int, cap),
        );
        assert forall|i: int| 0 <= i < jobs_of(counts, n, cap).len() implies {
            let job = #[trigger] jobs_of(counts, n, cap)[i];
            &&& job.tile < n
            &&& 1 <= job.count <= cap
            &&& job.first + job.count <= counts[job.tile as int]
        } by {
            if i < a.len() {
                assert(jobs_of(counts, n, cap)[i] == a[i]);
            } else {
                assert(jobs_of(counts, n, cap)[i] == b[i - a.len()]);
            }
        }
    }
}

/// No job holds more than `cap` problems, and every problem of every tile belongs to
/// exactly one job.
pub proof fn law_jobs_partition(counts: Seq<usize>, n: int, cap: int, t: int, j: int)
    requires
        0 <= n <= counts.len() <= usize::MAX,
        1 <= cap,
        0 <= t < n,
        0 <= j < counts[t],
    ensures
        forall|i: int|
            0 <= i < jobs_of(counts, n, cap).len() ==> {
                let job = #[trigger] jobs_of(counts, n, cap)[i];
                &&& job.tile < n
                &&& 1 <= job.count <= cap
                &&& job.first + job.count <= counts[job.tile as int]
            },
        covered(jobs_of(counts, n, cap), t, j),
        forall|a: int, b: int|
            0 <= a < jobs_of(counts, n, cap).len() && 0 <= b < jobs_of(counts, n, cap).len()
                && #[trigger] covers(jobs_of(counts, n, cap)[a], t, j) && #[trigger] covers(
                jobs_of(counts, n, cap)[b],
                t,
                j,
            ) ==> a == b,
    decreases n,
{
    lemma_jobs_range(counts, n, cap);
    lemma_jobs_range(counts, n - 1, cap);
    lemma_tile_jobs(n - 1, 0, counts[n - 1] as int, cap);
    let head = jobs_of(counts, n - 1, cap);
    let tail = tile_jobs(n - 1, 0, counts[n - 1] as int, cap);
    let all = jobs_of(counts, n, cap);
    assert forall|i: int| 0 <= i < all.len() implies #[trigger] all[i] == if i < head.len() {
        head[i]
    } else {
        tail[i - head.len()]
    } by {}
    if t < n - 1 {
        law_jobs_partition(counts, n - 1, cap, t, j);
        let i = choose|i: int| 0 <= i < head.len() && covers(#[trigger] head[i], t, j);
        assert(covers(all[i], t, j));
        assert forall|a: int, b: int|
            0 <= a < all.len() && 0 <= b < all.len() && #[trigger] covers(all[a], t, j) && #[trigger] covers(
                all[b],
                t,
                j,
            ) implies a == b by {
            assert(a < head.len() && b < head.len());
            assert(head[a] == all[a] && head[b] == all[b]);
        }
    } else {
        assert(covered(tail, t, j));
        let i = choose|i: int| 0 <= i < tail.len() && covers(#[trigger] tail[i], t, j);
        assert(covers(all[head.len() + i], t, j));
        assert forall|a: int, b: int|
            0 <= a < all.len() && 0 <= b < all.len() && #[trigger] covers(all[a], t, j) && #[trigger] covers(
                all[b],
                t,
                j,
            ) implies a == b by {
            assert(a >= head.len() && b >= head.len());
            assert(tail[a - head.len()] == all[a] && tail[b - head.len()] == all[b]);
        }
    }
}

/// Problems of the jobs `lo` to `hi`.
pub open spec fn problems(jobs: Seq<Job>, lo: int, hi: int) -> int
    decreases hi - lo,
{
    if hi <= lo {
        0
    } else {
        problems(jobs, lo, hi - 1) + jobs[hi - 1].count
    }
}

/// The jobs `lo` to `hi` are a chunk: together they hold at most `cap` problems, and
/// one job more would not fit.
pub open spec fn is_chunk(jobs: Seq<Job>, lo: int, hi: int, cap: int) -> bool {
    &&& lo < hi <= jobs.len()
    &&& problems(jobs, lo, hi) <= cap
    &&& hi < jobs.len() ==> problems(jobs, lo, hi + 1) > cap
}

/// The end of the chunk that starts at job `lo`, and how many problems it holds.
pub fn next_chunk(jobs: &Vec<Job>, lo: usize, cap: usize) -> (r: (usize, usize))
    requires
        lo < jobs@.len(),
        forall|i: int| 0 <= i < jobs@.len() ==> 1 <= (#[trigger] jobs@[i]).count <= cap,
    ensures
        is_chunk(jobs@, lo as int, r.0 as int, cap as int),
        r.1 == problems(jobs@, lo as int, r.0 as int),
        1 <= r.1,
{
    let mut hi: usize = lo;
    let mut n: usize = 0;
    while hi < jobs.len()
        invariant_except_break
            n == problems(jobs@, lo as int, hi as int),
            n <= cap,
        invariant
            lo < jobs@.len(),
            lo <= hi <= jobs@.len(),
            forall|i: int| 0 <= i < jobs@.len() ==> 1 <= (#[trigger] jobs@[i]).count <= cap,
            n > 0 <==> hi > lo,
        ensures
            is_chunk(jobs@, lo as int, hi as int, cap as int),
            n == problems(jobs@, lo as int, hi as int),
            1 <= n,
        decreases jobs.len() - hi,
    {
        let c: usize = jobs[hi].count;
        if n > 0 && c > cap - n {
            break;
        }
        n += c;
        hi += 1;
    }
    (hi, n)
}

/// As many problems go into a chunk as the memory holds, one at least and 1024 at most.
pub proof fn law_chunk_fits_memory(dom: int)
    requires
        0 <= dom,
    ensures
        1 <= cap_of(dom) <= 1024,
        cap_of(dom) > 1 ==> cap_of(dom) * (8 * dom) <= VALUE_BYTES,
        cap_of(dom) < 1024 ==> (cap_of(dom) + 1) * (8 * dom) > VALUE_BYTES,
{
    if dom >= 1 {
        let (v, b) = (VALUE_BYTES as int, dom * 8);
        let c = cap_of(dom);
        vstd::arithmetic::div_mod::lemma_fundamental_div_mod(v, b);
        vstd::arithmetic::div_mod::lemma_mod_bound(v, b);
        let f = v / b;
        assert(c <= f ==> c * b <= v) by (nonlinear_arith)
            requires
                v == b * f + v % b,
                0 <= v % b,
                0 < b,
        ;
        assert(c >= f ==> (c + 1) * b > v) by (nonlinear_arith)
            requires
                v == b * f + v % b,
                v % b < b,
                0 < b,
        ;
    } else {
        assert(cap_of(dom) * 0 == 0);
    }
}

} // verus!
