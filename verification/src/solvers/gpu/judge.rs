//! When a problem is solved, and what its crossing costs then are.
use vstd::prelude::*;

use crate::params::{MAX_COST, REACH_THRESH};
use crate::solvers::gpu::batch::in_a_row;
use crate::solvers::gpu::jobs::Job;
use crate::solvers::schur::patch::PatchAgg;

verus! {

/// Passes after which a chunk is given up.
pub const GPU_MAX_PASSES: u32 = 256;

/// Passes between two judgements.
pub const JUDGE_EVERY: u32 = 4;

/// A change of up to this much counts as none.
pub const TOL: u64 = 2;

/// Judgements in a row that have to find a problem unchanged.
pub const STABLE: u32 = 2;

/// Whether the values are judged after pass number `pass`.
pub open spec fn is_due(pass: u32) -> bool {
    (pass + 1) % (JUDGE_EVERY as int) == 0 || pass + 1 == GPU_MAX_PASSES
}

/// Whether the values are judged after pass number `pass`.
pub fn judgement_due(pass: u32) -> (r: bool)
    requires
        pass < u32::MAX,
    ensures
        r == is_due(pass),
{
    (pass + 1) % JUDGE_EVERY == 0 || pass + 1 == GPU_MAX_PASSES
}

/// `a` and `b` differ by more than the tolerance.
pub open spec fn moved(a: u64, b: u64) -> bool {
    a > b + TOL || b > a + TOL
}

/// What is known of one problem: the watched values that counted last, for how many
/// judgements they have not changed, and whether the problem is solved.
pub struct Watched {
    pub prev: Vec<u64>,
    pub stable: u32,
    pub done: bool,
}

/// The watched values that count from now on.
pub open spec fn taken_over(prev: Seq<u64>, row: Seq<u64>) -> Seq<u64> {
    Seq::new(
        prev.len(),
        |k: int|
            if moved(row[k], prev[k]) {
                row[k]
            } else {
                prev[k]
            },
    )
}

/// No watched value changed.
pub open spec fn unmoved(prev: Seq<u64>, row: Seq<u64>) -> bool {
    forall|k: int| 0 <= k < prev.len() ==> !moved(row[k], #[trigger] prev[k])
}

/// Some watched state has been reached.
pub open spec fn reached(vals: Seq<u64>) -> bool {
    exists|k: int| 0 <= k < vals.len() && #[trigger] vals[k] < REACH_THRESH
}

/// A judgement finds the problem settled: no watched value changed, and either one of
/// them has been reached or nothing in the whole domain changed (`worst` is the largest
/// change there).
pub open spec fn settled(prev: Seq<u64>, row: Seq<u64>, worst: u64, pass: u32) -> bool {
    &&& unmoved(prev, row)
    &&& pass >= 2
    &&& reached(taken_over(prev, row)) || worst <= TOL
}

impl Watched {
    /// A problem that is not solved has not been settled often enough.
    pub open spec fn wf(self) -> bool {
        !self.done ==> self.stable < STABLE
    }

    /// The outcome of a judgement.
    pub open spec fn judged(
        self,
        after: Watched,
        row: Seq<u64>,
        worst: u64,
        pass: u32,
    ) -> bool {
        let stable = if settled(self.prev@, row, worst, pass) {
            self.stable + 1
        } else {
            0
        };
        if self.done {
            after == self
        } else {
            &&& after.prev@ == taken_over(self.prev@, row)
            &&& after.stable == stable
            &&& after.done == (stable >= STABLE)
        }
    }

    /// A problem before the first pass: `watched` states are watched, those from `lo` to
    /// `hi` are pinned.
    pub fn new(watched: usize, lo: usize, hi: usize) -> (r: Watched)
        requires
            lo <= hi <= watched,
        ensures
            r.wf(),
            r.stable == 0,
            !r.done,
            r.prev@ == Seq::new(
                watched as nat,
                |k: int|
                    if lo <= k < hi {
                        0u64
                    } else {
                        MAX_COST
                    },
            ),
    {
        let mut prev: Vec<u64> = vec![MAX_COST; watched];
        let mut k: usize = lo;
        while k < hi
            invariant
                lo <= k <= hi <= watched,
                prev@.len() == watched,
                forall|i: int|
                    0 <= i < watched ==> #[trigger] prev@[i] == if lo <= i < k {
                        0u64
                    } else {
                        MAX_COST
                    },
            decreases hi - k,
        {
            prev.set(k, 0);
            k += 1;
        }
        assert(prev@ =~= Seq::new(
            watched as nat,
            |k: int|
                if lo <= k < hi {
                    0u64
                } else {
                    MAX_COST
                },
        ));
        Watched { prev, stable: 0, done: false }
    }

    /// Judges the problem by the watched values `out[at..]` after pass number `pass`.
    pub fn judge(&mut self, out: &Vec<u64>, at: usize, worst: u64, pass: u32)
        requires
            old(self).wf(),
            at + old(self).prev@.len() <= out@.len(),
        ensures
            final(self).wf(),
            final(self).prev@.len() == old(self).prev@.len(),
            old(self).judged(
                *final(self),
                out@.subrange(at as int, at + old(self).prev@.len()),
                worst,
                pass,
            ),
    {
        if self.done {
            return;
        }
        let ghost p0 = self.prev@;
        let ghost row = out@.subrange(at as int, at + p0.len());
        let n: usize = self.prev.len();
        assert(n == p0.len());
        let mut same: bool = true;
        let mut any: bool = false;
        let mut next: Vec<u64> = Vec::new();
        let mut k: usize = 0;
        while k < n
            invariant
                n == p0.len(),
                p0 == self.prev@,
                at + n <= out.len(),
                row == out@.subrange(at as int, at + n),
                k <= n,
                next@ == taken_over(p0, row).take(k as int),
                same <==> forall|i: int| 0 <= i < k ==> !moved(row[i], #[trigger] p0[i]),
                any <==> reached(taken_over(p0, row).take(k as int)),
            decreases n - k,
        {
            let v: u64 = out[at + k];
            let pv: u64 = self.prev[k];
            assert(v == row[k as int]);
            let diff: u64 = if v > pv {
                v - pv
            } else {
                pv - v
            };
            let m: bool = diff > TOL;
            assert(m == moved(row[k as int], p0[k as int]));
            let c: u64 = if m {
                v
            } else {
                pv
            };
            let ghost before = next@;
            let ghost any0 = any;
            next.push(c);
            if m {
                same = false;
            }
            if c < REACH_THRESH {
                any = true;
            }
            proof {
                let t = taken_over(p0, row);
                assert(next@ =~= t.take(k + 1));
                if any0 {
                    let i = choose|i: int| 0 <= i < k && #[trigger] before[i] < REACH_THRESH;
                    assert(next@[i] < REACH_THRESH);
                }
                if c < REACH_THRESH {
                    assert(next@[k as int] < REACH_THRESH);
                }
                if reached(next@) && !any0 {
                    let i = choose|i: int| 0 <= i < k + 1 && #[trigger] next@[i] < REACH_THRESH;
                    if i < k {
                        assert(before[i] < REACH_THRESH);
                    }
                }
            }
            k += 1;
        }
        assert(next@ =~= taken_over(p0, row));
        let stable: u32 = if same && pass >= 2 && (any || worst <= TOL) {
            self.stable + 1
        } else {
            0
        };
        self.prev = next;
        self.stable = stable;
        self.done = stable >= STABLE;
    }
}

/// What a judgement of a chunk finds.
#[derive(Clone, Copy, Debug, PartialEq, Eq, Structural)]
pub struct Verdict {
    /// All problems are solved.
    pub all_done: bool,
    /// Some problem was not solved before and is now.
    pub changed: bool,
}

/// The watched values of problem `p`, where every problem has `stride` places.
pub open spec fn row_of(out: Seq<u64>, stride: int, p: int, n: int) -> Seq<u64> {
    out.subrange(p * stride, p * stride + n)
}

/// Problem `p` after a judgement.
pub open spec fn judged_at(
    before: Watched,
    after: Watched,
    out: Seq<u64>,
    stride: int,
    worst: Seq<u64>,
    pass: u32,
    p: int,
) -> bool {
    &&& after.wf()
    &&& after.prev@.len() == before.prev@.len()
    &&& before.judged(
        after,
        row_of(out, stride, p, before.prev@.len() as int),
        worst[p],
        pass,
    )
}

/// Judges all problems of a chunk after pass number `pass`.
pub fn judge_all(
    probs: &mut Vec<Watched>,
    out: &Vec<u64>,
    stride: usize,
    worst: &Vec<u64>,
    pass: u32,
) -> (r: Verdict)
    requires
        forall|p: int|
            0 <= p < old(probs)@.len() ==> (#[trigger] old(probs)@[p]).wf()
                && old(probs)@[p].prev@.len() <= stride,
        out@.len() == old(probs)@.len() * stride,
        worst@.len() == old(probs)@.len(),
    ensures
        final(probs)@.len() == old(probs)@.len(),
        forall|p: int|
            0 <= p < old(probs)@.len() ==> judged_at(
                old(probs)@[p],
                #[trigger] final(probs)@[p],
                out@,
                stride as int,
                worst@,
                pass,
                p,
            ),
        r.all_done <==> forall|p: int|
            0 <= p < final(probs)@.len() ==> (#[trigger] final(probs)@[p]).done,
        r.changed <==> exists|p: int|
            0 <= p < final(probs)@.len() && (#[trigger] final(probs)@[p]).done && !old(
                probs,
            )@[p].done,
{
    let ghost q = probs@;
    let n: usize = probs.len();
    let mut all_done: bool = true;
    let mut changed: bool = false;
    let mut p: usize = 0;
    while p < n
        invariant
            p <= n,
            n == q.len(),
            probs@.len() == n,
            forall|i: int|
                0 <= i < n ==> (#[trigger] q[i]).wf() && q[i].prev@.len() <= stride,
            out@.len() == n * stride,
            worst@.len() == n,
            forall|i: int| p <= i < n ==> #[trigger] probs@[i] == q[i],
            forall|i: int|
                0 <= i < p ==> judged_at(
                    q[i],
                    #[trigger] probs@[i],
                    out@,
                    stride as int,
                    worst@,
                    pass,
                    i,
                ),
            all_done <==> forall|i: int| 0 <= i < p ==> (#[trigger] probs@[i]).done,
            changed <==> exists|i: int|
                0 <= i < p && (#[trigger] probs@[i]).done && !q[i].done,
        decreases n - p,
    {
        proof {
            assert(0 <= p * stride && p * stride + stride <= n * stride) by (nonlinear_arith)
                requires
                    0 <= p,
                    p + 1 <= n,
                    0 <= stride,
            ;
            assert(out@.len() == out.len());
            assert(q[p as int].wf());
        }
        let at: usize = p * stride;
        let was: bool = probs[p].done;
        let ghost before = probs@;
        assert(before[p as int] == q[p as int]);
        let w: &mut Watched = &mut probs[p];
        w.judge(out, at, worst[p], pass);
        let now: bool = probs[p].done;
        if now && !was {
            changed = true;
        }
        if !now {
            all_done = false;
        }
        proof {
            assert forall|i: int| 0 <= i < n && i != p implies #[trigger] probs@[i]
                == before[i] by {}
            assert(judged_at(
                q[p as int],
                probs@[p as int],
                out@,
                stride as int,
                worst@,
                pass,
                p as int,
            ));
            assert forall|i: int| 0 <= i < p + 1 implies judged_at(
                q[i],
                #[trigger] probs@[i],
                out@,
                stride as int,
                worst@,
                pass,
                i,
            ) by {
                if i < p {
                    assert(probs@[i] == before[i]);
                }
            }
            if forall|i: int| 0 <= i < p + 1 ==> (#[trigger] probs@[i]).done {
                assert forall|i: int| 0 <= i < p implies (#[trigger] before[i]).done by {
                    assert(probs@[i].done);
                }
            }
            if changed {
                if now && !was {
                    assert(probs@[p as int].done && !q[p as int].done);
                } else {
                    let i = choose|i: int|
                        0 <= i < p && (#[trigger] before[i]).done && !q[i].done;
                    assert(probs@[i].done && !q[i].done);
                }
            }
        }
        p += 1;
    }
    Verdict { all_done, changed }
}

/// Flags of the solved problems.
pub fn done_flags(probs: &Vec<Watched>) -> (r: Vec<u8>)
    ensures
        r@ == probs@.map_values(
            |w: Watched|
                if w.done {
                    1u8
                } else {
                    0u8
                },
        ),
{
    let mut out: Vec<u8> = Vec::new();
    let mut p: usize = 0;
    while p < probs.len()
        invariant
            p <= probs@.len(),
            out@.len() == p,
            forall|i: int|
                0 <= i < p ==> #[trigger] out@[i] == if probs@[i].done {
                    1u8
                } else {
                    0u8
                },
        decreases probs.len() - p,
    {
        out.push(
            if probs[p].done {
                1
            } else {
                0
            },
        );
        p += 1;
    }
    assert(out@ =~= probs@.map_values(
        |w: Watched|
            if w.done {
                1u8
            } else {
                0u8
            },
    ));
    out
}

/// The largest of the values `lo` to `hi`, or 0.
pub open spec fn greatest(row: Seq<u64>, lo: int, hi: int) -> u64
    decreases hi - lo,
{
    if hi <= lo {
        0
    } else {
        let g = greatest(row, lo, hi - 1);
        if row[hi - 1] > g {
            row[hi - 1]
        } else {
            g
        }
    }
}

/// How many of the values `lo` to `hi` have been reached.
pub open spec fn reached_count(row: Seq<u64>, lo: int, hi: int) -> int
    decreases hi - lo,
{
    if hi <= lo {
        0
    } else {
        reached_count(row, lo, hi - 1) + if row[hi - 1] < MAX_COST {
            1int
        } else {
            0int
        }
    }
}

/// Sum of those of the values `lo` to `hi` that have been reached.
pub open spec fn reached_sum(row: Seq<u64>, lo: int, hi: int) -> int
    decreases hi - lo,
{
    if hi <= lo {
        0
    } else {
        reached_sum(row, lo, hi - 1) + if row[hi - 1] < MAX_COST {
            row[hi - 1] as int
        } else {
            0int
        }
    }
}

/// The cost of reaching a goal from the patch whose values are `lo` to `hi`: unknown for
/// an empty patch, otherwise the largest, the first, or the mean of those that have been
/// reached.
pub open spec fn patch_cost(row: Seq<u64>, lo: int, hi: int, agg: PatchAgg) -> u64 {
    if hi <= lo {
        MAX_COST
    } else {
        match agg {
            PatchAgg::Max => greatest(row, lo, hi),
            PatchAgg::Center => row[lo],
            PatchAgg::Mean => if reached_count(row, lo, hi) > 0 {
                (reached_sum(row, lo, hi) / reached_count(row, lo, hi)) as u64
            } else {
                MAX_COST
            },
        }
    }
}

/// The cost of reaching a goal from the patch whose values are `out[lo..hi]`.
fn cost_from(out: &Vec<u64>, lo: usize, hi: usize, agg: PatchAgg) -> (r: u64)
    requires
        lo <= hi <= out@.len(),
    ensures
        r == patch_cost(out@, lo as int, hi as int, agg),
{
    let mut mx: u64 = 0;
    let mut sum: u128 = 0;
    let mut cnt: u64 = 0;
    let mut k: usize = lo;
    while k < hi
        invariant
            lo <= k <= hi <= out.len(),
            mx == greatest(out@, lo as int, k as int),
            sum == reached_sum(out@, lo as int, k as int),
            cnt == reached_count(out@, lo as int, k as int),
            cnt <= k - lo,
            sum <= cnt * MAX_COST,
        decreases hi - k,
    {
        let v: u64 = out[k];
        if v > mx {
            mx = v;
        }
        if v < MAX_COST {
            assert(cnt * MAX_COST + v <= (cnt + 1) * MAX_COST) by (nonlinear_arith)
                requires
                    v <= MAX_COST,
            ;
            assert((cnt + 1) * MAX_COST <= 0x1_0000_0000_0000_0000 * MAX_COST) by (nonlinear_arith)
                requires
                    cnt + 1 <= 0x1_0000_0000_0000_0000,
            ;
            sum += v as u128;
            cnt += 1;
        }
        k += 1;
    }
    if lo == hi {
        return MAX_COST;
    }
    match agg {
        PatchAgg::Max => mx,
        PatchAgg::Center => out[lo],
        PatchAgg::Mean => {
            if cnt > 0 {
                let q: u128 = sum / cnt as u128;
                proof {
                    assert(sum as int / cnt as int <= MAX_COST) by (nonlinear_arith)
                        requires
                            sum <= cnt * MAX_COST,
                            0 < cnt,
                    ;
                }
                q as u64
            } else {
                MAX_COST
            }
        },
    }
}

/// Where the patch number `i` starts among the watched states of its tile.
pub open spec fn patch_start(patches: Seq<Vec<i32>>, i: int) -> int {
    in_a_row(patches, 0, i).len() as int
}

/// Starts of all patches of a tile among its watched states.
pub fn patch_starts(patches: &Vec<Vec<i32>>) -> (r: Vec<usize>)
    requires
        patch_start(patches@, patches@.len() as int) <= usize::MAX,
    ensures
        r@.len() == patches@.len() + 1,
        forall|i: int| 0 <= i <= patches@.len() ==> #[trigger] r@[i] == patch_start(patches@, i),
{
    let mut out: Vec<usize> = Vec::new();
    out.push(0);
    let mut i: usize = 0;
    let mut sum: usize = 0;
    while i < patches.len()
        invariant
            patch_start(patches@, patches@.len() as int) <= usize::MAX,
            i <= patches@.len(),
            sum == patch_start(patches@, i as int),
            out@.len() == i + 1,
            forall|k: int| 0 <= k <= i ==> #[trigger] out@[k] == patch_start(patches@, k),
        decreases patches.len() - i,
    {
        proof {
            lemma_starts_grow(patches@, i + 1, patches@.len() as int);
        }
        sum += patches[i].len();
        out.push(sum);
        i += 1;
    }
    out
}

/// The starts of the patches of a tile increase.
pub proof fn lemma_starts_grow(patches: Seq<Vec<i32>>, i: int, j: int)
    requires
        0 <= i <= j,
    ensures
        0 <= patch_start(patches, i) <= patch_start(patches, j),
    decreases j,
{
    if i < j {
        lemma_starts_grow(patches, i, j - 1);
    }
}

/// The crossing cost from portal `i` to portal `j` of a tile, by the watched values of
/// the problem that has portal `j` as its goal.
pub open spec fn read_crossing(
    patches: Seq<Vec<i32>>,
    out: Seq<u64>,
    at: int,
    i: int,
    j: int,
    agg: PatchAgg,
) -> u64 {
    if i == j {
        0
    } else {
        patch_cost(out, at + patch_start(patches, i), at + patch_start(patches, i + 1), agg)
    }
}

/// Takes the crossing costs of a job over. The values of its first problem stand at
/// place `base * stride`.
pub fn write_job(
    w: &mut Vec<u64>,
    patches: &Vec<Vec<i32>>,
    job: &Job,
    out: &Vec<u64>,
    base: usize,
    stride: usize,
    agg: PatchAgg,
)
    requires
        old(w)@.len() == patches@.len() * patches@.len(),
        job.first + job.count <= patches@.len(),
        patch_start(patches@, patches@.len() as int) <= stride,
        (base + job.count) * stride <= out@.len(),
    ensures
        final(w)@.len() == old(w)@.len(),
        forall|i: int, j: int|
            0 <= i < patches@.len() && 0 <= j < patches@.len() ==> #[trigger] final(w)@[i
                * patches@.len() + j] == if job.first <= j < job.first + job.count {
                read_crossing(
                    patches@,
                    out@,
                    (base + (j - job.first)) * stride,
                    i,
                    j,
                    agg,
                )
            } else {
                old(w)@[i * patches@.len() + j]
            },
{
    let ghost w0 = w@;
    let ghost ps = patches@;
    let n: usize = patches.len();
    let starts: Vec<usize> = patch_starts(patches);
    let first: usize = job.first;
    let count: usize = job.count;
    assert(first + count <= n);
    assert(out@.len() == out.len());
    let mut jj: usize = 0;
    while jj < count
        invariant
            n == ps.len(),
            ps == patches@,
            first == job.first,
            count == job.count,
            first + count <= n,
            w@.len() == n * n,
            w0.len() == n * n,
            patch_start(ps, n as int) <= stride,
            (base + count) * stride <= out.len(),
            starts@.len() == n + 1,
            forall|i: int| 0 <= i <= n ==> #[trigger] starts@[i] == patch_start(ps, i),
            jj <= count,
            forall|i: int, j: int|
                0 <= i < n && 0 <= j < n ==> #[trigger] w@[i * n + j] == if first <= j < first
                    + jj {
                    read_crossing(ps, out@, (base + (j - first)) * stride, i, j, agg)
                } else {
                    w0[i * n + j]
                },
        decreases count - jj,
    {
        let j: usize = first + jj;
        proof {
            assert((base + jj) * stride + stride <= (base + count) * stride) by (nonlinear_arith)
                requires
                    jj + 1 <= count,
                    0 <= stride,
                    0 <= base,
            ;
            assert(0 <= (base + jj) * stride) by (nonlinear_arith)
                requires
                    0 <= jj,
                    0 <= stride,
                    0 <= base,
            ;
        }
        if stride > 0 {
            assert(base + jj <= (base + jj) * stride) by (nonlinear_arith)
                requires
                    1 <= stride,
                    0 <= base + jj,
            ;
        }
        let at: usize = if stride == 0 {
            0
        } else {
            (base + jj) * stride
        };
        assert(at == (base + jj) * stride) by (nonlinear_arith)
            requires
                if stride == 0 {
                    at == 0
                } else {
                    at == (base + jj) * stride
                },
        ;
        let mut i: usize = 0;
        while i < n
            invariant
                n == ps.len(),
                j < n,
                first <= j,
                j == first + jj,
                jj < count,
                w@.len() == n * n,
                w0.len() == n * n,
                at == (base + jj) * stride,
                at + stride <= out.len(),
                patch_start(ps, n as int) <= stride,
                starts@.len() == n + 1,
                forall|i: int| 0 <= i <= n ==> #[trigger] starts@[i] == patch_start(ps, i),
                i <= n,
                forall|u: int, v: int|
                    0 <= u < n && 0 <= v < n ==> #[trigger] w@[u * n + v] == if first <= v < first
                        + jj || v == j && u < i {
                        read_crossing(ps, out@, (base + (v - first)) * stride, u, v, agg)
                    } else {
                        w0[u * n + v]
                    },
            decreases n - i,
        {
            proof {
                lemma_starts_grow(ps, i as int, i + 1);
                lemma_starts_grow(ps, i + 1, n as int);
                assert(starts@[i as int] == patch_start(ps, i as int));
                assert(starts@[i + 1] == patch_start(ps, i + 1));
                assert(w@.len() == w.len());
                crate::grid::lemma_cell_bound(j as int, i as int, n as int, n as int);
                assert(0 <= i * n) by (nonlinear_arith)
                    requires
                        0 <= i,
                        0 <= n,
                ;
            }
            let v: u64 = if i == j {
                0
            } else {
                cost_from(out, at + starts[i], at + starts[i + 1], agg)
            };
            let ghost w1 = w@;
            w.set(i * n + j, v);
            proof {
                assert forall|u: int, q: int|
                    0 <= u < n && 0 <= q < n implies #[trigger] w@[u * n + q] == if first <= q
                    < first + jj || q == j && u < i + 1 {
                    read_crossing(ps, out@, (base + (q - first)) * stride, u, q, agg)
                } else {
                    w0[u * n + q]
                } by {
                    crate::grid::lemma_cell_bound(q, u, n as int, n as int);
                    if u * n + q == i * n + j {
                        crate::grid::lemma_cell_injective(q, u, j as int, i as int, n as int);
                    } else {
                        assert(w@[u * n + q] == w1[u * n + q]);
                    }
                }
            }
            i += 1;
        }
        jj += 1;
    }
}

/// A problem is solved after two judgements in a row in which no watched value moved by more
/// than the tolerance, and not before the third pass.
pub proof fn law_two_quiet_judgements_settle(
    a: Watched,
    b: Watched,
    c: Watched,
    r1: Seq<u64>,
    r2: Seq<u64>,
    w1: u64,
    w2: u64,
    p1: u32,
    p2: u32,
)
    requires
        a.wf(),
        !a.done,
        a.stable == 0,
        a.judged(b, r1, w1, p1),
        b.judged(c, r2, w2, p2),
    ensures
        !b.done,
        c.done ==> p1 >= 2 && p2 >= 2 && unmoved(a.prev@, r1) && unmoved(b.prev@, r2),
        c.done <==> settled(a.prev@, r1, w1, p1) && settled(b.prev@, r2, w2, p2),
{
}

/// A value counts as moved exactly where it differs by more than two, in either direction,
/// and what is kept of it is never farther than that from what was seen last.
pub proof fn law_kept_values_are_close(prev: Seq<u64>, row: Seq<u64>, k: int)
    requires
        0 <= k < prev.len() <= row.len(),
    ensures
        moved(row[k], prev[k]) <==> row[k] - prev[k] > 2 || prev[k] - row[k] > 2,
        -2 <= taken_over(prev, row)[k] - row[k] <= 2,
        taken_over(prev, row).len() == prev.len(),
        unmoved(prev, row) ==> taken_over(prev, row)[k] == prev[k],
{
    if unmoved(prev, row) {
        let p = prev[k];
        assert(!moved(row[k], prev[k]));
    }
}

/// Judgements are due after every fourth pass and after the last.
pub proof fn law_every_fourth_pass_is_judged(pass: u32)
    requires
        pass < u32::MAX,
    ensures
        pass as int % 4 == 3 ==> is_due(pass),
        pass == 255 ==> is_due(pass),
        is_due(pass) ==> pass as int % 4 == 3 || pass == 255,
{
}

/// The cost of a patch is one of its values: with `Max` it is the greatest, with `Center` the
/// first; with `Mean` it is the mean of those that are reached, rounded down.
pub proof fn law_patch_cost_is_of_its_values(row: Seq<u64>, lo: int, hi: int)
    requires
        0 <= lo < hi <= row.len(),
    ensures
        forall|k: int| lo <= k < hi ==> #[trigger] row[k] <= patch_cost(row, lo, hi, PatchAgg::Max),
        exists|k: int|
            lo <= k < hi && #[trigger] row[k] == patch_cost(row, lo, hi, PatchAgg::Max),
        patch_cost(row, lo, hi, PatchAgg::Center) == row[lo],
        0 <= reached_count(row, lo, hi) <= hi - lo,
        reached_count(row, lo, hi) == 0 <==> forall|k: int|
            lo <= k < hi ==> #[trigger] row[k] >= MAX_COST,
        reached_count(row, lo, hi) == 0 ==> patch_cost(row, lo, hi, PatchAgg::Mean) == MAX_COST,
        reached_count(row, lo, hi) > 0 ==> patch_cost(row, lo, hi, PatchAgg::Mean) < MAX_COST,
        reached_count(row, lo, hi) > 0 ==> patch_cost(row, lo, hi, PatchAgg::Mean)
            * reached_count(row, lo, hi) <= reached_sum(row, lo, hi) < (patch_cost(
            row,
            lo,
            hi,
            PatchAgg::Mean,
        ) + 1) * reached_count(row, lo, hi),
{
    lemma_greatest(row, lo, hi);
    lemma_reached(row, lo, hi);
    let (s, n) = (reached_sum(row, lo, hi), reached_count(row, lo, hi));
    if n > 0 {
        vstd::arithmetic::div_mod::lemma_fundamental_div_mod(s, n);
        vstd::arithmetic::div_mod::lemma_mod_bound(s, n);
        let (q, m) = (s / n, MAX_COST as int);
        assert(0 <= q < m) by (nonlinear_arith)
            requires
                s == n * q + s % n,
                0 <= s % n,
                s % n < n,
                0 <= s <= n * (m - 1),
                0 < n,
        ;
        assert(q * n <= s < (q + 1) * n) by (nonlinear_arith)
            requires
                s == n * q + s % n,
                0 <= s % n,
                s % n < n,
        ;
    }
}

proof fn lemma_greatest(row: Seq<u64>, lo: int, hi: int)
    requires
        0 <= lo <= hi <= row.len(),
    ensures
        forall|k: int| lo <= k < hi ==> #[trigger] row[k] <= greatest(row, lo, hi),
        lo < hi ==> exists|k: int| lo <= k < hi && #[trigger] row[k] == greatest(row, lo, hi),
        lo == hi ==> greatest(row, lo, hi) == 0,
    decreases hi - lo,
{
    if hi > lo {
        lemma_greatest(row, lo, hi - 1);
        if row[hi - 1] != greatest(row, lo, hi) {
            let k = choose|k: int|
                lo <= k < hi - 1 && #[trigger] row[k] == greatest(row, lo, hi - 1);
            assert(row[k] == greatest(row, lo, hi));
        }
    }
}

proof fn lemma_reached(row: Seq<u64>, lo: int, hi: int)
    requires
        0 <= lo <= hi <= row.len(),
    ensures
        0 <= reached_count(row, lo, hi) <= hi - lo,
        reached_count(row, lo, hi) == 0 <==> forall|k: int|
            lo <= k < hi ==> #[trigger] row[k] >= MAX_COST,
        0 <= reached_sum(row, lo, hi) <= reached_count(row, lo, hi) * (MAX_COST - 1),
    decreases hi - lo,
{
    if hi > lo {
        lemma_reached(row, lo, hi - 1);
        if reached_count(row, lo, hi) == 0 {
            assert(row[hi - 1] >= MAX_COST);
        }
        let c = reached_count(row, lo, hi - 1);
        let m = MAX_COST - 1;
        assert((c + 1) * m == c * m + m) by (nonlinear_arith);
    }
}

/// The states of the patches stand one patch after the other, each in its own order.
pub proof fn law_patches_stand_in_a_row(patches: Seq<Vec<i32>>, n: int, i: int, j: int)
    requires
        0 <= i < n <= patches.len(),
        0 <= j < patches[i]@.len(),
    ensures
        patch_start(patches, 0) == 0,
        patch_start(patches, i + 1) - patch_start(patches, i) == patches[i]@.len(),
        0 <= patch_start(patches, i) + j < in_a_row(patches, 0, n).len(),
        in_a_row(patches, 0, n)[patch_start(patches, i) + j] == patches[i]@[j],
    decreases n,
{
    if i < n - 1 {
        law_patches_stand_in_a_row(patches, n - 1, i, j);
    }
}

/// The cost of crossing from a patch to itself is nothing; to another one it is read from the
/// values of the first patch alone.
pub proof fn law_crossing_reads_its_patch(
    patches: Seq<Vec<i32>>,
    out: Seq<u64>,
    other: Seq<u64>,
    at: int,
    i: int,
    j: int,
    agg: PatchAgg,
)
    requires
        0 <= i < patches.len(),
        forall|k: int|
            at + patch_start(patches, i) <= k < at + patch_start(patches, i + 1)
                ==> #[trigger] out[k] == other[k],
    ensures
        read_crossing(patches, out, at, i, i, agg) == 0,
        read_crossing(patches, out, at, i, j, agg) == read_crossing(
            patches,
            other,
            at,
            i,
            j,
            agg,
        ),
{
    let (lo, hi) = (at + patch_start(patches, i), at + patch_start(patches, i + 1));
    lemma_same_values(out, other, lo, hi);
    if lo < hi {
        assert(out[lo] == other[lo]);
    }
}

proof fn lemma_same_values(a: Seq<u64>, b: Seq<u64>, lo: int, hi: int)
    requires
        forall|k: int| lo <= k < hi ==> #[trigger] a[k] == b[k],
    ensures
        greatest(a, lo, hi) == greatest(b, lo, hi),
        reached_count(a, lo, hi) == reached_count(b, lo, hi),
        reached_sum(a, lo, hi) == reached_sum(b, lo, hi),
    decreases hi - lo,
{
    if lo < hi {
        lemma_same_values(a, b, lo, hi - 1);
        assert(a[hi - 1] == b[hi - 1]);
    }
}

} // verus!
