//! What one chunk hands to the kernels. Every job of the chunk has a slot.
use vstd::prelude::*;

use crate::grid::{lemma_cell_bound, on_axis};
use crate::params::PROB_BASE;
use crate::solvers::gpu::jobs::{problems, Job};
use crate::solvers::gpu::plan::{jobs_ok, GpuPlan};
use crate::solvers::schur::artifact::SchurArtifact;
use crate::solvers::schur::domain::{domain_x, domain_y, fits, lemma_tile_coords};
use crate::state::State;
use crate::value_iterator::ValueIterator;

verus! {

/// The lists of one chunk.
pub struct Batch {
    /// Free cells of each slot's domain, and what standing there costs. Both are the
    /// same for all headings.
    pub frees: Vec<u8>,
    pub pens: Vec<u64>,
    /// The slot of every problem.
    pub prob_slot: Vec<i32>,
    /// The pinned states of every problem, and where they start.
    pub pin_off: Vec<i32>,
    pub pin_states: Vec<i32>,
    /// The watched states of every slot, and where they start.
    pub watch_off: Vec<i32>,
    pub watch_states: Vec<i32>,
}

/// The patches `lo` to `hi` in a row.
pub open spec fn in_a_row(patches: Seq<Vec<i32>>, lo: int, hi: int) -> Seq<i32>
    decreases hi - lo,
{
    if hi <= lo {
        Seq::empty()
    } else {
        in_a_row(patches, lo, hi - 1) + patches[hi - 1]@
    }
}

/// The patches of the tile of a job.
pub open spec fn job_patches(plan: GpuPlan, k: int) -> Seq<Vec<i32>> {
    plan.patches@[plan.jobs@[k].tile as int]@
}

/// The watched states of one job: the patches of all portals of its tile.
pub open spec fn job_watch(plan: GpuPlan, k: int) -> Seq<i32> {
    in_a_row(job_patches(plan, k), 0, job_patches(plan, k).len() as int)
}

/// The watched states of the jobs `lo` to `hi`.
pub open spec fn watch_upto(plan: GpuPlan, lo: int, hi: int) -> Seq<i32>
    decreases hi - lo,
{
    if hi <= lo {
        Seq::empty()
    } else {
        watch_upto(plan, lo, hi - 1) + job_watch(plan, hi - 1)
    }
}

/// The pinned states of the first `n` problems of one job.
pub open spec fn job_pins(plan: GpuPlan, k: int, n: int) -> Seq<i32> {
    let first = plan.jobs@[k].first as int;
    in_a_row(job_patches(plan, k), first, first + n)
}

/// The pinned states of the jobs `lo` to `hi`.
pub open spec fn pins_upto(plan: GpuPlan, lo: int, hi: int) -> Seq<i32>
    decreases hi - lo,
{
    if hi <= lo {
        Seq::empty()
    } else {
        pins_upto(plan, lo, hi - 1) + job_pins(plan, hi - 1, plan.jobs@[hi - 1].count as int)
    }
}

/// The state whose freedom and cost stand for the cell `(x, y)` of the domain of tile
/// `t`, if the cell is on the map.
pub open spec fn cell_state(
    a: SchurArtifact,
    vi: ValueIterator,
    t: int,
    x: int,
    y: int,
) -> Option<State> {
    let (gx, gy) = (domain_x(a, t) + x, domain_y(a, t) + y);
    if on_axis(gx, a.nx as int) && on_axis(gy, a.ny as int) {
        Some(vi.states@[vi.grid().at(gx, gy, 0)])
    } else {
        None
    }
}

/// Off the map no cell is free.
pub open spec fn cell_free(s: Option<State>) -> u8 {
    match s {
        Some(st) => if st.free {
            1
        } else {
            0
        },
        None => 0,
    }
}

/// Off the map standing costs one step.
pub open spec fn cell_pen(s: Option<State>) -> u64 {
    match s {
        Some(st) => st.penalty,
        None => PROB_BASE,
    }
}

/// The lists of cells hold what they should for the jobs `lo` to `hi`.
pub open spec fn cells_ok(
    plan: GpuPlan,
    vi: ValueIterator,
    lo: int,
    hi: int,
    frees: Seq<u8>,
    pens: Seq<u64>,
) -> bool {
    let side = plan.art.side_len();
    &&& frees.len() == (hi - lo) * (side * side)
    &&& pens.len() == (hi - lo) * (side * side)
    &&& forall|k: int, x: int, y: int|
        #![trigger cell_state(plan.art, vi, plan.jobs@[k].tile as int, x, y)]
        lo <= k < hi && on_axis(x, side) && on_axis(y, side) ==> {
            let i = (k - lo) * (side * side) + (y * side + x);
            let st = cell_state(plan.art, vi, plan.jobs@[k].tile as int, x, y);
            frees[i] == cell_free(st) && pens[i] == cell_pen(st)
        }
}

/// The watched states of the jobs `lo` to `hi`, and where those of each job start.
pub open spec fn watch_ok(
    plan: GpuPlan,
    lo: int,
    hi: int,
    off: Seq<i32>,
    states: Seq<i32>,
) -> bool {
    &&& states == watch_upto(plan, lo, hi)
    &&& off.len() == hi - lo + 1
    &&& forall|k: int| lo <= k <= hi ==> off[k - lo] == #[trigger] watch_upto(plan, lo, k).len()
}

/// The slots and pinned states of the problems of the jobs `lo` to `hi`.
pub open spec fn pins_ok(
    plan: GpuPlan,
    lo: int,
    hi: int,
    slot: Seq<i32>,
    off: Seq<i32>,
) -> bool {
    let n = problems(plan.jobs@, lo, hi);
    &&& slot.len() == n
    &&& off.len() == n + 1
    &&& off[0] == 0
    &&& forall|k: int, j: int|
        lo <= k < hi && 0 <= j < plan.jobs@[k].count ==> #[trigger] pin_ok(
            plan,
            lo,
            k,
            j,
            slot,
            off,
        )
}

/// Problem `j` of job `k` has its slot and its pinned states.
pub open spec fn pin_ok(
    plan: GpuPlan,
    lo: int,
    k: int,
    j: int,
    slot: Seq<i32>,
    off: Seq<i32>,
) -> bool {
    let p = problems(plan.jobs@, lo, k) + j;
    &&& slot[p] == k - lo
    &&& off[p + 1] == pins_upto(plan, lo, k).len() + job_pins(plan, k, j + 1).len()
}

impl Batch {
    /// The lists are those of the jobs `lo` to `hi`.
    pub open spec fn holds(self, plan: GpuPlan, vi: ValueIterator, lo: int, hi: int) -> bool {
        &&& cells_ok(plan, vi, lo, hi, self.frees@, self.pens@)
        &&& watch_ok(plan, lo, hi, self.watch_off@, self.watch_states@)
        &&& pins_ok(plan, lo, hi, self.prob_slot@, self.pin_off@)
        &&& self.pin_states@ == pins_upto(plan, lo, hi)
    }
}

/// Appends what `list` holds.
fn append_list(out: &mut Vec<i32>, list: &Vec<i32>)
    ensures
        final(out)@ == old(out)@ + list@,
{
    let ghost o = out@;
    let mut i: usize = 0;
    while i < list.len()
        invariant
            i <= list@.len(),
            out@ == o + list@.take(i as int),
        decreases list.len() - i,
    {
        out.push(list[i]);
        assert(out@ =~= o + list@.take(i + 1));
        i += 1;
    }
    assert(out@ =~= o + list@);
}

/// Appends the cells of the domain of a job's tile.
fn append_cells(
    plan: &GpuPlan,
    src: &ValueIterator,
    lo: usize,
    k: usize,
    frees: &mut Vec<u8>,
    pens: &mut Vec<u64>,
)
    requires
        src.wf(),
        fits(plan.art, *src),
        lo <= k < plan.jobs@.len(),
        plan.jobs@[k as int].tile < plan.art.tiles@.len(),
        cells_ok(*plan, *src, lo as int, k as int, old(frees)@, old(pens)@),
    ensures
        cells_ok(*plan, *src, lo as int, k + 1, final(frees)@, final(pens)@),
{
    let ghost (f0, p0) = (frees@, pens@);
    let t: usize = plan.jobs[k].tile;
    let (x0, y0) = plan.art.origin_of(t, Ghost(*src));
    let side: i32 = plan.art.side();
    let ghost base = (k - lo) * (side * side);
    proof {
        lemma_tile_coords(plan.art, *src, t as int);
        assert(f0.len() == base);
        assert((k + 1 - lo) * (side * side) == base + side * side) by (nonlinear_arith)
            requires
                base == (k - lo) * (side * side),
        ;
    }
    let mut y: i32 = 0;
    while y < side
        invariant
            src.wf(),
            fits(plan.art, *src),
            side == plan.art.side_len(),
            x0 == domain_x(plan.art, t as int),
            y0 == domain_y(plan.art, t as int),
            -plan.art.halo <= x0 <= plan.art.tnx * plan.art.tile - plan.art.halo - plan.art.tile,
            -plan.art.halo <= y0 <= plan.art.tny * plan.art.tile - plan.art.halo - plan.art.tile,
            0 <= y <= side,
            f0.len() == base,
            p0.len() == base,
            frees@.len() == base + y * side,
            pens@.len() == base + y * side,
            f0 == frees@.take(base),
            p0 == pens@.take(base),
            forall|v: int, u: int|
                #![trigger cell_state(plan.art, *src, t as int, u, v)]
                on_axis(u, side as int) && 0 <= v < y ==> {
                    let i = base + (v * side + u);
                    let st = cell_state(plan.art, *src, t as int, u, v);
                    frees@[i] == cell_free(st) && pens@[i] == cell_pen(st)
                },
        decreases side - y,
    {
        let mut x: i32 = 0;
        while x < side
            invariant
                src.wf(),
                fits(plan.art, *src),
                side == plan.art.side_len(),
                x0 == domain_x(plan.art, t as int),
                y0 == domain_y(plan.art, t as int),
                -plan.art.halo <= x0 <= plan.art.tnx * plan.art.tile - plan.art.halo
                    - plan.art.tile,
                -plan.art.halo <= y0 <= plan.art.tny * plan.art.tile - plan.art.halo
                    - plan.art.tile,
                0 <= y < side,
                0 <= x <= side,
                f0.len() == base,
                p0.len() == base,
                0 <= base,
                frees@.len() == base + y * side + x,
                pens@.len() == base + y * side + x,
                f0 == frees@.take(base),
                p0 == pens@.take(base),
                forall|v: int, u: int|
                    #![trigger cell_state(plan.art, *src, t as int, u, v)]
                    on_axis(u, side as int) && (0 <= v < y || v == y && u < x) ==> {
                        let i = base + (v * side + u);
                        let st = cell_state(plan.art, *src, t as int, u, v);
                        frees@[i] == cell_free(st) && pens@[i] == cell_pen(st)
                    },
            decreases side - x,
        {
            let gx: i32 = x0 + x;
            let gy: i32 = y0 + y;
            let mut f: u8 = 0;
            let mut p: u64 = PROB_BASE;
            if gx >= 0 && gx < plan.art.nx && gy >= 0 && gy < plan.art.ny {
                let i: usize = src.to_index(gx, gy, 0) as usize;
                let st: &State = &src.states[i];
                if st.free {
                    f = 1;
                }
                p = st.penalty;
            }
            let ghost (f1, p1) = (frees@, pens@);
            frees.push(f);
            pens.push(p);
            proof {
                assert(0 <= y * side) by (nonlinear_arith)
                    requires
                        0 <= y,
                        0 <= side,
                ;
                assert(frees@.take(base) =~= f1.take(base));
                assert(pens@.take(base) =~= p1.take(base));
                assert forall|v: int, u: int|
                    #![trigger cell_state(plan.art, *src, t as int, u, v)]
                    on_axis(u, side as int) && (0 <= v < y || v == y && u < x + 1) implies {
                    let i = base + (v * side + u);
                    let st = cell_state(plan.art, *src, t as int, u, v);
                    frees@[i] == cell_free(st) && pens@[i] == cell_pen(st)
                } by {
                    if v < y {
                        assert(0 <= v * side + u < y * side) by (nonlinear_arith)
                            requires
                                0 <= v,
                                v + 1 <= y,
                                0 <= u < side,
                        ;
                    }
                }
            }
            x += 1;
        }
        proof {
            assert((y + 1) * side == y * side + side) by (nonlinear_arith);
        }
        y += 1;
    }
    proof {
        let n = side * side;
        let (lo, k) = (lo as int, k as int);
        assert forall|j: int, u: int, v: int|
            #![trigger cell_state(plan.art, *src, plan.jobs@[j].tile as int, u, v)]
            lo <= j < k + 1 && on_axis(u, side as int) && on_axis(v, side as int) implies {
            let i = (j - lo) * n + (v * side + u);
            let st = cell_state(plan.art, *src, plan.jobs@[j].tile as int, u, v);
            frees@[i] == cell_free(st) && pens@[i] == cell_pen(st)
        } by {
            lemma_cell_bound(u, v, side as int, side as int);
            let i = (j - lo) * n + (v * side + u);
            if j < k {
                assert(0 <= i < base) by (nonlinear_arith)
                    requires
                        base == (k - lo) * n,
                        i == (j - lo) * n + (v * side + u),
                        0 <= j - lo,
                        j + 1 <= k,
                        0 <= v * side + u < n,
                ;
                assert(f0[i] == frees@[i] && p0[i] == pens@[i]);
            }
        }
    }
}

proof fn lemma_watch_len(plan: GpuPlan, lo: int, k: int, hi: int)
    requires
        k <= hi,
    ensures
        watch_upto(plan, lo, k).len() <= watch_upto(plan, lo, hi).len(),
    decreases hi - k,
{
    if k < hi {
        lemma_watch_len(plan, lo, k, hi - 1);
    }
}

proof fn lemma_pins_len(plan: GpuPlan, lo: int, k: int, hi: int)
    requires
        k <= hi,
    ensures
        pins_upto(plan, lo, k).len() <= pins_upto(plan, lo, hi).len(),
    decreases hi - k,
{
    if k < hi {
        lemma_pins_len(plan, lo, k, hi - 1);
    }
}

proof fn lemma_row_len(patches: Seq<Vec<i32>>, lo: int, k: int, hi: int)
    requires
        lo <= k <= hi,
    ensures
        in_a_row(patches, lo, k).len() <= in_a_row(patches, lo, hi).len(),
    decreases hi - k,
{
    if k < hi {
        lemma_row_len(patches, lo, k, hi - 1);
    }
}

fn fill_cells(
    plan: &GpuPlan,
    src: &ValueIterator,
    lo: usize,
    hi: usize,
) -> (r: (Vec<u8>, Vec<u64>))
    requires
        src.wf(),
        fits(plan.art, *src),
        plan.patches@.len() == plan.art.tiles@.len(),
        jobs_ok(*plan),
        lo <= hi <= plan.jobs@.len(),
    ensures
        cells_ok(*plan, *src, lo as int, hi as int, r.0@, r.1@),
{
    let mut frees: Vec<u8> = Vec::new();
    let mut pens: Vec<u64> = Vec::new();
    let mut k: usize = lo;
    while k < hi
        invariant
            src.wf(),
            fits(plan.art, *src),
            plan.patches@.len() == plan.art.tiles@.len(),
            jobs_ok(*plan),
            lo <= k <= hi <= plan.jobs@.len(),
            cells_ok(*plan, *src, lo as int, k as int, frees@, pens@),
        decreases hi - k,
    {
        assert(plan.jobs@[k as int].tile < plan.patches@.len());
        append_cells(plan, src, lo, k, &mut frees, &mut pens);
        k += 1;
    }
    (frees, pens)
}

fn fill_watch(plan: &GpuPlan, lo: usize, hi: usize) -> (r: (Vec<i32>, Vec<i32>))
    requires
        jobs_ok(*plan),
        lo <= hi <= plan.jobs@.len(),
        watch_upto(*plan, lo as int, hi as int).len() <= i32::MAX,
    ensures
        watch_ok(*plan, lo as int, hi as int, r.0@, r.1@),
{
    let ghost pl = *plan;
    let ghost l = lo as int;
    let mut off: Vec<i32> = Vec::new();
    let mut states: Vec<i32> = Vec::new();
    off.push(0);
    let mut k: usize = lo;
    while k < hi
        invariant
            pl == *plan,
            l == lo,
            jobs_ok(*plan),
            lo <= k <= hi <= plan.jobs@.len(),
            watch_upto(*plan, lo as int, hi as int).len() <= i32::MAX,
            watch_ok(pl, l, k as int, off@, states@),
        decreases hi - k,
    {
        assert(plan.jobs@[k as int].tile < plan.patches@.len());
        let patches: &Vec<Vec<i32>> = &plan.patches[plan.jobs[k].tile];
        let ghost w0 = states@;
        let mut i: usize = 0;
        assert(w0 + in_a_row(patches@, 0, 0) =~= w0);
        while i < patches.len()
            invariant
                i <= patches@.len(),
                states@ == w0 + in_a_row(patches@, 0, i as int),
            decreases patches.len() - i,
        {
            append_list(&mut states, &patches[i]);
            assert(states@ =~= w0 + in_a_row(patches@, 0, i + 1));
            i += 1;
        }
        proof {
            lemma_watch_len(pl, l, k + 1, hi as int);
        }
        let ghost o0 = off@;
        off.push(states.len() as i32);
        proof {
            assert(states@ == watch_upto(pl, l, k + 1));
            assert forall|j: int| l <= j <= k + 1 implies off@[j - l] == #[trigger] watch_upto(
                pl,
                l,
                j,
            ).len() by {
                if j <= k {
                    assert(off@[j - l] == o0[j - l]);
                }
            }
        }
        k += 1;
    }
    (off, states)
}

/// Problems of the jobs `lo` to `hi` are not fewer than those of a shorter run.
pub proof fn lemma_problems_grow(jobs: Seq<Job>, lo: int, k: int, hi: int)
    requires
        lo <= k <= hi,
    ensures
        0 <= problems(jobs, lo, k) <= problems(jobs, lo, hi),
    decreases hi - lo,
{
    if lo < hi {
        if k < hi {
            lemma_problems_grow(jobs, lo, k, hi - 1);
        } else {
            lemma_problems_grow(jobs, lo, lo, hi - 1);
        }
    }
}

fn fill_pins(plan: &GpuPlan, lo: usize, hi: usize) -> (r: (Vec<i32>, Vec<i32>, Vec<i32>))
    requires
        jobs_ok(*plan),
        lo <= hi <= plan.jobs@.len(),
        hi - lo <= i32::MAX,
        pins_upto(*plan, lo as int, hi as int).len() <= i32::MAX,
    ensures
        pins_ok(*plan, lo as int, hi as int, r.0@, r.1@),
        r.2@ == pins_upto(*plan, lo as int, hi as int),
{
    let ghost pl = *plan;
    let ghost l = lo as int;
    let mut slot: Vec<i32> = Vec::new();
    let mut off: Vec<i32> = Vec::new();
    let mut states: Vec<i32> = Vec::new();
    off.push(0);
    let mut k: usize = lo;
    while k < hi
        invariant
            pl == *plan,
            l == lo,
            jobs_ok(*plan),
            lo <= k <= hi <= plan.jobs@.len(),
            hi - lo <= i32::MAX,
            pins_upto(*plan, lo as int, hi as int).len() <= i32::MAX,
            pins_ok(pl, l, k as int, slot@, off@),
            states@ == pins_upto(pl, l, k as int),
        decreases hi - k,
    {
        let job: Job = plan.jobs[k];
        assert(plan.jobs@[k as int].tile < plan.patches@.len());
        let patches: &Vec<Vec<i32>> = &plan.patches[job.tile];
        let ghost (s0, o0, p0) = (slot@, off@, states@);
        let ghost n0 = problems(pl.jobs@, l, k as int);
        let mut j: usize = 0;
        assert(p0 + job_pins(pl, k as int, 0) =~= p0);
        while j < job.count
            invariant
                pl == *plan,
                l == lo,
                jobs_ok(*plan),
                lo <= k < hi <= plan.jobs@.len(),
                hi - lo <= i32::MAX,
                pins_upto(*plan, lo as int, hi as int).len() <= i32::MAX,
                job == pl.jobs@[k as int],
                patches@ == job_patches(pl, k as int),
                job.first + job.count <= patches.len(),
                j <= job.count,
                n0 == problems(pl.jobs@, l, k as int),
                p0 == pins_upto(pl, l, k as int),
                s0.len() == n0,
                o0.len() == n0 + 1,
                slot@.len() == n0 + j,
                off@.len() == n0 + j + 1,
                forall|i: int| 0 <= i < s0.len() ==> slot@[i] == #[trigger] s0[i],
                forall|i: int| 0 <= i < o0.len() ==> off@[i] == #[trigger] o0[i],
                states@ == p0 + job_pins(pl, k as int, j as int),
                forall|i: int|
                    0 <= i < j ==> #[trigger] pin_ok(pl, l, k as int, i, slot@, off@),
            decreases job.count - j,
        {
            append_list(&mut states, &patches[job.first + j]);
            proof {
                assert(states@ =~= p0 + job_pins(pl, k as int, j + 1));
                lemma_row_len(
                    patches@,
                    job.first as int,
                    job.first + j + 1,
                    job.first + job.count,
                );
                lemma_pins_len(pl, l, k + 1, hi as int);
            }
            let ghost (s1, o1) = (slot@, off@);
            slot.push((k - lo) as i32);
            off.push(states.len() as i32);
            proof {
                assert forall|i: int|
                    0 <= i < j + 1 implies #[trigger] pin_ok(pl, l, k as int, i, slot@, off@) by {
                    if i < j {
                        assert(pin_ok(pl, l, k as int, i, s1, o1));
                    }
                }
            }
            j += 1;
        }
        proof {
            assert(problems(pl.jobs@, l, k + 1) == n0 + job.count);
            assert forall|i: int, q: int|
                l <= i < k + 1 && 0 <= q < pl.jobs@[i].count implies #[trigger] pin_ok(
                pl,
                l,
                i,
                q,
                slot@,
                off@,
            ) by {
                if i < k {
                    assert(pin_ok(pl, l, i, q, s0, o0));
                    lemma_problems_grow(pl.jobs@, l, i, i);
                    lemma_problems_grow(pl.jobs@, l, i + 1, k as int);
                    let p = problems(pl.jobs@, l, i) + q;
                    assert(slot@[p] == s0[p] && off@[p + 1] == o0[p + 1]);
                }
            }
            assert(off@[0] == o0[0]);
        }
        k += 1;
    }
    (slot, off, states)
}

/// The lists of the chunk of the jobs `lo` to `hi`.
pub fn fill_batch(plan: &GpuPlan, src: &ValueIterator, lo: usize, hi: usize) -> (r: Batch)
    requires
        src.wf(),
        fits(plan.art, *src),
        plan.patches@.len() == plan.art.tiles@.len(),
        jobs_ok(*plan),
        lo <= hi <= plan.jobs@.len(),
        hi - lo <= i32::MAX,
        watch_upto(*plan, lo as int, hi as int).len() <= i32::MAX,
        pins_upto(*plan, lo as int, hi as int).len() <= i32::MAX,
    ensures
        r.holds(*plan, *src, lo as int, hi as int),
{
    let (frees, pens) = fill_cells(plan, src, lo, hi);
    let (watch_off, watch_states) = fill_watch(plan, lo, hi);
    let (prob_slot, pin_off, pin_states) = fill_pins(plan, lo, hi);
    Batch { frees, pens, prob_slot, pin_off, pin_states, watch_off, watch_states }
}

} // verus!
