//! The tables that the kernels read.
use vstd::prelude::*;

use crate::action::{Action, StateTransition};
use crate::grid::{lemma_index_bound, on_axis};
use crate::model::{lemma_heading, step_cost, word};
use crate::params::{MAX_COST, PROB_BASE};
use crate::solvers::displacement::{law_reach_covers, Axis};
use crate::solvers::gpu::layout::{
    charge, fill_planes, find_excess, first_excess, free_entry, lemma_padded, pen_entry, planes_ok,
    GpuLayout, PenaltyTooLarge,
};
use crate::state::State;
use crate::value_iterator::{wrap_heading, ValueIterator};

verus! {

/// The tables that the kernels read.
pub struct GpuTables {
    /// What standing in each state costs.
    pub pens: Vec<u32>,
    pub frees: Vec<u8>,
    /// Cells with a free heading.
    pub col_free: Vec<u8>,
    /// For every outcome the distance to where it leads, from the start of the
    /// cell's column in the first plane.
    pub pc_off: Vec<i64>,
    pub pc_prob: Vec<u32>,
    /// For every action and heading where its outcomes start.
    pub pc_start: Vec<u32>,
}

/// Where an outcome leads, from the start of the cell's column in the first plane.
pub open spec fn offset_of(l: GpuLayout, tr: StateTransition) -> int {
    ((tr.dit + l.nt) % (l.nt as int)) * l.plane() + tr.dix + tr.diy * l.width()
}

/// Offsets and probabilities of the first `n` outcomes.
pub open spec fn outcome_rows(l: GpuLayout, trs: Seq<StateTransition>, n: int) -> Seq<(i64, u32)>
    decreases n,
{
    if n <= 0 {
        Seq::empty()
    } else {
        outcome_rows(l, trs, n - 1).push(
            (offset_of(l, trs[n - 1]) as i64, trs[n - 1].prob as u32),
        )
    }
}

/// Offsets and probabilities of all outcomes of action `a` from the first `n` headings.
pub open spec fn heading_rows(l: GpuLayout, a: Action, n: int) -> Seq<(i64, u32)>
    decreases n,
{
    if n <= 0 {
        Seq::empty()
    } else {
        heading_rows(l, a, n - 1) + outcome_rows(
            l,
            a.outcomes(n - 1),
            a.outcomes(n - 1).len() as int,
        )
    }
}

/// Offsets and probabilities of all outcomes of the first `n` actions.
pub open spec fn action_rows(l: GpuLayout, actions: Seq<Action>, n: int) -> Seq<(i64, u32)>
    decreases n,
{
    if n <= 0 {
        Seq::empty()
    } else {
        action_rows(l, actions, n - 1) + heading_rows(l, actions[n - 1], l.nt as int)
    }
}

/// Where the outcomes of action `a` from heading `it` start in the table.
pub open spec fn row_start(l: GpuLayout, actions: Seq<Action>, a: int, it: int) -> int {
    action_rows(l, actions, a).len() as int + heading_rows(l, actions[a], it).len() as int
}

/// The outcome table holds all outcomes, action by action and heading by heading.
pub open spec fn rows_ok(
    l: GpuLayout,
    actions: Seq<Action>,
    off: Seq<i64>,
    prob: Seq<u32>,
    start: Seq<u32>,
) -> bool {
    let rows = action_rows(l, actions, actions.len() as int);
    &&& off.len() == rows.len()
    &&& prob.len() == rows.len()
    &&& forall|k: int| 0 <= k < rows.len() ==> (off[k], prob[k]) == #[trigger] rows[k]
    &&& start.len() == actions.len() * l.nt + 1
    &&& forall|a: int, it: int|
        0 <= a < actions.len() && 0 <= it < l.nt ==> start[a * l.nt + it] == #[trigger] row_start(
            l,
            actions,
            a,
            it,
        )
    &&& start[actions.len() * l.nt] == rows.len()
}

/// The outcomes of action `a` from heading `it` stand together in the table.
proof fn lemma_heading_rows(l: GpuLayout, a: Action, n: int, it: int, k: int)
    requires
        0 <= it < n,
        0 <= k < a.outcomes(it).len(),
    ensures
        heading_rows(l, a, it).len() + k < heading_rows(l, a, n).len(),
        heading_rows(l, a, n)[heading_rows(l, a, it).len() + k] == (
            offset_of(l, a.outcomes(it)[k]) as i64,
            a.outcomes(it)[k].prob as u32,
        ),
        heading_rows(l, a, it).len() + a.outcomes(it).len() <= heading_rows(l, a, n).len(),
    decreases n,
{
    lemma_outcome_rows(l, a.outcomes(n - 1), a.outcomes(n - 1).len() as int);
    if it < n - 1 {
        lemma_heading_rows(l, a, n - 1, it, k);
    }
}

proof fn lemma_outcome_rows(l: GpuLayout, trs: Seq<StateTransition>, n: int)
    requires
        0 <= n <= trs.len(),
    ensures
        outcome_rows(l, trs, n).len() == n,
        forall|k: int|
            0 <= k < n ==> #[trigger] outcome_rows(l, trs, n)[k] == (
                offset_of(l, trs[k]) as i64,
                trs[k].prob as u32,
            ),
    decreases n,
{
    if n > 0 {
        lemma_outcome_rows(l, trs, n - 1);
    }
}

proof fn lemma_action_rows(l: GpuLayout, actions: Seq<Action>, n: int, a: int, it: int, k: int)
    requires
        0 <= a < n <= actions.len(),
        0 <= it < l.nt,
        0 <= k < actions[a].outcomes(it).len(),
    ensures
        row_start(l, actions, a, it) + k < action_rows(l, actions, n).len(),
        action_rows(l, actions, n)[row_start(l, actions, a, it) + k] == (
            offset_of(l, actions[a].outcomes(it)[k]) as i64,
            actions[a].outcomes(it)[k].prob as u32,
        ),
    decreases n,
{
    if a < n - 1 {
        lemma_action_rows(l, actions, n - 1, a, it, k);
    } else {
        lemma_heading_rows(l, actions[a], l.nt as int, it, k);
    }
}

/// Prefixes of the table are no longer than the table.
proof fn lemma_rows_grow(l: GpuLayout, actions: Seq<Action>, a: int, b: int)
    requires
        a <= b,
    ensures
        action_rows(l, actions, a).len() <= action_rows(l, actions, b).len(),
    decreases b,
{
    if a < b && b > 0 {
        lemma_rows_grow(l, actions, a, b - 1);
    }
}

proof fn lemma_headings_grow(l: GpuLayout, a: Action, i: int, j: int)
    requires
        i <= j,
    ensures
        heading_rows(l, a, i).len() <= heading_rows(l, a, j).len(),
    decreases j,
{
    if i < j && j > 0 {
        lemma_headings_grow(l, a, i, j - 1);
    }
}

/// An offset fits 64 bits.
proof fn lemma_offset_fits(l: GpuLayout, tr: StateTransition)
    requires
        l.wf(),
        0 < l.nt,
    ensures
        0 <= ((tr.dit + l.nt) % (l.nt as int)) * l.plane() <= 0x7fff_ffff * 0x7fff_ffff,
        -0x8000_0000 * 0x7fff_ffff <= tr.diy * l.width() <= 0x7fff_ffff * 0x7fff_ffff,
{
    let h = (tr.dit + l.nt) % (l.nt as int);
    let p = l.plane();
    let w = l.width();
    assert(0 <= p) by (nonlinear_arith)
        requires
            p == w * l.height(),
            0 <= w,
            0 <= l.height(),
    ;
    assert(0 <= h * p <= 0x7fff_ffff * 0x7fff_ffff) by (nonlinear_arith)
        requires
            0 <= h <= 0x7fff_ffff,
            0 <= p <= 0x7fff_ffff,
    ;
    let d = tr.diy as int;
    assert(-0x8000_0000 * 0x7fff_ffff <= d * w <= 0x7fff_ffff * 0x7fff_ffff) by (nonlinear_arith)
        requires
            -0x8000_0000 <= d <= 0x7fff_ffff,
            0 <= w <= 0x7fff_ffff,
    ;
}

/// The number of outcomes can be counted in 32 bits.
pub open spec fn rows_countable(l: GpuLayout, actions: Seq<Action>) -> bool {
    action_rows(l, actions, actions.len() as int).len() <= u32::MAX
}

/// The outcome table of a map's actions.
fn fill_rows(vi: &ValueIterator, l: &GpuLayout) -> (r: (Vec<i64>, Vec<u32>, Vec<u32>))
    requires
        vi.wf(),
        l.wf(),
        l.lays_out(*vi),
        rows_countable(*l, vi.actions@),
    ensures
        rows_ok(*l, vi.actions@, r.0@, r.1@, r.2@),
{
    let ghost acts = vi.actions@;
    let ghost ll = *l;
    let nt: i32 = l.nt;
    let plane: i64 = l.n_cols() as i64;
    let width: i64 = l.nx_pad() as i64;
    let mut off: Vec<i64> = Vec::new();
    let mut prob: Vec<u32> = Vec::new();
    let mut start: Vec<u32> = Vec::new();
    start.push(0);
    let ghost mut rows: Seq<(i64, u32)> = Seq::empty();
    let mut a: usize = 0;
    while a < vi.actions.len()
        invariant
            vi.wf(),
            l.wf(),
            l.lays_out(*vi),
            ll == *l,
            nt == l.nt,
            plane == l.plane(),
            width == l.width(),
            acts == vi.actions@,
            rows_countable(*l, acts),
            a <= acts.len(),
            rows == action_rows(ll, acts, a as int),
            off@.len() == rows.len(),
            prob@.len() == rows.len(),
            forall|k: int| 0 <= k < rows.len() ==> (off@[k], prob@[k]) == #[trigger] rows[k],
            start@.len() == a * nt + 1,
            forall|b: int, it: int|
                0 <= b < a && 0 <= it < nt ==> start@[b * nt + it] == #[trigger] row_start(
                    ll,
                    acts,
                    b,
                    it,
                ),
            start@[a * nt] == rows.len(),
        decreases vi.actions.len() - a,
    {
        let act: &Action = &vi.actions[a];
        proof {
            assert(vi.grid().action_ok(acts[a as int]));
            assert((a + 1) * nt == a * nt + nt) by (nonlinear_arith);
        }
        let ghost base = rows;
        let mut it: i32 = 0;
        while it < nt
            invariant
                vi.wf(),
                l.wf(),
                l.lays_out(*vi),
                ll == *l,
                nt == l.nt,
                plane == l.plane(),
                width == l.width(),
                acts == vi.actions@,
                rows_countable(*l, acts),
                a < acts.len(),
                *act == acts[a as int],
                vi.grid().action_ok(*act),
                0 <= it <= nt,
                base == action_rows(ll, acts, a as int),
                rows == base + heading_rows(ll, *act, it as int),
                off@.len() == rows.len(),
                prob@.len() == rows.len(),
                forall|k: int| 0 <= k < rows.len() ==> (off@[k], prob@[k]) == #[trigger] rows[k],
                start@.len() == a * nt + it + 1,
                forall|b: int, u: int|
                    0 <= b < a && 0 <= u < nt ==> start@[b * nt + u] == #[trigger] row_start(
                        ll,
                        acts,
                        b,
                        u,
                    ),
                forall|u: int|
                    0 <= u < it ==> start@[a * nt + u] == #[trigger] row_start(
                        ll,
                        acts,
                        a as int,
                        u,
                    ),
                start@[a * nt + it] == rows.len(),
            decreases nt - it,
        {
            let trs: &Vec<StateTransition> = &act.state_transitions[it as usize];
            let ghost inner = rows;
            let mut k: usize = 0;
            while k < trs.len()
                invariant
                    vi.wf(),
                    l.wf(),
                    l.lays_out(*vi),
                    ll == *l,
                    nt == l.nt,
                    plane == l.plane(),
                    width == l.width(),
                    0 <= it < nt,
                    vi.grid().action_ok(*act),
                    trs@ == act.outcomes(it as int),
                    k <= trs@.len(),
                    rows == inner + outcome_rows(ll, trs@, k as int),
                    off@.len() == rows.len(),
                    prob@.len() == rows.len(),
                    forall|j: int|
                        0 <= j < rows.len() ==> (off@[j], prob@[j]) == #[trigger] rows[j],
                decreases trs.len() - k,
            {
                let tr: StateTransition = trs[k];
                proof {
                    assert(vi.grid().outcome_ok(act.outcomes(it as int)[k as int]));
                    lemma_offset_fits(ll, tr);
                }
                let nit: i32 = wrap_heading(tr.dit, nt);
                let o: i64 = nit as i64 * plane + tr.dix as i64 + tr.diy as i64 * width;
                off.push(o);
                prob.push(tr.prob as u32);
                proof {
                    let old_rows = rows;
                    rows = rows.push((o, tr.prob as u32));
                    assert(rows =~= inner + outcome_rows(ll, trs@, k + 1));
                    assert forall|j: int| 0 <= j < rows.len() implies (off@[j], prob@[j])
                        == #[trigger] rows[j] by {
                        if j < old_rows.len() {
                            assert((off@[j], prob@[j]) == old_rows[j]);
                        }
                    }
                }
                k += 1;
            }
            proof {
                assert(rows =~= base + heading_rows(ll, *act, it + 1));
                lemma_headings_grow(ll, *act, it + 1, nt as int);
                lemma_rows_grow(ll, acts, a + 1, acts.len() as int);
            }
            let ghost s0 = start@;
            start.push(off.len() as u32);
            proof {
                assert forall|b: int, u: int| 0 <= b < a && 0 <= u < nt implies start@[b * nt + u]
                    == #[trigger] row_start(ll, acts, b, u) by {
                    assert(0 <= b * nt + u <= a * nt) by (nonlinear_arith)
                        requires
                            0 <= b,
                            b + 1 <= a,
                            0 <= u < nt,
                    ;
                    assert(s0[b * nt + u] == row_start(ll, acts, b, u));
                }
                assert forall|u: int| 0 <= u < it + 1 implies start@[a * nt + u]
                    == #[trigger] row_start(ll, acts, a as int, u) by {
                    assert(0 <= a * nt) by (nonlinear_arith)
                        requires
                            0 <= a,
                            0 <= nt,
                    ;
                }
            }
            it += 1;
        }
        proof {
            assert forall|b: int, u: int| 0 <= b < a + 1 && 0 <= u < nt implies start@[b * nt + u]
                == #[trigger] row_start(ll, acts, b, u) by {
                if b == a {
                    assert(start@[a * nt + u] == row_start(ll, acts, a as int, u));
                }
            }
        }
        a += 1;
    }
    (off, prob, start)
}

impl GpuTables {
    /// The tables describe the map.
    pub open spec fn describes(self, l: GpuLayout, vi: ValueIterator) -> bool {
        &&& planes_ok(l, vi.states@, self.pens@, self.frees@, self.col_free@)
        &&& rows_ok(l, vi.actions@, self.pc_off@, self.pc_prob@, self.pc_start@)
    }

    /// The tables for a map, unless standing in some state costs too much.
    pub fn new(vi: &ValueIterator, l: &GpuLayout) -> (r: Result<GpuTables, PenaltyTooLarge>)
        requires
            vi.wf(),
            l.wf(),
            l.lays_out(*vi),
            rows_countable(*l, vi.actions@),
        ensures
            match r {
                Ok(t) => first_excess(vi.states@, vi.states@.len() as int) is None && t.describes(
                    *l,
                    *vi,
                ),
                Err(e) => first_excess(vi.states@, vi.states@.len() as int) == Some(
                    e.penalty as int,
                ),
            },
    {
        if let Some(penalty) = find_excess(&vi.states) {
            return Err(PenaltyTooLarge { penalty });
        }
        let (pens, frees, col_free) = fill_planes(vi, l);
        let (pc_off, pc_prob, pc_start) = fill_rows(vi, l);
        Ok(GpuTables { pens, frees, col_free, pc_off, pc_prob, pc_start })
    }
}

/// The outcomes `lo` to `hi` of the table all end in free states, from the cell whose
/// column is `c`.
pub open spec fn rows_land(t: GpuTables, lo: int, hi: int, c: int) -> bool {
    forall|k: int| lo <= k < hi ==> t.frees@[c + #[trigger] t.pc_off@[k]] == 1
}

/// Exact expected cost, times `PROB_BASE`, of the first `n` outcomes from row `lo`.
pub open spec fn rows_sum(t: GpuTables, vals: Seq<u64>, lo: int, n: int, c: int) -> int
    decreases n,
{
    if n <= 0 {
        0
    } else {
        let j = c + t.pc_off@[lo + n - 1];
        rows_sum(t, vals, lo, n - 1, c) + (vals[j] + t.pens@[j]) * t.pc_prob@[lo + n - 1]
    }
}

/// Expected cost of action `a` from heading `it` of the cell whose column is `c`, read
/// from the tables alone.
pub open spec fn table_cost(
    l: GpuLayout,
    t: GpuTables,
    vals: Seq<u64>,
    a: int,
    it: int,
    c: int,
) -> int {
    let lo = t.pc_start@[a * l.nt + it] as int;
    let hi = t.pc_start@[a * l.nt + it + 1] as int;
    if rows_land(t, lo, hi, c) {
        (rows_sum(t, vals, lo, hi - lo, c) % word()) / (PROB_BASE as int)
    } else {
        MAX_COST as int
    }
}

/// `vals` holds the values of the states `s`.
pub open spec fn vals_ok(l: GpuLayout, s: Seq<State>, vals: Seq<u64>) -> bool {
    forall|i: int|
        0 <= i < s.len() ==> vals[l.at(s[i].ix as int, s[i].iy as int, s[i].it as int)] == (
        #[trigger] s[i]).total_cost
}

/// Adding an outcome's offset to the column of a cell gives the position of the state
/// that the outcome leads to, and stays inside the planes even where the outcome
/// leaves the map.
pub proof fn law_offset_reaches(vi: ValueIterator, l: GpuLayout, i: int, a: int, k: int)
    requires
        vi.wf(),
        l.wf(),
        l.lays_out(vi),
        0 <= i < vi.states@.len(),
        0 <= a < vi.actions@.len(),
        0 <= k < vi.actions@[a].outcomes(vi.states@[i].it as int).len(),
    ensures
        ({
            let st = vi.states@[i];
            let tr = vi.actions@[a].outcomes(st.it as int)[k];
            let j = l.column(st.ix as int, st.iy as int) + offset_of(l, tr);
            let (x, y, h) = (st.ix + tr.dix, st.iy + tr.diy, vi.grid().heading(tr));
            &&& j == l.at(x, y, h)
            &&& on_axis(x + l.mx, l.width())
            &&& on_axis(y + l.my, l.height())
            &&& on_axis(h, l.nt as int)
            &&& 0 <= j < l.len()
        }),
{
    let g = vi.grid();
    let st = vi.states@[i];
    assert(g.located_at(vi.states@[i], i));
    assert(g.action_ok(vi.actions@[a]));
    let tr = vi.actions@[a].outcomes(st.it as int)[k];
    assert(g.outcome_ok(tr));
    lemma_heading(g, tr);
    law_reach_covers(vi.model(), Axis::X, a, st.it as int, k);
    law_reach_covers(vi.model(), Axis::Y, a, st.it as int, k);
    let (x, y, h) = (st.ix + tr.dix, st.iy + tr.diy, g.heading(tr));
    lemma_padded(l, x + l.mx, y + l.my, h);
    let w = l.width();
    assert((st.iy + l.my) * w + tr.diy * w == (st.iy + tr.diy + l.my) * w) by (nonlinear_arith);
}

/// What the kernels compute from the tables is the expected cost of the action: the
/// tables lose nothing.
pub proof fn law_table_cost(
    vi: ValueIterator,
    l: GpuLayout,
    t: GpuTables,
    vals: Seq<u64>,
    i: int,
    a: int,
)
    requires
        vi.wf(),
        l.wf(),
        l.lays_out(vi),
        t.describes(l, vi),
        first_excess(vi.states@, vi.states@.len() as int) is None,
        vals_ok(l, vi.states@, vals),
        0 <= i < vi.states@.len(),
        0 <= a < vi.actions@.len(),
    ensures
        ({
            let st = vi.states@[i];
            table_cost(
                l,
                t,
                vals,
                a,
                st.it as int,
                l.column(st.ix as int, st.iy as int),
            ) == vi.grid().cost(vi.states@, st, vi.actions@[a])
        }),
{
    let g = vi.grid();
    let s = vi.states@;
    let st = s[i];
    let it = st.it as int;
    let act = vi.actions@[a];
    let trs = act.outcomes(it);
    let c = l.column(st.ix as int, st.iy as int);
    assert(g.located_at(s[i], i));
    lemma_starts(l, vi.actions@, t, a, it);
    let lo = row_start(l, vi.actions@, a, it);
    let hi = lo + trs.len();
    assert forall|k: int| 0 <= k < trs.len() implies {
        let j = c + t.pc_off@[lo + k];
        &&& t.frees@[j] == 1 <==> g.lands(s, st, #[trigger] trs[k])
        &&& t.pc_prob@[lo + k] == trs[k].prob
        &&& g.lands(s, st, trs[k]) ==> vals[j] + t.pens@[j] == step_cost(s[g.succ(st, trs[k])])
    } by {
        lemma_row(vi, l, t, vals, i, a, k);
    }
    assert(rows_land(t, lo, hi, c) <==> g.all_land(s, st, trs)) by {
        if rows_land(t, lo, hi, c) {
            assert forall|k: int| 0 <= k < trs.len() implies g.lands(s, st, #[trigger] trs[k]) by {
                let o = t.pc_off@[lo + k];
            }
        }
        if g.all_land(s, st, trs) {
            assert forall|k: int| lo <= k < hi implies t.frees@[c + #[trigger] t.pc_off@[k]]
                == 1 by {
                let tr = trs[k - lo];
                assert(g.lands(s, st, tr));
            }
        }
    }
    if g.all_land(s, st, trs) {
        lemma_sum(vi, l, t, vals, i, a, trs.len() as int);
    }
}

proof fn lemma_starts(l: GpuLayout, actions: Seq<Action>, t: GpuTables, a: int, it: int)
    requires
        rows_ok(l, actions, t.pc_off@, t.pc_prob@, t.pc_start@),
        0 <= a < actions.len(),
        0 <= it < l.nt,
    ensures
        t.pc_start@[a * l.nt + it] == row_start(l, actions, a, it),
        t.pc_start@[a * l.nt + it + 1] == row_start(l, actions, a, it) + actions[a].outcomes(
            it,
        ).len(),
{
    assert(t.pc_start@[a * l.nt + it] == row_start(l, actions, a, it));
    lemma_outcome_rows(l, actions[a].outcomes(it), actions[a].outcomes(it).len() as int);
    if it + 1 < l.nt {
        assert(t.pc_start@[a * l.nt + (it + 1)] == row_start(l, actions, a, it + 1));
    } else {
        assert((a + 1) * l.nt == a * l.nt + l.nt) by (nonlinear_arith);
        if a + 1 < actions.len() {
            assert(t.pc_start@[(a + 1) * l.nt + 0] == row_start(l, actions, a + 1, 0));
        }
    }
}

proof fn lemma_row(
    vi: ValueIterator,
    l: GpuLayout,
    t: GpuTables,
    vals: Seq<u64>,
    i: int,
    a: int,
    k: int,
)
    requires
        vi.wf(),
        l.wf(),
        l.lays_out(vi),
        t.describes(l, vi),
        first_excess(vi.states@, vi.states@.len() as int) is None,
        vals_ok(l, vi.states@, vals),
        0 <= i < vi.states@.len(),
        0 <= a < vi.actions@.len(),
        0 <= k < vi.actions@[a].outcomes(vi.states@[i].it as int).len(),
    ensures
        ({
            let (g, s, st) = (vi.grid(), vi.states@, vi.states@[i]);
            let tr = vi.actions@[a].outcomes(st.it as int)[k];
            let lo = row_start(l, vi.actions@, a, st.it as int);
            let j = l.column(st.ix as int, st.iy as int) + t.pc_off@[lo + k];
            &&& t.frees@[j] == 1 <==> g.lands(s, st, tr)
            &&& t.pc_prob@[lo + k] == tr.prob
            &&& g.lands(s, st, tr) ==> vals[j] + t.pens@[j] == step_cost(s[g.succ(st, tr)])
        }),
{
    let (g, s, st) = (vi.grid(), vi.states@, vi.states@[i]);
    let it = st.it as int;
    let tr = vi.actions@[a].outcomes(it)[k];
    assert(g.located_at(s[i], i));
    assert(g.action_ok(vi.actions@[a]));
    assert(g.outcome_ok(tr));
    let rows = action_rows(l, vi.actions@, vi.actions@.len() as int);
    let lo = row_start(l, vi.actions@, a, it);
    lemma_action_rows(l, vi.actions@, vi.actions@.len() as int, a, it, k);
    assert((t.pc_off@[lo + k], t.pc_prob@[lo + k]) == rows[lo + k]);
    lemma_offset_fits(l, tr);
    law_offset_reaches(vi, l, i, a, k);
    let (x, y, h) = (st.ix + tr.dix, st.iy + tr.diy, g.heading(tr));
    let j = l.at(x, y, h);
    assert(t.pc_off@[lo + k] == offset_of(l, tr));
    assert(t.frees@[j] == free_entry(l.state_at(s, x + l.mx, y + l.my, h)));
    assert(t.pens@[j] == pen_entry(l.state_at(s, x + l.mx, y + l.my, h)));
    if g.lands(s, st, tr) {
        lemma_index_bound(x, y, h, g.nx, g.ny, g.nt);
        let n = g.succ(st, tr);
        assert(g.located_at(s[n], n));
        crate::grid::lemma_index_injective(
            x,
            y,
            h,
            s[n].ix as int,
            s[n].iy as int,
            s[n].it as int,
            g.nx,
            g.nt,
        );
        assert(vals[l.at(s[n].ix as int, s[n].iy as int, s[n].it as int)] == s[n].total_cost);
        lemma_no_excess(s, s.len() as int, n);
    }
}

proof fn lemma_no_excess(s: Seq<State>, n: int, i: int)
    requires
        first_excess(s, n) is None,
        0 <= i < n,
    ensures
        charge(s[i]) <= u32::MAX,
    decreases n,
{
    if i < n - 1 {
        lemma_no_excess(s, n - 1, i);
    }
}

proof fn lemma_sum(
    vi: ValueIterator,
    l: GpuLayout,
    t: GpuTables,
    vals: Seq<u64>,
    i: int,
    a: int,
    n: int,
)
    requires
        vi.wf(),
        l.wf(),
        l.lays_out(vi),
        t.describes(l, vi),
        first_excess(vi.states@, vi.states@.len() as int) is None,
        vals_ok(l, vi.states@, vals),
        0 <= i < vi.states@.len(),
        0 <= a < vi.actions@.len(),
        ({
            let (g, s, st) = (vi.grid(), vi.states@, vi.states@[i]);
            let trs = vi.actions@[a].outcomes(st.it as int);
            0 <= n <= trs.len() && g.all_land(s, st, trs)
        }),
    ensures
        ({
            let (g, s, st) = (vi.grid(), vi.states@, vi.states@[i]);
            let lo = row_start(l, vi.actions@, a, st.it as int);
            rows_sum(t, vals, lo, n, l.column(st.ix as int, st.iy as int)) == g.weighted(
                s,
                st,
                vi.actions@[a].outcomes(st.it as int),
                n,
            )
        }),
    decreases n,
{
    if n > 0 {
        lemma_sum(vi, l, t, vals, i, a, n - 1);
        lemma_row(vi, l, t, vals, i, a, n - 1);
        let (g, s, st) = (vi.grid(), vi.states@, vi.states@[i]);
        let tr = vi.actions@[a].outcomes(st.it as int)[n - 1];
        assert(g.lands(s, st, tr));
    }
}

} // verus!
