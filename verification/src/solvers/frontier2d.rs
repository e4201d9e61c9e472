//! Planar frontier solver: whenever a cell may have changed, all of its headings
//! are evaluated again.
//!
//! A cell joins the next frontier when any of its values moved, up or down, so the
//! solver also repairs a solved field whose penalties have changed since. A value
//! can only move when a value or a penalty within reach of it has moved; hence an
//! empty frontier is a fixed point.
use vstd::prelude::*;

use crate::grid::on_axis;
use crate::model::{Grid, Model};
use crate::params::MAX_COST;
use crate::solvers::bitboard::{dilated, Bitboard2D};
use crate::solvers::displacement::{displacement, reach, Axis};
use crate::solvers::observe::{
    asks_of, continued, lemma_asked_once_more, lemma_nothing_shown, log_of, obeyed, was_shown, Log,
    Sight, SolveFlow, SolveObserver, SolveOutcome,
};
use crate::state::State;
use crate::value_iterator::{value_iteration_raw, ValueIterator};

verus! {

/// The states after the first `k` headings of cell `c` have been updated in turn.
pub open spec fn cell_pass(m: Model, s: Seq<State>, c: int, k: int) -> Seq<State>
    decreases k,
{
    if k <= 0 {
        s
    } else {
        m.upd(cell_pass(m, s, c, k - 1), c * m.grid.nt + k - 1)
    }
}

/// How many of those updates moved a value.
pub open spec fn cell_moves(m: Model, s: Seq<State>, c: int, k: int) -> int
    decreases k,
{
    if k <= 0 {
        0
    } else {
        cell_moves(m, s, c, k - 1) + if m.delta(
            cell_pass(m, s, c, k - 1),
            c * m.grid.nt + k - 1,
        ) > 0 {
            1int
        } else {
            0int
        }
    }
}

/// The state of a running solve: the values, the cells that moved last, and the
/// number of updates so far that moved a value.
pub struct Wave {
    pub states: Seq<State>,
    pub frontier: Set<int>,
    pub updates: int,
}

/// A pass over the first `n` cells that updates those in `cand`.
pub open spec fn plane_pass(m: Model, w: Wave, cand: Set<int>, n: int) -> Wave
    decreases n,
{
    if n <= 0 {
        Wave { states: w.states, frontier: Set::empty(), updates: w.updates }
    } else {
        let p = plane_pass(m, w, cand, n - 1);
        if cand.contains(n - 1) {
            let u = cell_moves(m, p.states, n - 1, m.grid.nt);
            Wave {
                states: cell_pass(m, p.states, n - 1, m.grid.nt),
                frontier: if u > 0 {
                    p.frontier.insert(n - 1)
                } else {
                    p.frontier
                },
                updates: p.updates + u,
            }
        } else {
            p
        }
    }
}

/// The cells that one round evaluates: those within reach of the frontier.
pub open spec fn candidates(m: Model, frontier: Set<int>) -> Set<int> {
    dilated(frontier, m.grid.nx, m.grid.ny, reach(m, Axis::X), reach(m, Axis::Y))
}

/// One round.
pub open spec fn round(m: Model, w: Wave) -> Wave {
    plane_pass(m, w, candidates(m, w.frontier), m.grid.nx * m.grid.ny)
}

/// `n` rounds.
pub open spec fn rounds(m: Model, w: Wave, n: int) -> Wave
    decreases n,
{
    if n <= 0 {
        w
    } else {
        round(m, rounds(m, w, n - 1))
    }
}

/// The cells that have a value: those with a state below `MAX_COST`.
pub open spec fn valued_cells(g: Grid, s: Seq<State>) -> Set<int> {
    Set::new(
        |c: int|
            exists|it: int|
                0 <= c < g.nx * g.ny && on_axis(it, g.nt) && (#[trigger] s[c * g.nt
                    + it]).total_cost < MAX_COST,
    )
}

/// Where a solve of the field `s` starts.
pub open spec fn seeded(m: Model, s: Seq<State>) -> Wave {
    Wave { states: s, frontier: valued_cells(m.grid, s), updates: 0 }
}

/// What a solve that starts at `w`, after `iters` rounds, comes to.
///
/// Every round was needed; the solve ends when nothing moved in the last round, at
/// `max_iter` rounds, or where the observer ended it.
pub open spec fn solved(
    m: Model,
    w: Wave,
    iters: int,
    max_iter: int,
    out: SolveOutcome,
    s: Seq<State>,
) -> bool {
    let n = out.iters - iters;
    let last = rounds(m, w, n);
    &&& 0 <= n
    &&& s == last.states
    &&& out.updates == last.updates
    &&& n > 0 ==> out.iters <= max_iter
    &&& forall|j: int| 0 <= j < n ==> (#[trigger] rounds(m, w, j)).frontier != Set::<int>::empty()
    &&& if out.interrupted() {
        &&& n > 0
        &&& last.frontier != Set::<int>::empty()
        &&& !out.converged
        &&& !(out.stopped && out.cancelled)
    } else {
        &&& out.converged <==> last.frontier == Set::<int>::empty()
        &&& !out.converged ==> out.iters >= max_iter
    }
}

/// Two solves from the same start that nobody interrupts come to the same end.
pub proof fn law_solve_is_determined(
    m: Model,
    w: Wave,
    iters: int,
    max_iter: int,
    a: SolveOutcome,
    s: Seq<State>,
    b: SolveOutcome,
    t: Seq<State>,
)
    requires
        solved(m, w, iters, max_iter, a, s),
        solved(m, w, iters, max_iter, b, t),
        !a.interrupted(),
        !b.interrupted(),
    ensures
        a == b,
        s == t,
{
    let (n, k) = (a.iters - iters, b.iters - iters);
    if n < k {
        assert(rounds(m, w, n).frontier != Set::<int>::empty());
    }
    if k < n {
        assert(rounds(m, w, k).frontier != Set::<int>::empty());
    }
}

/// What there is to see after each round, where `iters0` rounds led to `w`.
pub open spec fn sights_of(m: Model, w: Wave, iters0: int) -> spec_fn(int) -> Sight {
    |it: int|
        Sight {
            states: rounds(m, w, it - iters0).states,
            updates: rounds(m, w, it - iters0).updates,
        }
}

/// What passed between the observer and a solve that started at `w`, after `iters` rounds:
/// it was asked after every round that left work, was shown what it wanted to see, and was
/// obeyed.
pub open spec fn watched(
    m: Model,
    w: Wave,
    iters: int,
    out: SolveOutcome,
    a: Log,
    b: Log,
) -> bool {
    let n = out.iters - iters;
    let left = rounds(m, w, n).frontier != Set::<int>::empty();
    &&& was_shown(a, b, iters + 1, asks_of(n, left), sights_of(m, w, iters))
    &&& obeyed(a, b, out)
}

proof fn lemma_row(c: int, it: int, cells: int, nt: int)
    requires
        0 <= c < cells,
        0 <= it < nt,
    ensures
        0 <= c * nt,
        0 <= c * nt + it < cells * nt,
{
    assert(c * nt + nt <= cells * nt && 0 <= c * nt) by (nonlinear_arith)
        requires
            0 <= c,
            c + 1 <= cells,
            0 < nt,
    ;
}

/// The states of every cell are in range.
pub proof fn lemma_cell_states(g: Grid, c: int, it: int)
    requires
        0 <= c < g.nx * g.ny,
        0 <= it < g.nt,
    ensures
        0 <= c * g.nt,
        0 <= c * g.nt + it < g.len(),
{
    lemma_row(c, it, g.nx * g.ny, g.nt);
}

proof fn lemma_moves_bound(m: Model, s: Seq<State>, c: int, k: int)
    ensures
        0 <= cell_moves(m, s, c, k),
        k >= 0 ==> cell_moves(m, s, c, k) <= k,
    decreases k,
{
    if k > 0 {
        lemma_moves_bound(m, s, c, k - 1);
    }
}

proof fn lemma_plane_bound(m: Model, w: Wave, cand: Set<int>, n: int)
    requires
        0 <= n,
        0 <= m.grid.nt,
    ensures
        w.updates <= plane_pass(m, w, cand, n).updates <= w.updates + n * m.grid.nt,
    decreases n,
{
    if n > 0 {
        lemma_plane_bound(m, w, cand, n - 1);
        lemma_moves_bound(m, plane_pass(m, w, cand, n - 1).states, n - 1, m.grid.nt);
        assert(n * m.grid.nt == (n - 1) * m.grid.nt + m.grid.nt) by (nonlinear_arith);
    }
}

proof fn lemma_rounds_bound(m: Model, w: Wave, n: int)
    requires
        0 <= n,
        m.grid.wf(),
    ensures
        w.updates <= rounds(m, w, n).updates <= w.updates + n * i32::MAX,
    decreases n,
{
    if n > 0 {
        lemma_rounds_bound(m, w, n - 1);
        let p = rounds(m, w, n - 1);
        assert(0 <= m.grid.nx * m.grid.ny) by (nonlinear_arith)
            requires
                0 <= m.grid.nx,
                0 <= m.grid.ny,
        ;
        lemma_plane_bound(m, p, candidates(m, p.frontier), m.grid.nx * m.grid.ny);
    }
}

/// Updates all headings of cell `c`; returns how many values moved.
fn update_cell(vi: &mut ValueIterator, c: usize) -> (u: u64)
    requires
        old(vi).wf(),
        c < old(vi).grid().nx * old(vi).grid().ny,
    ensures
        final(vi).wf(),
        final(vi).has_states(
            *old(vi),
            cell_pass(old(vi).model(), old(vi).states@, c as int, old(vi).grid().nt),
        ),
        u == cell_moves(old(vi).model(), old(vi).states@, c as int, old(vi).grid().nt),
        u <= old(vi).grid().nt,
{
    let ghost m = vi.model();
    let ghost s0 = vi.states@;
    let ghost v0 = *vi;
    let nt: i32 = vi.cell_num_t;
    let mut u: u64 = 0;
    let mut it: i32 = 0;
    while it < nt
        invariant
            vi.wf(),
            m == v0.model(),
            vi.model() == m,
            vi.has_states(v0, cell_pass(m, s0, c as int, it as int)),
            nt == m.grid.nt,
            nt == vi.cell_num_t,
            0 <= it <= nt,
            c < m.grid.nx * m.grid.ny,
            u == cell_moves(m, s0, c as int, it as int),
            u <= it,
        decreases nt - it,
    {
        proof {
            lemma_cell_states(m.grid, c as int, it as int);
        }
        let idx: usize = c * (nt as usize) + it as usize;
        let d: u64 = value_iteration_raw(
            &mut vi.states,
            &vi.actions,
            idx,
            vi.cell_num_x,
            vi.cell_num_y,
            nt,
        );
        if d > 0 {
            u += 1;
        }
        it += 1;
    }
    u
}

/// One round from the given frontier; returns the next frontier and how many
/// values moved.
fn run_round(vi: &mut ValueIterator, frontier: &Bitboard2D, dx: u32, dy: u32) -> (r: (
    Bitboard2D,
    u64,
))
    requires
        old(vi).wf(),
        frontier.wf(),
        frontier.w == old(vi).grid().nx,
        frontier.h == old(vi).grid().ny,
        dx == reach(old(vi).model(), Axis::X),
        dy == reach(old(vi).model(), Axis::Y),
    ensures
        final(vi).wf(),
        r.0.wf(),
        r.0.w == frontier.w,
        r.0.h == frontier.h,
        ({
            let w = round(
                old(vi).model(),
                Wave { states: old(vi).states@, frontier: frontier.members(), updates: 0 },
            );
            &&& final(vi).has_states(*old(vi), w.states)
            &&& r.0.members() =~= w.frontier
            &&& r.1 == w.updates
            &&& r.1 <= i32::MAX
        }),
{
    let ghost m = vi.model();
    let ghost v0 = *vi;
    let ghost w = Wave { states: vi.states@, frontier: frontier.members(), updates: 0 };
    let ghost cand_set = candidates(m, frontier.members());
    let cand: Bitboard2D = frontier.dilate(dx, dy);
    assert(cand.members() == cand_set);
    let mut next: Bitboard2D = Bitboard2D::new(frontier.w, frontier.h);
    let mut updates: u64 = 0;
    let n: usize = cand.bits.len();
    let mut c: usize = 0;
    while c < n
        invariant
            vi.wf(),
            m == v0.model(),
            vi.model() == m,
            m.grid.wf(),
            cand.wf(),
            next.wf(),
            next.w == m.grid.nx,
            next.h == m.grid.ny,
            n == m.grid.nx * m.grid.ny,
            n == cand.bits@.len(),
            n == next.bits@.len(),
            cand.members() == cand_set,
            c <= n,
            vi.has_states(v0, plane_pass(m, w, cand_set, c as int).states),
            next.members() == plane_pass(m, w, cand_set, c as int).frontier,
            updates == plane_pass(m, w, cand_set, c as int).updates,
            updates <= c * m.grid.nt,
            w.updates == 0,
        decreases n - c,
    {
        assert(cand.bits@[c as int] == cand_set.contains(c as int));
        proof {
            assert(c * m.grid.nt + m.grid.nt == (c + 1) * m.grid.nt) by (nonlinear_arith);
            assert((c + 1) * m.grid.nt <= n * m.grid.nt) by (nonlinear_arith)
                requires
                    c + 1 <= n,
                    0 <= m.grid.nt,
            ;
        }
        if cand.bits[c] {
            let u: u64 = update_cell(vi, c);
            if u > 0 {
                updates += u;
                let ghost before = next.members();
                next.bits.set(c, true);
                assert(next.members() =~= before.insert(c as int));
            }
        }
        c += 1;
    }
    (next, updates)
}

/// Rounds from the frontier `start` on, until nothing moves, `max_iter` is
/// reached, or the observer ends the solve.
pub(crate) fn sweep_frontier<O: SolveObserver>(
    vi: &mut ValueIterator,
    start: Bitboard2D,
    iters0: u32,
    updates0: u64,
    max_iter: u32,
    obs: &mut O,
) -> (out: SolveOutcome)
    requires
        old(vi).wf(),
        start.wf(),
        start.w == old(vi).grid().nx,
        start.h == old(vi).grid().ny,
        updates0 < 0x8000_0000_0000_0000,
    ensures
        final(vi).wf(),
        final(vi).has_states(*old(vi), final(vi).states@),
        solved(
            old(vi).model(),
            Wave { states: old(vi).states@, frontier: start.members(), updates: updates0 as int },
            iters0 as int,
            max_iter as int,
            out,
            final(vi).states@,
        ),
        !old(obs).may_interrupt() ==> !out.interrupted(),
        old(obs).may_interrupt() ==> watched(
            old(vi).model(),
            Wave { states: old(vi).states@, frontier: start.members(), updates: updates0 as int },
            iters0 as int,
            out,
            log_of(*old(obs)),
            log_of(*final(obs)),
        ),
        final(obs).may_interrupt() == old(obs).may_interrupt(),
{
    let ghost m = vi.model();
    let ghost v0 = *vi;
    let ghost start_set = start.members();
    let ghost w = Wave { states: vi.states@, frontier: start_set, updates: updates0 as int };
    let ghost quiet = !old(obs).may_interrupt();
    let ghost l0 = log_of(*obs);
    let ghost sights = sights_of(m, w, iters0 as int);
    proof {
        lemma_nothing_shown(l0, iters0 + 1, sights);
    }
    let (mx, my, mt) = displacement(vi);
    let mut frontier: Bitboard2D = start;
    let mut updates: u64 = updates0;
    let mut iters: u32 = iters0;
    let mut left: usize = frontier.popcount();
    while left > 0 && iters < max_iter
        invariant
            vi.wf(),
            m == v0.model(),
            vi.model() == m,
            v0 == *old(vi),
            w == (Wave { states: v0.states@, frontier: start_set, updates: updates0 as int }),
            mx == reach(m, Axis::X),
            my == reach(m, Axis::Y),
            mx >= 0,
            my >= 0,
            updates0 < 0x8000_0000_0000_0000,
            frontier.wf(),
            frontier.w == m.grid.nx,
            frontier.h == m.grid.ny,
            iters0 <= iters,
            iters > iters0 ==> iters <= max_iter,
            left == 0 <==> frontier.members() =~= Set::<int>::empty(),
            vi.has_states(v0, rounds(m, w, iters - iters0).states),
            frontier.members() == rounds(m, w, iters - iters0).frontier,
            updates == rounds(m, w, iters - iters0).updates,
            forall|j: int|
                0 <= j < iters - iters0 ==> (#[trigger] rounds(m, w, j)).frontier != Set::<
                    int,
                >::empty(),
            quiet == !obs.may_interrupt(),
            quiet == !old(obs).may_interrupt(),
            start_set == start.members(),
            l0 == log_of(*old(obs)),
            sights == sights_of(m, w, iters0 as int),
            !quiet ==> was_shown(
                l0,
                log_of(*obs),
                iters0 + 1,
                asks_of(iters - iters0, left > 0),
                sights,
            ) && continued(l0, log_of(*obs), false),
        decreases max_iter - iters,
    {
        let ghost k = iters - iters0;
        let ghost p = rounds(m, w, k);
        let (next, u) = run_round(vi, &frontier, mx as u32, my as u32);
        proof {
            lemma_shift_updates(
                m,
                Wave { states: p.states, frontier: p.frontier, updates: 0 },
                p.updates,
                candidates(m, p.frontier),
                m.grid.nx * m.grid.ny,
            );
            lemma_rounds_bound(m, w, k);
            assert(k * i32::MAX <= 0xffff_ffff * i32::MAX) by (nonlinear_arith)
                requires
                    k <= 0xffff_ffff,
            ;
            assert(rounds(m, w, k + 1) == round(m, p));
        }
        iters += 1;
        updates += u;
        frontier = next;
        left = frontier.popcount();
        let ghost l1 = log_of(*obs);
        let mut due: bool = false;
        if left > 0 {
            due = obs.due(iters as u64);
        }
        if due {
            let flow: SolveFlow = obs.boundary(vi, iters, updates);
            proof {
                if !quiet {
                    lemma_asked_once_more(
                        l0,
                        l1,
                        log_of(*obs),
                        iters0 + 1,
                        k,
                        sights,
                        true,
                        flow,
                    );
                }
            }
            match flow {
                SolveFlow::Continue => {},
                SolveFlow::Stop => {
                    return SolveOutcome::stopped(iters, updates);
                },
                SolveFlow::Cancel => {
                    return SolveOutcome::cancelled(iters, updates);
                },
            }
        } else {
            proof {
                if left > 0 && !quiet {
                    lemma_asked_once_more(
                        l0,
                        l1,
                        log_of(*obs),
                        iters0 + 1,
                        k,
                        sights,
                        false,
                        SolveFlow::Continue,
                    );
                }
            }
        }
    }
    SolveOutcome::running(iters, updates, left == 0)
}

/// The number of updates before a pass only shifts the number after it.
proof fn lemma_shift_updates(m: Model, w: Wave, u: int, cand: Set<int>, n: int)
    ensures
        ({
            let a = plane_pass(m, w, cand, n);
            let b = plane_pass(m, Wave { updates: w.updates + u, ..w }, cand, n);
            &&& b.states == a.states
            &&& b.frontier == a.frontier
            &&& b.updates == a.updates + u
        }),
    decreases n,
{
    if n > 0 {
        lemma_shift_updates(m, w, u, cand, n - 1);
    }
}

/// The cells that have a value.
pub fn seed_frontier_2d(vi: &ValueIterator) -> (r: Bitboard2D)
    requires
        vi.wf(),
    ensures
        r.wf(),
        r.w == vi.grid().nx,
        r.h == vi.grid().ny,
        r.members() =~= valued_cells(vi.grid(), vi.states@),
{
    let ghost g = vi.grid();
    let mut out: Bitboard2D = Bitboard2D::new(vi.cell_num_x as u32, vi.cell_num_y as u32);
    let n: usize = out.bits.len();
    let nt: usize = vi.cell_num_t as usize;
    let mut c: usize = 0;
    while c < n
        invariant
            vi.wf(),
            g == vi.grid(),
            out.wf(),
            out.w == g.nx,
            out.h == g.ny,
            n == g.nx * g.ny,
            n == out.bits@.len(),
            nt == g.nt,
            c <= n,
            forall|d: int| 0 <= d < c ==> #[trigger] out.bits@[d] == valued_cells(g, vi.states@).contains(d),
            forall|d: int| c <= d < n ==> !#[trigger] out.bits@[d],
        decreases n - c,
    {
        let mut it: usize = 0;
        while it < nt
            invariant
                vi.wf(),
                g == vi.grid(),
                out.wf(),
                out.w == g.nx,
                out.h == g.ny,
                n == g.nx * g.ny,
                n == out.bits@.len(),
                nt == g.nt,
                c < n,
                it <= nt,
                forall|d: int| 0 <= d < c ==> #[trigger] out.bits@[d] == valued_cells(g, vi.states@).contains(d),
                forall|d: int| c < d < n ==> !#[trigger] out.bits@[d],
                out.bits@[c as int] <==> exists|t: int|
                    0 <= t < it && (#[trigger] vi.states@[c * g.nt + t]).total_cost < MAX_COST,
            decreases nt - it,
        {
            proof {
                lemma_cell_states(g, c as int, it as int);
            }
            let idx: usize = c * nt + it;
            let ghost before = out.bits@;
            if vi.states[idx].total_cost < MAX_COST {
                assert(vi.states@[c * g.nt + it as int].total_cost < MAX_COST);
                out.bits.set(c, true);
            }
            it += 1;
        }
        assert(out.bits@[c as int] == valued_cells(g, vi.states@).contains(c as int)) by {
            if out.bits@[c as int] {
                let t = choose|t: int|
                    0 <= t < it && (#[trigger] vi.states@[c * g.nt + t]).total_cost < MAX_COST;
                assert(on_axis(t, g.nt));
            }
        }
        c += 1;
    }
    out
}

/// Solves the field by planar frontiers, from the cells that have a value.
pub fn frontier2d_solve_observed<O: SolveObserver>(
    vi: &mut ValueIterator,
    max_iter: u32,
    obs: &mut O,
) -> (out: SolveOutcome)
    requires
        old(vi).wf(),
    ensures
        final(vi).wf(),
        final(vi).has_states(*old(vi), final(vi).states@),
        solved(
            old(vi).model(),
            seeded(old(vi).model(), old(vi).states@),
            0,
            max_iter as int,
            out,
            final(vi).states@,
        ),
        !old(obs).may_interrupt() ==> !out.interrupted(),
        old(obs).may_interrupt() ==> watched(
            old(vi).model(),
            seeded(old(vi).model(), old(vi).states@),
            0,
            out,
            log_of(*old(obs)),
            log_of(*final(obs)),
        ),
        final(obs).may_interrupt() == old(obs).may_interrupt(),
{
    let start: Bitboard2D = seed_frontier_2d(vi);
    assert(start.members() == valued_cells(vi.grid(), vi.states@));
    sweep_frontier(vi, start, 0, 0, max_iter, obs)
}

/// Updating a cell counts the headings whose value changed: none exactly where all values of
/// the cell are what they were.
pub proof fn law_cell_counts_its_changes(m: Model, s: Seq<State>, c: int, k: int, i: int)
    requires
        0 <= c * m.grid.nt,
        0 <= k,
        c * m.grid.nt + k <= s.len(),
        0 <= i < s.len(),
    ensures
        cell_pass(m, s, c, k).len() == s.len(),
        0 <= cell_moves(m, s, c, k) <= k,
        i < c * m.grid.nt || c * m.grid.nt + k <= i ==> cell_pass(m, s, c, k)[i] == s[i],
        cell_moves(m, s, c, k) == 0 ==> cell_pass(m, s, c, k)[i].total_cost == s[i].total_cost,
        cell_pass(m, s, c, k)[i].total_cost != s[i].total_cost ==> cell_moves(m, s, c, k) > 0,
    decreases k,
{
    if k > 0 {
        let j = c * m.grid.nt + k - 1;
        law_cell_counts_its_changes(m, s, c, k - 1, i);
        law_cell_counts_its_changes(m, s, c, k - 1, j);
    }
}

/// A round touches only cells in reach of the frontier, and the next frontier is among them.
pub proof fn law_round_stays_in_reach(m: Model, w: Wave, cand: Set<int>, n: int, c: int)
    requires
        0 <= n,
    ensures
        plane_pass(m, w, cand, n).frontier.contains(c) ==> cand.contains(c) && 0 <= c < n,
        plane_pass(m, w, cand, n).updates >= w.updates,
        plane_pass(m, w, cand, n).updates == w.updates ==> plane_pass(m, w, cand, n).frontier
            =~= Set::<int>::empty(),
    decreases n,
{
    if n > 0 {
        law_round_stays_in_reach(m, w, cand, n - 1, c);
        let p = plane_pass(m, w, cand, n - 1);
        lemma_moves_sign(m, p.states, n - 1, m.grid.nt);
    }
}

proof fn lemma_moves_sign(m: Model, s: Seq<State>, c: int, k: int)
    ensures
        0 <= cell_moves(m, s, c, k),
    decreases k,
{
    if k > 0 {
        lemma_moves_sign(m, s, c, k - 1);
    }
}

} // verus!
