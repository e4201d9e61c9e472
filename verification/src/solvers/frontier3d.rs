//! Spatial frontier solver: single states, not whole cells, make up the frontier.
//!
//! A state joins the next frontier when its value dropped. Meant for solving a
//! field from scratch, where values only ever drop.
use vstd::prelude::*;

use crate::model::Model;
use crate::params::MAX_COST;
use crate::solvers::bitboard::{dilated3, Bitboard3D};
use crate::solvers::displacement::{displacement, reach, Axis};
use crate::solvers::frontier2d::Wave;
use crate::solvers::observe::{
    asks_of, continued, lemma_asked_once_more, lemma_nothing_shown, log_of, obeyed, was_shown, Log,
    Sight, SolveFlow, SolveObserver, SolveOutcome,
};
use crate::state::State;
use crate::value_iterator::{value_iteration_raw, ValueIterator};

verus! {

/// The update of state `i` lowers its value.
pub open spec fn drops(m: Model, s: Seq<State>, i: int) -> bool {
    m.updated(s, i).total_cost < s[i].total_cost
}

/// A pass over the first `n` states that updates those in `cand`.
pub open spec fn lattice_pass(m: Model, w: Wave, cand: Set<int>, n: int) -> Wave
    decreases n,
{
    if n <= 0 {
        Wave { states: w.states, frontier: Set::empty(), updates: w.updates }
    } else {
        let p = lattice_pass(m, w, cand, n - 1);
        if cand.contains(n - 1) {
            let d = drops(m, p.states, n - 1);
            Wave {
                states: m.upd(p.states, n - 1),
                frontier: if d {
                    p.frontier.insert(n - 1)
                } else {
                    p.frontier
                },
                updates: p.updates + if d {
                    1int
                } else {
                    0int
                },
            }
        } else {
            p
        }
    }
}

/// The states that one round evaluates: those within reach of the frontier.
pub open spec fn candidates3(m: Model, frontier: Set<int>) -> Set<int> {
    dilated3(
        frontier,
        m.grid.nx,
        m.grid.ny,
        m.grid.nt,
        reach(m, Axis::X),
        reach(m, Axis::Y),
        reach(m, Axis::Heading),
    )
}

/// One round.
pub open spec fn round3(m: Model, w: Wave) -> Wave {
    lattice_pass(m, w, candidates3(m, w.frontier), m.grid.len())
}

/// `n` rounds.
pub open spec fn rounds3(m: Model, w: Wave, n: int) -> Wave
    decreases n,
{
    if n <= 0 {
        w
    } else {
        round3(m, rounds3(m, w, n - 1))
    }
}

/// The states that have a value.
pub open spec fn valued_states(s: Seq<State>) -> Set<int> {
    Set::new(|i: int| 0 <= i < s.len() && s[i].total_cost < MAX_COST)
}

/// Where a solve of the field `s` starts.
pub open spec fn seeded3(s: Seq<State>) -> Wave {
    Wave { states: s, frontier: valued_states(s), updates: 0 }
}

/// What a solve that starts at `w` comes to.
///
/// Every round was needed; the solve ends when nothing dropped in the last round,
/// at `max_iter` rounds, or where the observer ended it.
pub open spec fn solved3(
    m: Model,
    w: Wave,
    max_iter: int,
    out: SolveOutcome,
    s: Seq<State>,
) -> bool {
    let n = out.iters as int;
    let last = rounds3(m, w, n);
    &&& s == last.states
    &&& out.updates == last.updates
    &&& n <= max_iter
    &&& forall|j: int|
        0 <= j < n ==> (#[trigger] rounds3(m, w, j)).frontier != Set::<int>::empty()
    &&& if out.interrupted() {
        &&& n > 0
        &&& last.frontier != Set::<int>::empty()
        &&& !out.converged
        &&& !(out.stopped && out.cancelled)
    } else {
        &&& out.converged <==> last.frontier == Set::<int>::empty()
        &&& !out.converged ==> n == max_iter
    }
}

/// What there is to see after each round.
pub open spec fn sights_of3(m: Model, w: Wave) -> spec_fn(int) -> Sight {
    |it: int| Sight { states: rounds3(m, w, it).states, updates: rounds3(m, w, it).updates }
}

/// What passed between the observer and a solve that started at `w`: it was asked after
/// every round that left work, was shown what it wanted to see, and was obeyed.
pub open spec fn watched3(m: Model, w: Wave, out: SolveOutcome, a: Log, b: Log) -> bool {
    let n = out.iters as int;
    let left = rounds3(m, w, n).frontier != Set::<int>::empty();
    &&& was_shown(a, b, 1, asks_of(n, left), sights_of3(m, w))
    &&& obeyed(a, b, out)
}

proof fn lemma_lattice_bound(m: Model, w: Wave, cand: Set<int>, n: int)
    requires
        0 <= n,
    ensures
        w.updates <= lattice_pass(m, w, cand, n).updates <= w.updates + n,
    decreases n,
{
    if n > 0 {
        lemma_lattice_bound(m, w, cand, n - 1);
    }
}

proof fn lemma_rounds3_bound(m: Model, w: Wave, n: int)
    requires
        0 <= n,
        m.grid.wf(),
        0 <= m.grid.len(),
    ensures
        w.updates <= rounds3(m, w, n).updates <= w.updates + n * i32::MAX,
    decreases n,
{
    if n > 0 {
        lemma_rounds3_bound(m, w, n - 1);
        let p = rounds3(m, w, n - 1);
        lemma_lattice_bound(m, p, candidates3(m, p.frontier), m.grid.len());
    }
}

/// The states that have a value.
pub fn seed_frontier(vi: &ValueIterator) -> (r: Bitboard3D)
    requires
        vi.wf(),
    ensures
        r.wf(),
        r.w == vi.grid().nx,
        r.h == vi.grid().ny,
        r.n == vi.grid().nt,
        r.members() =~= valued_states(vi.states@),
{
    let mut out: Bitboard3D = Bitboard3D::new(
        vi.cell_num_x as u32,
        vi.cell_num_y as u32,
        vi.cell_num_t as u32,
    );
    let n: usize = out.bits.len();
    let mut i: usize = 0;
    while i < n
        invariant
            vi.wf(),
            out.wf(),
            out.w == vi.grid().nx,
            out.h == vi.grid().ny,
            out.n == vi.grid().nt,
            n == vi.states@.len(),
            n == out.bits@.len(),
            i <= n,
            forall|j: int|
                0 <= j < i ==> #[trigger] out.bits@[j] == (vi.states@[j].total_cost < MAX_COST),
        decreases n - i,
    {
        let b: bool = vi.states[i].total_cost < MAX_COST;
        out.bits.set(i, b);
        i += 1;
    }
    out
}

/// One round from the given frontier; returns the next frontier and how many
/// values dropped.
fn run_round3(vi: &mut ValueIterator, frontier: &Bitboard3D, dx: u32, dy: u32, dt: u32) -> (r: (
    Bitboard3D,
    u64,
))
    requires
        old(vi).wf(),
        frontier.wf(),
        frontier.w == old(vi).grid().nx,
        frontier.h == old(vi).grid().ny,
        frontier.n == old(vi).grid().nt,
        dx == reach(old(vi).model(), Axis::X),
        dy == reach(old(vi).model(), Axis::Y),
        dt == reach(old(vi).model(), Axis::Heading),
    ensures
        final(vi).wf(),
        r.0.wf(),
        r.0.w == frontier.w,
        r.0.h == frontier.h,
        r.0.n == frontier.n,
        ({
            let w = round3(
                old(vi).model(),
                Wave { states: old(vi).states@, frontier: frontier.members(), updates: 0 },
            );
            &&& final(vi).has_states(*old(vi), w.states)
            &&& r.0.members() =~= w.frontier
            &&& r.1 == w.updates
            &&& r.1 <= i32::MAX
        }),
{
    let ghost m = vi.model();
    let ghost v0 = *vi;
    let ghost w = Wave { states: vi.states@, frontier: frontier.members(), updates: 0 };
    let ghost cand_set = candidates3(m, frontier.members());
    let cand: Bitboard3D = frontier.dilate(dx, dy, dt);
    assert(cand.members() == cand_set);
    let mut next: Bitboard3D = Bitboard3D::new(frontier.w, frontier.h, frontier.n);
    let mut updates: u64 = 0;
    let n: usize = cand.bits.len();
    let mut i: usize = 0;
    while i < n
        invariant
            vi.wf(),
            m == v0.model(),
            vi.model() == m,
            m.grid.wf(),
            cand.wf(),
            next.wf(),
            next.w == m.grid.nx,
            next.h == m.grid.ny,
            next.n == m.grid.nt,
            n == m.grid.len(),
            n == cand.bits@.len(),
            n == next.bits@.len(),
            cand.members() == cand_set,
            i <= n,
            vi.has_states(v0, lattice_pass(m, w, cand_set, i as int).states),
            next.members() == lattice_pass(m, w, cand_set, i as int).frontier,
            updates == lattice_pass(m, w, cand_set, i as int).updates,
            updates <= i,
            w.updates == 0,
        decreases n - i,
    {
        assert(cand.bits@[i as int] == cand_set.contains(i as int));
        if cand.bits[i] {
            let before: u64 = vi.states[i].total_cost;
            let d: u64 = value_iteration_raw(
                &mut vi.states,
                &vi.actions,
                i,
                vi.cell_num_x,
                vi.cell_num_y,
                vi.cell_num_t,
            );
            if vi.states[i].total_cost < before {
                updates += 1;
                let ghost was = next.members();
                next.bits.set(i, true);
                assert(next.members() =~= was.insert(i as int));
            }
        }
        i += 1;
    }
    (next, updates)
}

/// The number of updates before a pass only shifts the number after it.
proof fn lemma_shift_updates3(m: Model, w: Wave, u: int, cand: Set<int>, n: int)
    ensures
        ({
            let a = lattice_pass(m, w, cand, n);
            let b = lattice_pass(m, Wave { updates: w.updates + u, ..w }, cand, n);
            &&& b.states == a.states
            &&& b.frontier == a.frontier
            &&& b.updates == a.updates + u
        }),
    decreases n,
{
    if n > 0 {
        lemma_shift_updates3(m, w, u, cand, n - 1);
    }
}

/// Solves the field by spatial frontiers, from the states that have a value.
pub fn frontier3d_solve_observed<O: SolveObserver>(
    vi: &mut ValueIterator,
    max_iter: u32,
    obs: &mut O,
) -> (out: SolveOutcome)
    requires
        old(vi).wf(),
    ensures
        final(vi).wf(),
        final(vi).has_states(*old(vi), final(vi).states@),
        solved3(
            old(vi).model(),
            seeded3(old(vi).states@),
            max_iter as int,
            out,
            final(vi).states@,
        ),
        !old(obs).may_interrupt() ==> !out.interrupted(),
        old(obs).may_interrupt() ==> watched3(
            old(vi).model(),
            seeded3(old(vi).states@),
            out,
            log_of(*old(obs)),
            log_of(*final(obs)),
        ),
        final(obs).may_interrupt() == old(obs).may_interrupt(),
{
    let ghost m = vi.model();
    let ghost v0 = *vi;
    let ghost w = seeded3(vi.states@);
    let ghost quiet = !old(obs).may_interrupt();
    let ghost l0 = log_of(*obs);
    let ghost sights = sights_of3(m, w);
    proof {
        lemma_nothing_shown(l0, 1, sights);
    }
    let (mx, my, mt) = displacement(vi);
    let mut frontier: Bitboard3D = seed_frontier(vi);
    let mut updates: u64 = 0;
    let mut iters: u32 = 0;
    let mut left: usize = frontier.popcount();
    while left > 0 && iters < max_iter
        invariant
            vi.wf(),
            m == v0.model(),
            vi.model() == m,
            v0 == *old(vi),
            w == seeded3(v0.states@),
            mx == reach(m, Axis::X),
            my == reach(m, Axis::Y),
            mt == reach(m, Axis::Heading),
            mx >= 0,
            my >= 0,
            mt >= 0,
            frontier.wf(),
            frontier.w == m.grid.nx,
            frontier.h == m.grid.ny,
            frontier.n == m.grid.nt,
            iters <= max_iter,
            left == 0 <==> frontier.members() =~= Set::<int>::empty(),
            vi.has_states(v0, rounds3(m, w, iters as int).states),
            frontier.members() == rounds3(m, w, iters as int).frontier,
            updates == rounds3(m, w, iters as int).updates,
            forall|j: int|
                0 <= j < iters ==> (#[trigger] rounds3(m, w, j)).frontier != Set::<int>::empty(),
            quiet == !obs.may_interrupt(),
            quiet == !old(obs).may_interrupt(),
            l0 == log_of(*old(obs)),
            sights == sights_of3(m, w),
            !quiet ==> was_shown(l0, log_of(*obs), 1, asks_of(iters as int, left > 0), sights)
                && continued(l0, log_of(*obs), false),
        decreases max_iter - iters,
    {
        let ghost k = iters as int;
        let ghost p = rounds3(m, w, k);
        let (next, u) = run_round3(vi, &frontier, mx as u32, my as u32, mt as u32);
        proof {
            lemma_shift_updates3(
                m,
                Wave { states: p.states, frontier: p.frontier, updates: 0 },
                p.updates,
                candidates3(m, p.frontier),
                m.grid.len(),
            );
            lemma_rounds3_bound(m, w, k);
            assert(k * i32::MAX <= 0xffff_ffff * i32::MAX) by (nonlinear_arith)
                requires
                    k <= 0xffff_ffff,
            ;
            assert(rounds3(m, w, k + 1) == round3(m, p));
        }
        iters += 1;
        updates += u;
        frontier = next;
        left = frontier.popcount();
        let ghost l1 = log_of(*obs);
        let mut due: bool = false;
        if left > 0 {
            due = obs.due(iters as u64);
        }
        if due {
            let flow: SolveFlow = obs.boundary(vi, iters, updates);
            proof {
                if !quiet {
                    lemma_asked_once_more(l0, l1, log_of(*obs), 1, k, sights, true, flow);
                }
            }
            match flow {
                SolveFlow::Continue => {},
                SolveFlow::Stop => {
                    return SolveOutcome::stopped(iters, updates);
                },
                SolveFlow::Cancel => {
                    return SolveOutcome::cancelled(iters, updates);
                },
            }
        } else {
            proof {
                if left > 0 && !quiet {
                    lemma_asked_once_more(
                        l0,
                        l1,
                        log_of(*obs),
                        1,
                        k,
                        sights,
                        false,
                        SolveFlow::Continue,
                    );
                }
            }
        }
    }
    SolveOutcome::running(iters, updates, left == 0)
}

/// A pass touches only candidates. It counts the states that it lowered, which are the
/// frontier of the next round.
pub proof fn law_pass_counts_what_it_lowers(m: Model, w: Wave, cand: Set<int>, n: int, i: int)
    requires
        0 <= n <= w.states.len(),
        0 <= i < w.states.len(),
    ensures
        ({
            let p = lattice_pass(m, w, cand, n);
            &&& p.states.len() == w.states.len()
            &&& !cand.contains(i) || i >= n ==> p.states[i] == w.states[i] && !p.frontier.contains(
                i,
            )
            &&& p.frontier.contains(i) <==> p.states[i].total_cost < w.states[i].total_cost
            &&& p.frontier.finite()
            &&& p.updates - w.updates == p.frontier.len()
        }),
    decreases n,
{
    if n > 0 {
        law_pass_counts_what_it_lowers(m, w, cand, n - 1, i);
        law_pass_counts_what_it_lowers(m, w, cand, n - 1, n - 1);
    }
}

} // verus!
