//! Gauss-Seidel passes over a tile: the solve itself, and the polish that only
//! ever lowers values.
use vstd::prelude::*;

use crate::action::Action;
use crate::model::{law_best_is_least, Grid, Model};
use crate::params::REACH_THRESH;
use crate::solvers::frontier2d::lemma_cell_states;
use crate::solvers::schur::artifact::{clamp_unreached, clamped};
use crate::solvers::schur::tile::TileVi;
use crate::state::{updatable, State};
use crate::value_iterator::{min_action_cost, model_of, value_iteration_raw};

verus! {

/// Passes after which a tile is left as it is: values on their way down are bounds
/// all the same.
pub const TILE_MAX_ITER: u32 = 64;

/// Changes up to here count as none.
pub const TOL: u64 = 2;

/// Quiet passes in a row that end a solve.
pub const STABLE: u32 = 2;

/// The state that a pass visits as its `k`-th: cells in row order or in reverse,
/// headings upwards in either case.
pub open spec fn visit(g: Grid, forward: bool, k: int) -> int {
    if forward {
        k
    } else {
        (g.nx * g.ny - 1 - k / g.nt) * g.nt + k % g.nt
    }
}

/// Distance between two numbers.
pub open spec fn gap(a: u64, b: u64) -> u64 {
    if a >= b {
        (a - b) as u64
    } else {
        (b - a) as u64
    }
}

/// What a pass has done so far: the states, how many values moved, and the largest
/// change among values that are real.
#[verifier::ext_equal]
pub struct Pass {
    pub states: Seq<State>,
    pub updates: int,
    pub change: u64,
}

/// The first `k` visits of a pass over `s`.
pub open spec fn gs_pass(m: Model, s: Seq<State>, forward: bool, k: int) -> Pass
    decreases k,
{
    if k <= 0 {
        Pass { states: s, updates: 0, change: 0 }
    } else {
        let p = gs_pass(m, s, forward, k - 1);
        let i = visit(m.grid, forward, k - 1);
        let t = m.upd(p.states, i);
        let c = gap(clamped(p.states[i].total_cost), clamped(t[i].total_cost));
        Pass {
            states: t,
            updates: p.updates + if m.delta(p.states, i) > 0 {
                1int
            } else {
                0int
            },
            change: if c >= p.change {
                c
            } else {
                p.change
            },
        }
    }
}

/// The state of a tile solve between two passes.
///
/// `marks` holds, for each watched state, the value at which it last changed.
#[verifier::ext_equal]
pub struct GsRun {
    pub states: Seq<State>,
    pub updates: int,
    pub marks: Seq<u64>,
    pub stable: int,
    pub done: bool,
}

/// The real value of a watched state.
pub open spec fn watched(s: Seq<State>, watch: Seq<int>, k: int) -> u64 {
    clamped(s[watch[k]].total_cost)
}

/// The marks after a pass: those that are off by more than `TOL` move along.
pub open spec fn moved_marks(s: Seq<State>, watch: Seq<int>, marks: Seq<u64>) -> Seq<u64> {
    Seq::new(
        watch.len(),
        |k: int|
            if gap(watched(s, watch, k), marks[k]) > TOL {
                watched(s, watch, k)
            } else {
                marks[k]
            },
    )
}

/// Whether pass number `pass` left the tile as it was.
///
/// With watched states: none of them moved, at least three passes have run, and
/// either one of them has a value or nothing at all changed. Without: nothing
/// changed.
pub open spec fn quiet(
    watch: Option<Seq<int>>,
    p: Pass,
    marks: Seq<u64>,
    pass: int,
) -> bool {
    match watch {
        Some(w) => {
            &&& moved_marks(p.states, w, marks) =~= marks
            &&& pass >= 2
            &&& (p.change <= TOL || exists|k: int|
                0 <= k < marks.len() && #[trigger] marks[k] < REACH_THRESH)
        },
        None => p.change <= TOL,
    }
}

/// One more pass, number `pass`, unless the solve is done.
pub open spec fn gs_step(m: Model, watch: Option<Seq<int>>, r: GsRun, pass: int) -> GsRun {
    if r.done {
        r
    } else {
        let p = gs_pass(m, r.states, pass % 2 == 0, m.grid.len());
        let stable = if quiet(watch, p, r.marks, pass) {
            r.stable + 1
        } else {
            0int
        };
        GsRun {
            states: p.states,
            updates: r.updates + p.updates,
            marks: match watch {
                Some(w) => moved_marks(p.states, w, r.marks),
                None => r.marks,
            },
            stable,
            done: stable >= STABLE,
        }
    }
}

/// A tile solve before its first pass.
pub open spec fn gs_start(watch: Option<Seq<int>>, s: Seq<State>) -> GsRun {
    GsRun {
        states: s,
        updates: 0,
        marks: match watch {
            Some(w) => Seq::new(w.len(), |k: int| watched(s, w, k)),
            None => Seq::empty(),
        },
        stable: 0,
        done: false,
    }
}

/// A tile solve after at most `n` passes.
pub open spec fn gs_run(m: Model, watch: Option<Seq<int>>, s: Seq<State>, n: int) -> GsRun
    decreases n,
{
    if n <= 0 {
        gs_start(watch, s)
    } else {
        gs_step(m, watch, gs_run(m, watch, s, n - 1), n - 1)
    }
}

/// A whole tile solve.
pub open spec fn gs_solved(m: Model, watch: Option<Seq<int>>, s: Seq<State>) -> GsRun {
    gs_run(m, watch, s, TILE_MAX_ITER as int)
}

/// State `i` after a polish: its Bellman value, if that is lower.
pub open spec fn lowered(m: Model, s: Seq<State>, i: int) -> State {
    if updatable(s[i]) && m.bellman(s, i).0 < s[i].total_cost {
        m.updated(s, i)
    } else {
        s[i]
    }
}

/// The polish of state `i` lowers its value by more than `TOL`.
pub open spec fn lowers(m: Model, s: Seq<State>, i: int) -> bool {
    gap(clamped(s[i].total_cost), clamped(lowered(m, s, i).total_cost)) > TOL
}

/// The first `k` visits of a polishing pass over `s`.
pub open spec fn polish_pass(m: Model, s: Seq<State>, forward: bool, k: int) -> (Seq<State>, int)
    decreases k,
{
    if k <= 0 {
        (s, 0)
    } else {
        let p = polish_pass(m, s, forward, k - 1);
        let i = visit(m.grid, forward, k - 1);
        (
            p.0.update(i, lowered(m, p.0, i)),
            p.1 + if lowers(m, p.0, i) {
                1int
            } else {
                0int
            },
        )
    }
}

/// The state of a polish between two passes.
#[verifier::ext_equal]
pub struct PolishRun {
    pub states: Seq<State>,
    pub updates: int,
    pub done: bool,
}

/// A polish after at most `n` passes; a pass that lowers nothing is the last.
pub open spec fn polish_run(m: Model, s: Seq<State>, n: int) -> PolishRun
    decreases n,
{
    if n <= 0 {
        PolishRun { states: s, updates: 0, done: false }
    } else {
        let r = polish_run(m, s, n - 1);
        if r.done {
            r
        } else {
            let p = polish_pass(m, r.states, (n - 1) % 2 == 0, m.grid.len());
            PolishRun { states: p.0, updates: r.updates + p.1, done: p.1 == 0 }
        }
    }
}

/// A whole polish.
pub open spec fn polished(m: Model, s: Seq<State>) -> PolishRun {
    polish_run(m, s, TILE_MAX_ITER as int)
}

/// A pass visits states of the lattice.
pub proof fn lemma_visit(g: Grid, forward: bool, k: int)
    requires
        g.wf(),
        0 <= k < g.len(),
    ensures
        0 <= visit(g, forward, k) < g.len(),
        g.nt > 0,
        0 <= k / g.nt < g.nx * g.ny,
        0 <= k % g.nt < g.nt,
{
    assert(g.nt > 0) by (nonlinear_arith)
        requires
            0 < g.nx * g.ny * g.nt,
            0 <= g.nx,
            0 <= g.ny,
            0 <= g.nt,
    ;
    vstd::arithmetic::div_mod::lemma_fundamental_div_mod(k, g.nt);
    vstd::arithmetic::div_mod::lemma_mod_bound(k, g.nt);
    let c = k / g.nt;
    let n = g.nx * g.ny;
    assert(0 <= c < n) by (nonlinear_arith)
        requires
            k == g.nt * c + k % g.nt,
            0 <= k % g.nt < g.nt,
            0 <= k < n * g.nt,
    ;
    lemma_cell_states(g, n - 1 - c, k % g.nt);
}

proof fn lemma_pass_bound(m: Model, s: Seq<State>, forward: bool, k: int)
    requires
        0 <= k,
    ensures
        0 <= gs_pass(m, s, forward, k).updates <= k,
    decreases k,
{
    if k > 0 {
        lemma_pass_bound(m, s, forward, k - 1);
    }
}

proof fn lemma_run_bound(m: Model, watch: Option<Seq<int>>, s: Seq<State>, n: int)
    requires
        0 <= n,
        0 <= m.grid.len(),
    ensures
        0 <= gs_run(m, watch, s, n).updates <= n * m.grid.len(),
    decreases n,
{
    if n > 0 {
        lemma_run_bound(m, watch, s, n - 1);
        let r = gs_run(m, watch, s, n - 1);
        lemma_pass_bound(m, r.states, (n - 1) % 2 == 0, m.grid.len());
        assert(n * m.grid.len() == (n - 1) * m.grid.len() + m.grid.len()) by (nonlinear_arith);
    } else {
        assert(0 * m.grid.len() == 0);
    }
}

/// A solve counts at most `TILE_MAX_ITER` updates per state.
pub proof fn lemma_solved_bound(m: Model, watch: Option<Seq<int>>, s: Seq<State>)
    requires
        0 <= m.grid.len(),
    ensures
        0 <= gs_solved(m, watch, s).updates <= TILE_MAX_ITER * m.grid.len(),
{
    lemma_run_bound(m, watch, s, TILE_MAX_ITER as int);
}

proof fn lemma_done_stays(m: Model, watch: Option<Seq<int>>, s: Seq<State>, i: int, n: int)
    requires
        gs_run(m, watch, s, i).done,
        i <= n,
    ensures
        gs_run(m, watch, s, n) == gs_run(m, watch, s, i),
    decreases n - i,
{
    if i < n {
        lemma_done_stays(m, watch, s, i, n - 1);
    }
}

proof fn lemma_polish_pass_bound(m: Model, s: Seq<State>, forward: bool, k: int)
    requires
        0 <= k,
    ensures
        0 <= polish_pass(m, s, forward, k).1 <= k,
    decreases k,
{
    if k > 0 {
        lemma_polish_pass_bound(m, s, forward, k - 1);
    }
}

proof fn lemma_polish_run_bound(m: Model, s: Seq<State>, n: int)
    requires
        0 <= n,
        0 <= m.grid.len(),
    ensures
        0 <= polish_run(m, s, n).updates <= n * m.grid.len(),
    decreases n,
{
    if n > 0 {
        lemma_polish_run_bound(m, s, n - 1);
        let r = polish_run(m, s, n - 1);
        lemma_polish_pass_bound(m, r.states, (n - 1) % 2 == 0, m.grid.len());
        assert(n * m.grid.len() == (n - 1) * m.grid.len() + m.grid.len()) by (nonlinear_arith);
    } else {
        assert(0 * m.grid.len() == 0);
    }
}

/// A polish counts at most `TILE_MAX_ITER` updates per state.
pub proof fn lemma_polished_bound(m: Model, s: Seq<State>)
    requires
        0 <= m.grid.len(),
    ensures
        0 <= polished(m, s).updates <= TILE_MAX_ITER * m.grid.len(),
{
    lemma_polish_run_bound(m, s, TILE_MAX_ITER as int);
}

proof fn lemma_polish_done_stays(m: Model, s: Seq<State>, i: int, n: int)
    requires
        polish_run(m, s, i).done,
        i <= n,
    ensures
        polish_run(m, s, n) == polish_run(m, s, i),
    decreases n - i,
{
    if i < n {
        lemma_polish_done_stays(m, s, i, n - 1);
    }
}

fn gap_u64(a: u64, b: u64) -> (r: u64)
    ensures
        r == gap(a, b),
{
    if a >= b {
        a - b
    } else {
        b - a
    }
}

impl TileVi {
    /// The tile's model with the given actions.
    pub open spec fn model(self, actions: Seq<Action>) -> Model {
        model_of(actions, self.side, self.side, self.nt)
    }

    /// The state that a pass visits as its `k`-th.
    fn visited(&self, forward: bool, k: usize) -> (r: usize)
        requires
            self.wf(),
            k < self.states@.len(),
        ensures
            r == visit(self.grid(), forward, k as int),
            r < self.states@.len(),
    {
        proof {
            lemma_visit(self.grid(), forward, k as int);
        }
        if forward {
            return k;
        }
        let nt: usize = self.nt as usize;
        let ghost g = self.grid();
        let cells: usize = (self.side * self.side) as usize;
        proof {
            lemma_cell_states(g, cells - 1 - k as int / g.nt, k as int % g.nt);
        }
        (cells - 1 - k / nt) * nt + k % nt
    }

    /// One pass; returns how many values moved, and the largest change.
    fn run_pass(&mut self, actions: &Vec<Action>, forward: bool) -> (r: (u64, u64))
        requires
            old(self).wf(),
            old(self).model(actions@).wf(),
        ensures
            final(self).wf(),
            final(self).side == old(self).side,
            final(self).nt == old(self).nt,
            ({
                let m = old(self).model(actions@);
                let p = gs_pass(m, old(self).states@, forward, m.grid.len());
                &&& final(self).states@ == p.states
                &&& r.0 == p.updates
                &&& r.1 == p.change
            }),
            old(self).model(actions@).policy_ok(old(self).states@) ==> old(self).model(
                actions@,
            ).policy_ok(final(self).states@),
    {
        let ghost m = self.model(actions@);
        let ghost s0 = self.states@;
        let mut updates: u64 = 0;
        let mut change: u64 = 0;
        let n: usize = self.states.len();
        let mut k: usize = 0;
        while k < n
            invariant
                m == self.model(actions@),
                m.wf(),
                self.wf(),
                self.side == old(self).side,
                self.nt == old(self).nt,
                n == self.states@.len(),
                n == m.grid.len(),
                s0 == old(self).states@,
                k <= n,
                self.states@ == gs_pass(m, s0, forward, k as int).states,
                updates == gs_pass(m, s0, forward, k as int).updates,
                updates <= k,
                change == gs_pass(m, s0, forward, k as int).change,
                m.policy_ok(s0) ==> m.policy_ok(self.states@),
            decreases n - k,
        {
            let i: usize = self.visited(forward, k);
            let before: u64 = clamp_unreached(self.states[i].total_cost);
            let d: u64 = value_iteration_raw(
                &mut self.states,
                actions,
                i,
                self.side,
                self.side,
                self.nt,
            );
            if d > 0 {
                updates += 1;
            }
            let after: u64 = clamp_unreached(self.states[i].total_cost);
            let c: u64 = gap_u64(before, after);
            if c >= change {
                change = c;
            }
            k += 1;
        }
        (updates, change)
    }

    /// Moves the marks of the watched states along; returns whether none moved.
    fn move_marks(&self, watch: &Vec<usize>, marks: &mut Vec<u64>) -> (same: bool)
        requires
            self.wf(),
            forall|j: int| 0 <= j < watch@.len() ==> (#[trigger] watch@[j]) < self.states@.len(),
            old(marks)@.len() == watch@.len(),
        ensures
            final(marks)@ =~= moved_marks(
                self.states@,
                watch@.map_values(|i: usize| i as int),
                old(marks)@,
            ),
            same == (final(marks)@ =~= old(marks)@),
    {
        let ghost w = watch@.map_values(|i: usize| i as int);
        let ghost m0 = marks@;
        let mut same: bool = true;
        let mut k: usize = 0;
        while k < watch.len()
            invariant
                self.wf(),
                forall|j: int|
                    0 <= j < watch@.len() ==> (#[trigger] watch@[j]) < self.states@.len(),
                w == watch@.map_values(|i: usize| i as int),
                m0 == old(marks)@,
                k <= watch.len(),
                marks@.len() == watch@.len() == m0.len(),
                forall|j: int|
                    0 <= j < k ==> #[trigger] marks@[j] == moved_marks(self.states@, w, m0)[j],
                forall|j: int| k <= j < m0.len() ==> #[trigger] marks@[j] == m0[j],
                same <==> forall|j: int| 0 <= j < k ==> #[trigger] marks@[j] == m0[j],
            decreases watch.len() - k,
        {
            let v: u64 = clamp_unreached(self.states[watch[k]].total_cost);
            assert(w[k as int] == watch@[k as int]);
            if gap_u64(v, marks[k]) > TOL {
                marks.set(k, v);
                same = false;
                assert(marks@[k as int] != m0[k as int]);
            }
            k += 1;
        }
        same
    }

    /// Solves the tile by passes in alternating direction; returns how many values
    /// moved. With `watch`, only the watched states decide when to stop.
    pub fn solve_gs(&mut self, actions: &Vec<Action>, watch: Option<&Vec<usize>>) -> (updates: u64)
        requires
            old(self).wf(),
            old(self).model(actions@).wf(),
            watch matches Some(w) ==> forall|j: int|
                0 <= j < w@.len() ==> (#[trigger] w@[j]) < old(self).states@.len(),
        ensures
            final(self).wf(),
            final(self).side == old(self).side,
            final(self).nt == old(self).nt,
            ({
                let r = gs_solved(
                    old(self).model(actions@),
                    watch_indices(watch),
                    old(self).states@,
                );
                &&& final(self).states@ == r.states
                &&& updates == r.updates
            }),
            old(self).model(actions@).policy_ok(old(self).states@) ==> old(self).model(
                actions@,
            ).policy_ok(final(self).states@),
    {
        let ghost m = self.model(actions@);
        let ghost s0 = self.states@;
        let ghost wv = watch_indices(watch);
        let mut marks: Vec<u64> = Vec::new();
        if let Some(w) = watch {
            let mut k: usize = 0;
            while k < w.len()
                invariant
                    self.wf(),
                    s0 == self.states@,
                    watch == Some(w),
                    wv == watch_indices(watch),
                    forall|j: int| 0 <= j < w@.len() ==> (#[trigger] w@[j]) < s0.len(),
                    k <= w.len(),
                    marks@.len() == k,
                    forall|j: int| 0 <= j < k ==> #[trigger] marks@[j] == watched(s0, wv->0, j),
                decreases w.len() - k,
            {
                marks.push(clamp_unreached(self.states[w[k]].total_cost));
                k += 1;
            }
        }
        assert(marks@ =~= gs_start(wv, s0).marks);
        let mut stable: u32 = 0;
        let mut updates: u64 = 0;
        let mut pass: u32 = 0;
        while pass < TILE_MAX_ITER
            invariant
                m == self.model(actions@),
                m.wf(),
                self.wf(),
                self.side == old(self).side,
                self.nt == old(self).nt,
                s0 == old(self).states@,
                s0.len() == self.states@.len(),
                m == old(self).model(actions@),
                wv == watch_indices(watch),
                watch matches Some(w) ==> marks@.len() == w@.len() && forall|j: int|
                    0 <= j < w@.len() ==> (#[trigger] w@[j]) < self.states@.len(),
                pass <= TILE_MAX_ITER,
                stable < STABLE,
                gs_run(m, wv, s0, pass as int) == (GsRun {
                    states: self.states@,
                    updates: updates as int,
                    marks: marks@,
                    stable: stable as int,
                    done: false,
                }),
                m.policy_ok(s0) ==> m.policy_ok(self.states@),
            decreases TILE_MAX_ITER - pass,
        {
            proof {
                lemma_run_bound(m, wv, s0, pass + 1);
                assert((pass + 1) * m.grid.len() <= 64 * 0x7fff_ffff) by (nonlinear_arith)
                    requires
                        0 <= pass < 64,
                        0 <= m.grid.len() <= 0x7fff_ffff,
                ;
            }
            let ghost r0 = gs_run(m, wv, s0, pass as int);
            let (u, change) = self.run_pass(actions, pass % 2 == 0);
            let ghost p = gs_pass(m, r0.states, pass as int % 2 == 0, m.grid.len());
            assert(u == p.updates);
            updates += u;
            let ghost m0 = marks@;
            let stable_now: bool = match watch {
                Some(w) => {
                    let same: bool = self.move_marks(w, &mut marks);
                    let any: bool = any_reached(&marks);
                    assert(marks@ =~= moved_marks(p.states, wv->0, m0));
                    same && pass >= 2 && (any || change <= TOL)
                },
                None => change <= TOL,
            };
            assert(stable_now == quiet(wv, p, m0, pass as int));
            let ghost st0 = stable;
            if stable_now {
                stable += 1;
            } else {
                stable = 0;
            }
            pass += 1;
            proof {
                let r1 = gs_run(m, wv, s0, pass as int);
                assert(r1 == gs_step(m, wv, r0, pass - 1));
                assert(r1.marks =~= marks@);
                assert(r1 =~= (GsRun {
                    states: self.states@,
                    updates: updates as int,
                    marks: marks@,
                    stable: stable as int,
                    done: stable >= STABLE,
                }));
            }
            if stable >= STABLE {
                proof {
                    lemma_done_stays(m, wv, s0, pass as int, TILE_MAX_ITER as int);
                }
                return updates;
            }
        }
        updates
    }

    /// Lowers values to their Bellman values where those are lower, by passes in
    /// alternating direction; returns how many values dropped noticeably.
    pub fn polish_decrease_only(&mut self, actions: &Vec<Action>) -> (updates: u64)
        requires
            old(self).wf(),
            old(self).model(actions@).wf(),
        ensures
            final(self).wf(),
            final(self).side == old(self).side,
            final(self).nt == old(self).nt,
            ({
                let r = polished(old(self).model(actions@), old(self).states@);
                &&& final(self).states@ == r.states
                &&& updates == r.updates
            }),
            old(self).model(actions@).policy_ok(old(self).states@) ==> old(self).model(
                actions@,
            ).policy_ok(final(self).states@),
    {
        let ghost m = self.model(actions@);
        let ghost s0 = self.states@;
        let mut updates: u64 = 0;
        let mut pass: u32 = 0;
        while pass < TILE_MAX_ITER
            invariant
                m == self.model(actions@),
                m.wf(),
                self.wf(),
                self.side == old(self).side,
                self.nt == old(self).nt,
                s0 == old(self).states@,
                m == old(self).model(actions@),
                pass <= TILE_MAX_ITER,
                polish_run(m, s0, pass as int) == (PolishRun {
                    states: self.states@,
                    updates: updates as int,
                    done: false,
                }),
                m.policy_ok(s0) ==> m.policy_ok(self.states@),
            decreases TILE_MAX_ITER - pass,
        {
            let ghost r0 = polish_run(m, s0, pass as int);
            proof {
                lemma_polish_run_bound(m, s0, pass + 1);
                assert((pass + 1) * m.grid.len() <= 64 * 0x7fff_ffff) by (nonlinear_arith)
                    requires
                        0 <= pass < 64,
                        0 <= m.grid.len() <= 0x7fff_ffff,
                ;
            }
            let moved: u64 = self.run_polish(actions, pass % 2 == 0);
            assert(moved == polish_pass(m, r0.states, pass as int % 2 == 0, m.grid.len()).1);
            updates += moved;
            pass += 1;
            if moved == 0 {
                proof {
                    lemma_polish_done_stays(m, s0, pass as int, TILE_MAX_ITER as int);
                }
                return updates;
            }
        }
        updates
    }

    /// One polishing pass; returns how many values dropped noticeably.
    fn run_polish(&mut self, actions: &Vec<Action>, forward: bool) -> (moved: u64)
        requires
            old(self).wf(),
            old(self).model(actions@).wf(),
        ensures
            final(self).wf(),
            final(self).side == old(self).side,
            final(self).nt == old(self).nt,
            ({
                let m = old(self).model(actions@);
                let p = polish_pass(m, old(self).states@, forward, m.grid.len());
                &&& final(self).states@ == p.0
                &&& moved == p.1
            }),
            old(self).model(actions@).policy_ok(old(self).states@) ==> old(self).model(
                actions@,
            ).policy_ok(final(self).states@),
    {
        let ghost m = self.model(actions@);
        let ghost s0 = self.states@;
        let mut moved: u64 = 0;
        let n: usize = self.states.len();
        let mut k: usize = 0;
        while k < n
            invariant
                m == self.model(actions@),
                m.wf(),
                self.wf(),
                self.side == old(self).side,
                self.nt == old(self).nt,
                n == self.states@.len(),
                n == m.grid.len(),
                s0 == old(self).states@,
                k <= n,
                self.states@ == polish_pass(m, s0, forward, k as int).0,
                moved == polish_pass(m, s0, forward, k as int).1,
                moved <= k,
                m.policy_ok(s0) ==> m.policy_ok(self.states@),
            decreases n - k,
        {
            let i: usize = self.visited(forward, k);
            let ghost before = self.states@;
            proof {
                law_best_is_least(m, before, before[i as int], m.actions.len() as int);
                assert(m.grid.located_at(before[i as int], i as int));
            }
            if let Some((c, a)) = min_action_cost(
                &self.states,
                actions,
                i,
                self.side,
                self.side,
                self.nt,
            ) {
                let mut s: State = self.states[i];
                if c < s.total_cost {
                    if gap_u64(clamp_unreached(s.total_cost), clamp_unreached(c)) > TOL {
                        moved += 1;
                    }
                    s.total_cost = c;
                    s.optimal_action = a;
                    self.states.set(i, s);
                }
            }
            proof {
                assert(self.states@ =~= before.update(i as int, lowered(m, before, i as int)));
                assert forall|j: int| 0 <= j < self.states@.len() implies m.grid.located_at(
                    #[trigger] self.states@[j],
                    j,
                ) by {
                    assert(m.grid.located_at(before[j], j));
                }
                if m.policy_ok(before) {
                    assert forall|j: int| 0 <= j < self.states@.len() implies ((
                    #[trigger] self.states@[j]).optimal_action matches Some(a) ==> a
                        < m.actions.len()) by {
                        assert(before[j].optimal_action matches Some(a) ==> a < m.actions.len());
                    }
                }
            }
            k += 1;
        }
        moved
    }
}

/// The watched states as indices.
pub open spec fn watch_indices(watch: Option<&Vec<usize>>) -> Option<Seq<int>> {
    match watch {
        Some(w) => Some(w@.map_values(|i: usize| i as int)),
        None => None,
    }
}

/// Whether any of the marks is a real value.
fn any_reached(marks: &Vec<u64>) -> (r: bool)
    ensures
        r == exists|k: int| 0 <= k < marks@.len() && #[trigger] marks@[k] < REACH_THRESH,
{
    let mut k: usize = 0;
    while k < marks.len()
        invariant
            k <= marks.len(),
            forall|j: int| 0 <= j < k ==> #[trigger] marks@[j] >= REACH_THRESH,
        decreases marks.len() - k,
    {
        if marks[k] < REACH_THRESH {
            return true;
        }
        k += 1;
    }
    false
}

/// A pass in either direction visits every state exactly once. Backwards the cells come in
/// the opposite order, each with its headings in the usual one.
pub proof fn law_pass_visits_every_state_once(g: Grid, forward: bool, j: int, k: int)
    requires
        g.wf(),
        0 <= j < g.len(),
        0 <= k < g.len(),
    ensures
        0 <= visit(g, forward, k) < g.len(),
        visit(g, forward, j) == visit(g, forward, k) ==> j == k,
        visit(g, forward, visit(g, forward, k)) == k,
        forward ==> visit(g, forward, k) == k,
        !forward ==> visit(g, forward, k) / g.nt + k / g.nt == g.nx * g.ny - 1,
        !forward ==> visit(g, forward, k) % g.nt == k % g.nt,
{
    lemma_backwards(g, j);
    lemma_backwards(g, k);
    lemma_backwards(g, visit(g, false, k));
    lemma_backwards(g, visit(g, false, j));
}

proof fn lemma_backwards(g: Grid, k: int)
    requires
        g.wf(),
        0 <= k < g.len(),
    ensures
        0 <= visit(g, false, k) < g.len(),
        visit(g, false, k) / g.nt == g.nx * g.ny - 1 - k / g.nt,
        visit(g, false, k) % g.nt == k % g.nt,
        k == (k / g.nt) * g.nt + k % g.nt,
        visit(g, false, visit(g, false, k)) == k,
{
    let (c, nt) = (g.nx * g.ny, g.nt);
    assert(nt > 0) by (nonlinear_arith)
        requires
            0 < c * nt,
            0 <= nt,
    ;
    vstd::arithmetic::div_mod::lemma_fundamental_div_mod(k, nt);
    vstd::arithmetic::div_mod::lemma_mod_bound(k, nt);
    let (q, r) = (k / nt, k % nt);
    assert(0 <= q < c) by (nonlinear_arith)
        requires
            k == nt * q + r,
            0 <= r < nt,
            0 <= k < c * nt,
    ;
    assert(q * nt == nt * q) by (nonlinear_arith);
    let v = visit(g, false, k);
    vstd::arithmetic::div_mod::lemma_fundamental_div_mod_converse(v, nt, c - 1 - q, r);
    assert(0 <= v < c * nt) by (nonlinear_arith)
        requires
            v == (c - 1 - q) * nt + r,
            0 <= q < c,
            0 <= r < nt,
    ;
}

proof fn lemma_unvisited(m: Model, s: Seq<State>, forward: bool, k: int, i: int)
    requires
        m.grid.wf(),
        s.len() == m.grid.len(),
        0 <= k <= s.len(),
        0 <= i < s.len(),
        forall|j: int| 0 <= j < k ==> #[trigger] visit(m.grid, forward, j) != i,
    ensures
        gs_pass(m, s, forward, k).states.len() == s.len(),
        gs_pass(m, s, forward, k).states[i] == s[i],
    decreases k,
{
    if k > 0 {
        lemma_unvisited(m, s, forward, k - 1, i);
        law_pass_visits_every_state_once(m.grid, forward, k - 1, k - 1);
        assert(visit(m.grid, forward, k - 1) != i);
    }
}

/// A pass that changes nothing leaves every state with the value and the action that its
/// update gives.
pub proof fn law_quiet_pass_is_at_rest(m: Model, s: Seq<State>, forward: bool, k: int, j: int)
    requires
        m.grid.wf(),
        s.len() == m.grid.len(),
        0 <= j < k <= s.len(),
        gs_pass(m, s, forward, k).states == s,
    ensures
        m.updated(s, visit(m.grid, forward, j)) == s[visit(m.grid, forward, j)],
    decreases k,
{
    let p = gs_pass(m, s, forward, k - 1).states;
    let i = visit(m.grid, forward, k - 1);
    law_pass_visits_every_state_once(m.grid, forward, k - 1, k - 1);
    assert forall|l: int| 0 <= l < k - 1 implies #[trigger] visit(m.grid, forward, l) != i by {
        law_pass_visits_every_state_once(m.grid, forward, l, k - 1);
    }
    lemma_unvisited(m, s, forward, k - 1, i);
    assert forall|l: int| 0 <= l < s.len() implies p[l] == s[l] by {
        if l != i {
            assert(m.upd(p, i)[l] == p[l]);
        }
    }
    assert(p =~= s);
    if j < k - 1 {
        law_quiet_pass_is_at_rest(m, s, forward, k - 1, j);
    } else {
        assert(m.upd(s, i)[i] == m.updated(s, i));
    }
}

/// Passes go forwards and backwards in turn and end after two quiet ones in a row, not before.
pub proof fn law_two_quiet_passes_end(m: Model, watch: Option<Seq<int>>, r: GsRun, pass: int)
    requires
        !r.done,
        r.stable == 0,
        0 <= pass,
    ensures
        ({
            let b = gs_step(m, watch, r, pass);
            let c = gs_step(m, watch, b, pass + 1);
            let first = gs_pass(m, r.states, pass % 2 == 0, m.grid.len());
            let second = gs_pass(m, b.states, pass % 2 == 1, m.grid.len());
            &&& !b.done
            &&& c.states == second.states
            &&& c.done <==> quiet(watch, first, r.marks, pass) && quiet(
                watch,
                second,
                b.marks,
                pass + 1,
            )
            &&& c.done && watch is None ==> first.change <= 2 && second.change <= 2
        }),
{
    assert((pass + 1) % 2 == 0 <==> pass % 2 == 1);
}

/// The change of a pass is the largest change of any state in it.
pub proof fn law_change_is_the_largest(m: Model, s: Seq<State>, forward: bool, k: int, j: int)
    requires
        0 <= j < k,
    ensures
        ({
            let i = visit(m.grid, forward, j);
            let (old, new) = (
                gs_pass(m, s, forward, j).states[i],
                gs_pass(m, s, forward, j + 1).states[i],
            );
            let change = gs_pass(m, s, forward, k).change;
            &&& clamped(old.total_cost) - clamped(new.total_cost) <= change
            &&& clamped(new.total_cost) - clamped(old.total_cost) <= change
        }),
    decreases k,
{
    if j < k - 1 {
        law_change_is_the_largest(m, s, forward, k - 1, j);
    }
}

} // verus!
